use binary_search::binary_search;
use binary_search::ranks::{leftmost_rank, rightmost_rank};
use binary_search::utils::is_sorted;
use binary_search::variations::{
    exponential_search, interpolation_search, linear_interpolation_search, UniformBinarySearch,
};

/// Sorted arrays with runs of equal elements, of every length up to `max_len`.
fn sorted_arrays(max_len: usize) -> Vec<Vec<u16>> {
    let mut state: u32 = 12345;
    let mut arrays = Vec::new();
    for len in 0..=max_len {
        let mut arr = Vec::new();
        let mut value: u16 = 3;
        for _ in 0..len {
            state = state.wrapping_mul(1103515245).wrapping_add(12345);
            value += ((state >> 16) % 3) as u16;
            arr.push(value);
        }
        arrays.push(arr);
    }
    arrays
}

fn assert_locates(arr: &[u16], target: u16, found: Option<usize>) {
    match found {
        Some(i) => assert_eq!(arr[i], target),
        None => assert!(!arr.contains(&target)),
    }
}

#[test]
fn generated_arrays_are_sorted() {
    for arr in sorted_arrays(40) {
        assert!(is_sorted(&arr));
    }
}

#[test]
fn every_search_returns_none_on_an_empty_arr() {
    let arr: [u16; 0] = [];
    let mut uniform_binary_search = UniformBinarySearch::new();

    for target in 0..5u16 {
        assert_eq!(binary_search(&target, &arr), None);
        assert_eq!(exponential_search(&target, &arr), None);
        assert_eq!(interpolation_search(&target, &arr, |_, _, _| 0), None);
        assert_eq!(linear_interpolation_search(&target, &arr), None);
        assert_eq!(uniform_binary_search.search(&target, &arr), None);
        assert_eq!(leftmost_rank(&target, &arr), 0);
        assert_eq!(rightmost_rank(&target, &arr), 0);
    }
}

#[test]
fn binary_search_locates_every_target() {
    for arr in sorted_arrays(40) {
        for target in 0..100u16 {
            assert_locates(&arr, target, binary_search(&target, &arr));
        }
    }
}

#[test]
fn exponential_search_locates_every_target() {
    for arr in sorted_arrays(40) {
        for target in 0..100u16 {
            assert_locates(&arr, target, exponential_search(&target, &arr));
        }
    }
}

#[test]
fn uniform_search_locates_every_target() {
    let mut uniform_binary_search = UniformBinarySearch::new();

    for arr in sorted_arrays(40) {
        for target in 0..100u16 {
            assert_locates(&arr, target, uniform_binary_search.search(&target, &arr));
        }
    }
}

#[test]
fn uniform_search_does_not_depend_on_the_cached_length() {
    let arrays = sorted_arrays(20);
    let mut shared = UniformBinarySearch::new();

    for target in 0..60u16 {
        for arr in arrays.iter().chain(arrays.iter().rev()) {
            let mut fresh = UniformBinarySearch::new();

            assert_eq!(shared.search(&target, arr), fresh.search(&target, arr));
        }
    }
}

#[test]
fn linear_interpolation_search_locates_what_lies_strictly_inside() {
    for arr in sorted_arrays(40) {
        for target in 0..100u16 {
            let found = linear_interpolation_search(&target, &arr);
            let inside = match (arr.first(), arr.last()) {
                (Some(first), Some(last)) => *first < target && target < *last,
                _ => false,
            };

            if inside {
                assert_locates(&arr, target, found);
            } else {
                assert_eq!(found, None);
            }
        }
    }
}

#[test]
fn interpolation_search_never_returns_a_wrong_index() {
    for arr in sorted_arrays(40) {
        for target in 0..100u16 {
            let halfway = |t: &u16, l: &u16, r: &u16| {
                let below = arr.iter().filter(|e| *e <= l).count();
                let above = arr.iter().filter(|e| *e >= r).count();
                let _ = t;
                (arr.len() - above - below + 1) / 2
            };
            match interpolation_search(&target, &arr, halfway) {
                Some(i) => assert_eq!(arr[i], target),
                None => {}
            }
            if !arr.contains(&target) {
                assert_eq!(interpolation_search(&target, &arr, halfway), None);
            }
        }
    }
}

#[test]
fn ranks_count_the_elements_before_the_target() {
    for arr in sorted_arrays(40) {
        for target in 0..100u16 {
            let below = arr.iter().filter(|e| **e < target).count();
            let at_most = arr.iter().filter(|e| **e <= target).count();

            assert_eq!(leftmost_rank(&target, &arr), below);
            if at_most > 0 {
                assert_eq!(rightmost_rank(&target, &arr), at_most - 1);
            }
        }
    }
}
