use binary_search::ranks::{leftmost_rank, rightmost_rank};

#[test]
fn leftmost_rank_returns_zero_if_arr_is_empty() {
    let target = 4;
    let arr: [i32; 0] = [];
    let rank = leftmost_rank(&target, &arr);

    assert_eq!(rank, 0);
}

#[test]
fn leftmost_rank_returns_the_correct_leftmost_rank_if_target_in_arr() {
    let target = 4;
    let arr = [1, 2, 4, 4, 4, 5, 6, 7];
    let rank = leftmost_rank(&target, &arr);

    assert_eq!(rank, 2);
}

#[test]
fn leftmost_rank_returns_the_correct_leftmost_rank_if_target_not_in_arr() {
    let target = 3;
    let arr = [1, 2, 4, 4, 4, 5, 6, 7];
    let rank = leftmost_rank(&target, &arr);

    assert_eq!(rank, 2);
}

#[test]
fn rightmost_rank_returns_zero_if_arr_is_empty() {
    let target = 4;
    let arr: [i32; 0] = [];
    let rank = rightmost_rank(&target, &arr);

    assert_eq!(rank, 0);
}

#[test]
fn rightmost_rank_returns_the_correct_rightmost_rank_if_target_in_arr() {
    let target = 4;
    let arr = [1, 2, 4, 4, 4, 5, 6, 7];
    let rank = rightmost_rank(&target, &arr);

    assert_eq!(rank, 4);
}

#[test]
fn rightmost_rank_returns_the_correct_rightmost_rank_if_target_not_in_arr() {
    let target = 10;
    let arr = [1, 2, 4, 4, 4, 5, 6, 7];
    let rank = rightmost_rank(&target, &arr);

    assert_eq!(rank, 7);
}

#[test]
fn leftmost_rank_counts_the_elements_below_the_target() {
    let arr = [1, 2, 4, 4, 4, 5, 6, 7];

    assert_eq!(leftmost_rank(&0, &arr), 0);
    assert_eq!(leftmost_rank(&1, &arr), 0);
    assert_eq!(leftmost_rank(&2, &arr), 1);
    assert_eq!(leftmost_rank(&5, &arr), 5);
    assert_eq!(leftmost_rank(&7, &arr), 7);
    assert_eq!(leftmost_rank(&8, &arr), 8);
}

#[test]
fn rightmost_rank_is_the_last_index_not_above_the_target() {
    let arr = [1, 2, 4, 4, 4, 5, 6, 7];

    assert_eq!(rightmost_rank(&1, &arr), 0);
    assert_eq!(rightmost_rank(&2, &arr), 1);
    assert_eq!(rightmost_rank(&3, &arr), 1);
    assert_eq!(rightmost_rank(&5, &arr), 5);
    assert_eq!(rightmost_rank(&7, &arr), 7);
}

#[test]
fn ranks_of_a_one_element_arr() {
    let arr = [4];

    assert_eq!(leftmost_rank(&3, &arr), 0);
    assert_eq!(leftmost_rank(&4, &arr), 0);
    assert_eq!(leftmost_rank(&5, &arr), 1);
    assert_eq!(rightmost_rank(&4, &arr), 0);
    assert_eq!(rightmost_rank(&5, &arr), 0);
}

#[test]
fn ranks_enclose_exactly_the_elements_equal_to_the_target() {
    let arr = [1, 1, 2, 4, 4, 4, 5, 7, 7, 9];

    for target in 1..=10 {
        let left = leftmost_rank(&target, &arr);
        let right = rightmost_rank(&target, &arr);

        assert!(left <= right + 1);
        for (i, element) in arr.iter().enumerate() {
            assert_eq!(left <= i && i <= right, *element == target);
        }
        assert_eq!(left, arr.iter().filter(|e| **e < target).count());
        assert_eq!(right + 1, arr.iter().filter(|e| **e <= target).count());
    }
}
