use binary_search::variations::exponential_search;

#[test]
fn exponential_search_returns_none_for_empty_arr() {
    let target = 5;
    let arr = [];
    let found = exponential_search(&target, &arr);

    assert_eq!(found, None);
}

#[test]
fn exponential_search_returns_none_if_target_not_in_one_element_arr() {
    let target = 5;
    let arr = [4];
    let found = exponential_search(&target, &arr);

    assert_eq!(found, None);
}

#[test]
fn exponential_search_returns_some_index_if_target_in_one_element_arr() {
    let target = 5;
    let arr = [5];
    let found = exponential_search(&target, &arr);

    assert_eq!(found, Some(0));
}

#[test]
fn exponential_search_returns_none_if_target_not_in_arr() {
    let target = 12;
    let arr = [1, 2, 3, 4, 5, 6, 7, 8, 9, 10];
    let found = exponential_search(&target, &arr);

    assert_eq!(found, None);
}

#[test]
fn exponential_search_returns_some_index_if_target_in_arr() {
    let target = 5;
    let arr = [1, 2, 3, 4, 5, 6, 7, 8, 9, 10];
    let found = exponential_search(&target, &arr);

    assert_eq!(found, Some(4));
}

#[test]
fn exponential_search_finds_every_element() {
    let arr: Vec<u32> = (0..100).map(|i| 3 * i + 1).collect();

    for (i, element) in arr.iter().enumerate() {
        assert_eq!(exponential_search(element, &arr), Some(i));
    }
}

#[test]
fn exponential_search_returns_none_in_every_gap() {
    let arr: Vec<u32> = (0..100).map(|i| 3 * i + 1).collect();

    assert_eq!(exponential_search(&0, &arr), None);
    for element in arr.iter() {
        assert_eq!(exponential_search(&(element + 1), &arr), None);
        assert_eq!(exponential_search(&(element + 2), &arr), None);
    }
}

#[test]
fn exponential_search_halves_the_range_behind_the_bound() {
    // The bound stops at 2, so the range is [1, 2].
    let arr = [1, 2, 4, 4, 4, 5, 6, 7];

    assert_eq!(exponential_search(&4, &arr), Some(2));
    // The bound stops at 8, so the range is [4, 7] and its midpoint 5.
    assert_eq!(exponential_search(&5, &arr), Some(5));
    // The bound stops at 1, so the range is [0, 1].
    assert_eq!(exponential_search(&1, &arr), Some(0));
    assert_eq!(exponential_search(&2, &arr), Some(1));
    // The bound leaves the array at 8, so the range is [4, 7].
    assert_eq!(exponential_search(&7, &arr), Some(7));
}
