use binary_search::binary_search;

#[test]
fn binary_search_returns_none_for_empty_arr() {
    let target = 5;
    let arr = [];
    let found = binary_search(&target, &arr);

    assert_eq!(found, None);
}

#[test]
fn binary_search_returns_none_if_target_not_in_one_element_arr() {
    let target = 5;
    let arr = [4];
    let found = binary_search(&target, &arr);

    assert_eq!(found, None);
}

#[test]
fn binary_search_returns_some_index_if_target_in_one_element_arr() {
    let target = 5;
    let arr = [5];
    let found = binary_search(&target, &arr);

    assert_eq!(found, Some(0));
}

#[test]
fn binary_search_returns_none_if_target_not_in_arr() {
    let target = 12;
    let arr = [1, 2, 3, 4, 5, 6, 7, 8, 9, 10];
    let found = binary_search(&target, &arr);

    assert_eq!(found, None);
}

#[test]
fn binary_search_returns_some_index_if_target_in_arr() {
    let target = 5;
    let arr = [1, 2, 3, 4, 5, 6, 7, 8, 9, 10];
    let found = binary_search(&target, &arr);

    assert_eq!(found, Some(4));
}

#[test]
fn binary_search_returns_none_below_and_between() {
    let arr = [10, 20, 30, 40];

    assert_eq!(binary_search(&5, &arr), None);
    assert_eq!(binary_search(&15, &arr), None);
    assert_eq!(binary_search(&35, &arr), None);
    assert_eq!(binary_search(&45, &arr), None);
    assert_eq!(binary_search(&3, &[4]), None);
}

#[test]
fn binary_search_takes_the_duplicate_that_halving_reaches_first() {
    let arr = [1, 2, 4, 4, 4, 5, 6, 7];

    // Midpoints: 3.
    assert_eq!(binary_search(&4, &arr), Some(3));
    // Midpoints: 3, 1.
    assert_eq!(binary_search(&2, &arr), Some(1));
    // Midpoints: 3, 5, 6, 7.
    assert_eq!(binary_search(&7, &arr), Some(7));
    assert_eq!(binary_search(&4, &[4, 4]), Some(0));
}

#[test]
fn binary_search_finds_every_element() {
    let arr: Vec<u32> = (0..100).map(|i| 3 * i + 1).collect();

    for (i, element) in arr.iter().enumerate() {
        assert_eq!(binary_search(element, &arr), Some(i));
        assert_eq!(binary_search(&(element + 1), &arr), None);
    }
    assert_eq!(binary_search(&0, &arr), None);
}
