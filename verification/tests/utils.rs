use binary_search::utils::is_sorted;

#[test]
fn is_sorted_returns_true_for_empty_arr() {
    let arr: [i32; 0] = [];
    let result = is_sorted(&arr);

    assert_eq!(result, true);
}

#[test]
fn is_sorted_returns_true_for_one_element_arr() {
    let arr = [1];
    let result = is_sorted(&arr);

    assert_eq!(result, true);
}

#[test]
fn is_sorted_returns_true_for_sorted_arr() {
    let arr = [1, 2, 3, 4, 5, 6, 7, 8, 9, 10];
    let result = is_sorted(&arr);

    assert_eq!(result, true);
}

#[test]
fn is_sorted_returns_false_for_unsorted_arr() {
    let arr = [1, 2, 3, 5, 4, 6, 7, 8, 9, 10];
    let result = is_sorted(&arr);

    assert_eq!(result, false);
}

#[test]
fn is_sorted_accepts_equal_neighbours() {
    assert_eq!(is_sorted(&[1, 1, 2, 2, 2, 3]), true);
}

#[test]
fn is_sorted_rejects_a_descent_at_either_end() {
    assert_eq!(is_sorted(&[2, 1, 3, 4]), false);
    assert_eq!(is_sorted(&[1, 2, 4, 3]), false);
    assert_eq!(is_sorted(&[2, 1]), false);
}

#[test]
fn is_sorted_returns_false_for_a_descending_pair_in_the_middle() {
    assert_eq!(is_sorted(&[1, 3, 2, 5]), false);
}
