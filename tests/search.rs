use spell_checker::search::{
    binary_search_iterative, binary_search_recursive, linear_search_iterative,
    linear_search_recursive,
};

fn binary_helper<T>(arr: &[T], target: T, expected: Option<usize>)
where
    T: Ord,
{
    if arr.len() > 0 {
        for ind in 0..arr.len() - 1 {
            assert!(arr[ind] < arr[ind + 1]);
        }
    }

    let lin_res = binary_search_iterative(&arr, &target);
    let rec_res = binary_search_recursive(&arr, &target);

    assert_eq!(lin_res, rec_res);
    assert_eq!(rec_res, expected);
}

fn linear_helper<T>(arr: &[T], target: T, expected: Option<usize>)
where
    T: Ord,
{
    let lin_res = linear_search_iterative(&arr, &target);
    let rec_res = linear_search_recursive(&arr, &target);

    assert_eq!(lin_res, rec_res);
    assert_eq!(rec_res, expected);
}

#[test]
fn binary_search_test_empty_list() {
    binary_helper(&vec![], 30, None);
    binary_helper(&vec![], -50, None);
    binary_helper(&vec![], 0, None);
}

#[test]
fn binary_search_test_nonexistent_target() {
    binary_helper(&vec![1], 0, None);
    binary_helper(&vec![1, 2], -4, None);
    binary_helper(&vec![0, 1, 3], 2, None);
    binary_helper(&vec!["t", "te", "tes", "test"], "not there", None);
}

#[test]
fn binary_search_test_existent_target() {
    binary_helper(&vec![1], 1, Some(0));
    binary_helper(&vec![1, 2], 1, Some(0));
    binary_helper(&vec![1, 2], 2, Some(1));
    binary_helper(&vec![1, 2, 3], 1, Some(0));
    binary_helper(&vec![1, 2, 3], 2, Some(1));
    binary_helper(&vec![1, 2, 3], 3, Some(2));
    binary_helper(&vec!["t", "te", "tes", "test"], "t", Some(0));
    binary_helper(&vec!["t", "te", "tes", "test"], "te", Some(1));
    binary_helper(&vec!["t", "te", "tes", "test"], "tes", Some(2));
    binary_helper(&vec!["t", "te", "tes", "test"], "test", Some(3));
    binary_helper(&vec!["x", "y", "z"], "x", Some(0));
    binary_helper(&vec!["x", "y", "z"], "y", Some(1));
    binary_helper(&vec!["x", "y", "z"], "z", Some(2));
}

#[test]
fn linear_search_test_empty_list() {
    linear_helper(&vec![], 30, None);
    linear_helper(&vec![], -50, None);
    linear_helper(&vec![], 0, None);
}

#[test]
fn linear_search_test_nonexistent_target() {
    linear_helper(&vec![1], 0, None);
    linear_helper(&vec![1, 2], -4, None);
    linear_helper(&vec![0, 1, 3], 2, None);
    linear_helper(&vec!["test", "tes", "te", "t"], "not there", None);
}

#[test]
fn linear_search_test_existent_target() {
    linear_helper(&vec![1], 1, Some(0));
    linear_helper(&vec![1, 2], 1, Some(0));
    linear_helper(&vec![1, 2], 2, Some(1));
    linear_helper(&vec![1, 2, 3], 1, Some(0));
    linear_helper(&vec![1, 2, 3], 2, Some(1));
    linear_helper(&vec![1, 2, 3], 3, Some(2));
    linear_helper(&vec!["test", "tes", "te", "t"], "test", Some(0));
    linear_helper(&vec!["test", "tes", "te", "t"], "tes", Some(1));
    linear_helper(&vec!["test", "tes", "te", "t"], "te", Some(2));
    linear_helper(&vec!["test", "tes", "te", "t"], "t", Some(3));
}

#[test]
fn linear_search_finds_first_match() {
    linear_helper(&vec![4, 7, 4, 7], 7, Some(1));
    linear_helper(&vec![4, 7, 4, 7], 4, Some(0));
}

#[test]
fn binary_searches_agree_on_unsorted_input() {
    let arr = vec![5, 1, 4, 2, 3];
    for target in 0..7 {
        assert_eq!(
            binary_search_iterative(&arr, &target),
            binary_search_recursive(&arr, &target)
        );
    }
    assert_eq!(binary_search_iterative(&arr, &4), Some(2));
}
