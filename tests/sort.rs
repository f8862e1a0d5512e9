use spell_checker::cases::{
    shared_random_cases, shared_reverse_sorted_cases, shared_sorted_cases, shared_special_cases,
};
use spell_checker::sort::{insertion_sort, merge_sort, quick_sort, selection_sort};

fn merge_helper(cases: Vec<Vec<i32>>) {
    for case in cases {
        let real = case.clone();
        let mut expected = case.clone();
        let real = merge_sort(real);
        expected.sort();
        assert_eq!(real, expected);
    }
}

fn quick_helper(cases: Vec<Vec<i32>>) {
    for case in cases {
        let mut real = case.clone();
        let mut expected = case.clone();
        quick_sort(&mut real);
        expected.sort();
        assert_eq!(real, expected);
    }
}

fn selection_helper(cases: Vec<Vec<i32>>) {
    for case in cases {
        let mut real = case.clone();
        let mut expected = case.clone();
        expected.sort();
        selection_sort(&mut real);
        assert_eq!(real, expected);
    }
}

fn insertion_helper(cases: Vec<Vec<i32>>) {
    for case in cases {
        let mut real = case.clone();
        let mut expected = case.clone();
        expected.sort();
        insertion_sort(&mut real);
        assert_eq!(real, expected);
    }
}

#[test]
fn merge_sort_special_cases() {
    merge_helper(vec![vec![], vec![1]])
}

#[test]
fn merge_sort_random_cases() {
    merge_helper(vec![
        vec![1, 3, 2],
        vec![2, 3, 1],
        vec![3, 3, 3],
        vec![3, 3, 2],
        vec![593, 52, 0, 40104, 20, 19, 2, 30, 8],
        vec![5, 23, 6, 8, 9, 0, 2],
    ])
}

#[test]
fn merge_sort_sorted_cases() {
    merge_helper(vec![
        vec![1, 2],
        vec![1, 2, 3],
        vec![0, 2, 5, 6, 8, 9, 23],
        vec![-503, 1, 203, 585, 900],
    ]);
}

#[test]
fn merge_sort_reverse_sorted_cases() {
    merge_helper(vec![
        vec![2, 1],
        vec![3, 2, 1],
        vec![5, 4, 3, 2, 1, 0, -40],
        vec![23, 9, 8, 6, 5, 2, 0],
    ]);
}

#[test]
fn merge_sort_test_big_sorted() {
    let big_number = (2 as i32).pow(20);
    let mut arr: Vec<i32> = Vec::with_capacity(big_number as usize);
    for i in 0..big_number {
        arr.push(i);
    }
    merge_helper(vec![arr]);
}

#[test]
fn merge_sort_test_big_rev_sorted() {
    let big_number = (2 as i32).pow(25);
    let mut arr: Vec<i32> = Vec::with_capacity(big_number as usize);
    for i in big_number..0 {
        arr.push(i);
    }
    merge_helper(vec![arr]);
}

#[test]
fn quick_sort_special_cases() {
    quick_helper(vec![vec![], vec![1]])
}

#[test]
fn quick_sort_random_cases() {
    quick_helper(vec![
        vec![1, 3, 2],
        vec![2, 3, 1],
        vec![3, 3, 3],
        vec![3, 3, 2],
        vec![593, 52, 0, 40104, 20, 19, 2, 30, 8],
        vec![5, 23, 6, 8, 9, 0, 2],
    ])
}

#[test]
fn quick_sort_sorted_cases() {
    quick_helper(vec![
        vec![1, 2],
        vec![1, 2, 3],
        vec![0, 2, 5, 6, 8, 9, 23],
        vec![-503, 1, 203, 585, 900],
    ]);
}

#[test]
fn quick_sort_reverse_sorted_cases() {
    quick_helper(vec![
        vec![2, 1],
        vec![3, 2, 1],
        vec![5, 4, 3, 2, 1, 0, -40],
        vec![23, 9, 8, 6, 5, 2, 0],
    ]);
}

#[test]
fn quick_sort_test_big_sorted() {
    let big_number = (2 as i32).pow(9);
    let mut arr: Vec<i32> = Vec::with_capacity(big_number as usize);
    for i in 0..big_number {
        arr.push(i);
    }
    quick_helper(vec![arr]);
}

#[test]
fn quick_sort_test_big_rev_sorted() {
    let big_number = (2 as i32).pow(25);
    let mut arr: Vec<i32> = Vec::with_capacity(big_number as usize);
    for i in big_number..0 {
        arr.push(i);
    }
    quick_helper(vec![arr]);
}

#[test]
fn tests_special_cases() {
    selection_helper(shared_special_cases())
}

#[test]
fn tests_random_cases() {
    selection_helper(shared_random_cases())
}

#[test]
fn tests_sorted_cases() {
    selection_helper(shared_sorted_cases());
}

#[test]
fn tests_reverse_sorted_cases() {
    selection_helper(shared_reverse_sorted_cases());
}

#[test]
fn insertion_sort_all_cases() {
    insertion_helper(shared_special_cases());
    insertion_helper(shared_random_cases());
    insertion_helper(shared_sorted_cases());
    insertion_helper(shared_reverse_sorted_cases());
}

#[test]
fn sorts_agree_on_strings() {
    let words = vec!["pear", "apple", "fig", "apple", "banana"];
    let mut a = words.clone();
    let mut b = words.clone();
    let mut c = words.clone();
    selection_sort(&mut a);
    insertion_sort(&mut b);
    quick_sort(&mut c);
    let d = merge_sort(words.clone());
    let expected = vec!["apple", "apple", "banana", "fig", "pear"];
    assert_eq!(a, expected);
    assert_eq!(b, expected);
    assert_eq!(c, expected);
    assert_eq!(d, expected);
}

#[test]
fn sample_cases_hold_their_values() {
    assert_eq!(shared_special_cases(), vec![vec![], vec![1]]);
    assert_eq!(shared_sorted_cases()[3], vec![-503, 1, 203, 585, 900]);
    assert_eq!(shared_reverse_sorted_cases()[2], vec![5, 4, 3, 2, 1, 0, -40]);
    assert_eq!(shared_random_cases().len(), 6);
}
