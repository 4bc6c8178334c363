use algokit::binary_search::range::binary_search_by as search_range;
use algokit::binary_search::slice::{BinarySearch, ExtBinarySearch};
use algokit::binary_search::Average;

#[test]
fn binary_search_basic() {
    assert_eq!(search_range(0usize, 10, |&x: &usize| x < 5), 4);
}

#[test]
fn binary_search_large() {
    assert_eq!(search_range(0usize, 1000000000, |&x: &usize| x * x < 300), 17); // 17 * 17 = 289 < 300
    assert_eq!(search_range(0usize, usize::MAX, |&x: &usize| x < 300), 299);
}

#[test]
fn binary_search_by() {
    let v: Vec<i32> = vec![0, 1, 1, 1, 2, 2, 3];

    assert_eq!(BinarySearch::binary_search_by(&v, |&x: &i32| x < 0), 0);
    assert_eq!(BinarySearch::binary_search_by(&v, |&x: &i32| x < 1), 1);
    assert_eq!(BinarySearch::binary_search_by(&v, |&x: &i32| x < 2), 4);
    assert_eq!(BinarySearch::binary_search_by(&v, |&x: &i32| x < 3), 6);
    assert_eq!(BinarySearch::binary_search_by(&v, |&x: &i32| x < 4), 7);
}

#[test]
fn binary_search() {
    let v: Vec<i32> = vec![0, 1, 1, 1, 2, 2, 3];

    assert_eq!(ExtBinarySearch::binary_search(&v, &0), Ok(0));
    assert_eq!(ExtBinarySearch::binary_search(&v, &1), Ok(1));
    assert_eq!(ExtBinarySearch::binary_search(&v, &2), Ok(4));
    assert_eq!(ExtBinarySearch::binary_search(&v, &3), Ok(6));
    assert_eq!(ExtBinarySearch::binary_search(&v, &4), Err(7));
}

#[test]
fn lower_bound() {
    let v: Vec<i32> = vec![0, 1, 1, 1, 2, 2, 3];

    assert_eq!(v.lower_bound(&0), 0);
    assert_eq!(v.lower_bound(&1), 1);
    assert_eq!(v.lower_bound(&2), 4);
    assert_eq!(v.lower_bound(&3), 6);
    assert_eq!(v.lower_bound(&4), 7);
}

#[test]
fn upper_bound() {
    let v: Vec<i32> = vec![0, 1, 1, 1, 2, 2, 3];

    assert_eq!(v.upper_bound(&0), 1);
    assert_eq!(v.upper_bound(&1), 4);
    assert_eq!(v.upper_bound(&2), 6);
    assert_eq!(v.upper_bound(&3), 7);
    assert_eq!(v.upper_bound(&4), 7);
}

#[test]
fn count_lasting_counts_equal_elements() {
    let v: Vec<i32> = vec![0, 1, 1, 1, 2, 2, 3];
    assert_eq!(v.count_lasting(&1), 3);
    assert_eq!(v.count_lasting(&3), 1);
    assert_eq!(v.count_lasting(&7), 0);
}

#[test]
fn binary_search_insertion_point_in_the_middle() {
    let v: Vec<u8> = vec![1, 3, 5];
    assert_eq!(ExtBinarySearch::binary_search(&v, &4), Err(2));
    assert_eq!(ExtBinarySearch::binary_search(&v, &0), Err(0));
    let empty: Vec<u8> = Vec::new();
    assert_eq!(ExtBinarySearch::binary_search(&empty, &4), Err(0));
    assert_eq!(BinarySearch::len(&v), 3);
    assert_eq!(BinarySearch::get(&v, 1), Some(&3));
    assert_eq!(BinarySearch::get(&v, 3), None);
}

#[test]
fn average_rounds_towards_the_left() {
    assert_eq!(<usize as Average>::average(&3, &8), 5);
    assert_eq!(<u8 as Average>::average(&254, &255), 254);
    assert!(<u8 as Average>::apart(&3, &5));
    assert!(!<u8 as Average>::apart(&3, &4));
}

#[test]
fn range_search_on_an_empty_range_returns_its_start() {
    assert_eq!(search_range(7usize, 7, |_: &usize| true), 7);
    assert_eq!(search_range(7usize, 8, |_: &usize| false), 7);
}
