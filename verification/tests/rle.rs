use algokit::rle::{rle, RunLengthEncoding};

#[test]
fn lib_test_rle() {
    let v: Vec<i32> = vec![1, 2, 2, 3, 3, 3];
    assert_eq!(v.rle(), vec![(1, 1), (2, 2), (3, 3)]);
}

#[test]
fn rle_of_a_single_run() {
    let v: Vec<u8> = vec![7, 7, 7, 7];
    assert_eq!(rle(&v), vec![(7, 4)]);
    let w: Vec<char> = vec!['a'];
    assert_eq!(rle(&w), vec![('a', 1)]);
}

#[test]
fn rle_keeps_separate_runs_of_one_value() {
    let v: Vec<u8> = vec![1, 1, 2, 1];
    assert_eq!(rle(&v), vec![(1, 2), (2, 1), (1, 1)]);
    let s: &[u8] = &v;
    assert_eq!(s.rle(), vec![(1, 2), (2, 1), (1, 1)]);
}
