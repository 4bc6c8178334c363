use algokit::linear_match::{all_accept, linear_match, linear_match_all, linear_matches, linear_matches_all};
use algokit::rle::RunLengthEncoding;
use algokit::shuffle::{random_index, shuffle, shuffle_with, shuffled, shuffled_string};
use algokit::text::{chars_of, deque_to_vec};
use std::collections::VecDeque;
use algokit::symbol::{BoundedAbove, BoundedBelow, Keyed};
use algokit::unique_count::{unique_count, UniqueCount};
use algokit::util::{Edge, ExpandRange};

#[test]
fn l_match() {
    let v: Vec<i32> = vec![1, 2, 3];
    assert_eq!(linear_match(&v, |&x: &i32| x == 2), Some(2));
    assert_eq!(linear_match(&v, |&x: &i32| x == 7), None);
    assert_eq!(linear_match(&v, |&x: &i32| x >= 2), Some(2));
}

#[test]
fn linear_matches_keeps_the_order() {
    let v: Vec<i32> = vec![5, 1, 4, 2, 3];
    assert_eq!(linear_matches(&v, |&x: &i32| x >= 3), vec![5, 4, 3]);
    assert_eq!(linear_matches(&v, |&x: &i32| x > 9), Vec::<i32>::new());
}

#[test]
fn matching_several_predicates() {
    let v: Vec<i32> = vec![5, 1, 4, 2, 3, 6];
    let even = |x: &i32| *x % 2 == 0;
    let big = |x: &i32| *x >= 3;
    let preds: Vec<Box<dyn Fn(&i32) -> bool>> = vec![Box::new(even), Box::new(big)];
    assert_eq!(linear_match_all(&v, &preds), Some(4));
    assert_eq!(linear_matches_all(&v, &preds), vec![4, 6]);
    assert!(all_accept(&preds, &8));
    assert!(!all_accept(&preds, &2));
    let none: Vec<Box<dyn Fn(&i32) -> bool>> = vec![];
    assert_eq!(linear_match_all(&v, &none), Some(5));
}

#[test]
fn unique_count_counts_in_ascending_order() {
    let v: Vec<u8> = vec![3, 1, 3, 2, 3, 1];
    assert_eq!(v.unique_count(), vec![(1, 2), (2, 1), (3, 3)]);
    assert_eq!(unique_count(&v), vec![(1, 2), (2, 1), (3, 3)]);
    let s: Vec<char> = "abracadabra".chars().collect();
    assert_eq!(
        s.unique_count(),
        vec![('a', 5), ('b', 2), ('c', 1), ('d', 1), ('r', 2)]
    );
    let empty: Vec<u8> = vec![];
    assert_eq!(empty.unique_count(), vec![]);
}

#[test]
fn expand_range_reads_both_ends() {
    assert_eq!(usize::expand_range(Edge::Included(2), Edge::Excluded(7), 0, 10), (2, 7));
    assert_eq!(usize::expand_range(Edge::Excluded(2), Edge::Included(7), 0, 10), (3, 8));
    assert_eq!(usize::expand_range(Edge::Unbounded, Edge::Unbounded, 0, 10), (0, 10));
    assert_eq!(i8::expand_range(Edge::Included(-3), Edge::Unbounded, -9, 9), (-3, 9));
}

#[test]
fn shuffling_keeps_the_elements() {
    let v: Vec<usize> = (0..100).collect();
    let mut w = shuffled(v.clone());
    assert_eq!(w.len(), 100);
    w.sort();
    assert_eq!(w, v);
    let mut x = v.clone();
    shuffle(&mut x);
    x.sort();
    assert_eq!(x, v);
    let mut one: Vec<u8> = vec![9];
    shuffle(&mut one);
    assert_eq!(one, vec![9]);
    let mut none: Vec<u8> = vec![];
    shuffle(&mut none);
    assert_eq!(none, Vec::<u8>::new());
}

#[test]
fn shuffling_does_reorder() {
    let v: Vec<usize> = (0..200).collect();
    assert_ne!(shuffled(v.clone()), v);
}

#[test]
fn keys_order_the_values() {
    assert!(3u8.less(&4));
    assert!(!4u8.less(&4));
    assert!(4u8.same(&4));
    assert!((-3i32).less(&2));
    assert!('a'.less(&'b'));
    assert_eq!(<u8 as BoundedBelow>::min_value(), 0);
    assert_eq!(<u8 as BoundedAbove>::max_value(), 255);
    assert_eq!(<i16 as BoundedBelow>::min_value(), i16::MIN);
    assert_eq!(<char as BoundedBelow>::min_value(), '\0');
    assert_eq!(<char as BoundedAbove>::max_value(), char::MAX);
}

#[test]
fn strings_and_deques_are_counted_like_vectors() {
    assert_eq!("aabccc".rle(), vec![('a', 2), ('b', 1), ('c', 3)]);
    assert_eq!(String::from("zz").rle(), vec![('z', 2)]);
    let d: VecDeque<u8> = VecDeque::from(vec![4, 4, 5]);
    assert_eq!(d.rle(), vec![(4, 2), (5, 1)]);
    assert_eq!("abracadabra".unique_count(), vec![('a', 5), ('b', 2), ('c', 1), ('d', 1), ('r', 2)]);
    assert_eq!(String::from("ba").unique_count(), vec![('a', 1), ('b', 1)]);
    assert_eq!(d.unique_count(), vec![(4, 2), (5, 1)]);
}

#[test]
fn a_shuffled_string_keeps_its_characters() {
    let s = "the quick brown fox jumps over the lazy dog";
    let t = shuffled_string(s);
    let mut a: Vec<char> = s.chars().collect();
    let mut b: Vec<char> = t.chars().collect();
    a.sort();
    b.sort();
    assert_eq!(a, b);
    assert_eq!(shuffled_string(""), "");
}

#[test]
fn characters_of_a_string() {
    assert_eq!(chars_of("héllo"), vec!['h', 'é', 'l', 'l', 'o']);
    assert_eq!(chars_of(""), Vec::<char>::new());
    let mut d = VecDeque::new();
    d.push_back(2u8);
    d.push_front(1u8);
    assert_eq!(deque_to_vec(&d), vec![1, 2]);
}

#[test]
fn shuffling_with_given_picks_is_repeatable() {
    let mut v: Vec<u8> = vec![1, 2, 3, 4];
    shuffle_with(&mut v, |i| i);
    assert_eq!(v, vec![1, 2, 3, 4]);
    shuffle_with(&mut v, |_| 0);
    assert_eq!(v, vec![2, 3, 4, 1]);
    let mut w: Vec<u8> = vec![1, 2, 3, 4];
    shuffle_with(&mut w, |i| i - 1);
    assert_eq!(w, vec![4, 1, 2, 3]);
}

#[test]
fn random_indices_stay_at_or_below_their_bound() {
    let draws: Vec<usize> = (0..200).map(|_| random_index(9)).collect();
    assert!(draws.iter().all(|&r| r <= 9));
    assert!(draws.iter().any(|&r| r != 9));
    assert!(draws.iter().any(|&r| r != 0));
    assert_eq!(random_index(0), 0);
}
