use algokit::certify::{inverse, is_suffix_array_of};
use algokit::naive::sort_suffixes;
use algokit::sais::{
    bucket_bounds, classify, induced_order, induced_sort, lms_at, lms_positions, lms_seeds, sais,
};
use algokit::suffix_array::{DefaultSort, SaIs, Sort, SuffixArray};
use rand::rngs::StdRng;
use rand::seq::SliceRandom;
use rand::{Rng, SeedableRng};

fn chars(s: &str) -> Vec<char> {
    s.chars().collect()
}

#[test]
fn induced_order_of_abracadabra() {
    let s = chars("abracadabra");
    assert_eq!(
        induced_order(&s, None),
        vec![11, 10, 7, 0, 3, 5, 8, 1, 4, 6, 9, 2]
    );
}

#[test]
fn induced_order_of_the_empty_sequence() {
    let s: Vec<u8> = Vec::new();
    assert_eq!(induced_order(&s, None), vec![0]);
    assert_eq!(sort_suffixes(&s), vec![0]);
    assert_eq!(<SaIs as Sort<u8>>::sort(&s), vec![0]);
}

#[test]
fn induced_order_of_one_symbol() {
    let s: Vec<u8> = vec![0];
    assert_eq!(induced_order(&s, None), vec![1, 0]);
    let s: Vec<u8> = vec![0, 0, 0, 0];
    assert_eq!(induced_order(&s, None), vec![4, 3, 2, 1, 0]);
}

#[test]
fn induced_order_agrees_with_comparison_sort_on_random_input() {
    let mut rng = StdRng::seed_from_u64(20240229);
    for round in 0..400 {
        let len = rng.gen_range(0..60);
        let alphabet: u8 = if round % 3 == 0 { 2 } else if round % 3 == 1 { 4 } else { 200 };
        let s: Vec<u8> = (0..len).map(|_| rng.gen_range(0..alphabet)).collect();
        let expected = sort_suffixes(&s);
        assert_eq!(induced_order(&s, None), expected.clone());
        assert_eq!(<SaIs as Sort<u8>>::sort(&s), expected);
        assert_eq!(<DefaultSort as Sort<u8>>::sort(&s), expected);
    }
}

#[test]
fn induced_order_agrees_with_comparison_sort_on_repetitive_input() {
    let inputs = [
        "aaaaaaaaaaaaaaaa",
        "abababababababab",
        "mmiissiissiippii",
        "mississippi",
        "banana",
        "abcabcabcabcabcabc",
        "zyxwvutsrqponmlkjihgfedcba",
        "aabaabaabaabaabaab",
        "cabbage",
        "baabaabac",
    ];
    for text in inputs {
        let s = chars(text);
        let expected = sort_suffixes(&s);
        assert_eq!(induced_order(&s, None), expected, "{}", text);
    }
}

#[test]
fn induced_order_does_not_depend_on_the_seed_order() {
    let mut rng = StdRng::seed_from_u64(7);
    for _ in 0..100 {
        let len = rng.gen_range(1..50);
        let s: Vec<u8> = (0..len).map(|_| rng.gen_range(0..3)).collect();
        let expected = sort_suffixes(&s);
        let seeds = lms_seeds(&s);
        let mut first = seeds.clone();
        first.shuffle(&mut rng);
        let mut second = seeds.clone();
        second.reverse();
        assert_eq!(induced_order(&s, Some(first.clone())), expected.clone());
        assert_eq!(induced_order(&s, Some(second.clone())), expected.clone());
        assert_eq!(SaIs::sort_with_seed(&s, Some(first)), expected);
        assert_eq!(SaIs::sort_with_seed(&s, Some(second)), expected);
    }
}

#[test]
fn a_seed_that_is_no_seed_still_gives_the_suffix_array() {
    let s = chars("abracadabra");
    let expected = vec![11, 10, 7, 0, 3, 5, 8, 1, 4, 6, 9, 2];
    assert_eq!(SaIs::sort_with_seed(&s, Some(vec![])), expected);
    assert_eq!(SaIs::sort_with_seed(&s, Some(vec![99, 1, 1, 1])), expected);
    assert_eq!(SaIs::sort_with_seed(&s, Some(vec![0, 1, 2, 3, 4, 5])), expected);
}

#[test]
fn constructing_twice_gives_the_same_order() {
    let s = chars("mmiissiissiippii");
    let first = SuffixArray::<char, SaIs>::new(&s);
    let second = SuffixArray::<char, SaIs>::new(&s);
    let third = SuffixArray::<char, DefaultSort>::new(&s);
    assert_eq!(first.suffix_array(), second.suffix_array());
    assert_eq!(first.suffix_array(), third.suffix_array());
}

#[test]
fn classify_marks_l_and_s_positions() {
    // codes of "banana" with the sentinel: b=2 a=1 n=3, then 0
    let s: Vec<usize> = vec![2, 1, 3, 1, 3, 1, 0];
    let types = classify(&s);
    assert_eq!(types, vec![true, false, true, false, true, true, false]);
    assert_eq!(lms_positions(&types), vec![1, 3, 6]);
    assert!(lms_at(&types, 6));
    assert!(!lms_at(&types, 0));
    assert!(!lms_at(&types, 5));
    assert_eq!(sais(&s, 4, None), vec![6, 5, 3, 1, 0, 4, 2]);
}

#[test]
fn a_code_outside_the_alphabet_has_no_bucket() {
    let s: Vec<usize> = vec![2, 1, 3, 1, 3, 1, 0];
    assert_eq!(bucket_bounds(&s, 3), None);
    assert_eq!(bucket_bounds(&s, 4), Some(vec![0, 1, 4, 5, 7]));
    assert_eq!(bucket_bounds(&s, 5), Some(vec![0, 1, 4, 5, 7, 7]));
    // the suffixes are sorted all the same
    assert_eq!(sais(&s, 3, None), vec![6, 5, 3, 1, 0, 4, 2]);
}

/// the working sequence of `s`: each byte one up, then the sentinel
fn working(s: &[u8]) -> Vec<usize> {
    let mut w: Vec<usize> = s.iter().map(|&c| c as usize + 1).collect();
    w.push(0);
    w
}

#[test]
fn one_round_of_induced_sorting_on_banana() {
    let w: Vec<usize> = vec![2, 1, 3, 1, 3, 1, 0];
    let types = classify(&w);
    let bounds = bucket_bounds(&w, 4).unwrap();
    // seeded with the LMS positions in the order of their suffixes
    assert_eq!(
        induced_sort(&w, &types, &vec![6, 3, 1], &bounds, 4),
        Some(vec![6, 5, 3, 1, 0, 4, 2])
    );
    // seeded in another order: here the sentinel alone settles the order
    assert_eq!(
        induced_sort(&w, &types, &vec![6, 1, 3], &bounds, 4),
        Some(vec![6, 5, 3, 1, 0, 4, 2])
    );
    // seeded with the sentinel alone, the other seeds are missed
    assert_eq!(
        induced_sort(&w, &types, &vec![6], &bounds, 4),
        Some(vec![6, 5, 3, 4])
    );
    // without seeds nothing is induced
    assert_eq!(induced_sort(&w, &types, &vec![], &bounds, 4), Some(vec![]));
    // a seed that is no position, and more seeds than a bucket holds
    assert_eq!(induced_sort(&w, &types, &vec![7], &bounds, 4), None);
    assert_eq!(induced_sort(&w, &types, &vec![6, 6], &bounds, 4), None);
}

#[test]
fn the_second_round_gives_the_suffix_array_from_sorted_seeds() {
    let mut rng = StdRng::seed_from_u64(99);
    for round in 0..300 {
        let len = rng.gen_range(0..80);
        let alphabet: u8 = if round % 2 == 0 { 2 } else { 5 };
        let s: Vec<u8> = (0..len).map(|_| rng.gen_range(0..alphabet)).collect();
        let expected = sort_suffixes(&s);
        let w = working(&s);
        let types = classify(&w);
        let bounds = bucket_bounds(&w, 257).unwrap();
        let seed: Vec<usize> = expected
            .iter()
            .copied()
            .filter(|&x| lms_at(&types, x))
            .collect();
        assert_eq!(
            induced_sort(&w, &types, &seed, &bounds, 257),
            Some(expected)
        );
    }
}

#[test]
fn the_first_round_puts_the_seeds_in_the_order_of_their_substrings() {
    let mut rng = StdRng::seed_from_u64(5);
    for _ in 0..200 {
        let len = rng.gen_range(1..60);
        let s: Vec<u8> = (0..len).map(|_| rng.gen_range(0..4)).collect();
        let w = working(&s);
        let types = classify(&w);
        let bounds = bucket_bounds(&w, 257).unwrap();
        let mut seed = lms_positions(&types);
        seed.shuffle(&mut rng);
        let round = induced_sort(&w, &types, &seed, &bounds, 257).unwrap();
        let found: Vec<usize> = round
            .iter()
            .copied()
            .filter(|&x| lms_at(&types, x))
            .collect();
        let substring = |x: usize| -> Vec<usize> {
            let mut end = x + 1;
            while end < w.len() && !lms_at(&types, end) {
                end += 1;
            }
            w[x..(end + 1).min(w.len())].to_vec()
        };
        let mut by_position = found.clone();
        by_position.sort();
        assert_eq!(by_position, lms_positions(&types));
        for pair in found.windows(2) {
            let a = substring(pair[0]);
            let b = substring(pair[1]);
            // where one is the start of the other, their types decide
            if !a.starts_with(&b) && !b.starts_with(&a) {
                assert!(a < b);
            }
        }
    }
}

#[test]
fn the_check_accepts_the_suffix_array_only() {
    let s = chars("banana");
    assert!(is_suffix_array_of(&s, &vec![6, 5, 3, 1, 0, 4, 2]));
    assert!(!is_suffix_array_of(&s, &vec![6, 5, 1, 3, 0, 4, 2]));
    assert!(!is_suffix_array_of(&s, &vec![6, 5, 3, 1, 0, 4]));
    assert!(!is_suffix_array_of(&s, &vec![6, 5, 3, 1, 0, 4, 4]));
    assert!(!is_suffix_array_of(&s, &vec![6, 5, 3, 1, 0, 4, 7]));
    assert!(!is_suffix_array_of(&s, &vec![5, 6, 3, 1, 0, 4, 2]));
    assert!(!is_suffix_array_of(&s, &vec![]));
}

#[test]
fn inverse_of_a_permutation() {
    assert_eq!(inverse(&vec![2, 0, 1]), Some(vec![1, 2, 0]));
    assert_eq!(inverse(&vec![2, 0, 2]), None);
    assert_eq!(inverse(&vec![0, 3, 1]), None);
    assert_eq!(inverse(&vec![]), Some(vec![]));
}
