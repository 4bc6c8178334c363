use algokit::suffix_array::{DefaultSort, SaIs, SuffixArray};

#[test]
fn basic() {
    let s = "abracadabra".to_string();
    let suffix_array = SuffixArray::<char, DefaultSort>::from_str(&s);
    assert_eq!(suffix_array.find("br"), vec![8, 1]);
    assert_eq!(suffix_array.find("abra"), vec![7, 0]);
    assert_eq!(suffix_array.find("r"), vec![9, 2]);

    let s = "mmiissiissiippii".to_string();
    let suffix_array = SuffixArray::<char, DefaultSort>::from_str(&s);
    for i in 0..s.len() - 1 {
        assert!(suffix_array.suffix_nth(i) < suffix_array.suffix_nth(i + 1));
    }
}

#[test]
fn sa_is() {
    let s = "abracadabra".to_string();
    let suffix_array = SuffixArray::<char, SaIs>::from_str(&s);
    assert_eq!(suffix_array.find("br"), vec![8, 1]);
    assert_eq!(suffix_array.find("abra"), vec![7, 0]);
    assert_eq!(suffix_array.find("r"), vec![9, 2]);

    let s = "mmiissiissiippii".to_string();
    let suffix_array = SuffixArray::<char, SaIs>::from_str(&s);
    for i in 0..s.len() - 1 {
        assert!(suffix_array.suffix_nth(i) < suffix_array.suffix_nth(i + 1));
    }
}

#[test]
fn find_gives_every_occurrence_and_nothing_else() {
    let s = "abracadabra";
    assert_eq!(s.len(), 11);
    let sa = SuffixArray::<char, SaIs>::from_str(s);
    let mut hits = sa.find("abra").to_vec();
    hits.sort();
    assert_eq!(hits, vec![0, 7]);
    let mut hits = sa.find("r").to_vec();
    hits.sort();
    assert_eq!(hits, vec![2, 9]);
    assert_eq!(sa.find("zzz"), vec![]);
    assert_eq!(sa.find("bb"), vec![]);
    assert_eq!(sa.find("abracadabraa"), vec![]);
    assert_eq!(sa.find("abracadabra"), vec![0]);
    assert_eq!(sa.find("a"), vec![10, 7, 0, 3, 5]);
    assert_eq!(sa.find("ca"), vec![4]);
    assert_eq!(sa.find(String::from("dab")), vec![6]);
    assert_eq!(sa.find(&String::from("dab")), vec![6]);
}

#[test]
fn the_empty_pattern_occurs_at_every_offset() {
    let sa = SuffixArray::<char, DefaultSort>::from_str("aba");
    assert_eq!(sa.find(""), vec![3, 2, 0, 1]);
    let empty = SuffixArray::<char, DefaultSort>::from_str("");
    assert_eq!(empty.find(""), vec![0]);
    assert_eq!(empty.find("a"), vec![]);
    assert_eq!(empty.len(), 1);
}

#[test]
fn the_order_of_abracadabra() {
    let s = "abracadabra";
    let sa = SuffixArray::<char, SaIs>::from_str(s);
    assert_eq!(sa.len(), 12);
    assert_eq!(
        sa.suffix_array(),
        vec![
            11, // ""
            10, // "a"
            7,  // "abra"
            0,  // "abracadabra"
            3,  // "acadabra"
            5,  // "adabra"
            8,  // "bra"
            1,  // "bracadabra"
            4,  // "cadabra"
            6,  // "dabra"
            9,  // "ra"
            2,  // "racadabra"
        ]
    );
    assert_eq!(sa.suffix_nth(0), []);
    assert_eq!(sa.suffix_nth(2), ['a', 'b', 'r', 'a']);
    assert_eq!(sa.raw().len(), 11);
}

#[test]
fn suffix_arrays_of_numbers() {
    let v: Vec<u32> = vec![3, 1, 2, 1, 2, 0];
    let sa = SuffixArray::<u32, SaIs>::new(&v);
    assert_eq!(sa.suffix_array(), vec![6, 5, 3, 1, 4, 2, 0]);
    assert_eq!(sa.find(vec![1, 2]), vec![3, 1]);
    let pattern: &[u32] = &[2];
    assert_eq!(sa.find(pattern), vec![4, 2]);
    assert_eq!(sa.find(&vec![0u32]), vec![5]);
    let neg: Vec<i8> = vec![-1, -2, 0, -2];
    let sa = SuffixArray::<i8, DefaultSort>::new(&neg);
    assert_eq!(sa.suffix_array(), vec![4, 3, 1, 0, 2]);
    assert_eq!(sa.raw(), &neg[..]);
}

#[test]
fn both_strategies_build_the_same_order() {
    for text in ["", "a", "aa", "ab", "ba", "banana", "mississippi", "abababab", "zzzzzz"] {
        let naive = SuffixArray::<char, DefaultSort>::from_str(text);
        let fast = SuffixArray::<char, SaIs>::from_str(text);
        assert_eq!(naive.suffix_array(), fast.suffix_array(), "{}", text);
        let order = naive.suffix_array();
        let mut sorted = order.to_vec();
        sorted.sort();
        assert_eq!(sorted, (0..=text.len()).collect::<Vec<usize>>());
        for i in 0..order.len() - 1 {
            assert!(naive.suffix_nth(i) < naive.suffix_nth(i + 1));
        }
    }
}
