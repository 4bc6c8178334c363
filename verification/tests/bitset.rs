use algokit::bitset::BitSet;
use rand::rngs::StdRng;
use rand::{thread_rng, Rng, SeedableRng};
use std::collections::BTreeSet;

#[test]
fn lib_basic() {
    let mut bs = BitSet::new(10);

    bs.entry(1);
    bs.entry(3);

    assert_eq!(bs.bytes(), vec![(1 << 6) + (1 << 4), 0]);

    bs.remove(3);
    bs.remove(1);

    assert_eq!(bs.bytes(), vec![0, 0]);
}

#[test]
fn from_vec() {
    let vec = vec![true, false, false, true];
    let bs: BitSet = vec.into();
    assert!(bs == {
        let mut t = BitSet::new(4);
        t.entry(0);
        t.entry(3);
        t
    });
}

#[test]
fn iter() {
    let mut bs = BitSet::new(10);
    bs.entry(1);
    bs.entry(2);
    bs.entry(4);
    bs.entry(5);

    let mut iter1 = bs.iter();
    let mut iter2 = bs.iter();
    assert_eq!(iter2.next(), Some(1));
    assert_eq!(iter2.next(), Some(2));
    assert_eq!(iter2.next(), Some(4));
    assert_eq!(iter2.next(), Some(5));
    assert_eq!(iter2.next(), None);

    let bs_from_iter: BitSet = BitSet::from_iter(iter1.to_vec());
    assert!(bs == bs_from_iter);
}

#[test]
fn from_uint() {
    let mut bs = BitSet::new(64);
    bs.entry(8);
    bs.entry(63);
    let from_u64: BitSet = ((1u64 << 55) + (1u64)).into();
    assert!(bs == from_u64);
}

fn bools(bs: &BitSet) -> Vec<bool> {
    (0..bs.len()).map(|i| bs.get(i)).collect()
}

fn random_bits(rng: &mut StdRng, len: usize) -> BitSet {
    let v: Vec<bool> = (0..len).map(|_| rng.gen_bool(0.5)).collect();
    v.into()
}

#[test]
fn large() {
    let limit = 200000;
    let mut bs = BitSet::new(limit);
    let mut rng = thread_rng();

    let mut pops = BTreeSet::new();
    for _ in (0..).take(10000) {
        let r: usize = rng.gen_range(0..limit);
        pops.insert(r);
        bs.entry(r);
    }

    assert_eq!(pops.len(), bs.count_ones());
    assert!(pops.into_iter().all(|x| bs.get(x)));
}

#[test]
fn reading_beyond_the_length_gives_false() {
    let bs = BitSet::ones(5);
    assert!(bs.get(4));
    assert!(!bs.get(5));
    assert!(!bs.get(7));
    assert!(!bs.get(8));
    assert!(!bs.get(usize::MAX));
}

#[test]
fn no_bit_beyond_the_length_is_ever_set() {
    let mut rng = StdRng::seed_from_u64(2);
    for len in [1usize, 5, 8, 9, 13, 16, 17] {
        let mut bs = BitSet::ones(len);
        for _ in 0..50 {
            match rng.gen_range(0..7) {
                0 => bs.fill(),
                1 => bs.swap(),
                2 => bs.flip(rng.gen_range(0..len)),
                3 => bs.set(rng.gen_range(0..len), rng.gen_bool(0.5)),
                4 => bs = bs.union(&BitSet::ones(len + 3)),
                5 => bs = bs.symmetric_difference(&BitSet::ones(len + 3)),
                _ => bs = !bs,
            }
            assert_eq!(bs.len(), len);
            let bytes = bs.bytes();
            assert_eq!(bytes.len(), (len + 7) / 8);
            for i in len..8 * bytes.len() {
                assert_eq!(bytes[i / 8] & (0x80 >> (i % 8)), 0);
            }
            assert_eq!(bs.count_ones(), bools(&bs).iter().filter(|&&b| b).count());
            assert_eq!(bs.count_ones() + bs.count_zeros(), len);
        }
    }
}

#[test]
fn a_bitset_from_booleans_reads_back() {
    let mut rng = StdRng::seed_from_u64(3);
    for len in 0..40 {
        let v: Vec<bool> = (0..len).map(|_| rng.gen_bool(0.5)).collect();
        let bs: BitSet = v.clone().into();
        assert_eq!(bs.len(), len);
        for i in 0..len {
            assert_eq!(bs.get(i), v[i]);
        }
        assert_eq!(bools(&bs), v);
    }
}

#[test]
fn set_algebra_on_equal_lengths() {
    let mut rng = StdRng::seed_from_u64(4);
    for len in [0usize, 1, 7, 8, 9, 31, 64, 100] {
        for _ in 0..20 {
            let a = random_bits(&mut rng, len);
            let b = random_bits(&mut rng, len);
            assert!(a.union(&b).intersection(&a) == a);
            let mut not_a = a.clone();
            not_a.swap();
            assert!(a.intersection(&not_a) == BitSet::zeros(len));
            assert!(a.intersection(&not_a).is_empty());
            assert_eq!(
                a.union(&b).count_ones() + a.intersection(&b).count_ones(),
                a.count_ones() + b.count_ones()
            );
            assert!(a.difference(&b) == a.intersection(&!b.clone()));
            assert!(a.symmetric_difference(&b) == a.difference(&b).union(&b.difference(&a)));
            assert!(a.intersection(&b).is_subset(&a));
            assert!(a.union(&b).is_superset(&a));
            assert!(a.difference(&b).is_disjoint(&b));
            assert_eq!(a == b, bools(&a) == bools(&b));
        }
    }
}

#[test]
fn set_algebra_on_different_lengths_keeps_the_length_of_the_left() {
    let a: BitSet = vec![true, true, false, false, true, true, false, false, true, true].into();
    let b: BitSet = vec![true, false, true].into();
    // the one cell of `b` covers the first eight bits of `a`
    assert_eq!(
        bools(&a.intersection(&b)),
        vec![true, false, false, false, false, false, false, false, true, true]
    );
    assert_eq!(
        bools(&a.union(&b)),
        vec![true, true, true, false, true, true, false, false, true, true]
    );
    assert_eq!(
        bools(&a.difference(&b)),
        vec![false, true, false, false, true, true, false, false, true, true]
    );
    assert_eq!(
        bools(&a.symmetric_difference(&b)),
        vec![false, true, true, false, true, true, false, false, true, true]
    );
    assert_eq!(bools(&b.union(&a)), vec![true, true, true]);
    assert_eq!(bools(&b.intersection(&a)), vec![true, false, false]);
    assert_eq!(bools(&b.symmetric_difference(&a)), vec![false, true, true]);
}

#[test]
fn inclusion_is_judged_from_the_shorter_side() {
    let short: BitSet = vec![true, false, true].into();
    let long: BitSet = vec![true, true, true, false, true].into();
    assert!(short.is_subset(&long));
    assert!(long.is_subset(&short));
    assert!(long.is_superset(&short));
    assert!(short == long);
    let other: BitSet = vec![false, false, true, true].into();
    assert!(!short.is_subset(&other));
    assert!(!short.is_disjoint(&other));
    assert!(short.is_disjoint(&BitSet::zeros(9)));
}

#[test]
fn resize_truncates_and_extends_with_false() {
    let mut bs = BitSet::ones(13);
    bs.resize(5);
    assert_eq!(bools(&bs), vec![true; 5]);
    assert_eq!(bs.bytes(), vec![0b1111_1000]);
    assert_eq!(bs.cell(), 1);
    bs.resize(11);
    assert_eq!(
        bools(&bs),
        vec![true, true, true, true, true, false, false, false, false, false, false]
    );
    assert_eq!(bs.count_ones(), 5);
    assert_eq!(bs.count_zeros(), 6);
    bs.resize(0);
    assert_eq!(bs.len(), 0);
    assert_eq!(bs.cell(), 0);
    assert!(bs.is_empty());
}

#[test]
fn clear_and_fill() {
    let mut bs = BitSet::new(10);
    assert!(bs.is_empty());
    bs.fill();
    assert_eq!(bs.count_ones(), 10);
    assert_eq!(bs.bytes(), vec![0xff, 0xc0]);
    bs.clear();
    assert_eq!(bs.count_ones(), 0);
    assert_eq!(bs.count_zeros(), 10);
    bs.flip(9);
    assert!(bs.get(9));
    bs.flip(9);
    assert!(!bs.get(9));
    assert_eq!(BitSet::zeros(0).count_zeros(), 0);
    assert_eq!(BitSet::default().len(), 0);
}

#[test]
fn from_unsigned_with_a_length() {
    let bs = BitSet::from_uint_with_len(0b1011, 6);
    assert_eq!(bools(&bs), vec![false, false, true, false, true, true]);
    assert_eq!(BitSet::from_uint_with_len(0, 0).len(), 0);
    assert_eq!(bools(&BitSet::from_low_bits(5, 3)), vec![true, false, true]);
    assert_eq!(BitSet::from(0x80u8).bytes(), vec![0x80]);
    assert_eq!(BitSet::from(0x0102u16).bytes(), vec![1, 2]);
    assert_eq!(BitSet::from(0x01020304u32).bytes(), vec![1, 2, 3, 4]);
    assert_eq!(BitSet::from(1usize).len(), usize::BITS as usize);
    assert!(BitSet::from(1usize).get(usize::BITS as usize - 1));
    assert_eq!(bools(&BitSet::from_bytes(vec![0xa0])), vec![true, false, true, false, false, false, false, false]);
}

#[test]
fn from_indices_is_one_longer_than_the_largest() {
    let bs = BitSet::from_iter(vec![4, 1, 4]);
    assert_eq!(bools(&bs), vec![false, true, false, false, true]);
    assert_eq!(BitSet::from_iter(vec![]).len(), 1);
    assert!(BitSet::from_iter(vec![]).is_empty());
    assert_eq!(bs.iter().to_vec(), vec![1, 4]);
}

#[test]
fn operators_are_the_set_algebra() {
    let a: BitSet = vec![true, true, false, false].into();
    let b: BitSet = vec![true, false, true, false].into();
    assert_eq!(bools(&(a.clone() & b.clone())), vec![true, false, false, false]);
    assert_eq!(bools(&(a.clone() | b.clone())), vec![true, true, true, false]);
    assert_eq!(bools(&(a.clone() ^ b.clone())), vec![false, true, true, false]);
    assert_eq!(bools(&(!a)), vec![false, false, true, true]);
}

#[test]
fn a_bitset_is_written_bit_by_bit() {
    let bs: BitSet = vec![true, false, false, true, true].into();
    assert_eq!(bs.to_string(), "10011");
    assert_eq!(bs.to_chars(), vec!['1', '0', '0', '1', '1']);
    assert_eq!(BitSet::zeros(0).to_string(), "");
    assert_eq!(BitSet::from(5u8).to_string(), "00000101");
}
