use algokit::bit_enum::BitSetIter;
use algokit::brute_bits::BruteBitsBuilder;

#[test]
fn lib_bs_iter() {
    let mut bs = BitSetIter::new(3).into_iter();

    assert_eq!(Some(vec![false, false, false]), bs.next());
    assert_eq!(Some(vec![false, false, true]), bs.next());
    assert_eq!(Some(vec![false, true, false]), bs.next());
    assert_eq!(Some(vec![false, true, true]), bs.next());
    assert_eq!(Some(vec![true, false, false]), bs.next());
    assert_eq!(Some(vec![true, false, true]), bs.next());
    assert_eq!(Some(vec![true, true, false]), bs.next());
    assert_eq!(Some(vec![true, true, true]), bs.next());
    assert_eq!(None, bs.next());
}

#[test]
fn bs_iter() {
    let mut bs = BruteBitsBuilder::new(3).into_iter();

    assert_eq!(Some(vec![false, false, false]), bs.next());
    assert_eq!(Some(vec![true, false, false]), bs.next());
    assert_eq!(Some(vec![false, true, false]), bs.next());
    assert_eq!(Some(vec![true, true, false]), bs.next());
    assert_eq!(Some(vec![false, false, true]), bs.next());
    assert_eq!(Some(vec![true, false, true]), bs.next());
    assert_eq!(Some(vec![false, true, true]), bs.next());
    assert_eq!(Some(vec![true, true, true]), bs.next());
    assert_eq!(None, bs.next());
}

#[test]
fn combinations_is_a_power_of_two() {
    let bs = BitSetIter::new(5);
    assert_eq!(bs.len(), 5);
    assert_eq!(bs.combinations(), 32);
    assert_eq!(BitSetIter::new(0).combinations(), 1);
    let mut it = BitSetIter::new(0).into_iter();
    assert_eq!(it.next(), Some(vec![]));
    assert_eq!(it.next(), None);
}
