use algokit::rolling_hash::{powering, rolling, Base, RandomBase, RollingHash, MOD};
use rand::{thread_rng, Rng};

/// a fixed base, for results that can be checked
#[derive(Debug)]
struct Base2;
impl Base for Base2 {
    fn base() -> u64 {
        2
    }
}

#[test]
fn construct() {
    let s = &[1u8, 2, 3, 4, 5, 6, 7];
    let rh = RollingHash::<Base2, _>::from_slice(s); // from slice
    assert_eq!(rh.len(), 7);
    assert_eq!(rh.raw(), s);
    assert_eq!(rh.base(), 2);
}

#[test]
fn lcp() {
    let s = "010010101010";
    let n = s.len();
    let rh = RollingHash::<Base2, _>::from_str(s);
    assert_eq!(rh.longest_common_prefix(0, n, 1, n), []);
    assert_eq!(rh.longest_common_prefix(0, n, 2, n), ['0']);
    assert_eq!(rh.longest_common_prefix(0, n, 3, n), ['0', '1', '0']);
    assert_eq!(rh.longest_common_prefix(0, n, 4, n), []);
    assert_eq!(
        rh.longest_common_prefix(4, n, 6, n),
        ['1', '0', '1', '0', '1', '0']
    );
    assert_eq!(rh.longest_common_prefix(4, 6, 6, n), ['1', '0']);
}

#[test]
fn hashes_of_windows_with_base_two() {
    let s = &[1u8, 2, 3];
    let rh = RollingHash::<Base2, _>::from_slice(s);
    assert_eq!(rh.hash(0, 0), 0);
    assert_eq!(rh.hash(0, 1), 1);
    assert_eq!(rh.hash(0, 2), 4);
    assert_eq!(rh.hash(0, 3), 11);
    assert_eq!(rh.hash(1, 3), 7);
    assert_eq!(rh.hash(2, 3), 3);
    assert_eq!(rh.hash_sub(1, 2), 2);
}

#[test]
fn same_windows_have_the_same_hash() {
    let s = "abracadabra";
    let rh = RollingHash::<RandomBase, _>::from_str(s);
    assert!(rh.same(0, 4, 7, 11));
    assert!(rh.same(0, 1, 3, 4));
    assert!(!rh.same(0, 4, 7, 10));
    assert!(rh.same(5, 5, 9, 9));
    assert!(2 <= rh.base() && rh.base() <= MOD);
    assert_eq!(rh.hash(0, 4), rh.hash(7, 11));
}

#[test]
fn powers_and_prefix_hashes() {
    assert_eq!(powering(3, 4), vec![1, 3, 9, 27, 81]);
    assert_eq!(powering(MOD - 1, 2), vec![1, MOD - 1, 1]);
    assert_eq!(powering(u64::MAX, 1), vec![1, u64::MAX % MOD]);
    assert_eq!(rolling(&[1, 2, 3], 10), vec![0, 1, 12, 123]);
    assert_eq!(rolling(&[MOD as u128 + 5], 10), vec![0, 5]);
    assert_eq!(rolling(&[u128::MAX], 10), vec![0, (u128::MAX % MOD as u128) as u64]);
}

#[test]
fn random() {
    let mut rng = thread_rng();
    let s = (0..100)
        .map(|_| rng.gen_bool(0.5).to_string().chars().next().unwrap())
        .collect::<String>();
    let n = s.len();
    let rh = RollingHash::<Base2, _>::from_str(&s); // from chars

    for _ in 0..10000 {
        let mut a = rng.gen_range(0..=n);
        let mut b = rng.gen_range(0..=n);
        if b < a {
            std::mem::swap(&mut a, &mut b);
        }

        let shift = rng.gen_range(0..=rh.len() - b);
        let c = a + shift;
        let d = b + shift;

        assert_eq!(rh.same(a, b, c, d), &s[a..b] == &s[c..d]);
    }
}

#[test]
fn random_bases_vary_inside_their_range() {
    let bases: Vec<u64> = (0..64).map(|_| RandomBase::base()).collect();
    assert!(bases.iter().all(|&b| 2 <= b && b <= MOD));
    assert!(bases.iter().any(|&b| b != 2));
    assert!(bases.iter().any(|&b| b != MOD));
    assert!(bases.iter().any(|&b| b != bases[0]));
}
