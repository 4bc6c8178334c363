use algokit::math::ceil_pow;
use algokit::sparse_table::{Band, Max, Min, SparseTable};
use rand::{thread_rng, Rng};

#[test]
fn basic_min_table() {
    let v: Vec<usize> = vec![3, 1, 4, 1, 5, 9, 2, 6, 5, 3, 5, 8, 9, 7, 9, 3];
    let st = SparseTable::<Min<usize>>::new(&v);

    assert_eq!(st.fold(0, 1), 3);
    assert_eq!(st.fold(0, 2), 1);
    assert_eq!(st.fold(0, 3), 1);
    assert_eq!(st.fold(4, 7), 2);
    assert_eq!(st.fold(8, 10), 3);
}

#[test]
fn every_range_folds_to_its_minimum_and_maximum() {
    let v: Vec<u32> = vec![3, 1, 4, 1, 5, 9, 2, 6, 5, 3, 5, 8, 9, 7, 9, 3, 2];
    let lo = SparseTable::<Min<u32>>::new(&v);
    let hi = SparseTable::<Max<u32>>::new(&v);
    assert_eq!(lo.len(), 17);
    assert_eq!(lo.raw(), &v[..]);
    for from in 0..v.len() {
        for to in from + 1..=v.len() {
            assert_eq!(lo.fold(from, to), *v[from..to].iter().min().unwrap());
            assert_eq!(hi.fold(from, to), *v[from..to].iter().max().unwrap());
            assert_eq!(lo.fold_sub(from, to), lo.fold(from, to));
        }
    }
}

#[test]
fn a_table_of_one_value() {
    let v: Vec<u8> = vec![7];
    let st = SparseTable::<Max<u8>>::new(&v);
    assert_eq!(st.fold(0, 1), 7);
    let empty: Vec<u8> = vec![];
    assert_eq!(SparseTable::<Max<u8>>::new(&empty).len(), 0);
}

#[test]
fn min_and_max_keep_the_documented_one_of_two() {
    assert_eq!(<Min<u8> as Band>::binary_operation(&3, &5), 3);
    assert_eq!(<Max<u8> as Band>::binary_operation(&3, &5), 5);
    assert_eq!(<Max<char> as Band>::binary_operation(&'b', &'a'), 'b');
}

#[test]
fn ceil_pow_is_the_least_exponent() {
    assert_eq!(ceil_pow(0), 0);
    assert_eq!(ceil_pow(1), 0);
    assert_eq!(ceil_pow(2), 1);
    assert_eq!(ceil_pow(3), 2);
    assert_eq!(ceil_pow(4), 2);
    assert_eq!(ceil_pow(5), 3);
    assert_eq!(ceil_pow(1024), 10);
    assert_eq!(ceil_pow(1025), 11);
    assert_eq!(ceil_pow(usize::MAX / 2 + 1), usize::BITS as usize - 1);
}

#[test]
fn large_random() {
    let mut rng = thread_rng();
    let mut v = Vec::new();
    for _ in 0..200000 {
        v.push(rng.gen::<usize>());
    }

    let n = v.len();
    let sparse_table = SparseTable::<Min<_>>::new(&v);
    for _ in 0..100 {
        let mut a = rng.gen_range(0..n + 1);
        let mut b = rng.gen_range(0..n + 1);
        if a == b {
            continue;
        }
        if b < a {
            std::mem::swap(&mut a, &mut b);
        }

        assert_eq!(sparse_table.fold(a, b), (a..b).map(|x| v[x]).min().unwrap());
    }
}
