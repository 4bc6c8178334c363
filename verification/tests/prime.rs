use algokit::prime::atkin::Atkin;
use algokit::prime::erathosthnes::Erathosthnes;
use algokit::prime::{divide_out, Prime, Sieve};
use rand::{thread_rng, Rng};

#[test]
fn trial_division() {
    assert!(!1usize.is_prime());
    assert!(2usize.is_prime());
    assert!(3usize.is_prime());
    assert!(!4usize.is_prime());
    assert!(5usize.is_prime());
    assert!(!6usize.is_prime());
    assert!(7usize.is_prime());
    assert!(!8usize.is_prime());
    assert!(!9usize.is_prime());

    assert!(1000000007usize.is_prime());
}

#[test]
fn factorize_basic() {
    assert_eq!(0usize.factorize(), vec![]);
    assert_eq!(1usize.factorize(), vec![]);
    assert_eq!(2usize.factorize(), vec![(2, 1)]);
    assert_eq!(3usize.factorize(), vec![(3, 1)]);
    assert_eq!(4usize.factorize(), vec![(2, 2)]);
    assert_eq!(5usize.factorize(), vec![(5, 1)]);
    assert_eq!(6usize.factorize(), vec![(2, 1), (3, 1)]);
    assert_eq!(7usize.factorize(), vec![(7, 1)]);
    assert_eq!(8usize.factorize(), vec![(2, 3)]);

    assert_eq!(57usize.factorize(), vec![(3, 1), (19, 1)]);
    assert_eq!((1usize << 30).factorize(), vec![(2, 30)]);
}

#[test]
fn factorize_with_sieve_basic() {
    let sieve = Erathosthnes::new(100);

    assert_eq!(sieve.factorize(0), vec![]);
    assert_eq!(sieve.factorize(1), vec![]);
    assert_eq!(sieve.factorize(2), vec![(2, 1)]);
    assert_eq!(sieve.factorize(3), vec![(3, 1)]);
    assert_eq!(sieve.factorize(4), vec![(2, 2)]);
    assert_eq!(sieve.factorize(5), vec![(5, 1)]);
    assert_eq!(sieve.factorize(6), vec![(2, 1), (3, 1)]);
    assert_eq!(sieve.factorize(7), vec![(7, 1)]);
    assert_eq!(sieve.factorize(8), vec![(2, 3)]);

    assert_eq!(sieve.factorize(57), vec![(3, 1), (19, 1)]);
    assert_eq!((1usize << 30).factorize(), vec![(2, 30)]);
}

#[test]
fn erathosthnes_basic() {
    let sieve = Erathosthnes::new(10);
    assert!(!sieve.is_prime(1));
    assert!(sieve.is_prime(2));
    assert!(sieve.is_prime(3));
    assert!(!sieve.is_prime(4));
    assert!(sieve.is_prime(5));
    assert!(!sieve.is_prime(6));
    assert!(sieve.is_prime(7));
    assert!(!sieve.is_prime(8));
    assert!(!sieve.is_prime(9));
}

#[test]
fn erathosthnes_iter() {
    let sieve = Erathosthnes::new(10);
    assert_eq!(sieve.primes().to_vec(), vec![2, 3, 5, 7]);
    assert_eq!(sieve.primes().to_vec(), vec![2, 3, 5, 7]);
    assert_eq!(sieve.primes().to_vec(), vec![2, 3, 5, 7]);
}

#[test]
fn atkin_basic() {
    let sieve = Atkin::new(100);
    assert!(!sieve.is_prime(1));
    assert!(sieve.is_prime(2));
    assert!(sieve.is_prime(3));
    assert!(!sieve.is_prime(4));
    assert!(sieve.is_prime(5));
    assert!(!sieve.is_prime(6));
    assert!(sieve.is_prime(7));
    assert!(!sieve.is_prime(8));
    assert!(!sieve.is_prime(9));
}

#[test]
fn sieves_agree_with_trial_division() {
    let limit = 2000;
    let eratosthenes = Erathosthnes::new(limit);
    let atkin = Atkin::new(limit);
    assert_eq!(atkin.len(), limit);
    assert_eq!(eratosthenes.len(), limit / 2);
    for x in 0..limit {
        assert_eq!(eratosthenes.is_prime(x), x.is_prime(), "{}", x);
        assert_eq!(Sieve::is_prime(&eratosthenes, x), x.is_prime(), "{}", x);
        assert_eq!(atkin.is_prime(x), x.is_prime(), "{}", x);
    }
    let expected: Vec<usize> = (0..limit).filter(|x| x.is_prime()).collect();
    assert_eq!(Sieve::primes(&eratosthenes), expected);
    assert_eq!(atkin.primes(), expected);
}

#[test]
fn the_walk_over_primes_steps_one_by_one() {
    let sieve = Erathosthnes::new(6);
    let mut walk = sieve.primes();
    assert_eq!(walk.next(), Some(2));
    assert_eq!(walk.next(), Some(3));
    assert_eq!(walk.next(), Some(5));
    assert_eq!(walk.next(), None);
    assert_eq!(walk.next(), None);
}

#[test]
fn factors_multiply_to_the_number() {
    let sieve = Erathosthnes::new(1000);
    for x in 1usize..3000 {
        let product: usize = x.factorize().iter().map(|&(p, e)| p.pow(e as u32)).product();
        assert_eq!(product, x);
        let product: usize = sieve.factorize(x).iter().map(|&(p, e)| p.pow(e as u32)).product();
        assert_eq!(product, x);
        assert!(x.factorize().iter().all(|&(p, _)| p.is_prime()));
    }
    assert_eq!(1000000007usize.factorize(), vec![(1000000007, 1)]);
    assert_eq!(360u32.factorize(), vec![(2, 3), (3, 2), (5, 1)]);
    assert_eq!(49u8.factorize(), vec![(7, 2)]);
    assert_eq!(1001u16.factorize(), vec![(7, 1), (11, 1), (13, 1)]);
    assert!(97u8.is_prime());
    assert!(!91u16.is_prime());
    assert!(!0u32.is_prime());
}

#[test]
fn divide_out_leaves_the_rest() {
    assert_eq!(divide_out(360, 2), (45, 3));
    assert_eq!(divide_out(45, 2), (45, 0));
    assert_eq!(divide_out(1, 7), (1, 0));
}

fn restore_factors(f: Vec<(usize, usize)>) -> usize {
    f.into_iter()
        .map(|(p, e)| p.pow(e as u32))
        .product::<usize>()
}

#[test]
fn factorize_random() {
    let mut rng = thread_rng();
    for _ in 0..1000 {
        let r = rng.gen_range(2usize..100000);
        let f = r.factorize();
        assert_eq!(r, restore_factors(f));
    }
}

#[test]
fn factorize_with_sieve_random() {
    let mut rng = thread_rng();
    let sieve = Erathosthnes::new(100000);
    for _ in 0..1000 {
        let r = rng.gen_range(2usize..100000);
        let f = sieve.factorize(r);
        assert_eq!(r, restore_factors(f));
    }
}
