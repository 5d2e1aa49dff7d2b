use akshually::math::{common_items, factorize, gcd, reduce_fraction, PrimeIterator};

fn product(factors: &[u64]) -> u64 {
    factors.iter().fold(1, |acc, f| acc * f)
}

fn is_prime(n: u64) -> bool {
    n >= 2 && (2..n).all(|d| n % d != 0)
}

#[test]
fn prime_numbers_up_to_20() {
    let mut primes = PrimeIterator::new();
    assert_eq!(primes.next(), Some(2));
    assert_eq!(primes.next(), Some(3));
    assert_eq!(primes.next(), Some(5));
    assert_eq!(primes.next(), Some(7));
    assert_eq!(primes.next(), Some(11));
    assert_eq!(primes.next(), Some(13));
    assert_eq!(primes.next(), Some(17));
    assert_eq!(primes.next(), Some(19));
}

#[test]
fn factorize_1000000000() {
    let factors = factorize(1000000000);
    assert_eq!(
        factors,
        vec![2, 2, 2, 2, 2, 2, 2, 2, 2, 5, 5, 5, 5, 5, 5, 5, 5, 5]
    );
}

#[test]
fn factorize_1000000001() {
    let factors = factorize(1000000001);
    assert_eq!(factors, vec![7, 11, 13, 19, 52579]);
}

#[test]
fn has_no_common_items() {
    let a = vec![1, 3, 5, 9];
    let b = vec![2, 4, 6, 8];
    assert_eq!(common_items(a, b), vec![])
}

#[test]
fn has_common_items() {
    let a = vec![1, 2, 3, 4, 5, 6];
    let b = vec![1, 3, 5, 7, 9, 11];
    assert_eq!(common_items(a, b), vec![1, 3, 5])
}

#[test]
fn reduce_18_over_6() {
    assert_eq!(reduce_fraction(18, 6), (3, 1));
}

#[test]
fn reduce_136_over_150() {
    assert_eq!(reduce_fraction(136, 150), (68, 75));
}

#[test]
fn no_gcd_of_primes() {
    assert_eq!(gcd(13, 17), 1);
}

#[test]
fn gcd_of_same_number() {
    assert_eq!(gcd(13, 13), 13);
}

#[test]
fn gcd_of_same_sequence() {
    assert_eq!(gcd(24, 36), 12);
}

#[test]
fn fresh_sequencer_restarts_at_two() {
    let mut first = PrimeIterator::new();
    assert_eq!(first.next(), Some(2));
    assert_eq!(first.next(), Some(3));
    let mut second = PrimeIterator::new();
    assert_eq!(second.next(), Some(2));
    assert_eq!(first.next(), Some(5));
    assert_eq!(second.next(), Some(3));
}

#[test]
fn sequencer_yields_exactly_the_primes_below_200() {
    let mut primes = PrimeIterator::new();
    let mut produced = Vec::new();
    loop {
        let p = primes.next().unwrap();
        if p >= 200 {
            break;
        }
        produced.push(p);
    }
    let expected: Vec<u64> = (0..200).filter(|n| is_prime(*n)).collect();
    assert_eq!(produced, expected);
    assert_eq!(produced.len(), 46);
    assert_eq!(produced.last(), Some(&199));
}

#[test]
fn sequencer_is_strictly_increasing() {
    let mut primes = PrimeIterator::new();
    let mut previous = primes.next().unwrap();
    for _ in 0..500 {
        let p = primes.next().unwrap();
        assert!(p > previous);
        assert!(is_prime(p));
        previous = p;
    }
    assert_eq!(previous, 3581);
}

#[test]
fn factorize_small_examples() {
    assert_eq!(factorize(36), vec![2, 2, 3, 3]);
    assert_eq!(factorize(64), vec![2, 2, 2, 2, 2, 2]);
    assert_eq!(factorize(13), vec![13]);
    assert_eq!(factorize(2), vec![2]);
    assert_eq!(factorize(4), vec![2, 2]);
    assert_eq!(factorize(6), vec![2, 3]);
    assert_eq!(factorize(97 * 89), vec![89, 97]);
}

#[test]
fn factorize_one_is_empty() {
    assert_eq!(factorize(1), Vec::<u64>::new());
}

#[test]
fn factorize_zero_is_empty() {
    assert_eq!(factorize(0), Vec::<u64>::new());
}

#[test]
fn factorize_product_is_the_number() {
    for n in 2..2000u64 {
        let factors = factorize(n);
        assert_eq!(product(&factors), n);
        assert!(factors.iter().all(|f| is_prime(*f)));
    }
}

#[test]
fn factorize_is_non_decreasing() {
    for n in 1..2000u64 {
        let factors = factorize(n);
        assert!(factors.windows(2).all(|w| w[0] <= w[1]));
    }
}

#[test]
fn factorize_prime_is_itself() {
    for n in 0..2000u64 {
        if is_prime(n) {
            assert_eq!(factorize(n), vec![n]);
        } else {
            assert_ne!(factorize(n), vec![n]);
        }
    }
    assert_eq!(factorize(7919), vec![7919]);
}

#[test]
fn common_items_counts_multiplicity() {
    assert_eq!(common_items(vec![2, 2, 2, 3], vec![2, 2, 3, 3]), vec![2, 2, 3]);
    assert_eq!(common_items(vec![2, 2, 3, 3], vec![2, 2, 2, 3]), vec![2, 2, 3]);
    assert_eq!(common_items(vec![5, 5, 5], vec![5]), vec![5]);
    assert_eq!(common_items(vec![7], vec![7]), vec![7]);
}

#[test]
fn common_items_with_an_empty_side() {
    assert_eq!(common_items(vec![], vec![1, 2, 3]), Vec::<u64>::new());
    assert_eq!(common_items(vec![1, 2, 3], vec![]), Vec::<u64>::new());
    assert_eq!(common_items(vec![], vec![]), Vec::<u64>::new());
}

#[test]
fn common_items_follows_the_walk_on_unsorted_input() {
    // 3 < 5 passes 3; 1 < 5 passes 1; 5 == 5 collects 5; the left side is done.
    assert_eq!(common_items(vec![3, 1, 5], vec![5, 3, 1]), vec![5]);
    // 5 > 3 passes 3 on the right; 5 > 1 passes 1; the right side is done.
    assert_eq!(common_items(vec![5, 3, 1], vec![3, 1]), Vec::<u64>::new());
}

#[test]
fn gcd_examples() {
    assert_eq!(gcd(48, 36), 12);
    assert_eq!(gcd(1, 1), 1);
    assert_eq!(gcd(1, 99), 1);
    assert_eq!(gcd(100, 10), 10);
    assert_eq!(gcd(17 * 4, 17 * 9), 17);
    assert_eq!(gcd(1 << 20, 1 << 12), 1 << 12);
    assert_eq!(gcd(1000000000, 1000000), 1000000);
}

#[test]
fn gcd_with_zero_is_one() {
    assert_eq!(gcd(0, 0), 1);
    assert_eq!(gcd(0, 12), 1);
    assert_eq!(gcd(12, 0), 1);
}

#[test]
fn gcd_is_commutative() {
    for a in 0..60u64 {
        for b in 0..60u64 {
            assert_eq!(gcd(a, b), gcd(b, a));
        }
    }
}

#[test]
fn gcd_is_the_greatest_common_divisor() {
    for a in 1..60u64 {
        for b in 1..60u64 {
            let g = gcd(a, b);
            assert_eq!(a % g, 0);
            assert_eq!(b % g, 0);
            for d in 1..=a {
                if a % d == 0 && b % d == 0 {
                    assert!(d <= g);
                    assert_eq!(g % d, 0);
                }
            }
        }
    }
}

#[test]
fn reduce_fraction_examples() {
    assert_eq!(reduce_fraction(32, 64), (1, 2));
    assert_eq!(reduce_fraction(7, 7), (1, 1));
    assert_eq!(reduce_fraction(3, 4), (3, 4));
    assert_eq!(reduce_fraction(1000, 10), (100, 1));
}

#[test]
fn reduce_fraction_with_zero_is_unchanged() {
    assert_eq!(reduce_fraction(0, 5), (0, 5));
    assert_eq!(reduce_fraction(5, 0), (5, 0));
    assert_eq!(reduce_fraction(0, 0), (0, 0));
}

#[test]
fn reduce_fraction_round_trip() {
    for a in 0..60u64 {
        for b in 0..60u64 {
            let (p, q) = reduce_fraction(a, b);
            assert_eq!(p * b, q * a);
            assert_eq!(gcd(p, q), 1);
        }
    }
}
