//! The prime sequencer, the factorizer built on it, and the divisor and
//! fraction reducer built on the factorizer.

use crate::divisibility::{
    divides, is_gcd, is_prime, lemma_bezout, lemma_divides_basics, lemma_divides_combination,
    lemma_divides_quotient, lemma_divides_scale, lemma_divides_transitive, lemma_divisor_at_most,
    lemma_gcd_absorbs, lemma_gcd_unique, lemma_multiple_divides, lemma_prime_divisor,
};
use crate::factors::{
    all_positive, is_ascending, is_prime_factorization, lemma_factorization_unique,
    lemma_primes_are_positive, lemma_product_of_prefix, lemma_product_push, product,
};
use crate::merge::{
    lemma_common_absorbs, lemma_common_ascending, lemma_common_divides,
    lemma_common_is_intersection, lemma_common_of_primes, merge_common,
};
use vstd::prelude::*;

verus! {

/// `s` holds, smallest first and each once, exactly the primes below `bound`.
pub open spec fn lists_primes_below(s: Seq<u64>, bound: int) -> bool {
    &&& forall|k: int| 0 <= k < s.len() ==> is_prime(#[trigger] s[k] as int) && s[k] < bound
    &&& forall|j: int, k: int| 0 <= j < k < s.len() ==> s[j] < s[k]
    &&& forall|q: u64| is_prime(q as int) && q < bound ==> #[trigger] s.contains(q)
}

/// `s` is an initial run of the primes: the first `s.len()` of them, in order.
pub open spec fn is_initial_primes(s: Seq<u64>) -> bool {
    s.len() > 0 ==> lists_primes_below(s, s.last() + 1)
}

/// A restartable source of the primes in ascending order. It remembers every
/// prime it has handed out and tests each new candidate against them.
pub struct PrimeIterator {
    i: u64,
    primes: Vec<u64>,
}

impl View for PrimeIterator {
    type V = Seq<u64>;

    /// The primes handed out so far, in the order in which they came.
    closed spec fn view(&self) -> Seq<u64> {
        self.primes@
    }
}

/// A candidate from two upward that none of the primes below it divides is
/// itself prime.
proof fn lemma_undivided_is_prime(s: Seq<u64>, c: u64)
    requires
        c >= 2,
        lists_primes_below(s, c as int),
        forall|k: int| 0 <= k < s.len() ==> !divides(#[trigger] s[k] as int, c as int),
    ensures
        is_prime(c as int),
{
    assert forall|d: int| 2 <= d < c implies !#[trigger] divides(d, c as int) by {
        if divides(d, c as int) {
            let p = lemma_prime_divisor(d);
            lemma_divides_transitive(p, d, c as int);
            assert(s.contains(p as u64));
            let k = choose|k: int| 0 <= k < s.len() && s[k] == p as u64;
            assert(divides(s[k] as int, c as int));
        }
    }
}

/// The list of the primes below a prime `c`, extended by `c`, lists the
/// primes below `c + 1`.
proof fn lemma_extend_by_prime(s: Seq<u64>, c: u64)
    requires
        lists_primes_below(s, c as int),
        is_prime(c as int),
    ensures
        lists_primes_below(s.push(c), c + 1),
{
    let t = s.push(c);
    assert forall|q: u64| is_prime(q as int) && q < c + 1 implies #[trigger] t.contains(q) by {
        if q < c {
            assert(s.contains(q));
            let k = choose|k: int| 0 <= k < s.len() && s[k] == q;
            assert(t[k] == q);
        } else {
            assert(t[s.len() as int] == q);
        }
    }
}

/// Whether any element of `primes` divides `candidate`.
fn divisible_by_any(primes: &Vec<u64>, candidate: u64) -> (found: bool)
    requires
        forall|k: int| 0 <= k < primes.len() ==> #[trigger] primes[k] > 0,
    ensures
        found == exists|k: int|
            0 <= k < primes.len() && divides(#[trigger] primes[k] as int, candidate as int),
{
    let mut k: usize = 0;
    while k < primes.len()
        invariant
            k <= primes.len(),
            forall|j: int| 0 <= j < primes.len() ==> #[trigger] primes[j] > 0,
            forall|j: int| 0 <= j < k ==> !divides(#[trigger] primes[j] as int, candidate as int),
        decreases primes.len() - k,
    {
        if candidate % primes[k] == 0 {
            return true;
        }
        k += 1;
    }
    false
}

impl PrimeIterator {
    #[verifier::type_invariant]
    spec fn well_formed(&self) -> bool {
        self.i >= 2 && lists_primes_below(self.primes@, self.i as int)
    }

    /// Creates a new `PrimeIterator`, which has handed out nothing yet.
    pub fn new() -> (fresh: Self)
        ensures
            fresh@ == Seq::<u64>::empty(),
    {
        PrimeIterator { i: 2, primes: Vec::new() }
    }

    /// Computes and returns the next prime number: the smallest prime not
    /// handed out before. `None` comes only once every prime that fits in
    /// 64 bits has been handed out.
    pub fn next(&mut self) -> (result: Option<u64>)
        ensures
            is_initial_primes(old(self)@),
            is_initial_primes(final(self)@),
            result is None <==> forall|q: u64| is_prime(q as int) ==> old(self)@.contains(q),
            match result {
                Some(p) => {
                    &&& is_prime(p as int)
                    &&& final(self)@ == old(self)@.push(p)
                    &&& forall|k: int| 0 <= k < old(self)@.len() ==> old(self)@[k] < p
                    &&& forall|q: u64| is_prime(q as int) && q < p ==> old(self)@.contains(q)
                },
                None => final(self)@ == old(self)@,
            },
    {
        proof {
            use_type_invariant(&*self);
        }
        let mut taken = PrimeIterator::new();
        std::mem::swap(self, &mut taken);
        let start = taken.i;
        let mut primes = taken.primes;
        let mut candidate = start;
        while candidate < u64::MAX
            invariant
                2 <= candidate,
                primes@ == old(self)@,
                lists_primes_below(primes@, candidate as int),
            decreases u64::MAX - candidate,
        {
            if !divisible_by_any(&primes, candidate) {
                proof {
                    lemma_undivided_is_prime(primes@, candidate);
                    lemma_extend_by_prime(primes@, candidate);
                }
                primes.push(candidate);
                *self = PrimeIterator { i: candidate + 1, primes };
                return Some(candidate);
            }
            candidate += 1;
        }
        proof {
            assert(divides(3, u64::MAX as int));
        }
        *self = PrimeIterator { i: candidate, primes };
        None
    }
}

/// The value that [`gcd`] yields: the greatest common divisor of two
/// positive numbers, and one as soon as either number is zero.
pub open spec fn gcd_of(a: int, b: int) -> int {
    if a > 0 && b > 0 {
        choose|g: int| is_gcd(g, a, b)
    } else {
        1
    }
}

/// Factorizes the given number into its prime factors, smallest first, each
/// as often as it divides the number. One has no prime factors; zero, which
/// has no factorization, yields the empty list as well.
pub fn factorize(n: u64) -> (factors: Vec<u64>)
    ensures
        n >= 1 ==> is_prime_factorization(factors@, n as int),
        n <= 1 ==> factors@ == Seq::<u64>::empty(),
        is_prime(n as int) ==> factors@ == seq![n],
{
    let mut primes = PrimeIterator::new();
    let mut factors: Vec<u64> = Vec::new();
    let mut rest = n;
    let mut prime = match primes.next() {
        Some(p) => p,
        None => {
            // A fresh sequencer has not handed out two yet, so this arm is never taken.
            proof {
                assert(is_prime(2));
                assert(Seq::<u64>::empty().contains(2u64));
            }
            return vec![n];
        },
    };
    while rest > 1
        invariant
            primes@.len() > 0,
            primes@.last() == prime,
            is_initial_primes(primes@),
            is_prime_factorization(factors@, product(factors@)),
            factors@.len() > 0 ==> factors@.last() <= prime,
            product(factors@) * rest == n,
            n <= 1 ==> factors@.len() == 0,
            n >= 1 ==> rest >= 1,
            forall|q: u64| is_prime(q as int) && q < prime ==> !#[trigger] divides(
                q as int,
                rest as int,
            ),
        decreases rest, rest - prime,
    {
        let ghost least = lemma_prime_divisor(rest as int);
        assert(prime <= least) by {
            assert(!(least < prime)) by {
                if least < prime {
                    assert(divides(least as u64 as int, rest as int));
                }
            }
        }
        if rest % prime == 0 {
            proof {
                let q = (rest / prime) as int;
                lemma_divides_quotient(prime as int, rest as int);
                lemma_product_push(factors@, prime);
                let f = product(factors@);
                assert((f * prime) * q == f * rest) by (nonlinear_arith)
                    requires
                        rest == prime * q,
                ;
                assert(1 <= q < rest) by (nonlinear_arith)
                    requires
                        rest == prime * q,
                        rest > 1,
                        prime >= 2,
                ;
                assert forall|r: u64| is_prime(r as int) && r < prime implies !#[trigger] divides(
                    r as int,
                    q,
                ) by {
                    if divides(r as int, q) {
                        lemma_multiple_divides(q, prime as int);
                        lemma_divides_transitive(r as int, q, rest as int);
                    }
                }
            }
            factors.push(prime);
            rest /= prime;
        } else {
            let ghost seen = primes@;
            prime = match primes.next() {
                Some(p) => p,
                None => {
                    // The least prime factor of what is left has not been handed out
                    // yet, so this arm is never taken either.
                    proof {
                        assert(seen.contains(least as u64));
                        let k = choose|k: int| 0 <= k < seen.len() && seen[k] == least as u64;
                        assert(seen[k] <= seen.last());
                    }
                    factors.push(rest);
                    return factors;
                },
            };
            proof {
                assert forall|q: u64| is_prime(q as int) && q < prime implies !#[trigger] divides(
                    q as int,
                    rest as int,
                ) by {
                    assert(seen.contains(q));
                    let k = choose|k: int| 0 <= k < seen.len() && seen[k] == q;
                    assert(seen[k] <= seen.last());
                }
                assert(prime <= least) by {
                    if least < prime {
                        assert(divides(least as u64 as int, rest as int));
                    }
                }
            }
        }
    }
    proof {
        if is_prime(n as int) {
            lemma_prime_factorization_of_prime(n);
            lemma_factorization_unique(factors@, seq![n], n as int);
        }
    }
    factors
}

/// The only prime factor of a prime is the prime itself.
pub proof fn lemma_prime_factorization_of_prime(p: u64)
    requires
        is_prime(p as int),
    ensures
        is_prime_factorization(seq![p], p as int),
{
    let s = Seq::<u64>::empty().push(p);
    assert(s =~= seq![p]);
    lemma_product_push(Seq::<u64>::empty(), p);
    assert(product(Seq::<u64>::empty()) == 1);
}

/// Walks two lists from the front and collects the elements they share:
/// equal heads are collected once and both passed, otherwise the smaller
/// head is passed. On ascending lists this is the intersection with
/// multiplicity, ascending again.
pub fn common_items(left: Vec<u64>, right: Vec<u64>) -> (common: Vec<u64>)
    ensures
        common@ == merge_common(left@, right@),
        is_ascending(left@) && is_ascending(right@) ==> {
            &&& is_ascending(common@)
            &&& common@.to_multiset() == left@.to_multiset().intersection_with(
                right@.to_multiset(),
            )
        },
{
    let mut common: Vec<u64> = Vec::new();
    let mut l: usize = 0;
    let mut r: usize = 0;
    proof {
        assert(left@.skip(0) =~= left@);
        assert(right@.skip(0) =~= right@);
        assert(common@ + merge_common(left@, right@) =~= merge_common(left@, right@));
    }
    while l < left.len() && r < right.len()
        invariant
            l <= left.len(),
            r <= right.len(),
            common@ + merge_common(left@.skip(l as int), right@.skip(r as int)) == merge_common(
                left@,
                right@,
            ),
        decreases left.len() - l + right.len() - r,
    {
        let x = left[l];
        let y = right[r];
        proof {
            let lt = left@.skip(l as int);
            let rt = right@.skip(r as int);
            assert(lt[0] == x && rt[0] == y);
            assert(lt.skip(1) =~= left@.skip(l + 1));
            assert(rt.skip(1) =~= right@.skip(r + 1));
            if x == y {
                let rest = merge_common(lt.skip(1), rt.skip(1));
                assert(common@.push(x) + rest =~= common@ + (seq![x] + rest));
            }
        }
        if x == y {
            common.push(x);
            l += 1;
            r += 1;
        } else if x < y {
            l += 1;
        } else {
            r += 1;
        }
    }
    proof {
        assert(common@ + Seq::<u64>::empty() =~= common@);
        if is_ascending(left@) && is_ascending(right@) {
            lemma_common_ascending(left@, right@);
            lemma_common_is_intersection(left@, right@);
        }
    }
    common
}

/// Finds the GCD of `a` and `b` as the product of the prime factors that
/// the two share. When either number is zero the result is one.
pub fn gcd(a: u64, b: u64) -> (g: u64)
    ensures
        g == gcd_of(a as int, b as int),
        a >= 1 && b >= 1 ==> is_gcd(g as int, a as int, b as int),
        a == 0 || b == 0 ==> g == 1,
{
    let num_factors = factorize(a);
    let den_factors = factorize(b);
    let ghost num = num_factors@;
    let ghost den = den_factors@;
    let common = common_items(num_factors, den_factors);
    proof {
        if a >= 1 && b >= 1 {
            lemma_primes_are_positive(num);
            lemma_primes_are_positive(den);
            lemma_common_of_primes(num, den);
            lemma_common_divides(num, den);
            lemma_divisor_at_most(product(common@), a as int);
            assert forall|d: int| divides(d, a as int) && divides(d, b as int) implies d
                <= product(common@) by {
                lemma_common_absorbs(num, den, d);
                lemma_divisor_at_most(d, product(common@));
            }
            assert(is_gcd(product(common@), a as int, b as int));
        } else {
            assert(common@ =~= Seq::<u64>::empty());
        }
    }
    let mut g: u64 = 1;
    let mut k: usize = 0;
    while k < common.len()
        invariant
            k <= common.len(),
            all_positive(common@),
            product(common@) <= u64::MAX,
            g == product(common@.take(k as int)),
        decreases common.len() - k,
    {
        proof {
            lemma_product_of_prefix(common@, k + 1);
            assert(common@.take(k + 1).drop_last() =~= common@.take(k as int));
        }
        g = g * common[k];
        k += 1;
    }
    proof {
        assert(common@.take(k as int) =~= common@);
    }
    g
}

/// Reduces the fraction `numerator`/`denominator` using their GCD. A
/// fraction with a zero on either side is returned as it is.
pub fn reduce_fraction(numerator: u64, denominator: u64) -> (reduced: (u64, u64))
    ensures
        reduced.0 == numerator as int / gcd_of(numerator as int, denominator as int),
        reduced.1 == denominator as int / gcd_of(numerator as int, denominator as int),
        reduced.0 * denominator == reduced.1 * numerator,
        gcd_of(reduced.0 as int, reduced.1 as int) == 1,
{
    let divider = gcd(numerator, denominator);
    let reduced = (numerator / divider, denominator / divider);
    proof {
        lemma_reduced_in_lowest_terms(numerator as int, denominator as int);
    }
    reduced
}

/// Dividing two numbers by the value of [`gcd_of`] keeps the fraction's
/// value and leaves nothing more to divide out.
pub proof fn lemma_reduced_in_lowest_terms(a: int, b: int)
    requires
        a >= 0,
        b >= 0,
    ensures
        (a / gcd_of(a, b)) * b == (b / gcd_of(a, b)) * a,
        gcd_of(a / gcd_of(a, b), b / gcd_of(a, b)) == 1,
{
    let g = gcd_of(a, b);
    let p = a / g;
    let q = b / g;
    if a > 0 && b > 0 {
        lemma_gcd_exists(a, b);
        lemma_divides_quotient(g, a);
        lemma_divides_quotient(g, b);
        assert(p * b == q * a) by (nonlinear_arith)
            requires
                a == g * p,
                b == g * q,
        ;
        assert(p > 0 && q > 0) by (nonlinear_arith)
            requires
                a == g * p,
                b == g * q,
                a > 0,
                b > 0,
                g > 0,
        ;
        lemma_divides_basics(1, p);
        lemma_divides_basics(1, q);
        assert forall|d: int| divides(d, p) && divides(d, q) implies d <= 1 by {
            lemma_divides_scale(g, d, p);
            lemma_divides_scale(g, d, q);
            assert(g * d <= g);
            assert(d <= 1) by (nonlinear_arith)
                requires
                    g * d <= g,
                    g > 0,
            ;
        }
        assert(is_gcd(1, p, q));
        lemma_gcd_exists(p, q);
    } else {
        assert(p * b == q * a) by (nonlinear_arith)
            requires
                p == a,
                q == b,
        ;
    }
}

/// Two positive numbers have a greatest common divisor, and [`gcd_of`] is it.
pub proof fn lemma_gcd_exists(a: int, b: int)
    requires
        a > 0,
        b > 0,
    ensures
        is_gcd(gcd_of(a, b), a, b),
{
    let (g, x, y) = lemma_bezout(a, b);
    assert forall|d: int| divides(d, a) && divides(d, b) implies d <= g by {
        lemma_divides_combination(d, a, b, x, y);
        lemma_divisor_at_most(d, g);
    }
    assert(is_gcd(g, a, b));
}

/// The greatest common divisor does not depend on the order of its
/// arguments.
pub proof fn lemma_gcd_commutative(a: int, b: int)
    ensures
        gcd_of(a, b) == gcd_of(b, a),
{
    if a > 0 && b > 0 {
        lemma_gcd_exists(a, b);
        lemma_gcd_exists(b, a);
        assert(is_gcd(gcd_of(b, a), a, b));
        lemma_gcd_unique(gcd_of(a, b), gcd_of(b, a), a, b);
    }
}

/// Every common divisor of two positive numbers divides their greatest
/// common divisor.
pub proof fn lemma_common_divisor_divides_gcd(a: int, b: int, d: int)
    requires
        a > 0,
        b > 0,
        divides(d, a),
        divides(d, b),
    ensures
        divides(d, gcd_of(a, b)),
{
    lemma_gcd_exists(a, b);
    lemma_gcd_absorbs(gcd_of(a, b), a, b, d);
}

} // verus!
