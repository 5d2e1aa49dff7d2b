//! Factor lists: finite sequences of machine integers read as multisets of
//! factors, their products, and the uniqueness of prime factorizations.

use crate::divisibility::{
    divides, is_prime, lemma_divides_transitive, lemma_divisor_at_most, lemma_multiple_divides,
    lemma_prime_divides_prime, lemma_prime_divides_product,
};
use vstd::prelude::*;

verus! {

/// The product of all elements of `s`; the empty product is one.
pub open spec fn product(s: Seq<u64>) -> int
    decreases s.len(),
{
    if s.len() == 0 {
        1
    } else {
        product(s.drop_last()) * s.last()
    }
}

/// No element of `s` is smaller than an earlier one.
pub open spec fn is_ascending(s: Seq<u64>) -> bool {
    forall|i: int, j: int| 0 <= i <= j < s.len() ==> s[i] <= s[j]
}

/// Every element of `s` is nonzero.
pub open spec fn all_positive(s: Seq<u64>) -> bool {
    forall|i: int| 0 <= i < s.len() ==> #[trigger] s[i] > 0
}

/// Every element of `s` is a prime number.
pub open spec fn all_prime(s: Seq<u64>) -> bool {
    forall|i: int| 0 <= i < s.len() ==> is_prime(#[trigger] s[i] as int)
}

/// `s` lists the prime factors of `n` with multiplicity, smallest first.
pub open spec fn is_prime_factorization(s: Seq<u64>, n: int) -> bool {
    &&& all_prime(s)
    &&& is_ascending(s)
    &&& product(s) == n
}

/// Appending an element multiplies the product by it.
pub proof fn lemma_product_push(s: Seq<u64>, x: u64)
    ensures
        product(s.push(x)) == product(s) * x,
{
    assert(s.push(x).drop_last() =~= s);
}

/// The product of a concatenation is the product of the parts' products.
pub proof fn lemma_product_concat(a: Seq<u64>, b: Seq<u64>)
    ensures
        product(a + b) == product(a) * product(b),
    decreases b.len(),
{
    if b.len() == 0 {
        assert(a + b =~= a);
    } else {
        lemma_product_concat(a, b.drop_last());
        assert((a + b).drop_last() =~= a + b.drop_last());
        let x = product(a);
        let y = product(b.drop_last());
        let z = b.last() as int;
        assert((x * y) * z == x * (y * z)) by (nonlinear_arith);
    }
}

/// The product of a nonempty list is its head times the product of its tail.
pub proof fn lemma_product_front(s: Seq<u64>)
    requires
        s.len() > 0,
    ensures
        product(s) == s[0] * product(s.skip(1)),
{
    let head = Seq::<u64>::empty().push(s[0]);
    lemma_product_push(Seq::<u64>::empty(), s[0]);
    assert(product(Seq::<u64>::empty()) == 1);
    assert(s =~= head + s.skip(1));
    lemma_product_concat(head, s.skip(1));
}

/// A list of nonzero elements has a positive product, and so has each of
/// its prefixes, whose product is no larger than that of the whole list.
pub proof fn lemma_product_of_prefix(s: Seq<u64>, k: int)
    requires
        all_positive(s),
        0 <= k <= s.len(),
    ensures
        1 <= product(s.take(k)) <= product(s),
    decreases s.len() - k,
{
    if k == s.len() {
        assert(s.take(k) =~= s);
        lemma_product_at_least_one(s);
    } else {
        lemma_product_of_prefix(s, k + 1);
        assert(s.take(k + 1).drop_last() =~= s.take(k));
        let x = product(s.take(k));
        let y = s[k] as int;
        lemma_product_at_least_one(s.take(k));
        assert(x <= x * y) by (nonlinear_arith)
            requires
                x >= 1,
                y >= 1,
        ;
    }
}

/// A list of nonzero elements has a product of at least one.
pub proof fn lemma_product_at_least_one(s: Seq<u64>)
    requires
        all_positive(s),
    ensures
        product(s) >= 1,
    decreases s.len(),
{
    if s.len() > 0 {
        lemma_product_at_least_one(s.drop_last());
        let x = product(s.drop_last());
        let y = s.last() as int;
        assert(x * y >= 1) by (nonlinear_arith)
            requires
                x >= 1,
                y >= 1,
        ;
    }
}

/// Every element of a list of nonzero elements divides the list's product.
pub proof fn lemma_element_divides_product(s: Seq<u64>, i: int)
    requires
        all_positive(s),
        0 <= i < s.len(),
    ensures
        divides(s[i] as int, product(s)),
    decreases s.len(),
{
    let rest = s.drop_last();
    lemma_product_at_least_one(rest);
    if i == s.len() - 1 {
        lemma_multiple_divides(s.last() as int, product(rest));
    } else {
        lemma_element_divides_product(rest, i);
        lemma_multiple_divides(product(rest), s.last() as int);
        lemma_divides_transitive(s[i] as int, product(rest), product(s));
    }
}

/// A prime that divides the product of a list of primes occurs in the list.
pub proof fn lemma_prime_divisor_occurs(p: int, s: Seq<u64>) -> (i: int)
    requires
        is_prime(p),
        all_prime(s),
        divides(p, product(s)),
    ensures
        0 <= i < s.len(),
        s[i] == p,
    decreases s.len(),
{
    if s.len() == 0 {
        lemma_divisor_at_most(p, 1);
        0
    } else {
        let rest = s.drop_last();
        let q = s.last() as int;
        assert(all_positive(rest)) by {
            assert forall|k: int| 0 <= k < rest.len() implies #[trigger] rest[k] > 0 by {
                assert(is_prime(s[k] as int));
            }
        }
        lemma_product_at_least_one(rest);
        lemma_prime_divides_product(p, product(rest), q);
        if divides(p, q) {
            lemma_prime_divides_prime(p, q);
            s.len() - 1
        } else {
            lemma_prime_divisor_occurs(p, rest)
        }
    }
}

/// Primes are nonzero.
pub proof fn lemma_primes_are_positive(s: Seq<u64>)
    requires
        all_prime(s),
    ensures
        all_positive(s),
{
    assert forall|k: int| 0 <= k < s.len() implies #[trigger] s[k] > 0 by {
        assert(is_prime(s[k] as int));
    }
}

/// The fundamental theorem of arithmetic, uniqueness half: two ascending
/// lists of primes with the same product are the same list.
pub proof fn lemma_factorization_unique(s: Seq<u64>, t: Seq<u64>, n: int)
    requires
        is_prime_factorization(s, n),
        is_prime_factorization(t, n),
    ensures
        s == t,
    decreases s.len(),
{
    lemma_primes_are_positive(s);
    lemma_primes_are_positive(t);
    if s.len() == 0 || t.len() == 0 {
        if s.len() > 0 {
            lemma_element_divides_product(s, 0);
            lemma_divisor_at_most(s[0] as int, 1);
        }
        if t.len() > 0 {
            lemma_element_divides_product(t, 0);
            lemma_divisor_at_most(t[0] as int, 1);
        }
        assert(s =~= t);
    } else {
        let x = s.last();
        let y = t.last();
        lemma_element_divides_product(s, s.len() - 1);
        lemma_element_divides_product(t, t.len() - 1);
        let i = lemma_prime_divisor_occurs(x as int, t);
        let j = lemma_prime_divisor_occurs(y as int, s);
        assert(x == y);
        let a = product(s.drop_last());
        let b = product(t.drop_last());
        assert(a == b) by (nonlinear_arith)
            requires
                a * x == b * x,
                x > 0,
        ;
        lemma_factorization_unique(s.drop_last(), t.drop_last(), a);
        assert(s =~= s.drop_last().push(x));
        assert(t =~= t.drop_last().push(y));
    }
}

} // verus!
