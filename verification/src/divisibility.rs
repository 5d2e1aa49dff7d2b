//! Divisibility and primality over the mathematical integers, together with
//! the classical lemmas that the factor-list arguments rest on.

use vstd::arithmetic::div_mod::{
    lemma_fundamental_div_mod, lemma_mod_multiples_basic, lemma_mod_self_0, lemma_small_mod,
};
use vstd::prelude::*;

verus! {

/// `d` is a positive divisor of `n`.
pub open spec fn divides(d: int, n: int) -> bool {
    d > 0 && n % d == 0
}

/// `p` is at least two and has no divisor strictly between one and itself.
pub open spec fn is_prime(p: int) -> bool {
    p >= 2 && forall|d: int| 2 <= d < p ==> !#[trigger] divides(d, p)
}

/// `a` and `b` have no common divisor other than one.
pub open spec fn coprime(a: int, b: int) -> bool {
    forall|c: int|
        #![trigger divides(c, a)]
        #![trigger divides(c, b)]
        divides(c, a) && divides(c, b) ==> c == 1
}

/// `g` divides both `a` and `b`, and no common divisor of the two is larger.
pub open spec fn is_gcd(g: int, a: int, b: int) -> bool {
    &&& divides(g, a)
    &&& divides(g, b)
    &&& forall|d: int|
        #![trigger divides(d, a)]
        #![trigger divides(d, b)]
        divides(d, a) && divides(d, b) ==> d <= g
}

/// A dividend is its divisor times the quotient.
pub proof fn lemma_divides_quotient(d: int, n: int)
    requires
        divides(d, n),
    ensures
        n == d * (n / d),
{
    lemma_fundamental_div_mod(n, d);
}

/// Every multiple of a positive number is divisible by it.
pub proof fn lemma_multiple_divides(d: int, k: int)
    requires
        d > 0,
    ensures
        divides(d, d * k),
        divides(d, k * d),
{
    lemma_mod_multiples_basic(k, d);
    assert(d * k == k * d) by (nonlinear_arith);
}

/// Every positive number divides itself and zero, and one divides everything.
pub proof fn lemma_divides_basics(d: int, n: int)
    requires
        d > 0,
    ensures
        divides(d, d),
        divides(d, 0),
        divides(1, n),
{
    lemma_mod_self_0(d);
    lemma_small_mod(0, d as nat);
}

/// Divisibility is transitive.
pub proof fn lemma_divides_transitive(a: int, b: int, c: int)
    requires
        divides(a, b),
        divides(b, c),
    ensures
        divides(a, c),
{
    let j = b / a;
    let k = c / b;
    lemma_divides_quotient(a, b);
    lemma_divides_quotient(b, c);
    assert(c == a * (j * k)) by (nonlinear_arith)
        requires
            b == a * j,
            c == b * k,
    ;
    lemma_multiple_divides(a, j * k);
}

/// A divisor of a positive number is no larger than that number.
pub proof fn lemma_divisor_at_most(d: int, n: int)
    requires
        divides(d, n),
        n > 0,
    ensures
        d <= n,
{
    let k = n / d;
    lemma_divides_quotient(d, n);
    assert(d <= n) by (nonlinear_arith)
        requires
            n == d * k,
            d > 0,
            n > 0,
    ;
}

/// A common divisor of two numbers divides each of their integer combinations.
pub proof fn lemma_divides_combination(d: int, a: int, b: int, x: int, y: int)
    requires
        divides(d, a),
        divides(d, b),
    ensures
        divides(d, x * a + y * b),
{
    let j = a / d;
    let k = b / d;
    lemma_divides_quotient(d, a);
    lemma_divides_quotient(d, b);
    assert(x * a + y * b == d * (x * j + y * k)) by (nonlinear_arith)
        requires
            a == d * j,
            b == d * k,
    ;
    lemma_multiple_divides(d, x * j + y * k);
}

/// Dividing both sides: if `c * d` divides `c * n` then `d` divides `n`.
pub proof fn lemma_divides_cancel(c: int, d: int, n: int)
    requires
        c > 0,
        d > 0,
        divides(c * d, c * n),
    ensures
        divides(d, n),
{
    let k = (c * n) / (c * d);
    lemma_divides_quotient(c * d, c * n);
    assert(n == d * k) by (nonlinear_arith)
        requires
            c * n == (c * d) * k,
            c > 0,
    ;
    lemma_multiple_divides(d, k);
}

/// Multiplying both sides: if `d` divides `n` then `c * d` divides `c * n`.
pub proof fn lemma_divides_scale(c: int, d: int, n: int)
    requires
        c > 0,
        divides(d, n),
    ensures
        divides(c * d, c * n),
{
    let k = n / d;
    lemma_divides_quotient(d, n);
    assert(c * n == (c * d) * k && c * d > 0) by (nonlinear_arith)
        requires
            n == d * k,
            c > 0,
            d > 0,
    ;
    lemma_multiple_divides(c * d, k);
}

/// Every number from two upward has a prime divisor.
pub proof fn lemma_prime_divisor(n: int) -> (p: int)
    requires
        n >= 2,
    ensures
        is_prime(p),
        divides(p, n),
        p <= n,
    decreases n,
{
    if is_prime(n) {
        lemma_divides_basics(n, n);
        n
    } else {
        let d = choose|d: int| 2 <= d < n && divides(d, n);
        let p = lemma_prime_divisor(d);
        lemma_divides_transitive(p, d, n);
        p
    }
}

/// Bezout's identity: two naturals, not both zero, have a positive common
/// divisor that is an integer combination of them. The witnesses follow
/// Euclid's algorithm.
pub proof fn lemma_bezout(a: int, b: int) -> (r: (int, int, int))
    requires
        a >= 0,
        b >= 0,
        a + b > 0,
    ensures
        divides(r.0, a),
        divides(r.0, b),
        r.0 == r.1 * a + r.2 * b,
    decreases b,
{
    if b == 0 {
        lemma_divides_basics(a, a);
        (a, 1, 0)
    } else {
        let q = a / b;
        let m = a % b;
        lemma_fundamental_div_mod(a, b);
        let (g, x, y) = lemma_bezout(b, m);
        lemma_divides_combination(g, b, m, q, 1);
        assert(q * b + 1 * m == a) by (nonlinear_arith)
            requires
                a == b * q + m,
        ;
        assert(g == y * a + (x - y * q) * b) by (nonlinear_arith)
            requires
                g == x * b + y * m,
                a == b * q + m,
        ;
        (g, y, x - y * q)
    }
}

/// Every common divisor of two numbers divides their greatest common divisor.
pub proof fn lemma_gcd_absorbs(g: int, a: int, b: int, d: int)
    requires
        a > 0,
        b > 0,
        is_gcd(g, a, b),
        divides(d, a),
        divides(d, b),
    ensures
        divides(d, g),
{
    let (h, x, y) = lemma_bezout(a, b);
    lemma_divides_combination(g, a, b, x, y);
    lemma_divisor_at_most(g, h);
    assert(g == h);
    lemma_divides_combination(d, a, b, x, y);
}

/// Two numbers have at most one greatest common divisor.
pub proof fn lemma_gcd_unique(g: int, h: int, a: int, b: int)
    requires
        is_gcd(g, a, b),
        is_gcd(h, a, b),
    ensures
        g == h,
{
}

/// Gauss's lemma: a number that divides a product and is coprime to one
/// factor divides the other factor.
pub proof fn lemma_coprime_cancel(d: int, c: int, m: int)
    requires
        d > 0,
        c > 0,
        coprime(d, c),
        divides(d, c * m),
    ensures
        divides(d, m),
{
    let (g, x, y) = lemma_bezout(d, c);
    assert(g == 1);
    let k = (c * m) / d;
    lemma_divides_quotient(d, c * m);
    assert(m == (x * d + y * c) * m);
    assert((x * d + y * c) * m == d * (x * m) + y * (c * m)) by (nonlinear_arith);
    assert(d * (x * m) + y * (d * k) == d * (x * m + y * k)) by (nonlinear_arith);
    lemma_multiple_divides(d, x * m + y * k);
}

/// A prime is coprime to every number that it does not divide.
pub proof fn lemma_prime_coprime(p: int, a: int)
    requires
        is_prime(p),
        !divides(p, a),
    ensures
        coprime(p, a),
        coprime(a, p),
{
    assert forall|c: int| divides(c, p) && divides(c, a) implies c == 1 by {
        lemma_divisor_at_most(c, p);
    }
}

/// Euclid's lemma: a prime that divides a product divides one of the factors.
pub proof fn lemma_prime_divides_product(p: int, a: int, b: int)
    requires
        is_prime(p),
        a > 0,
        divides(p, a * b),
    ensures
        divides(p, a) || divides(p, b),
{
    if !divides(p, a) {
        lemma_prime_coprime(p, a);
        lemma_coprime_cancel(p, a, b);
    }
}

/// A prime that divides another prime equals it.
pub proof fn lemma_prime_divides_prime(p: int, q: int)
    requires
        is_prime(p),
        is_prime(q),
        divides(p, q),
    ensures
        p == q,
{
    lemma_divisor_at_most(p, q);
}

} // verus!
