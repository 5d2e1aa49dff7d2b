//! The merge walk over two factor lists: what it yields on any pair of lists,
//! and what that means when both lists are ascending lists of primes.

use crate::divisibility::{
    divides, is_prime, lemma_coprime_cancel, lemma_divides_basics, lemma_divides_cancel,
    lemma_divides_quotient, lemma_divides_scale, lemma_divides_transitive, lemma_divisor_at_most,
    lemma_multiple_divides, lemma_prime_coprime,
};
use crate::factors::{
    all_positive, all_prime, is_ascending, lemma_prime_divisor_occurs, lemma_primes_are_positive,
    lemma_product_at_least_one, lemma_product_front, product,
};
use vstd::multiset::lemma_intersection_count;
use vstd::prelude::*;
use vstd::seq_lib::{group_to_multiset_ensures, to_multiset_remove};

verus! {

/// What the merge walk over `l` and `r` emits: both lists are read from the
/// front; equal heads are emitted once and both dropped, otherwise the
/// smaller head is dropped; the walk ends when either list is exhausted.
pub open spec fn merge_common(l: Seq<u64>, r: Seq<u64>) -> Seq<u64>
    decreases l.len() + r.len(),
{
    if l.len() == 0 || r.len() == 0 {
        Seq::empty()
    } else if l[0] == r[0] {
        seq![l[0]] + merge_common(l.skip(1), r.skip(1))
    } else if l[0] < r[0] {
        merge_common(l.skip(1), r)
    } else {
        merge_common(l, r.skip(1))
    }
}

/// How often `v` occurs in `s`.
pub open spec fn occurrences(s: Seq<u64>, v: u64) -> nat {
    s.to_multiset().count(v)
}

/// Dropping the head of a list keeps what holds of all its elements.
pub proof fn lemma_tail_inherits(s: Seq<u64>)
    requires
        s.len() > 0,
    ensures
        is_ascending(s) ==> is_ascending(s.skip(1)),
        all_positive(s) ==> all_positive(s.skip(1)),
        all_prime(s) ==> all_prime(s.skip(1)),
        forall|x: u64| s.skip(1).contains(x) ==> s.contains(x),
{
    let t = s.skip(1);
    assert forall|i: int| 0 <= i < t.len() implies t[i] == s[i + 1] by {}
    if is_ascending(s) {
        assert forall|i: int, j: int| 0 <= i <= j < t.len() implies t[i] <= t[j] by {
            assert(s[i + 1] <= s[j + 1]);
        }
    }
    if all_positive(s) {
        assert forall|i: int| 0 <= i < t.len() implies #[trigger] t[i] > 0 by {
            assert(s[i + 1] > 0);
        }
    }
    if all_prime(s) {
        assert forall|i: int| 0 <= i < t.len() implies is_prime(#[trigger] t[i] as int) by {
            assert(is_prime(s[i + 1] as int));
        }
    }
    assert forall|x: u64| t.contains(x) implies s.contains(x) by {
        let i = choose|i: int| 0 <= i < t.len() && t[i] == x;
        assert(s[i + 1] == x);
    }
}

/// The head of a list counts once, on top of what the tail holds.
pub proof fn lemma_occurrences_front(s: Seq<u64>, v: u64)
    requires
        s.len() > 0,
    ensures
        occurrences(s, v) == occurrences(s.skip(1), v) + if v == s[0] { 1nat } else { 0nat },
{
    broadcast use group_to_multiset_ensures;

    assert(s.remove(0) =~= s.skip(1));
    to_multiset_remove(s, 0);
    assert(s.contains(s[0]));
}

/// A value below the head of an ascending list does not occur in it.
pub proof fn lemma_below_head_absent(s: Seq<u64>, v: u64)
    requires
        is_ascending(s),
        s.len() > 0 ==> v < s[0],
    ensures
        occurrences(s, v) == 0,
{
    broadcast use group_to_multiset_ensures;

    if s.contains(v) {
        let i = choose|i: int| 0 <= i < s.len() && s[i] == v;
        assert(s[0] <= s[i]);
    }
}

/// Every element that the merge walk emits occurs in both lists.
pub proof fn lemma_common_members(l: Seq<u64>, r: Seq<u64>)
    ensures
        forall|k: int|
            0 <= k < merge_common(l, r).len() ==> l.contains(#[trigger] merge_common(l, r)[k])
                && r.contains(merge_common(l, r)[k]),
    decreases l.len() + r.len(),
{
    let c = merge_common(l, r);
    if l.len() == 0 || r.len() == 0 {
    } else if l[0] == r[0] {
        let rest = merge_common(l.skip(1), r.skip(1));
        lemma_common_members(l.skip(1), r.skip(1));
        lemma_tail_inherits(l);
        lemma_tail_inherits(r);
        assert forall|k: int| 0 <= k < c.len() implies l.contains(#[trigger] c[k]) && r.contains(
            c[k],
        ) by {
            if k == 0 {
                assert(l[0] == c[0] && r[0] == c[0]);
            } else {
                assert(c[k] == rest[k - 1]);
            }
        }
    } else if l[0] < r[0] {
        lemma_common_members(l.skip(1), r);
        lemma_tail_inherits(l);
        assert forall|k: int| 0 <= k < c.len() implies l.contains(#[trigger] c[k]) && r.contains(
            c[k],
        ) by {
            assert(l.skip(1).contains(merge_common(l.skip(1), r)[k]));
        }
    } else {
        lemma_common_members(l, r.skip(1));
        lemma_tail_inherits(r);
        assert forall|k: int| 0 <= k < c.len() implies l.contains(#[trigger] c[k]) && r.contains(
            c[k],
        ) by {
            assert(r.skip(1).contains(merge_common(l, r.skip(1))[k]));
        }
    }
}

/// The merge walk over lists of primes emits primes only.
pub proof fn lemma_common_of_primes(l: Seq<u64>, r: Seq<u64>)
    requires
        all_prime(l),
    ensures
        all_prime(merge_common(l, r)),
        all_positive(merge_common(l, r)),
{
    let c = merge_common(l, r);
    lemma_common_members(l, r);
    assert forall|k: int| 0 <= k < c.len() implies is_prime(#[trigger] c[k] as int) by {
        assert(l.contains(c[k]));
        let i = choose|i: int| 0 <= i < l.len() && l[i] == c[k];
        assert(is_prime(l[i] as int));
    }
    lemma_primes_are_positive(c);
}

/// The merge walk over ascending lists emits an ascending list.
pub proof fn lemma_common_ascending(l: Seq<u64>, r: Seq<u64>)
    requires
        is_ascending(l),
        is_ascending(r),
    ensures
        is_ascending(merge_common(l, r)),
    decreases l.len() + r.len(),
{
    let c = merge_common(l, r);
    if l.len() == 0 || r.len() == 0 {
    } else if l[0] == r[0] {
        let rest = merge_common(l.skip(1), r.skip(1));
        lemma_tail_inherits(l);
        lemma_tail_inherits(r);
        lemma_common_ascending(l.skip(1), r.skip(1));
        lemma_common_members(l.skip(1), r.skip(1));
        assert forall|i: int, j: int| 0 <= i <= j < c.len() implies c[i] <= c[j] by {
            if i == 0 && j > 0 {
                assert(c[j] == rest[j - 1]);
                assert(l.contains(rest[j - 1]));
                let m = choose|m: int| 0 <= m < l.len() && l[m] == rest[j - 1];
                assert(l[0] <= l[m]);
            } else if i > 0 {
                assert(c[i] == rest[i - 1] && c[j] == rest[j - 1]);
            }
        }
    } else if l[0] < r[0] {
        lemma_tail_inherits(l);
        lemma_common_ascending(l.skip(1), r);
    } else {
        lemma_tail_inherits(r);
        lemma_common_ascending(l, r.skip(1));
    }
}

/// On ascending lists the merge walk emits each value as often as it occurs
/// in both lists: the multiset intersection.
pub proof fn lemma_common_is_intersection(l: Seq<u64>, r: Seq<u64>)
    requires
        is_ascending(l),
        is_ascending(r),
    ensures
        merge_common(l, r).to_multiset() == l.to_multiset().intersection_with(r.to_multiset()),
    decreases l.len() + r.len(),
{
    let c = merge_common(l, r);
    let both = l.to_multiset().intersection_with(r.to_multiset());
    assert forall|v: u64| c.to_multiset().count(v) == both.count(v) by {
        lemma_common_occurrences(l, r, v);
        lemma_intersection_count(l.to_multiset(), r.to_multiset(), v);
    }
    assert(c.to_multiset() =~= both);
}

/// On ascending lists the merge walk emits `v` as often as the list that
/// holds fewer of it.
pub proof fn lemma_common_occurrences(l: Seq<u64>, r: Seq<u64>, v: u64)
    requires
        is_ascending(l),
        is_ascending(r),
    ensures
        occurrences(merge_common(l, r), v) == if occurrences(l, v) <= occurrences(r, v) {
            occurrences(l, v)
        } else {
            occurrences(r, v)
        },
    decreases l.len() + r.len(),
{
    broadcast use group_to_multiset_ensures;

    let c = merge_common(l, r);
    if l.len() == 0 || r.len() == 0 {
        assert(!c.contains(v));
        if l.len() == 0 {
            assert(!l.contains(v));
        } else {
            assert(!r.contains(v));
        }
    } else if l[0] == r[0] {
        lemma_tail_inherits(l);
        lemma_tail_inherits(r);
        lemma_common_occurrences(l.skip(1), r.skip(1), v);
        lemma_occurrences_front(l, v);
        lemma_occurrences_front(r, v);
        lemma_occurrences_front(c, v);
        assert(c.skip(1) =~= merge_common(l.skip(1), r.skip(1)));
    } else if l[0] < r[0] {
        lemma_tail_inherits(l);
        lemma_common_occurrences(l.skip(1), r, v);
        lemma_occurrences_front(l, v);
        if v == l[0] {
            lemma_below_head_absent(r, v);
        }
    } else {
        lemma_tail_inherits(r);
        lemma_common_occurrences(l, r.skip(1), v);
        lemma_occurrences_front(r, v);
        if v == r[0] {
            lemma_below_head_absent(l, v);
        }
    }
}

/// The product of what the merge walk emits divides the products of both
/// lists.
pub proof fn lemma_common_divides(l: Seq<u64>, r: Seq<u64>)
    requires
        all_positive(l),
        all_positive(r),
    ensures
        divides(product(merge_common(l, r)), product(l)),
        divides(product(merge_common(l, r)), product(r)),
    decreases l.len() + r.len(),
{
    let c = merge_common(l, r);
    lemma_product_at_least_one(l);
    lemma_product_at_least_one(r);
    if l.len() == 0 || r.len() == 0 {
        lemma_divides_basics(1, product(l));
        lemma_divides_basics(1, product(r));
    } else if l[0] == r[0] {
        let x = l[0] as int;
        let rest = merge_common(l.skip(1), r.skip(1));
        lemma_tail_inherits(l);
        lemma_tail_inherits(r);
        lemma_common_divides(l.skip(1), r.skip(1));
        lemma_product_front(l);
        lemma_product_front(r);
        lemma_product_front(c);
        assert(c.skip(1) =~= rest);
        lemma_divides_scale(x, product(rest), product(l.skip(1)));
        lemma_divides_scale(x, product(rest), product(r.skip(1)));
    } else if l[0] < r[0] {
        lemma_tail_inherits(l);
        lemma_common_divides(l.skip(1), r);
        lemma_product_front(l);
        lemma_product_at_least_one(l.skip(1));
        lemma_multiple_divides(product(l.skip(1)), l[0] as int);
        lemma_divides_transitive(product(c), product(l.skip(1)), product(l));
    } else {
        lemma_tail_inherits(r);
        lemma_common_divides(l, r.skip(1));
        lemma_product_front(r);
        lemma_product_at_least_one(r.skip(1));
        lemma_multiple_divides(product(r.skip(1)), r[0] as int);
        lemma_divides_transitive(product(c), product(r.skip(1)), product(r));
    }
}

/// A number that divides `p * m`, where the prime `p` does not divide the
/// product of the ascending list of primes `other` although the number
/// divides that product too, divides `m`.
proof fn lemma_drop_foreign_prime(d: int, p: u64, m: int, other: Seq<u64>)
    requires
        is_prime(p as int),
        all_prime(other),
        is_ascending(other),
        other.len() > 0 ==> p < other[0],
        divides(d, p * m),
        divides(d, product(other)),
    ensures
        divides(d, m),
{
    if divides(p as int, d) {
        lemma_divides_transitive(p as int, d, product(other));
        let i = lemma_prime_divisor_occurs(p as int, other);
        assert(other[0] <= other[i]);
    }
    lemma_prime_coprime(p as int, d);
    lemma_coprime_cancel(d, p as int, m);
}

/// Every common divisor of the products of two ascending lists of primes
/// divides the product of what the merge walk emits.
pub proof fn lemma_common_absorbs(l: Seq<u64>, r: Seq<u64>, d: int)
    requires
        all_prime(l),
        all_prime(r),
        is_ascending(l),
        is_ascending(r),
        divides(d, product(l)),
        divides(d, product(r)),
    ensures
        divides(d, product(merge_common(l, r))),
    decreases l.len() + r.len(),
{
    let c = merge_common(l, r);
    if l.len() == 0 || r.len() == 0 {
        lemma_divisor_at_most(d, 1);
        lemma_divides_basics(1, 1);
    } else {
        lemma_tail_inherits(l);
        lemma_tail_inherits(r);
        lemma_product_front(l);
        lemma_product_front(r);
        let lt = l.skip(1);
        let rt = r.skip(1);
        if l[0] == r[0] {
            let p = l[0] as int;
            let rest = merge_common(lt, rt);
            assert(is_prime(l[0] as int));
            lemma_product_front(c);
            assert(c.skip(1) =~= rest);
            lemma_common_of_primes(lt, rt);
            lemma_product_at_least_one(rest);
            if divides(p, d) {
                let e = d / p;
                lemma_divides_quotient(p, d);
                assert(e > 0) by (nonlinear_arith)
                    requires
                        d == p * e,
                        d > 0,
                        p > 0,
                ;
                lemma_divides_cancel(p, e, product(lt));
                lemma_divides_cancel(p, e, product(rt));
                lemma_common_absorbs(lt, rt, e);
                lemma_divides_scale(p, e, product(rest));
            } else {
                lemma_prime_coprime(p, d);
                lemma_coprime_cancel(d, p, product(lt));
                lemma_coprime_cancel(d, p, product(rt));
                lemma_common_absorbs(lt, rt, d);
                lemma_multiple_divides(product(rest), p);
                lemma_divides_transitive(d, product(rest), product(c));
            }
        } else if l[0] < r[0] {
            assert(is_prime(l[0] as int));
            lemma_drop_foreign_prime(d, l[0], product(lt), r);
            lemma_common_absorbs(lt, r, d);
        } else {
            assert(is_prime(r[0] as int));
            lemma_drop_foreign_prime(d, r[0], product(rt), l);
            lemma_common_absorbs(l, rt, d);
        }
    }
}

} // verus!
