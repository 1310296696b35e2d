//! Polynomials over GF(2) as coefficient sequences: `p[k]` is the coefficient of `x^k`.
//! Every operation keeps the width `p.len()` fixed; terms shifted past it are lost.
use vstd::prelude::*;

verus! {

/// Index of the highest set coefficient below `k`, or -1 when there is none.
pub open spec fn top_below(p: Seq<bool>, k: int) -> int
    decreases k,
{
    if k <= 0 {
        -1
    } else if p[k - 1] {
        k - 1
    } else {
        top_below(p, k - 1)
    }
}

/// Degree of `p`; -1 for the zero polynomial.
pub open spec fn degree(p: Seq<bool>) -> int {
    top_below(p, p.len() as int)
}

pub open spec fn is_zero(p: Seq<bool>) -> bool {
    forall|k: int| 0 <= k < p.len() ==> !p[k]
}

/// Sum (equally, difference) of two polynomials: coefficient-wise exclusive or.
pub open spec fn xor(p: Seq<bool>, q: Seq<bool>) -> Seq<bool> {
    Seq::new(p.len(), |k: int| p[k] != q[k])
}

/// `p * x^n`, truncated to the width of `p`.
pub open spec fn shift_left(p: Seq<bool>, n: int) -> Seq<bool> {
    Seq::new(p.len(), |k: int| k >= n && p[k - n])
}

/// `p` and `q` have the same coefficients above index `k`.
pub open spec fn agree_above(p: Seq<bool>, q: Seq<bool>, k: int) -> bool {
    forall|j: int| k < j < p.len() ==> p[j] == q[j]
}

/// `p` has a term that `q` lacks, above which the two agree: read as big-endian
/// binary numbers, `p` is the greater.
pub open spec fn more_significant(p: Seq<bool>, q: Seq<bool>) -> bool {
    exists|k: int| 0 <= k < p.len() && p[k] && !q[k] && #[trigger] agree_above(p, q, k)
}

/// One step of long division: cancel the leading term of `a` with `b` aligned under it.
pub open spec fn reduce_step(a: Seq<bool>, b: Seq<bool>) -> Seq<bool> {
    xor(a, shift_left(b, degree(a) - degree(b)))
}

/// The remainder of `a` modulo a nonzero `b` in GF(2)[x]: its degree is below that of `b`.
pub open spec fn poly_mod(a: Seq<bool>, b: Seq<bool>) -> Seq<bool>
    decreases degree(a) + 1,
    via poly_mod_decreases
{
    if degree(b) < 0 || a.len() != b.len() || degree(a) < degree(b) {
        a
    } else {
        poly_mod(reduce_step(a, b), b)
    }
}

#[via_fn]
proof fn poly_mod_decreases(a: Seq<bool>, b: Seq<bool>) {
    lemma_degree_range(a);
    if !(degree(b) < 0 || a.len() != b.len() || degree(a) < degree(b)) {
        lemma_reduce_step(a, b);
        lemma_degree_range(reduce_step(a, b));
    }
}

/// Long division as this library performs it: while `b` is not more significant than
/// the running value, cancel that value's leading term. The value left is congruent
/// to `a` modulo `b` and below `b` as a binary number (see `lemma_long_div_rem`).
pub open spec fn long_div_rem(a: Seq<bool>, b: Seq<bool>) -> Seq<bool>
    decreases degree(a) + 1,
    via long_div_rem_decreases
{
    if degree(b) < 0 || a.len() != b.len() || more_significant(b, a) {
        a
    } else {
        long_div_rem(reduce_step(a, b), b)
    }
}

#[via_fn]
proof fn long_div_rem_decreases(a: Seq<bool>, b: Seq<bool>) {
    lemma_degree_range(a);
    if !(degree(b) < 0 || a.len() != b.len() || more_significant(b, a)) {
        lemma_not_more_significant(b, a);
        lemma_reduce_step(a, b);
        lemma_degree_range(reduce_step(a, b));
    }
}

proof fn lemma_top_below(p: Seq<bool>, k: int)
    requires
        0 <= k <= p.len(),
    ensures
        -1 <= top_below(p, k) < k,
        top_below(p, k) >= 0 ==> p[top_below(p, k)],
        forall|j: int| top_below(p, k) < j < k ==> !p[j],
    decreases k,
{
    if k > 0 && !p[k - 1] {
        lemma_top_below(p, k - 1);
    }
}

/// The degree is the index of the highest set coefficient, or -1 when none is set.
pub proof fn lemma_degree_range(p: Seq<bool>)
    ensures
        -1 <= degree(p) < p.len(),
        degree(p) >= 0 ==> p[degree(p)],
        forall|j: int| degree(p) < j < p.len() ==> !p[j],
        degree(p) < 0 <==> is_zero(p),
{
    lemma_top_below(p, p.len() as int);
}

/// A set coefficient with nothing set above it is the degree.
pub proof fn lemma_degree_is(p: Seq<bool>, d: int)
    requires
        -1 <= d < p.len(),
        d >= 0 ==> p[d],
        forall|j: int| d < j < p.len() ==> !p[j],
    ensures
        degree(p) == d,
{
    lemma_degree_range(p);
}

/// Cancelling the leading term lowers the degree.
pub proof fn lemma_reduce_step(a: Seq<bool>, b: Seq<bool>)
    requires
        a.len() == b.len(),
        0 <= degree(b) <= degree(a),
    ensures
        reduce_step(a, b).len() == a.len(),
        degree(reduce_step(a, b)) < degree(a),
        shift_left(b, degree(a) - degree(b))[degree(a)],
        degree(shift_left(b, degree(a) - degree(b))) == degree(a),
{
    let s = shift_left(b, degree(a) - degree(b));
    let r = reduce_step(a, b);
    lemma_degree_range(a);
    lemma_degree_range(b);
    lemma_degree_is(s, degree(a));
    lemma_degree_range(r);
    assert forall|j: int| degree(a) <= j < r.len() implies !r[j] by {}
}

/// A nonzero `b` that is not more significant than `a` has no greater degree.
pub proof fn lemma_not_more_significant(b: Seq<bool>, a: Seq<bool>)
    requires
        a.len() == b.len(),
        degree(b) >= 0,
        !more_significant(b, a),
    ensures
        degree(a) >= degree(b),
{
    lemma_degree_range(a);
    lemma_degree_range(b);
    if degree(a) < degree(b) {
        assert(agree_above(b, a, degree(b)));
    }
}

/// Below a more significant `b`, nothing is set above the degree of `b`.
pub proof fn lemma_below_more_significant(b: Seq<bool>, x: Seq<bool>)
    requires
        x.len() == b.len(),
        more_significant(b, x),
    ensures
        forall|j: int| degree(b) < j < x.len() ==> !x[j],
        degree(x) <= degree(b),
{
    lemma_degree_range(b);
    lemma_degree_range(x);
    let k = choose|k: int| 0 <= k < b.len() && b[k] && !x[k] && #[trigger] agree_above(b, x, k);
    assert forall|j: int| degree(b) < j < x.len() implies !x[j] by {
        assert(b[j] == x[j]);
    }
}

/// The degree of a sum is at most the larger degree, and equals it when the two differ.
pub proof fn lemma_degree_xor(p: Seq<bool>, q: Seq<bool>)
    requires
        p.len() == q.len(),
    ensures
        degree(xor(p, q)) <= if degree(p) < degree(q) { degree(q) } else { degree(p) },
        degree(p) > degree(q) ==> degree(xor(p, q)) == degree(p),
        degree(q) > degree(p) ==> degree(xor(p, q)) == degree(q),
        degree(p) == degree(q) && degree(p) >= 0 ==> degree(xor(p, q)) < degree(p),
{
    lemma_degree_range(p);
    lemma_degree_range(q);
    let s = xor(p, q);
    lemma_degree_range(s);
    if degree(p) > degree(q) {
        lemma_degree_is(s, degree(p));
    } else if degree(q) > degree(p) {
        lemma_degree_is(s, degree(q));
    } else if degree(p) >= 0 {
        assert(!s[degree(p)]);
    }
}

/// Taking remainders commutes with addition.
pub proof fn lemma_mod_xor(a: Seq<bool>, c: Seq<bool>, b: Seq<bool>)
    requires
        a.len() == b.len(),
        c.len() == b.len(),
        degree(b) >= 0,
    ensures
        poly_mod(xor(a, c), b) == xor(poly_mod(a, b), poly_mod(c, b)),
    decreases (if degree(a) < degree(c) { degree(c) } else { degree(a) }) + 1,
{
    lemma_degree_range(a);
    lemma_degree_range(c);
    lemma_degree_xor(a, c);
    let s = xor(a, c);
    if degree(a) < degree(b) && degree(c) < degree(b) {
        assert(poly_mod(s, b) == s);
    } else if degree(a) > degree(c) {
        let a1 = reduce_step(a, b);
        lemma_reduce_step(a, b);
        lemma_mod_xor(a1, c, b);
        assert(reduce_step(s, b) =~= xor(a1, c));
    } else if degree(c) > degree(a) {
        let c1 = reduce_step(c, b);
        lemma_reduce_step(c, b);
        lemma_mod_xor(a, c1, b);
        assert(reduce_step(s, b) =~= xor(a, c1));
    } else {
        let a1 = reduce_step(a, b);
        let c1 = reduce_step(c, b);
        lemma_reduce_step(a, b);
        lemma_reduce_step(c, b);
        lemma_degree_range(a1);
        lemma_degree_range(c1);
        lemma_mod_xor(a1, c1, b);
        assert(xor(a1, c1) =~= s);
    }
}

/// Any in-width multiple `b * x^d` leaves no remainder.
pub proof fn lemma_mod_shifted(b: Seq<bool>, d: int)
    requires
        degree(b) >= 0,
        0 <= d,
        degree(b) + d < b.len(),
    ensures
        is_zero(poly_mod(shift_left(b, d), b)),
{
    let s = shift_left(b, d);
    lemma_degree_range(b);
    lemma_degree_is(s, degree(b) + d);
    let z = reduce_step(s, b);
    assert(z =~= xor(s, s));
    lemma_degree_range(z);
    assert(poly_mod(z, b) == z);
}

/// Remainders of congruent values agree; the value left by long division is congruent
/// to the dividend and below the divisor.
pub proof fn lemma_long_div_rem(a: Seq<bool>, b: Seq<bool>)
    requires
        a.len() == b.len(),
        degree(b) >= 0,
    ensures
        long_div_rem(a, b).len() == a.len(),
        poly_mod(long_div_rem(a, b), b) == poly_mod(a, b),
        more_significant(b, long_div_rem(a, b)),
    decreases degree(a) + 1,
{
    lemma_degree_range(a);
    if !more_significant(b, a) {
        lemma_not_more_significant(b, a);
        lemma_reduce_step(a, b);
        let d = degree(a) - degree(b);
        let a1 = reduce_step(a, b);
        lemma_degree_range(a1);
        lemma_long_div_rem(a1, b);
        lemma_mod_shifted(b, d);
        lemma_mod_xor(a, shift_left(b, d), b);
        lemma_degree_range(poly_mod(a, b));
        assert(xor(poly_mod(a, b), poly_mod(shift_left(b, d), b)) =~= poly_mod(a, b)) by {
            lemma_mod_len(a, b);
            lemma_mod_len(shift_left(b, d), b);
        }
    }
}

pub proof fn lemma_mod_len(a: Seq<bool>, b: Seq<bool>)
    requires
        a.len() == b.len(),
    ensures
        poly_mod(a, b).len() == a.len(),
    decreases degree(a) + 1,
{
    lemma_degree_range(a);
    if !(degree(b) < 0 || degree(a) < degree(b)) {
        lemma_reduce_step(a, b);
        lemma_degree_range(reduce_step(a, b));
        lemma_mod_len(reduce_step(a, b), b);
    }
}

/// A value below `b` that leaves no remainder is zero.
pub proof fn lemma_below_and_divisible(x: Seq<bool>, b: Seq<bool>)
    requires
        x.len() == b.len(),
        degree(b) >= 0,
        more_significant(b, x),
        is_zero(poly_mod(x, b)),
    ensures
        is_zero(x),
{
    lemma_below_more_significant(b, x);
    lemma_degree_range(x);
    if degree(x) == degree(b) {
        let y = reduce_step(x, b);
        assert(shift_left(b, 0) =~= b);
        assert(y =~= xor(x, b));
        assert(poly_mod(x, b) == poly_mod(y, b));
        lemma_reduce_step(x, b);
        lemma_degree_range(y);
        assert(poly_mod(y, b) == y);
        assert(is_zero(y));
        assert forall|k: int| 0 <= k < x.len() implies x[k] == b[k] by {
            assert(!y[k]);
        }
        assert(x =~= b);
        assert(!more_significant(b, b));
    }
}

/// Index of the lowest set coefficient at or above `k`; `p.len()` when there is none.
pub open spec fn bottom_from(p: Seq<bool>, k: int) -> int
    decreases p.len() - k,
{
    if k < 0 || k >= p.len() {
        p.len() as int
    } else if p[k] {
        k
    } else {
        bottom_from(p, k + 1)
    }
}

pub proof fn lemma_bottom_from(p: Seq<bool>, k: int)
    requires
        0 <= k <= p.len(),
    ensures
        k <= bottom_from(p, k) <= p.len(),
        bottom_from(p, k) < p.len() ==> p[bottom_from(p, k)],
        forall|t: int| k <= t < bottom_from(p, k) ==> !p[t],
    decreases p.len() - k,
{
    if k < p.len() && !p[k] {
        lemma_bottom_from(p, k + 1);
    }
}

/// A nonzero multiple of `b` spans at least as many degrees as `b` does: from its
/// lowest term `l` to its degree, against `b`'s lowest term `lb` to its degree.
pub proof fn lemma_multiple_span(x: Seq<bool>, b: Seq<bool>, lb: int, l: int)
    requires
        x.len() == b.len(),
        degree(b) >= 0,
        is_zero(poly_mod(x, b)),
        0 <= lb < b.len(),
        b[lb],
        forall|t: int| 0 <= t < lb ==> !b[t],
        0 <= l < x.len(),
        x[l],
        forall|t: int| 0 <= t < l ==> !x[t],
    ensures
        degree(x) - l >= degree(b) - lb,
    decreases degree(x) + 1,
{
    lemma_degree_range(x);
    lemma_degree_range(b);
    if degree(x) < degree(b) {
        assert(poly_mod(x, b) == x);
        assert(!is_zero(x));
    } else {
        let d = degree(x) - degree(b);
        let sh = shift_left(b, d);
        let x1 = reduce_step(x, b);
        lemma_reduce_step(x, b);
        lemma_degree_range(x1);
        lemma_mod_shifted(b, d);
        lemma_mod_xor(x, sh, b);
        lemma_mod_len(x, b);
        lemma_mod_len(sh, b);
        assert(poly_mod(x1, b) =~= xor(poly_mod(x, b), poly_mod(sh, b)));
        if l > lb + d {
            assert(x1[lb + d]);
            assert forall|t: int| 0 <= t < lb + d implies !x1[t] by {
                if t >= d {
                    assert(!b[t - d]);
                }
            }
            lemma_multiple_span(x1, b, lb, lb + d);
        }
    }
}

} // verus!
