//! Polynomials over the integers, as sequences of coefficients: sums,
//! products, and the division by a linear factor.

use crate::polynomial::horner;
use vstd::arithmetic::mul::*;
use vstd::prelude::*;

verus! {

/// The coefficient of degree `i` of `p`, zero beyond its length.
pub open spec fn coefficient(p: Seq<int>, i: int) -> int {
    if 0 <= i < p.len() {
        p[i]
    } else {
        0
    }
}

/// The sum of two polynomials.
pub open spec fn poly_add(p: Seq<int>, q: Seq<int>) -> Seq<int> {
    Seq::new(
        if p.len() >= q.len() {
            p.len()
        } else {
            q.len()
        },
        |i: int| coefficient(p, i) + coefficient(q, i),
    )
}

/// The polynomial `p`, every coefficient multiplied by `k`.
pub open spec fn poly_scale(p: Seq<int>, k: int) -> Seq<int> {
    Seq::new(p.len(), |i: int| k * p[i])
}

/// The polynomial `p` multiplied by the variable.
pub open spec fn poly_shift(p: Seq<int>) -> Seq<int> {
    seq![0int] + p
}

/// The product of two polynomials.
pub open spec fn poly_mul(p: Seq<int>, q: Seq<int>) -> Seq<int>
    decreases p.len(),
{
    if p.len() == 0 {
        Seq::empty()
    } else {
        poly_add(poly_scale(q, p[0]), poly_shift(poly_mul(p.drop_first(), q)))
    }
}

/// The quotient of `p` by the linear factor with the root `a`.
pub open spec fn poly_quotient(p: Seq<int>, a: int) -> Seq<int>
    decreases p.len(),
{
    if p.len() <= 1 {
        Seq::empty()
    } else {
        seq![horner(p.drop_first(), a)] + poly_quotient(p.drop_first(), a)
    }
}

/// The polynomial with the roots `1..=k` and the leading coefficient one.
pub open spec fn poly_with_roots(k: nat) -> Seq<int>
    decreases k,
{
    if k == 0 {
        seq![1int]
    } else {
        poly_mul(seq![-(k as int), 1int], poly_with_roots((k - 1) as nat))
    }
}

/// The product of `x - 1`, ..., `x - k`.
pub open spec fn vanishing(k: nat, x: int) -> int
    decreases k,
{
    if k == 0 {
        1
    } else {
        vanishing((k - 1) as nat, x) * (x - k)
    }
}

/// The value of a sum is the sum of the values.
pub proof fn lemma_horner_add(p: Seq<int>, q: Seq<int>, x: int)
    ensures
        horner(poly_add(p, q), x) == horner(p, x) + horner(q, x),
    decreases p.len() + q.len(),
{
    let s: Seq<int> = poly_add(p, q);
    if p.len() == 0 && q.len() == 0 {
    } else {
        let p_rest: Seq<int> = if p.len() > 0 {
            p.drop_first()
        } else {
            p
        };
        let q_rest: Seq<int> = if q.len() > 0 {
            q.drop_first()
        } else {
            q
        };
        assert(s.drop_first() =~= poly_add(p_rest, q_rest));
        lemma_horner_add(p_rest, q_rest, x);
        lemma_mul_is_distributive_add(x, horner(p_rest, x), horner(q_rest, x));
    }
}

/// The value of a scaled polynomial is the scaled value.
pub proof fn lemma_horner_scale(p: Seq<int>, k: int, x: int)
    ensures
        horner(poly_scale(p, k), x) == k * horner(p, x),
    decreases p.len(),
{
    if p.len() == 0 {
        lemma_mul_basics(k);
    } else {
        assert(poly_scale(p, k).drop_first() =~= poly_scale(p.drop_first(), k));
        lemma_horner_scale(p.drop_first(), k, x);
        let tail: int = horner(p.drop_first(), x);
        assert(k * p[0] + x * (k * tail) == k * (p[0] + x * tail)) by (nonlinear_arith);
    }
}

/// The value of a polynomial multiplied by the variable.
pub proof fn lemma_horner_shift(p: Seq<int>, x: int)
    ensures
        horner(poly_shift(p), x) == x * horner(p, x),
{
    assert(poly_shift(p).drop_first() =~= p);
}

/// The value of a product is the product of the values.
pub proof fn lemma_horner_mul(p: Seq<int>, q: Seq<int>, x: int)
    ensures
        horner(poly_mul(p, q), x) == horner(p, x) * horner(q, x),
    decreases p.len(),
{
    if p.len() == 0 {
        lemma_mul_basics(horner(q, x));
    } else {
        let rest: Seq<int> = poly_mul(p.drop_first(), q);
        lemma_horner_mul(p.drop_first(), q, x);
        lemma_horner_add(poly_scale(q, p[0]), poly_shift(rest), x);
        lemma_horner_scale(q, p[0], x);
        lemma_horner_shift(rest, x);
        let a: int = horner(p.drop_first(), x);
        let b: int = horner(q, x);
        assert(p[0] * b + x * (a * b) == (p[0] + x * a) * b) by (nonlinear_arith);
    }
}

/// A product of polynomials that are not empty has one coefficient less than
/// its factors have together.
pub proof fn lemma_mul_len(p: Seq<int>, q: Seq<int>)
    requires
        p.len() > 0,
        q.len() > 0,
    ensures
        poly_mul(p, q).len() == p.len() + q.len() - 1,
    decreases p.len(),
{
    if p.len() == 1 {
        assert(p.drop_first().len() == 0);
        assert(poly_mul(p.drop_first(), q).len() == 0);
    } else {
        lemma_mul_len(p.drop_first(), q);
    }
}

/// The quotient by a linear factor has one coefficient less.
pub proof fn lemma_quotient_len(p: Seq<int>, a: int)
    ensures
        poly_quotient(p, a).len() == if p.len() == 0 {
            0
        } else {
            p.len() - 1
        },
    decreases p.len(),
{
    if p.len() > 1 {
        lemma_quotient_len(p.drop_first(), a);
    }
}

/// Division by a linear factor: a polynomial is its value at `a` plus the
/// factor times the quotient.
pub proof fn lemma_quotient(p: Seq<int>, a: int, x: int)
    ensures
        horner(p, x) == horner(p, a) + (x - a) * horner(poly_quotient(p, a), x),
    decreases p.len(),
{
    if p.len() == 0 {
        lemma_mul_basics(x - a);
    } else if p.len() == 1 {
        let tail: Seq<int> = p.drop_first();
        assert(tail.len() == 0);
        assert(horner(tail, x) == 0);
        assert(horner(tail, a) == 0);
        assert(poly_quotient(p, a).len() == 0);
        lemma_mul_basics(x);
        lemma_mul_basics(a);
        lemma_mul_basics(x - a);
    } else {
        let tail: Seq<int> = p.drop_first();
        let q: Seq<int> = poly_quotient(tail, a);
        let whole: Seq<int> = poly_quotient(p, a);
        lemma_quotient(tail, a, x);
        assert(whole == seq![horner(tail, a)] + q);
        assert(whole.len() > 0);
        assert(whole[0] == horner(tail, a));
        assert(whole.drop_first() =~= q);
        let ta: int = horner(tail, a);
        let tx: int = horner(tail, x);
        let qx: int = horner(q, x);
        assert(horner(whole, x) == ta + x * qx);
        assert(horner(p, x) == p[0] + x * tx);
        assert(horner(p, a) == p[0] + a * ta);
        assert(p[0] + x * tx == p[0] + a * ta + (x - a) * (ta + x * qx)) by (nonlinear_arith)
            requires
                tx == ta + (x - a) * qx,
        ;
    }
}

/// The polynomial with the roots `1..=k` has `k + 1` coefficients and the
/// value of the product of its linear factors.
pub proof fn lemma_poly_with_roots(k: nat, x: int)
    ensures
        poly_with_roots(k).len() == k + 1,
        horner(poly_with_roots(k), x) == vanishing(k, x),
    decreases k,
{
    if k == 0 {
        let one: Seq<int> = seq![1int];
        assert(one.drop_first().len() == 0);
        assert(horner(one.drop_first(), x) == 0);
        lemma_mul_basics(x);
        assert(horner(one, x) == one[0] + x * horner(one.drop_first(), x));
    } else {
        let factor: Seq<int> = seq![-(k as int), 1int];
        let rest: Seq<int> = poly_with_roots((k - 1) as nat);
        lemma_poly_with_roots((k - 1) as nat, x);
        lemma_mul_len(factor, rest);
        lemma_horner_mul(factor, rest, x);
        let unit: Seq<int> = factor.drop_first();
        assert(unit =~= seq![1int]);
        assert(unit.drop_first().len() == 0);
        assert(horner(unit.drop_first(), x) == 0);
        lemma_mul_basics(x);
        assert(horner(unit, x) == unit[0] + x * horner(unit.drop_first(), x));
        assert(horner(unit, x) == 1);
        assert(horner(factor, x) == factor[0] + x * horner(unit, x));
        assert(horner(factor, x) == x - k);
        lemma_mul_is_commutative(x - k, vanishing((k - 1) as nat, x));
    }
}

/// The product of `x - 1`, ..., `x - k` is zero at each of `1..=k`.
pub proof fn lemma_vanishing_at_root(k: nat, j: int)
    requires
        1 <= j <= k,
    ensures
        vanishing(k, j) == 0,
    decreases k,
{
    if j == k {
        lemma_mul_basics(vanishing((k - 1) as nat, j));
    } else {
        lemma_vanishing_at_root((k - 1) as nat, j);
        lemma_mul_basics(j - k);
    }
}

} // verus!
