//! Why sharing works: the shares of a polynomial at the evaluation points of
//! the parties give its constant term back.

use crate::algebra::lemma_poly_with_roots;
use crate::algebra::lemma_quotient;
use crate::algebra::lemma_quotient_len;
use crate::algebra::lemma_vanishing_at_root;
use crate::algebra::poly_quotient;
use crate::algebra::poly_with_roots;
use crate::algebra::vanishing;
use crate::field::inv_mod;
use crate::field::sub_mod;
use crate::number_theory::is_prime;
use crate::number_theory::lemma_inverse;
use crate::number_theory::lemma_prime_divides_factor;
use crate::polynomial::horner;
use crate::polynomial::interpolation;
use crate::polynomial::lagrange_basis;
use crate::polynomial::lagrange_term;
use crate::polynomial::party_knots;
use crate::polynomial::weighted_sum;
use vstd::arithmetic::div_mod::*;
use vstd::arithmetic::mul::*;
use vstd::prelude::*;

verus! {

/// The Lagrange basis coefficient of the party with the evaluation point `j`
/// among the parties `1..=n`.
pub open spec fn weight(n: nat, j: int, m: int) -> int {
    lagrange_basis(party_knots(n), j, m)
}

/// The sum of the basis coefficients of the parties `1..=count` among `n`.
pub open spec fn weight_sum(n: nat, count: nat, m: int) -> int
    decreases count,
{
    if count == 0 {
        0
    } else {
        weight_sum(n, (count - 1) as nat, m) + weight(n, count as int, m)
    }
}

/// The sum, over the integers, of the first `count` entries of `shares`, each
/// times the basis coefficient of its party among `n`.
pub open spec fn plain_sum(shares: Seq<int>, n: nat, count: nat, m: int) -> int
    decreases count,
{
    if count == 0 {
        0
    } else {
        plain_sum(shares, n, (count - 1) as nat, m) + shares[count - 1] * weight(
            n,
            count as int,
            m,
        )
    }
}

/// The sum, over the integers, of the values of the polynomial `c` at
/// `1..=count`, each times the basis coefficient of its party among `n`.
pub open spec fn value_sum(c: Seq<int>, n: nat, count: nat, m: int) -> int
    decreases count,
{
    if count == 0 {
        0
    } else {
        value_sum(c, n, (count - 1) as nat, m) + horner(c, count as int) * weight(
            n,
            count as int,
            m,
        )
    }
}

/// Congruent numbers stay congruent when the same number is added.
pub proof fn lemma_congruent_add(a: int, b: int, c: int, m: int)
    requires
        m > 0,
        a % m == b % m,
    ensures
        (a + c) % m == (b + c) % m,
        (c + a) % m == (c + b) % m,
{
    lemma_add_mod_noop(a, c, m);
    lemma_add_mod_noop(b, c, m);
}

/// Congruent numbers stay congruent when multiplied by the same number.
pub proof fn lemma_congruent_mul(a: int, b: int, c: int, m: int)
    requires
        m > 0,
        a % m == b % m,
    ensures
        (a * c) % m == (b * c) % m,
        (c * a) % m == (c * b) % m,
{
    lemma_mul_mod_noop_left(a, c, m);
    lemma_mul_mod_noop_left(b, c, m);
    lemma_mul_is_commutative(a, c);
    lemma_mul_is_commutative(b, c);
}

/// The sum that the field computes is the sum over the integers, reduced.
pub proof fn lemma_weighted_sum_is_plain(shares: Seq<int>, n: nat, count: nat, m: int)
    requires
        m > 0,
    ensures
        weighted_sum(shares, n, m, count) == plain_sum(shares, n, count, m) % m,
    decreases count,
{
    if count == 0 {
        lemma_small_mod(0, m as nat);
    } else {
        let k: nat = (count - 1) as nat;
        lemma_weighted_sum_is_plain(shares, n, k, m);
        let before: int = plain_sum(shares, n, k, m);
        let term: int = shares[count - 1] * weight(n, count as int, m);
        lemma_add_mod_noop(before, term, m);
    }
}

/// Shares that are congruent to the values of a polynomial have a sum
/// congruent to that of the values.
proof fn lemma_plain_sum_of_values(c: Seq<int>, shares: Seq<int>, n: nat, count: nat, m: int)
    requires
        m > 0,
        forall|j: int| 0 <= j < count ==> (#[trigger] shares[j]) % m == horner(c, j + 1) % m,
    ensures
        plain_sum(shares, n, count, m) % m == value_sum(c, n, count, m) % m,
    decreases count,
{
    if count > 0 {
        let k: nat = (count - 1) as nat;
        lemma_plain_sum_of_values(c, shares, n, k, m);
        let w: int = weight(n, count as int, m);
        assert(shares[count - 1] % m == horner(c, count as int) % m);
        lemma_congruent_mul(shares[count - 1], horner(c, count as int), w, m);
        lemma_congruent_add(
            plain_sum(shares, n, k, m),
            value_sum(c, n, k, m),
            shares[count - 1] * w,
            m,
        );
        lemma_congruent_add(
            shares[count - 1] * w,
            horner(c, count as int) * w,
            value_sum(c, n, k, m),
            m,
        );
    }
}

/// The factor of the knot `k` for the point `i`, times `k - i`, is `k`
/// modulo the prime: the factor is `k / (k - i)`.
proof fn lemma_term_times_difference(k: int, i: int, m: int)
    requires
        is_prime(m),
        1 <= k < m,
        1 <= i < m,
        k != i,
    ensures
        (lagrange_term(k, i, m) * (k - i)) % m == k % m,
{
    let d: int = sub_mod(k, i, m);
    if k > i {
        lemma_small_mod((k - i) as nat, m as nat);
    } else {
        lemma_small_mod((m + (k - i)) as nat, m as nat);
        lemma_mod_add_multiples_vanish(k - i, m);
    }
    assert(0 < d < m);
    lemma_mod_twice(k - i, m);
    assert(d % m == (k - i) % m);
    let inv: int = inv_mod(d, m);
    lemma_inverse(d, m);
    let term: int = lagrange_term(k, i, m);
    assert(term == (k * inv) % m);
    // term * (k - i) is congruent to (k * inv) * (k - i), to (k * inv) * d and to k
    lemma_mod_twice(k * inv, m);
    lemma_congruent_mul(term, k * inv, k - i, m);
    lemma_congruent_mul(k - i, d, k * inv, m);
    lemma_mul_is_associative(k, inv, d);
    lemma_small_mod(1, m as nat);
    lemma_congruent_mul(inv * d, 1, k, m);
    lemma_mul_basics(k);
}

/// The basis coefficient of a party among `n` parties, from its coefficient
/// among `n - 1`: the factor of the knot `n` comes in.
proof fn lemma_weight_grows(n: nat, j: int, m: int)
    requires
        n >= 1,
        m > 0,
    ensures
        weight(n, j, m) == (weight((n - 1) as nat, j, m) * lagrange_term(n as int, j, m)) % m,
{
    assert(party_knots(n).drop_last() =~= party_knots((n - 1) as nat));
    assert(party_knots(n).last() == n);
}

/// One term of the sum of values, for a party before the last: with the
/// polynomial divided by the linear factor of the last knot.
proof fn lemma_term_split(c: Seq<int>, n: nat, j: int, m: int)
    requires
        is_prime(m),
        1 <= j < n < m,
    ensures
        (horner(c, j) * weight(n, j, m)) % m == (horner(c, n as int) * weight(n, j, m) - n * (
        horner(poly_quotient(c, n as int), j) * weight((n - 1) as nat, j, m))) % m,
{
    let cn: int = horner(c, n as int);
    let cj: int = horner(c, j);
    let gj: int = horner(poly_quotient(c, n as int), j);
    let w: int = weight(n, j, m);
    let w1: int = weight((n - 1) as nat, j, m);
    let t: int = lagrange_term(n as int, j, m);
    lemma_quotient(c, n as int, j);
    lemma_weight_grows(n, j, m);
    lemma_term_times_difference(n as int, j, m);
    lemma_small_mod(n, m as nat);
    // w is congruent to w1 * t
    lemma_mod_twice(w1 * t, m);
    let x: int = ((j - n) * gj) * w;
    lemma_congruent_mul(w, w1 * t, (j - n) * gj, m);
    assert(((j - n) * gj) * (w1 * t) == (-(gj * w1)) * (t * (n - j))) by (nonlinear_arith);
    lemma_congruent_mul(t * (n - j), n as int, -(gj * w1), m);
    assert((-(gj * w1)) * n == -(n * (gj * w1))) by (nonlinear_arith);
    assert(x % m == (-(n * (gj * w1))) % m);
    assert(cj * w == cn * w + x) by (nonlinear_arith)
        requires
            cj == cn + (j - n) * gj,
            x == ((j - n) * gj) * w,
    ;
    lemma_congruent_add(x, -(n * (gj * w1)), cn * w, m);
}

/// The sum of the values at the parties before the last, with the polynomial
/// divided by the linear factor of the last knot.
proof fn lemma_sum_split(c: Seq<int>, n: nat, count: nat, m: int)
    requires
        is_prime(m),
        count < n < m,
    ensures
        value_sum(c, n, count, m) % m == (horner(c, n as int) * weight_sum(n, count, m) - n
            * value_sum(poly_quotient(c, n as int), (n - 1) as nat, count, m)) % m,
    decreases count,
{
    let cn: int = horner(c, n as int);
    let g: Seq<int> = poly_quotient(c, n as int);
    if count == 0 {
        lemma_mul_basics(cn);
        lemma_mul_basics(n as int);
    } else {
        let k: nat = (count - 1) as nat;
        let j: int = count as int;
        lemma_sum_split(c, n, k, m);
        lemma_term_split(c, n, j, m);
        let w: int = weight(n, j, m);
        let w1: int = weight((n - 1) as nat, j, m);
        let gj: int = horner(g, j);
        let left_sum: int = value_sum(c, n, k, m);
        let left_term: int = horner(c, j) * w;
        let right_sum: int = cn * weight_sum(n, k, m) - n * value_sum(g, (n - 1) as nat, k, m);
        let right_term: int = cn * w - n * (gj * w1);
        lemma_congruent_add(left_sum, right_sum, left_term, m);
        lemma_congruent_add(left_term, right_term, right_sum, m);
        let ws: int = weight_sum(n, k, m);
        let vs: int = value_sum(g, (n - 1) as nat, k, m);
        let ws_all: int = weight_sum(n, count, m);
        let vs_all: int = value_sum(g, (n - 1) as nat, count, m);
        let product: int = gj * w1;
        let size: int = n as int;
        assert(right_sum + right_term == cn * ws_all - size * vs_all) by (nonlinear_arith)
            requires
                right_sum == cn * ws - size * vs,
                right_term == cn * w - size * product,
                ws_all == ws + w,
                vs_all == vs + product,
        ;
    }
}

/// The basis coefficient of a point beyond the knots `1..=k`, times the
/// product of its distances to them, is the product of the knots with their
/// signs turned.
proof fn lemma_new_weight(k: nat, n: int, m: int)
    requires
        is_prime(m),
        k < n < m,
    ensures
        (vanishing(k, n) * lagrange_basis(party_knots(k), n, m)) % m == vanishing(k, 0) % m,
    decreases k,
{
    if k == 0 {
        assert(party_knots(0).len() == 0);
    } else {
        let h: nat = (k - 1) as nat;
        lemma_new_weight(h, n, m);
        assert(party_knots(k).drop_last() =~= party_knots(h));
        assert(party_knots(k).last() == k);
        let lb1: int = lagrange_basis(party_knots(h), n, m);
        let lb: int = lagrange_basis(party_knots(k), n, m);
        let t: int = lagrange_term(k as int, n, m);
        assert(lb == (lb1 * t) % m);
        lemma_term_times_difference(k as int, n, m);
        lemma_small_mod(k, m as nat);
        let v1: int = vanishing(h, n);
        // t * (n - k) is congruent to -k
        assert(t * (n - k) == -(t * (k - n))) by (nonlinear_arith);
        lemma_congruent_mul(t * (k - n), k as int, -1, m);
        assert((t * (n - k)) % m == (-(k as int)) % m) by {
            assert((-1) * (t * (k - n)) == t * (n - k)) by (nonlinear_arith);
            assert((-1) * (k as int) == -(k as int));
        }
        // lb is congruent to lb1 * t
        lemma_mod_twice(lb1 * t, m);
        lemma_congruent_mul(lb, lb1 * t, vanishing(k, n), m);
        assert(vanishing(k, n) * (lb1 * t) == (v1 * lb1) * (t * (n - k))) by (nonlinear_arith)
            requires
                vanishing(k, n) == v1 * (n - k),
        ;
        lemma_congruent_mul(v1 * lb1, vanishing(h, 0), t * (n - k), m);
        lemma_congruent_mul(t * (n - k), -(k as int), vanishing(h, 0), m);
        assert(vanishing(k, 0) == vanishing(h, 0) * (0 - k));
    }
}

/// The prime divides no product of distances from a point below it to the
/// knots before the point.
proof fn lemma_distances_not_divisible(k: nat, n: int, m: int)
    requires
        is_prime(m),
        k < n < m,
    ensures
        vanishing(k, n) % m != 0,
    decreases k,
{
    if k == 0 {
        lemma_small_mod(1, m as nat);
    } else {
        lemma_distances_not_divisible((k - 1) as nat, n, m);
        lemma_small_mod((n - k) as nat, m as nat);
        if vanishing(k, n) % m == 0 {
            lemma_prime_divides_factor(m, vanishing((k - 1) as nat, n), n - k);
        }
    }
}

/// A polynomial that is zero at the parties `1..=count` has the sum zero
/// there.
proof fn lemma_sum_of_zeros(c: Seq<int>, n: nat, count: nat, m: int)
    requires
        forall|j: int| 1 <= j <= count ==> horner(c, j) == 0,
    ensures
        value_sum(c, n, count, m) == 0,
    decreases count,
{
    if count > 0 {
        lemma_sum_of_zeros(c, n, (count - 1) as nat, m);
        assert(horner(c, count as int) == 0);
        lemma_mul_basics(weight(n, count as int, m));
    }
}

/// The sum of the values of a polynomial with at most `n` coefficients at
/// the `n` parties, in terms of the sum of the basis coefficients.
proof fn lemma_sum_with_weights(c: Seq<int>, n: nat, m: int)
    requires
        is_prime(m),
        1 <= n < m,
        c.len() <= n,
    ensures
        value_sum(c, n, n, m) % m == (horner(c, n as int) * weight_sum(n, n, m) + horner(c, 0)
            - horner(c, n as int)) % m,
    decreases n, 0nat,
{
    let cn: int = horner(c, n as int);
    let g: Seq<int> = poly_quotient(c, n as int);
    let h: nat = (n - 1) as nat;
    lemma_quotient_len(c, n as int);
    lemma_values_reconstruct(g, h, m);
    lemma_sum_split(c, n, h, m);
    lemma_quotient(c, n as int, 0);
    let g0: int = horner(g, 0);
    let gs: int = value_sum(g, h, h, m);
    let a1: int = weight_sum(n, h, m);
    let wn: int = weight(n, n as int, m);
    // the sum of the quotient's values is congruent to its constant term
    lemma_congruent_mul(gs, g0, -(n as int), m);
    assert((-(n as int)) * gs == -(n * gs)) by (nonlinear_arith);
    lemma_congruent_add((-(n as int)) * gs, (-(n as int)) * g0, cn * a1, m);
    assert(cn * a1 - n * gs == cn * a1 + (-(n as int)) * gs);
    let first: int = value_sum(c, n, h, m);
    lemma_congruent_add(first, cn * a1 + (-(n as int)) * g0, cn * wn, m);
    assert(cn * a1 + (-(n as int)) * g0 + cn * wn == cn * weight_sum(n, n, m) + horner(c, 0) - cn)
        by (nonlinear_arith)
        requires
            weight_sum(n, n, m) == a1 + wn,
            horner(c, 0) == cn + (0 - n) * g0,
    ;
}

/// The basis coefficients of the parties `1..=n` add up to one.
proof fn lemma_weights_sum_to_one(n: nat, m: int)
    requires
        is_prime(m),
        1 <= n < m,
    ensures
        weight_sum(n, n, m) % m == 1,
    decreases n, 1nat,
{
    let h: nat = (n - 1) as nat;
    let c: Seq<int> = poly_with_roots(h);
    lemma_poly_with_roots(h, n as int);
    lemma_poly_with_roots(h, 0);
    assert forall|j: int| 1 <= j <= h implies horner(c, j) == 0 by {
        lemma_poly_with_roots(h, j);
        lemma_vanishing_at_root(h, j);
    }
    lemma_sum_of_zeros(c, n, h, m);
    lemma_sum_with_weights(c, n, m);
    let cn: int = vanishing(h, n as int);
    let c0: int = vanishing(h, 0);
    let a: int = weight_sum(n, n, m);
    let wn: int = weight(n, n as int, m);
    // the last term alone is the whole sum, and is congruent to the constant term
    assert(value_sum(c, n, n, m) == cn * wn);
    lemma_weight_grows(n, n as int, m);
    let lb: int = lagrange_basis(party_knots(h), n as int, m);
    lemma_mul_basics(lb);
    assert(wn == lb % m);
    lemma_mod_twice(lb, m);
    lemma_congruent_mul(wn, lb, cn, m);
    lemma_new_weight(h, n as int, m);
    assert((cn * wn) % m == c0 % m);
    // so cn * (a - 1) is a multiple of the prime
    assert((cn * a + c0 - cn) % m == c0 % m);
    lemma_mod_equivalence(cn * a + c0 - cn, c0, m);
    assert(cn * a + c0 - cn - c0 == cn * (a - 1)) by (nonlinear_arith);
    lemma_distances_not_divisible(h, n as int, m);
    lemma_prime_divides_factor(m, cn, a - 1);
    lemma_mod_equivalence(a, 1, m);
    lemma_small_mod(1, m as nat);
}

/// The values of a polynomial with at most `n` coefficients at the parties
/// `1..=n`, weighted with the basis coefficients, add up to its constant
/// term, modulo the prime.
pub proof fn lemma_values_reconstruct(c: Seq<int>, n: nat, m: int)
    requires
        is_prime(m),
        n < m,
        c.len() <= n,
    ensures
        value_sum(c, n, n, m) % m == horner(c, 0) % m,
    decreases n, 2nat,
{
    if n == 0 {
        assert(c.len() == 0);
    } else {
        lemma_sum_with_weights(c, n, m);
        lemma_weights_sum_to_one(n, m);
        let cn: int = horner(c, n as int);
        let a: int = weight_sum(n, n, m);
        lemma_small_mod(1, m as nat);
        lemma_congruent_mul(a, 1, cn, m);
        lemma_mul_basics(cn);
        lemma_congruent_add(cn * a, cn, horner(c, 0) - cn, m);
    }
}

/// Polynomials have congruent values at congruent points.
pub proof fn lemma_horner_congruent(c: Seq<int>, x: int, y: int, m: int)
    requires
        m > 0,
        x % m == y % m,
    ensures
        horner(c, x) % m == horner(c, y) % m,
    decreases c.len(),
{
    if c.len() > 0 {
        let tail: Seq<int> = c.drop_first();
        lemma_horner_congruent(tail, x, y, m);
        lemma_mul_mod_noop_general(x, horner(tail, x), m);
        lemma_mul_mod_noop_general(y, horner(tail, y), m);
        lemma_congruent_add(x * horner(tail, x), y * horner(tail, y), c[0], m);
    }
}

/// With at least as many parties as the order of the field, and fewer than
/// twice as many, the factor of a knot for the point that is congruent to
/// zero is one.
proof fn lemma_term_at_order(k: int, m: int)
    requires
        is_prime(m),
        1 <= k < 2 * m,
    ensures
        lagrange_term(k, m, m) == 1,
{
    if k != m {
        let d: int = sub_mod(k, m, m);
        lemma_mod_add_multiples_vanish(k - m, m);
        assert(m + (k - m) == k);
        if k > m {
            lemma_small_mod((k - m) as nat, m as nat);
        } else {
            lemma_small_mod(k as nat, m as nat);
        }
        assert(0 < d < m);
        lemma_mod_twice(k - m, m);
        assert(d % m == k % m);
        let inv: int = inv_mod(d, m);
        lemma_inverse(d, m);
        lemma_congruent_mul(k, d, inv, m);
    }
}

/// With at least as many parties as the order of the field, and fewer than
/// twice as many, the party whose evaluation point is congruent to zero has
/// the basis coefficient one, and every other party zero.
proof fn lemma_weights_beyond_order(k: nat, j: int, m: int)
    requires
        is_prime(m),
        k < 2 * m,
        1 <= j,
    ensures
        j == m ==> lagrange_basis(party_knots(k), j, m) == 1,
        j != m && k >= m ==> lagrange_basis(party_knots(k), j, m) == 0,
    decreases k,
{
    if k > 0 {
        let h: nat = (k - 1) as nat;
        lemma_weights_beyond_order(h, j, m);
        assert(party_knots(k).drop_last() =~= party_knots(h));
        assert(party_knots(k).last() == k);
        let before: int = lagrange_basis(party_knots(h), j, m);
        let term: int = lagrange_term(k as int, j, m);
        if j == m {
            lemma_term_at_order(k as int, m);
            lemma_small_mod(1, m as nat);
        } else if k == m {
            // the factor of this knot is a multiple of the order
            let inv: int = inv_mod(sub_mod(m, j, m), m);
            lemma_mod_multiples_basic(inv, m);
            lemma_mul_is_commutative(inv, m);
            assert(term == 0);
            lemma_mul_basics(before);
            lemma_small_mod(0, m as nat);
        } else if k > m {
            lemma_mul_basics(term);
            lemma_small_mod(0, m as nat);
        }
    }
}

/// With at least as many parties as the order of the field, and fewer than
/// twice as many, the weighted sum of the shares is the share of the party
/// whose evaluation point is congruent to zero.
proof fn lemma_sum_beyond_order(shares: Seq<int>, n: nat, count: nat, m: int)
    requires
        is_prime(m),
        m <= n < 2 * m,
        count <= n,
    ensures
        plain_sum(shares, n, count, m) == if count >= m {
            shares[m - 1]
        } else {
            0
        },
    decreases count,
{
    if count > 0 {
        lemma_sum_beyond_order(shares, n, (count - 1) as nat, m);
        lemma_weights_beyond_order(n, count as int, m);
        lemma_mul_basics(shares[count - 1]);
    }
}

/// A knot that is a multiple of the order makes the basis coefficient of
/// every other point zero.
proof fn lemma_basis_with_multiple(k: nat, j: int, m: int, z: int)
    requires
        m > 0,
        1 <= z <= k,
        z % m == 0,
        z != j,
    ensures
        lagrange_basis(party_knots(k), j, m) == 0,
    decreases k,
{
    let h: nat = (k - 1) as nat;
    assert(party_knots(k).drop_last() =~= party_knots(h));
    assert(party_knots(k).last() == k);
    let before: int = lagrange_basis(party_knots(h), j, m);
    let term: int = lagrange_term(k as int, j, m);
    if k == z {
        let inv: int = inv_mod(sub_mod(z, j, m), m);
        lemma_mul_mod_noop_left(z, inv, m);
        lemma_mul_basics(inv);
        lemma_small_mod(0, m as nat);
        assert(term == 0);
        lemma_mul_basics(before);
    } else {
        lemma_basis_with_multiple(h, j, m, z);
        lemma_mul_basics(term);
        lemma_small_mod(0, m as nat);
    }
}

/// With twice as many parties as the order of the field, or more, every
/// basis coefficient is zero: the parties reconstruct zero, whatever they
/// hold.
pub proof fn lemma_too_many_parties(shares: Seq<int>, n: nat, m: int)
    requires
        m > 0,
        n >= 2 * m,
    ensures
        interpolation(shares, n, m) == 0,
{
    lemma_weighted_sum_is_plain(shares, n, n, m);
    lemma_sum_of_zero_weights(shares, n, n, m);
    lemma_small_mod(0, m as nat);
}

/// The sum of shares whose basis coefficients are all zero.
proof fn lemma_sum_of_zero_weights(shares: Seq<int>, n: nat, count: nat, m: int)
    requires
        m > 0,
        n >= 2 * m,
        count <= n,
    ensures
        plain_sum(shares, n, count, m) == 0,
    decreases count,
{
    if count > 0 {
        lemma_sum_of_zero_weights(shares, n, (count - 1) as nat, m);
        lemma_mod_self_0(m);
        lemma_mod_multiples_basic(2, m);
        if count == m {
            lemma_basis_with_multiple(n, count as int, m, 2 * m);
        } else {
            lemma_basis_with_multiple(n, count as int, m, m);
        }
        lemma_mul_basics(shares[count - 1]);
    }
}

/// The shares of the polynomial with the coefficients `coeffs` for the
/// parties `1..=n`: its values at their evaluation points, in the field.
pub open spec fn shares_of(coeffs: Seq<int>, n: nat, m: int) -> Seq<int> {
    Seq::new(n, |j: int| horner(coeffs, j + 1) % m)
}

/// Sharing and reconstructing gives the secret back: from the shares of a
/// polynomial of a degree below `n`, the parties `1..=n` reconstruct its
/// constant term, in a field of prime order with more than half as many
/// elements as there are parties.
pub proof fn lemma_round_trip(coeffs: Seq<int>, n: nat, m: int)
    requires
        is_prime(m),
        n < 2 * m,
        0 < coeffs.len() <= n,
    ensures
        interpolation(shares_of(coeffs, n, m), n, m) == coeffs[0] % m,
{
    let shares: Seq<int> = shares_of(coeffs, n, m);
    assert forall|j: int| 0 <= j < n implies (#[trigger] shares[j]) % m == horner(coeffs, j + 1)
        % m by {
        lemma_mod_twice(horner(coeffs, j + 1), m);
    }
    lemma_shares_reconstruct(coeffs, shares, n, m);
}

/// From shares that are congruent to the values of a polynomial at the
/// parties `1..=n`, the parties reconstruct its constant term, in a field of
/// prime order: with fewer parties than the order, from the shares of a
/// polynomial with at most `n` coefficients; with at least as many and fewer
/// than twice as many, from those of any polynomial, for then one party
/// holds the constant term itself.
pub proof fn lemma_shares_reconstruct(coeffs: Seq<int>, shares: Seq<int>, n: nat, m: int)
    requires
        is_prime(m),
        n < 2 * m,
        n <= shares.len(),
        n < m ==> coeffs.len() <= n,
        forall|j: int| 0 <= j < n ==> (#[trigger] shares[j]) % m == horner(coeffs, j + 1) % m,
    ensures
        interpolation(shares, n, m) == horner(coeffs, 0) % m,
        coeffs.len() > 0 ==> interpolation(shares, n, m) == coeffs[0] % m,
{
    lemma_weighted_sum_is_plain(shares, n, n, m);
    if n < m {
        lemma_plain_sum_of_values(coeffs, shares, n, n, m);
        lemma_values_reconstruct(coeffs, n, m);
    } else {
        lemma_sum_beyond_order(shares, n, n, m);
        assert(shares[m - 1] % m == horner(coeffs, m) % m);
        lemma_mod_self_0(m);
        lemma_small_mod(0, m as nat);
        lemma_horner_congruent(coeffs, m, 0, m);
    }
    if coeffs.len() > 0 {
        lemma_mul_basics(horner(coeffs.drop_first(), 0));
    }
}

} // verus!
