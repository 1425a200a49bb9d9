//! Why multiplication works: the parties mask the products of their shares,
//! reconstruct the masked product and take their other mask off; what they
//! hold then are shares of the product.

use crate::algebra::lemma_horner_add;
use crate::algebra::lemma_horner_mul;
use crate::algebra::lemma_horner_scale;
use crate::algebra::lemma_mul_len;
use crate::algebra::poly_add;
use crate::algebra::poly_mul;
use crate::algebra::poly_scale;
use crate::field::add_mod;
use crate::field::mul_mod;
use crate::field::sub_mod;
use crate::number_theory::is_prime;
use crate::polynomial::horner;
use crate::polynomial::interpolation;
use crate::sharing::lemma_congruent_add;
use crate::sharing::lemma_congruent_mul;
use crate::sharing::lemma_shares_reconstruct;
use crate::sharing::lemma_weighted_sum_is_plain;
use crate::sharing::plain_sum;
use crate::sharing::shares_of;
use crate::sharing::weight;
use vstd::arithmetic::div_mod::*;
use vstd::arithmetic::mul::*;
use vstd::prelude::*;

verus! {

/// What the party with the evaluation point `j + 1` gathers when every party
/// `i` hands out the shares of its polynomial `polys[i]`.
pub open spec fn gathered(polys: Seq<Seq<int>>, j: int, m: int) -> Seq<int> {
    Seq::new(polys.len(), |i: int| horner(polys[i], j + 1) % m)
}

/// The mask that the party with the evaluation point `j + 1` reconstructs
/// from the shares it gathers of the polynomials `polys` of the `n` parties.
pub open spec fn mask(polys: Seq<Seq<int>>, j: int, n: nat, m: int) -> int {
    interpolation(gathered(polys, j, m), n, m)
}

/// The shares that the `n` parties hand out at a multiplication gate whose
/// operands are shared with the polynomials `fa` and `fb`: the product of
/// their two shares, masked with their mask of the polynomials `highs`.
pub open spec fn masked_products(
    fa: Seq<int>,
    fb: Seq<int>,
    highs: Seq<Seq<int>>,
    n: nat,
    m: int,
) -> Seq<int> {
    Seq::new(
        n,
        |j: int|
            add_mod(
                mul_mod(shares_of(fa, n, m)[j], shares_of(fb, n, m)[j], m),
                mask(highs, j, n, m),
                m,
            ),
    )
}

/// The shares that the `n` parties hold after the multiplication: what they
/// reconstruct from the masked products, less their mask of the polynomials
/// `lows`.
pub open spec fn reduced_shares(
    fa: Seq<int>,
    fb: Seq<int>,
    lows: Seq<Seq<int>>,
    highs: Seq<Seq<int>>,
    n: nat,
    m: int,
) -> Seq<int> {
    Seq::new(
        n,
        |j: int|
            sub_mod(
                interpolation(masked_products(fa, fb, highs, n, m), n, m),
                mask(lows, j, n, m),
                m,
            ),
    )
}

/// The first `count` polynomials of `polys`, each scaled with the basis
/// coefficient of its party among `n`, added up.
pub open spec fn combination(polys: Seq<Seq<int>>, n: nat, count: nat, m: int) -> Seq<int>
    decreases count,
{
    if count == 0 {
        Seq::empty()
    } else {
        poly_add(
            combination(polys, n, (count - 1) as nat, m),
            poly_scale(polys[count - 1], weight(n, count as int, m)),
        )
    }
}

/// The values of the polynomials `polys` at `x`.
pub open spec fn values_at(polys: Seq<Seq<int>>, x: int) -> Seq<int> {
    Seq::new(polys.len(), |i: int| horner(polys[i], x))
}

/// The difference in the field is congruent to the difference.
proof fn lemma_sub_mod_congruent(a: int, b: int, m: int)
    requires
        m > 0,
    ensures
        sub_mod(a, b, m) % m == (a - b) % m,
{
    lemma_mod_twice(a - b, m);
}

/// Sequences that are congruent entry by entry have congruent sums.
proof fn lemma_plain_sum_congruent(s: Seq<int>, t: Seq<int>, n: nat, count: nat, m: int)
    requires
        m > 0,
        count <= s.len(),
        count <= t.len(),
        forall|i: int| 0 <= i < count ==> (#[trigger] s[i]) % m == t[i] % m,
    ensures
        plain_sum(s, n, count, m) % m == plain_sum(t, n, count, m) % m,
    decreases count,
{
    if count > 0 {
        let k: nat = (count - 1) as nat;
        lemma_plain_sum_congruent(s, t, n, k, m);
        let w: int = weight(n, count as int, m);
        assert(s[count - 1] % m == t[count - 1] % m);
        lemma_congruent_mul(s[count - 1], t[count - 1], w, m);
        lemma_congruent_add(plain_sum(s, n, k, m), plain_sum(t, n, k, m), s[count - 1] * w, m);
        lemma_congruent_add(s[count - 1] * w, t[count - 1] * w, plain_sum(t, n, k, m), m);
    }
}

/// The value of the combination is the sum of the values, each times the
/// basis coefficient of its party; the combination is no longer than the
/// longest of the polynomials.
proof fn lemma_combination(polys: Seq<Seq<int>>, n: nat, count: nat, m: int, x: int, len: nat)
    requires
        count <= polys.len(),
        forall|i: int| 0 <= i < polys.len() ==> (#[trigger] polys[i]).len() <= len,
    ensures
        horner(combination(polys, n, count, m), x) == plain_sum(values_at(polys, x), n, count, m),
        combination(polys, n, count, m).len() <= len,
    decreases count,
{
    if count > 0 {
        let k: nat = (count - 1) as nat;
        let w: int = weight(n, count as int, m);
        lemma_combination(polys, n, k, m, x, len);
        lemma_horner_add(combination(polys, n, k, m), poly_scale(polys[count - 1], w), x);
        lemma_horner_scale(polys[count - 1], w, x);
        assert(polys[count - 1].len() <= len);
        lemma_mul_is_commutative(w, horner(polys[count - 1], x));
    }
}

/// The mask that a party reconstructs is congruent to the value of the
/// combination of the polynomials at its evaluation point.
pub proof fn lemma_mask_is_value(polys: Seq<Seq<int>>, j: int, n: nat, m: int, len: nat)
    requires
        m > 0,
        polys.len() == n,
        forall|i: int| 0 <= i < polys.len() ==> (#[trigger] polys[i]).len() <= len,
    ensures
        mask(polys, j, n, m) % m == horner(combination(polys, n, n, m), j + 1) % m,
        0 <= mask(polys, j, n, m) < m,
{
    let shares: Seq<int> = gathered(polys, j, m);
    let exact: Seq<int> = values_at(polys, j + 1);
    lemma_weighted_sum_is_plain(shares, n, n, m);
    assert forall|i: int| 0 <= i < n implies (#[trigger] shares[i]) % m == exact[i] % m by {
        lemma_mod_twice(horner(polys[i], j + 1), m);
    }
    lemma_plain_sum_congruent(shares, exact, n, n, m);
    lemma_combination(polys, n, n, m, j + 1, len);
    lemma_mod_twice(plain_sum(shares, n, n, m), m);
    lemma_mod_bound(plain_sum(shares, n, n, m), m);
}

/// Combinations of polynomials with the same constant terms have the same
/// constant term.
proof fn lemma_combination_at_zero(
    lows: Seq<Seq<int>>,
    highs: Seq<Seq<int>>,
    n: nat,
    count: nat,
    m: int,
)
    requires
        count <= lows.len(),
        count <= highs.len(),
        forall|i: int| 0 <= i < count ==> horner(#[trigger] lows[i], 0) == horner(highs[i], 0),
    ensures
        horner(combination(lows, n, count, m), 0) == horner(combination(highs, n, count, m), 0),
    decreases count,
{
    if count > 0 {
        let k: nat = (count - 1) as nat;
        let w: int = weight(n, count as int, m);
        lemma_combination_at_zero(lows, highs, n, k, m);
        lemma_horner_add(combination(lows, n, k, m), poly_scale(lows[count - 1], w), 0);
        lemma_horner_add(combination(highs, n, k, m), poly_scale(highs[count - 1], w), 0);
        lemma_horner_scale(lows[count - 1], w, 0);
        lemma_horner_scale(highs[count - 1], w, 0);
        assert(horner(lows[count - 1], 0) == horner(highs[count - 1], 0));
    }
}

/// The masks that the setup gives are shares of one number. When every
/// party has shared a number of its own twice, with a polynomial of `lows`
/// of degree `t` and with one of `highs` of degree `2t`, the two
/// combinations of these polynomials, on which the masks of the parties lie,
/// have a degree up to `t` and up to `2t`, and the same constant term.
pub proof fn lemma_combined_masks(
    lows: Seq<Seq<int>>,
    highs: Seq<Seq<int>>,
    t: nat,
    n: nat,
    m: int,
)
    requires
        lows.len() == n,
        highs.len() == n,
        forall|i: int| 0 <= i < n ==> (#[trigger] lows[i]).len() == t + 1,
        forall|i: int| 0 <= i < n ==> (#[trigger] highs[i]).len() == 2 * t + 1,
        forall|i: int| 0 <= i < n ==> (#[trigger] lows[i])[0] == highs[i][0],
    ensures
        combination(lows, n, n, m).len() <= t + 1,
        combination(highs, n, n, m).len() <= 2 * t + 1,
        horner(combination(lows, n, n, m), 0) == horner(combination(highs, n, n, m), 0),
{
    lemma_combination(highs, n, n, m, 0, 2 * t + 1);
    lemma_combination(lows, n, n, m, 0, t + 1);
    assert forall|i: int| 0 <= i < n implies horner(#[trigger] lows[i], 0) == horner(highs[i], 0) by {
        lemma_value_at_zero(lows[i]);
        lemma_value_at_zero(highs[i]);
        assert(lows[i][0] == highs[i][0]);
    }
    lemma_combination_at_zero(lows, highs, n, n, m);
}

/// The constant term of a polynomial that is not empty is its value at zero.
pub proof fn lemma_value_at_zero(c: Seq<int>)
    requires
        c.len() > 0,
    ensures
        horner(c, 0) == c[0],
{
    lemma_mul_basics(horner(c.drop_first(), 0));
}

/// The shares that the `n` parties hand out at a multiplication gate whose
/// operands are shared with the polynomials `fa` and `fb`: the product of
/// their two shares, each masked with the party's mask of `high_masks`.
pub open spec fn masked_with(
    fa: Seq<int>,
    fb: Seq<int>,
    high_masks: Seq<int>,
    n: nat,
    m: int,
) -> Seq<int> {
    Seq::new(
        n,
        |j: int|
            add_mod(
                mul_mod(shares_of(fa, n, m)[j], shares_of(fb, n, m)[j], m),
                high_masks[j],
                m,
            ),
    )
}

/// The shares that the `n` parties hold after the multiplication: what they
/// reconstruct from the masked products, each less the party's mask of
/// `low_masks`.
pub open spec fn reduced_with(
    fa: Seq<int>,
    fb: Seq<int>,
    low_masks: Seq<int>,
    high_masks: Seq<int>,
    n: nat,
    m: int,
) -> Seq<int> {
    Seq::new(
        n,
        |j: int| sub_mod(interpolation(masked_with(fa, fb, high_masks, n, m), n, m), low_masks[j], m),
    )
}

/// The polynomial on which the shares lie that the parties hold after a
/// multiplication: the number `g` that they have reconstructed, less the
/// polynomial `low` of their masks.
pub open spec fn reduced_polynomial(g: int, low: Seq<int>) -> Seq<int> {
    poly_add(seq![g], poly_scale(low, -1))
}

/// Multiplication reconstructs the product, whatever the masks, as long as
/// they are shares of one number. Let `n` parties, at least `2t + 1` and
/// fewer than twice the prime order `m` of the field, hold shares of two
/// secrets, shared with the polynomials `fa` and `fb` of a degree up to `t`.
/// Let the masks of the parties be the values of two polynomials with the
/// same constant term, `low` of a degree up to `t` and `high` of a degree up
/// to `2t`. Then the shares that the parties hold after the multiplication
/// lie on one polynomial of a degree up to `t`, whose constant term is the
/// product of the two secrets, and they reconstruct to that product.
pub proof fn lemma_masked_multiplication(
    fa: Seq<int>,
    fb: Seq<int>,
    low: Seq<int>,
    high: Seq<int>,
    low_masks: Seq<int>,
    high_masks: Seq<int>,
    t: nat,
    n: nat,
    m: int,
)
    requires
        is_prime(m),
        2 * t + 1 <= n < 2 * m,
        0 < fa.len() <= t + 1,
        0 < fb.len() <= t + 1,
        low.len() <= t + 1,
        high.len() <= 2 * t + 1,
        horner(low, 0) % m == horner(high, 0) % m,
        low_masks.len() == n,
        high_masks.len() == n,
        forall|j: int| 0 <= j < n ==> (#[trigger] low_masks[j]) % m == horner(low, j + 1) % m,
        forall|j: int| 0 <= j < n ==> (#[trigger] high_masks[j]) % m == horner(high, j + 1) % m,
    ensures
        interpolation(reduced_with(fa, fb, low_masks, high_masks, n, m), n, m) == (fa[0] * fb[0])
            % m,
        0 < reduced_polynomial(
            interpolation(masked_with(fa, fb, high_masks, n, m), n, m),
            low,
        ).len() <= t + 1,
        horner(
            reduced_polynomial(interpolation(masked_with(fa, fb, high_masks, n, m), n, m), low),
            0,
        ) % m == (fa[0] * fb[0]) % m,
        forall|j: int|
            0 <= j < n ==> (#[trigger] reduced_with(fa, fb, low_masks, high_masks, n, m)[j]) % m
                == horner(
                reduced_polynomial(interpolation(masked_with(fa, fb, high_masks, n, m), n, m), low),
                j + 1,
            ) % m,
{
    // the masked products are shares of the product polynomial plus the high mask
    let product: Seq<int> = poly_mul(fa, fb);
    let masked: Seq<int> = poly_add(product, high);
    lemma_mul_len(fa, fb);
    let g_shares: Seq<int> = masked_with(fa, fb, high_masks, n, m);
    assert forall|j: int| 0 <= j < n implies (#[trigger] g_shares[j]) % m == horner(masked, j + 1)
        % m by {
        let a: int = horner(fa, j + 1);
        let b: int = horner(fb, j + 1);
        let g: int = high_masks[j];
        lemma_horner_add(product, high, j + 1);
        lemma_horner_mul(fa, fb, j + 1);
        lemma_mul_mod_noop_general(a, b, m);
        lemma_mod_twice((a % m) * (b % m), m);
        lemma_mod_twice(mul_mod(a % m, b % m, m) + g, m);
        lemma_congruent_add(mul_mod(a % m, b % m, m), a * b, g, m);
        lemma_congruent_add(g, horner(high, j + 1), a * b, m);
    }
    lemma_shares_reconstruct(masked, g_shares, n, m);
    let g: int = interpolation(g_shares, n, m);
    lemma_horner_add(product, high, 0);
    lemma_horner_mul(fa, fb, 0);
    lemma_value_at_zero(fa);
    lemma_value_at_zero(fb);
    assert(g == (fa[0] * fb[0] + horner(high, 0)) % m);
    // the reduced shares are shares of that number less the low mask
    let reduced: Seq<int> = reduced_polynomial(g, low);
    let out: Seq<int> = reduced_with(fa, fb, low_masks, high_masks, n, m);
    assert forall|j: int| 0 <= j < n implies (#[trigger] out[j]) % m == horner(reduced, j + 1)
        % m by {
        let s: int = low_masks[j];
        lemma_sub_mod_congruent(g, s, m);
        lemma_horner_add(seq![g], poly_scale(low, -1), j + 1);
        lemma_horner_scale(low, -1, j + 1);
        lemma_value_of_constant(g, j + 1);
        lemma_congruent_mul(s, horner(low, j + 1), -1, m);
        lemma_congruent_add((-1) * s, (-1) * horner(low, j + 1), g, m);
        assert(g - s == g + (-1) * s);
    }
    lemma_shares_reconstruct(reduced, out, n, m);
    lemma_horner_add(seq![g], poly_scale(low, -1), 0);
    lemma_horner_scale(low, -1, 0);
    lemma_value_of_constant(g, 0);
    let r: int = horner(high, 0);
    let s: int = horner(low, 0);
    let ab: int = fa[0] * fb[0];
    // g - s is congruent to ab + r - r
    lemma_mod_twice(ab + r, m);
    lemma_congruent_add(g, ab + r, (-1) * s, m);
    lemma_congruent_mul(s, r, -1, m);
    lemma_congruent_add((-1) * s, (-1) * r, ab + r, m);
    assert(ab + r + (-1) * r == ab);
}

/// Multiplication reconstructs the product. Let `n` parties, at least
/// `2t + 1` and fewer than twice the prime order `m` of the field, hold
/// shares of two secrets, shared with the polynomials `fa` and `fb` of degree `t`. Let
/// every party have shared a number of its own twice for the setup, with a
/// polynomial of degree `t` and with one of degree `2t`. Then the shares that
/// the parties hold after the multiplication reconstruct to the product of
/// the two secrets.
pub proof fn lemma_multiplication_reconstructs_product(
    fa: Seq<int>,
    fb: Seq<int>,
    lows: Seq<Seq<int>>,
    highs: Seq<Seq<int>>,
    t: nat,
    n: nat,
    m: int,
)
    requires
        is_prime(m),
        2 * t + 1 <= n < 2 * m,
        fa.len() == t + 1,
        fb.len() == t + 1,
        lows.len() == n,
        highs.len() == n,
        forall|i: int| 0 <= i < n ==> (#[trigger] lows[i]).len() == t + 1,
        forall|i: int| 0 <= i < n ==> (#[trigger] highs[i]).len() == 2 * t + 1,
        forall|i: int| 0 <= i < n ==> (#[trigger] lows[i])[0] == highs[i][0],
    ensures
        interpolation(reduced_shares(fa, fb, lows, highs, n, m), n, m) == (fa[0] * fb[0]) % m,
{
    let low: Seq<int> = combination(lows, n, n, m);
    let high: Seq<int> = combination(highs, n, n, m);
    let low_masks: Seq<int> = Seq::new(n, |j: int| mask(lows, j, n, m));
    let high_masks: Seq<int> = Seq::new(n, |j: int| mask(highs, j, n, m));
    lemma_combination(highs, n, n, m, 0, 2 * t + 1);
    lemma_combination(lows, n, n, m, 0, t + 1);
    assert forall|j: int| 0 <= j < n implies (#[trigger] low_masks[j]) % m == horner(low, j + 1)
        % m by {
        lemma_mask_is_value(lows, j, n, m, t + 1);
    }
    assert forall|j: int| 0 <= j < n implies (#[trigger] high_masks[j]) % m == horner(high, j + 1)
        % m by {
        lemma_mask_is_value(highs, j, n, m, 2 * t + 1);
    }
    assert forall|i: int| 0 <= i < n implies horner(#[trigger] lows[i], 0) == horner(highs[i], 0) by {
        lemma_value_at_zero(lows[i]);
        lemma_value_at_zero(highs[i]);
        assert(lows[i][0] == highs[i][0]);
    }
    lemma_combination_at_zero(lows, highs, n, n, m);
    lemma_masked_multiplication(fa, fb, low, high, low_masks, high_masks, t, n, m);
    assert(masked_products(fa, fb, highs, n, m) =~= masked_with(fa, fb, high_masks, n, m));
    assert(reduced_shares(fa, fb, lows, highs, n, m) =~= reduced_with(
        fa,
        fb,
        low_masks,
        high_masks,
        n,
        m,
    ));
}

/// The value of a constant polynomial.
proof fn lemma_value_of_constant(g: int, x: int)
    ensures
        horner(seq![g], x) == g,
{
    let c: Seq<int> = seq![g];
    assert(c.drop_first().len() == 0);
    assert(horner(c.drop_first(), x) == 0);
    lemma_mul_basics(x);
    assert(horner(c, x) == c[0] + x * horner(c.drop_first(), x));
}

} // verus!
