//! Arithmetic modulo a prime: a prime that divides a product divides a
//! factor, and Fermat's little theorem, on which the inverse of a field
//! element rests.

use crate::field::inv_mod;
use crate::field::mul_mod;
use vstd::arithmetic::div_mod::*;
use vstd::arithmetic::mul::*;
use vstd::arithmetic::power::*;
use vstd::prelude::*;
use vstd::set_lib::lemma_int_range;
use vstd::set_lib::lemma_len_subset;
use vstd::set_lib::set_int_range;

verus! {

/// Whether `p` is a prime: at least two, and divisible by no number between
/// one and itself.
pub open spec fn is_prime(p: int) -> bool {
    &&& p >= 2
    &&& forall|d: int| 2 <= d < p ==> #[trigger] (p % d) != 0
}

/// A multiple of a multiple of `p` is a multiple of `p`.
proof fn lemma_multiple_of_multiple(q: int, x: int, p: int)
    requires
        p > 0,
        x % p == 0,
    ensures
        (q * x) % p == 0,
{
    lemma_mul_mod_noop_right(q, x, p);
    lemma_mul_basics(q);
    lemma_small_mod(0, p as nat);
}

/// A prime that divides `x * y`, with `x` between zero and the prime,
/// divides `y`.
proof fn lemma_prime_divides_other_factor(p: int, x: int, y: int)
    requires
        is_prime(p),
        0 < x < p,
        (x * y) % p == 0,
    ensures
        y % p == 0,
    decreases x,
{
    if x == 1 {
        lemma_mul_basics(y);
    } else {
        let q: int = p / x;
        let r: int = p % x;
        lemma_fundamental_div_mod(p, x);
        lemma_mod_pos_bound(p, x);
        assert(r != 0);
        assert(r * y == p * y - q * (x * y)) by (nonlinear_arith)
            requires
                p == x * q + r,
        ;
        lemma_mod_multiples_basic(y, p);
        lemma_mul_is_commutative(y, p);
        lemma_multiple_of_multiple(q, x * y, p);
        lemma_sub_mod_noop(p * y, q * (x * y), p);
        lemma_small_mod(0, p as nat);
        lemma_prime_divides_other_factor(p, r, y);
    }
}

/// A prime that divides a product divides one of the factors.
pub proof fn lemma_prime_divides_factor(p: int, x: int, y: int)
    requires
        is_prime(p),
        (x * y) % p == 0,
    ensures
        x % p == 0 || y % p == 0,
{
    if x % p != 0 {
        lemma_mod_bound(x, p);
        lemma_mul_mod_noop_left(x, y, p);
        lemma_prime_divides_other_factor(p, x % p, y);
    }
}

/// Modulo a prime, a factor that the prime does not divide can be cancelled.
pub proof fn lemma_cancel(p: int, c: int, a: int, b: int)
    requires
        is_prime(p),
        c % p != 0,
        (c * a) % p == (c * b) % p,
    ensures
        a % p == b % p,
{
    lemma_mod_equivalence(c * a, c * b, p);
    assert(c * a - c * b == c * (a - b)) by (nonlinear_arith);
    lemma_prime_divides_factor(p, c, a - b);
    lemma_mod_equivalence(a, b, p);
}

/// The product of the entries of a sequence.
pub open spec fn product(s: Seq<int>) -> int
    decreases s.len(),
{
    if s.len() == 0 {
        1
    } else {
        product(s.drop_last()) * s.last()
    }
}

/// The numbers from one to `n`.
pub open spec fn one_to(n: nat) -> Seq<int> {
    Seq::new(n, |i: int| i + 1)
}

/// The product of a sequence is one of its entries times the product of the
/// others.
proof fn lemma_product_remove(s: Seq<int>, j: int)
    requires
        0 <= j < s.len(),
    ensures
        product(s) == s[j] * product(s.remove(j)),
    decreases s.len(),
{
    if j == s.len() - 1 {
        assert(s.remove(j) =~= s.drop_last());
        lemma_mul_is_commutative(product(s.drop_last()), s.last());
    } else {
        let t: Seq<int> = s.drop_last();
        lemma_product_remove(t, j);
        assert(s.remove(j).drop_last() =~= t.remove(j));
        assert(s.remove(j).last() == s.last());
        lemma_mul_is_associative(s[j], product(t.remove(j)), s.last());
    }
}

/// Among `n` different numbers from one to `n`, one is `n`.
proof fn lemma_largest_occurs(s: Seq<int>, n: nat) -> (j: int)
    requires
        n > 0,
        s.len() == n,
        s.no_duplicates(),
        forall|i: int| 0 <= i < n ==> 1 <= #[trigger] s[i] <= n,
    ensures
        0 <= j < n,
        s[j] == n,
{
    if !s.contains(n as int) {
        s.unique_seq_to_set();
        let range: Set<int> = set_int_range(1, n as int);
        lemma_int_range(1, n as int);
        assert forall|x: int| s.to_set().contains(x) implies range.contains(x) by {
            let i: int = choose|i: int| 0 <= i < s.len() && s[i] == x;
            assert(1 <= s[i] <= n);
            assert(s.contains(s[i]));
        }
        lemma_len_subset(s.to_set(), range);
        assert(false);
    }
    choose|j: int| 0 <= j < s.len() && s[j] == n
}

/// The product of `n` different numbers from one to `n` is that of the
/// numbers from one to `n`.
proof fn lemma_product_of_rearrangement(s: Seq<int>, n: nat)
    requires
        s.len() == n,
        s.no_duplicates(),
        forall|i: int| 0 <= i < n ==> 1 <= #[trigger] s[i] <= n,
    ensures
        product(s) == product(one_to(n)),
    decreases n,
{
    if n == 0 {
        assert(one_to(0).len() == 0);
    } else {
        let j: int = lemma_largest_occurs(s, n);
        let t: Seq<int> = s.remove(j);
        assert forall|i: int| 0 <= i < n - 1 implies 1 <= #[trigger] t[i] <= n - 1 by {
            if i < j {
                assert(t[i] == s[i]);
            } else {
                assert(t[i] == s[i + 1]);
            }
        }
        assert(t.no_duplicates()) by {
            assert forall|a: int, b: int| 0 <= a < t.len() && 0 <= b < t.len() && a != b implies t[a]
                != t[b] by {
                let a2: int = if a < j { a } else { a + 1 };
                let b2: int = if b < j { b } else { b + 1 };
                assert(t[a] == s[a2]);
                assert(t[b] == s[b2]);
            }
        }
        lemma_product_remove(s, j);
        lemma_product_of_rearrangement(t, (n - 1) as nat);
        assert(one_to(n).drop_last() =~= one_to((n - 1) as nat));
        assert(one_to(n).last() == n);
        lemma_mul_is_commutative(n as int, product(one_to((n - 1) as nat)));
    }
}

/// The multiples `a * 1`, ..., `a * n` of `a`, each reduced modulo `p`.
pub open spec fn multiples(a: int, n: nat, p: int) -> Seq<int> {
    Seq::new(n, |i: int| (a * (i + 1)) % p)
}

/// The product of the reduced multiples of `a` is, modulo `p`, the product
/// of the numbers from one to `n` times `a` to the power `n`.
proof fn lemma_product_of_multiples(a: int, n: nat, p: int)
    requires
        p > 0,
    ensures
        product(multiples(a, n, p)) % p == (pow(a, n) * product(one_to(n))) % p,
    decreases n,
{
    if n == 0 {
        assert(multiples(a, 0, p).len() == 0);
        assert(one_to(0).len() == 0);
        lemma_pow0(a);
    } else {
        let k: nat = (n - 1) as nat;
        lemma_product_of_multiples(a, k, p);
        assert(multiples(a, n, p).drop_last() =~= multiples(a, k, p));
        assert(multiples(a, n, p).last() == (a * n) % p);
        assert(one_to(n).drop_last() =~= one_to(k));
        assert(one_to(n).last() == n);
        let before: int = product(multiples(a, k, p));
        let ideal: int = pow(a, k) * product(one_to(k));
        // before * ((a * n) % p) is congruent to ideal * (a * n)
        lemma_mul_mod_noop_general(before, a * n, p);
        lemma_mul_mod_noop_general(ideal, a * n, p);
        assert((before * ((a * n) % p)) % p == (ideal * (a * n)) % p);
        lemma_pow_adds(a, k, 1);
        lemma_pow1(a);
        assert(pow(a, n) == pow(a, k) * a);
        assert(ideal * (a * n) == (pow(a, k) * a) * (product(one_to(k)) * n)) by (nonlinear_arith)
            requires
                ideal == pow(a, k) * product(one_to(k)),
        ;
    }
}

/// A prime divides none of the numbers from one to `n` below it, nor their
/// product.
proof fn lemma_prime_not_in_product(n: nat, p: int)
    requires
        is_prime(p),
        n < p,
    ensures
        product(one_to(n)) % p != 0,
    decreases n,
{
    if n == 0 {
        assert(one_to(0).len() == 0);
        lemma_small_mod(1, p as nat);
    } else {
        let k: nat = (n - 1) as nat;
        lemma_prime_not_in_product(k, p);
        assert(one_to(n).drop_last() =~= one_to(k));
        assert(one_to(n).last() == n);
        lemma_small_mod(n, p as nat);
        if product(one_to(n)) % p == 0 {
            lemma_prime_divides_factor(p, product(one_to(k)), n as int);
        }
    }
}

/// Fermat's little theorem: a number that the prime `p` does not divide,
/// raised to `p - 1`, leaves the remainder one.
pub proof fn lemma_fermat(a: int, p: int)
    requires
        is_prime(p),
        a % p != 0,
    ensures
        pow(a, (p - 1) as nat) % p == 1,
{
    let n: nat = (p - 1) as nat;
    let s: Seq<int> = multiples(a, n, p);
    assert forall|i: int| 0 <= i < n implies 1 <= #[trigger] s[i] <= n by {
        lemma_mod_bound(a * (i + 1), p);
        if (a * (i + 1)) % p == 0 {
            lemma_prime_divides_factor(p, a, i + 1);
            lemma_small_mod((i + 1) as nat, p as nat);
        }
    }
    assert(s.no_duplicates()) by {
        assert forall|i: int, j: int| 0 <= i < s.len() && 0 <= j < s.len() && i != j implies s[i]
            != s[j] by {
            if s[i] == s[j] {
                lemma_cancel(p, a, i + 1, j + 1);
                lemma_small_mod((i + 1) as nat, p as nat);
                lemma_small_mod((j + 1) as nat, p as nat);
            }
        }
    }
    lemma_product_of_rearrangement(s, n);
    lemma_product_of_multiples(a, n, p);
    let f: int = product(one_to(n));
    lemma_prime_not_in_product(n, p);
    // pow(a, n) * f is congruent to f, which is 1 * f
    lemma_mul_is_commutative(pow(a, n), f);
    lemma_mul_basics(f);
    assert((f * pow(a, n)) % p == (f * 1) % p);
    lemma_cancel(p, f, pow(a, n), 1);
    lemma_small_mod(1, p as nat);
}

/// In a field of prime order, an element that is not zero times its inverse
/// is one.
pub proof fn lemma_inverse(a: int, m: int)
    requires
        is_prime(m),
        a % m != 0,
    ensures
        mul_mod(a, inv_mod(a, m), m) == 1,
        mul_mod(inv_mod(a, m), a, m) == 1,
{
    let e: nat = (m - 2) as nat;
    lemma_fermat(a, m);
    lemma_pow_adds(a, 1, e);
    lemma_pow1(a);
    assert(pow(a, (m - 1) as nat) == a * pow(a, e));
    lemma_mul_mod_noop_right(a, pow(a, e), m);
    lemma_mul_is_commutative(a, inv_mod(a, m));
}

} // verus!
