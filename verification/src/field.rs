//! Modular arithmetic over a configurable modulus and a generic unsigned
//! integer type.

use rand::Rng;
use rand::rngs::ThreadRng;
use vstd::arithmetic::div_mod::*;
use vstd::arithmetic::mul::*;
use vstd::arithmetic::power::*;
use vstd::prelude::*;

verus! {

/// An unsigned fixed-width integer type that can carry field elements.
///
/// `value` is the number an element stands for; every value of the type lies
/// in `0..=max_value()` and fits 64 bits.
pub trait FieldElement: Copy {
    /// The number this element stands for.
    spec fn value(self) -> int;

    /// The largest number the type can hold.
    spec fn max_value() -> int;

    /// Every element lies within the range of the type.
    proof fn lemma_range(self)
        ensures
            0 <= self.value() <= Self::max_value() <= u64::MAX,
    ;

    /// Two elements that stand for the same number are the same element.
    proof fn lemma_injective(self, other: Self)
        requires
            self.value() == other.value(),
        ensures
            self == other,
    ;

    /// Widens the element to 64 bits.
    fn to_u64(self) -> (r: u64)
        ensures
            r == self.value(),
    ;

    /// Narrows a 64-bit number that fits the type.
    fn from_u64(x: u64) -> (r: Self)
        requires
            x <= Self::max_value(),
        ensures
            r.value() == x,
    ;

    /// The largest number the type can hold, widened to 64 bits.
    fn limit() -> (r: u64)
        ensures
            r == Self::max_value(),
    ;
}

impl FieldElement for u8 {
    open spec fn value(self) -> int {
        self as int
    }

    open spec fn max_value() -> int {
        u8::MAX as int
    }

    proof fn lemma_range(self) {
    }

    proof fn lemma_injective(self, other: Self) {
    }

    fn to_u64(self) -> (r: u64) {
        self as u64
    }

    fn from_u64(x: u64) -> (r: Self) {
        x as u8
    }

    fn limit() -> (r: u64) {
        u8::MAX as u64
    }
}

impl FieldElement for u16 {
    open spec fn value(self) -> int {
        self as int
    }

    open spec fn max_value() -> int {
        u16::MAX as int
    }

    proof fn lemma_range(self) {
    }

    proof fn lemma_injective(self, other: Self) {
    }

    fn to_u64(self) -> (r: u64) {
        self as u64
    }

    fn from_u64(x: u64) -> (r: Self) {
        x as u16
    }

    fn limit() -> (r: u64) {
        u16::MAX as u64
    }
}

impl FieldElement for u32 {
    open spec fn value(self) -> int {
        self as int
    }

    open spec fn max_value() -> int {
        u32::MAX as int
    }

    proof fn lemma_range(self) {
    }

    proof fn lemma_injective(self, other: Self) {
    }

    fn to_u64(self) -> (r: u64) {
        self as u64
    }

    fn from_u64(x: u64) -> (r: Self) {
        x as u32
    }

    fn limit() -> (r: u64) {
        u32::MAX as u64
    }
}

impl FieldElement for u64 {
    open spec fn value(self) -> int {
        self as int
    }

    open spec fn max_value() -> int {
        u64::MAX as int
    }

    proof fn lemma_range(self) {
    }

    proof fn lemma_injective(self, other: Self) {
    }

    fn to_u64(self) -> (r: u64) {
        self
    }

    fn from_u64(x: u64) -> (r: Self) {
        x
    }

    fn limit() -> (r: u64) {
        u64::MAX
    }
}

/// The element that stands for the number `v`, for a number that the type
/// can hold.
pub open spec fn element<DataType: FieldElement>(v: int) -> DataType {
    choose|e: DataType| e.value() == v
}

/// The elements that stand for the numbers of a sequence.
pub open spec fn elements<DataType: FieldElement>(vs: Seq<int>) -> Seq<DataType> {
    Seq::new(vs.len(), |i: int| element::<DataType>(vs[i]))
}

/// An element is the element that stands for its number.
pub proof fn lemma_element<DataType: FieldElement>(e: DataType)
    ensures
        element::<DataType>(e.value()) == e,
{
    let found: DataType = element::<DataType>(e.value());
    assert(found.value() == e.value());
    found.lemma_injective(e);
}

/// Sum of `a` and `b` modulo `m`.
pub open spec fn add_mod(a: int, b: int, m: int) -> int {
    (a + b) % m
}

/// Difference of `a` and `b` modulo `m`.
pub open spec fn sub_mod(a: int, b: int, m: int) -> int {
    (a - b) % m
}

/// Product of `a` and `b` modulo `m`.
pub open spec fn mul_mod(a: int, b: int, m: int) -> int {
    (a * b) % m
}

/// `a` raised to `e`, modulo `m`.
pub open spec fn pow_mod(a: int, e: nat, m: int) -> int {
    pow(a, e) % m
}

/// The Fermat inverse of `a` modulo `m`: `a` raised to `m - 2`.
pub open spec fn inv_mod(a: int, m: int) -> int {
    pow_mod(a, (m - 2) as nat, m)
}

/// The random source a field draws its samples from.
#[verifier::external_type_specification]
#[verifier::external_body]
pub struct ExThreadRng(ThreadRng);

/// `rand::thread_rng`: a handle to the generator of the calling thread.
/// Nothing is claimed of the handle.
#[verifier::external_body]
fn thread_generator() -> ThreadRng {
    rand::thread_rng()
}

/// `Clone::clone` of `ThreadRng`: a second handle to the same generator.
/// Nothing is claimed of the handle.
#[verifier::external_body]
fn clone_generator(rng: &ThreadRng) -> ThreadRng {
    rng.clone()
}

/// `Rng::gen_range` of `ThreadRng` on the half-open range `0..bound`: the
/// sample lies in the range. The range must not be empty.
#[verifier::external_body]
fn sample_below(rng: &mut ThreadRng, bound: u64) -> (r: u64)
    requires
        bound > 0,
    ensures
        r < bound,
{
    rng.gen_range(0..bound)
}

/// A finite field of integers modulo `order`, with its own random source.
pub struct Field<DataType> {
    order: DataType,
    rand: ThreadRng,
}

impl<DataType: FieldElement> Clone for Field<DataType> {
    fn clone(&self) -> (r: Self)
        ensures
            r.modulus() == self.modulus(),
    {
        Field { order: self.order, rand: clone_generator(&self.rand) }
    }
}

impl<DataType: FieldElement> Field<DataType> {
    /// The modulus of the field.
    pub closed spec fn modulus(&self) -> int {
        self.order.value()
    }

    /// A field has at least the two elements zero and one.
    pub open spec fn wf(&self) -> bool {
        self.modulus() >= 2
    }

    /// Whether `a` is a normalized element of the field.
    pub open spec fn contains(&self, a: DataType) -> bool {
        0 <= a.value() < self.modulus()
    }

    pub fn new(order: DataType) -> (field: Self)
        requires
            order.value() >= 2,
        ensures
            field.wf(),
            field.modulus() == order.value(),
    {
        Field { order, rand: thread_generator() }
    }

    /// The modulus, as an element of the carrier type.
    pub fn get_order(&self) -> (r: DataType)
        ensures
            r.value() == self.modulus(),
    {
        self.order
    }

    pub fn zero(&self) -> (r: DataType)
        requires
            self.wf(),
        ensures
            r.value() == 0,
            self.contains(r),
    {
        proof {
            self.order.lemma_range();
        }
        DataType::from_u64(0)
    }

    pub fn one(&self) -> (r: DataType)
        requires
            self.wf(),
        ensures
            r.value() == 1,
            self.contains(r),
    {
        proof {
            self.order.lemma_range();
        }
        DataType::from_u64(1)
    }

    pub fn add(&self, a: DataType, b: DataType) -> (r: DataType)
        requires
            self.wf(),
        ensures
            r.value() == add_mod(a.value(), b.value(), self.modulus()),
            self.contains(r),
    {
        proof {
            self.order.lemma_range();
            a.lemma_range();
            b.lemma_range();
        }
        let m: u128 = self.order.to_u64() as u128;
        let wide: u128 = a.to_u64() as u128 + b.to_u64() as u128;
        self.normalize(wide)
    }

    pub fn sub(&self, a: DataType, b: DataType) -> (r: DataType)
        requires
            self.wf(),
        ensures
            r.value() == sub_mod(a.value(), b.value(), self.modulus()),
            self.contains(r),
    {
        proof {
            self.order.lemma_range();
            a.lemma_range();
            b.lemma_range();
        }
        let x: u64 = a.to_u64();
        let y: u64 = b.to_u64();
        if x >= y {
            self.normalize((x - y) as u128)
        } else {
            let rest: DataType = self.normalize((y - x) as u128);
            proof {
                lemma_sub_below(a.value(), b.value(), self.modulus());
            }
            if rest.to_u64() == 0 {
                rest
            } else {
                DataType::from_u64(self.order.to_u64() - rest.to_u64())
            }
        }
    }

    pub fn mul(&self, a: DataType, b: DataType) -> (r: DataType)
        requires
            self.wf(),
        ensures
            r.value() == mul_mod(a.value(), b.value(), self.modulus()),
            self.contains(r),
    {
        proof {
            self.order.lemma_range();
            a.lemma_range();
            b.lemma_range();
            lemma_mul_upper_bound(a.value(), u64::MAX as int, b.value(), u64::MAX as int);
        }
        let wide: u128 = (a.to_u64() as u128) * (b.to_u64() as u128);
        self.normalize(wide)
    }

    pub fn inv(&self, a: DataType) -> (r: DataType)
        requires
            self.wf(),
        ensures
            r.value() == inv_mod(a.value(), self.modulus()),
            self.contains(r),
    {
        proof {
            self.order.lemma_range();
        }
        let exponent: u64 = self.order.to_u64() - 2;
        self.pow(a, DataType::from_u64(exponent))
    }

    pub fn random(&mut self) -> (r: DataType)
        requires
            old(self).wf(),
        ensures
            final(self).modulus() == old(self).modulus(),
            final(self).contains(r),
    {
        proof {
            self.order.lemma_range();
        }
        let sample: u64 = sample_below(&mut self.rand, self.order.to_u64());
        DataType::from_u64(sample)
    }

    /// Reduces a wide intermediate result into the field.
    fn normalize(&self, a: u128) -> (r: DataType)
        requires
            self.wf(),
        ensures
            r.value() == a as int % self.modulus(),
            self.contains(r),
    {
        proof {
            self.order.lemma_range();
        }
        let m: u128 = self.order.to_u64() as u128;
        let rest: u128 = a % m;
        DataType::from_u64(rest as u64)
    }

    /// `a` raised to `b` in the field, by repeated squaring.
    pub fn pow(&self, a: DataType, b: DataType) -> (r: DataType)
        requires
            self.wf(),
        ensures
            r.value() == pow_mod(a.value(), b.value() as nat, self.modulus()),
            self.contains(r),
    {
        proof {
            self.order.lemma_range();
            a.lemma_range();
            b.lemma_range();
        }
        let m: u128 = self.order.to_u64() as u128;
        let mut result: u128 = 1;
        let mut base: u128 = (a.to_u64() as u128) % m;
        let mut rest: u64 = b.to_u64();
        proof {
            lemma_pow_mod_noop(a.value(), rest as nat, m as int);
            lemma_mul_basics(pow(base as int, rest as nat));
        }
        while rest > 0
            invariant
                2 <= m <= u64::MAX,
                m == self.modulus(),
                result < m,
                base < m,
                (result * pow(base as int, rest as nat)) % (m as int) == pow_mod(
                    a.value(),
                    b.value() as nat,
                    m as int,
                ),
            decreases rest,
        {
            proof {
                lemma_mul_upper_bound(result as int, u64::MAX as int, base as int, u64::MAX as int);
                lemma_mul_upper_bound(base as int, u64::MAX as int, base as int, u64::MAX as int);
                lemma_square_step(result as int, base as int, rest as nat, m as int);
            }
            if rest % 2 == 1 {
                result = (result * base) % m;
            }
            base = (base * base) % m;
            rest = rest / 2;
        }
        proof {
            lemma_pow0(base as int);
            lemma_small_mod(result as nat, m as nat);
        }
        DataType::from_u64(result as u64)
    }
}

/// Taking `b` off `a` and adding it again gives `a` back, modulo `m`.
pub proof fn lemma_sub_then_add(a: int, b: int, m: int)
    requires
        m > 0,
    ensures
        add_mod(sub_mod(a, b, m), b, m) == a % m,
{
    lemma_add_mod_noop(a - b, b, m);
    lemma_add_mod_noop((a - b) % m, b, m);
    lemma_mod_twice(a - b, m);
}

/// The difference of any two numbers is a normalized element.
pub proof fn lemma_sub_normalized(a: int, b: int, m: int)
    requires
        m > 0,
    ensures
        0 <= sub_mod(a, b, m) < m,
{
    lemma_mod_bound(a - b, m);
}

/// Below zero, the difference is what the remainder of `b - a` lacks to `m`,
/// and zero where `b - a` is a multiple of `m`.
proof fn lemma_sub_below(a: int, b: int, m: int)
    requires
        m > 0,
        a < b,
    ensures
        (b - a) % m == 0 ==> sub_mod(a, b, m) == 0,
        (b - a) % m != 0 ==> sub_mod(a, b, m) == m - (b - a) % m,
{
    let rest: int = (b - a) % m;
    let q: int = (b - a) / m;
    lemma_fundamental_div_mod(b - a, m);
    lemma_mod_bound(b - a, m);
    if rest == 0 {
        assert(a - b == (-q) * m + 0) by (nonlinear_arith)
            requires
                b - a == m * q + rest,
                rest == 0,
        ;
        lemma_fundamental_div_mod_converse(a - b, m, -q, 0);
    } else {
        assert(a - b == (-q - 1) * m + (m - rest)) by (nonlinear_arith)
            requires
                b - a == m * q + rest,
        ;
        lemma_fundamental_div_mod_converse(a - b, m, -q - 1, m - rest);
    }
}

/// One step of repeated squaring keeps the running product unchanged modulo
/// `m`.
proof fn lemma_square_step(result: int, base: int, e: nat, m: int)
    requires
        m > 0,
        e > 0,
    ensures
        e % 2 == 1 ==> ((result * base) % m * pow((base * base) % m, e / 2)) % m == (result * pow(
            base,
            e,
        )) % m,
        e % 2 == 0 ==> (result * pow((base * base) % m, e / 2)) % m == (result * pow(base, e)) % m,
{
    let half: nat = e / 2;
    let square: int = base * base;
    // pow(square % m, half) is congruent to pow(square, half) == pow(base, 2 * half)
    lemma_pow_mod_noop(square, half, m);
    lemma_square_is_pow2(base);
    lemma_pow_multiplies(base, 2, half);
    assert(pow(square, half) == pow(base, 2 * half));
    let p: int = pow(square % m, half);
    let q: int = pow(base, 2 * half);
    assert(p % m == q % m);
    if e % 2 == 0 {
        assert(2 * half == e);
        lemma_mul_mod_noop_right(result, p, m);
        lemma_mul_mod_noop_right(result, q, m);
    } else {
        assert(2 * half + 1 == e);
        lemma_pow_adds(base, 1, 2 * half);
        lemma_pow1(base);
        assert(pow(base, e) == base * q);
        lemma_mul_is_associative(result, base, q);
        assert(result * pow(base, e) == (result * base) * q);
        lemma_mul_mod_noop_general((result * base), p, m);
        lemma_mul_mod_noop_general((result * base), q, m);
    }
}

} // verus!
