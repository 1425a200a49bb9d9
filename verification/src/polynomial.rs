//! Polynomials over a field: random sharing polynomials, evaluation and
//! Lagrange reconstruction of the constant term.

use crate::field::add_mod;
use crate::field::Field;
use crate::field::FieldElement;
use crate::field::inv_mod;
use crate::field::mul_mod;
use crate::field::sub_mod;
use vstd::arithmetic::div_mod::*;
use vstd::arithmetic::mul::*;
use vstd::prelude::*;

verus! {

/// The numbers that a sequence of elements stands for.
pub open spec fn values<DataType: FieldElement>(s: Seq<DataType>) -> Seq<int> {
    Seq::new(s.len(), |k: int| s[k].value())
}

/// The value at `x` of the polynomial with the coefficients `coeffs`, lowest
/// degree first, over the integers.
pub open spec fn horner(coeffs: Seq<int>, x: int) -> int
    decreases coeffs.len(),
{
    if coeffs.len() == 0 {
        0
    } else {
        coeffs[0] + x * horner(coeffs.drop_first(), x)
    }
}

/// The factor that the evaluation point `knot` contributes to the Lagrange
/// basis coefficient of the point `i`: `knot / (knot - i)` in the field, and
/// one for the point itself.
pub open spec fn lagrange_term(knot: int, i: int, m: int) -> int {
    if knot == i {
        1
    } else {
        mul_mod(knot, inv_mod(sub_mod(knot, i, m), m), m)
    }
}

/// The Lagrange basis coefficient of the point `i` among `knots`, for the
/// value at zero: the product of the factors of all knots, in the field.
pub open spec fn lagrange_basis(knots: Seq<int>, i: int, m: int) -> int
    decreases knots.len(),
{
    if knots.len() == 0 {
        1
    } else {
        mul_mod(lagrange_basis(knots.drop_last(), i, m), lagrange_term(knots.last(), i, m), m)
    }
}

/// The evaluation points `1..=n` of the parties.
pub open spec fn party_knots(n: nat) -> Seq<int> {
    Seq::new(n, |k: int| k + 1)
}

/// The sum, in the field, of the first `count` shares, each weighted with the
/// Lagrange basis coefficient of its party among `n` parties.
pub open spec fn weighted_sum(shares: Seq<int>, n: nat, m: int, count: nat) -> int
    decreases count,
{
    if count == 0 {
        0
    } else {
        add_mod(
            weighted_sum(shares, n, m, (count - 1) as nat),
            mul_mod(shares[count - 1], lagrange_basis(party_knots(n), count as int, m), m),
            m,
        )
    }
}

/// The secret that `n` parties reconstruct from one share each.
pub open spec fn interpolation(shares: Seq<int>, n: nat, m: int) -> int {
    weighted_sum(shares, n, m, n)
}

/// A polynomial over a field, given by its coefficients, lowest degree first.
pub struct Polynomial<DataType> {
    coeffs: Vec<DataType>,
    field: Field<DataType>,
}

impl<DataType: FieldElement> Polynomial<DataType> {
    /// The coefficients, lowest degree first.
    pub closed spec fn coefficients(&self) -> Seq<int> {
        values(self.coeffs@)
    }

    /// The modulus of the field of the polynomial.
    pub closed spec fn modulus(&self) -> int {
        self.field.modulus()
    }

    /// The field of a polynomial is well formed.
    pub closed spec fn wf(&self) -> bool {
        self.field.wf()
    }

    /// The polynomial with the given coefficients, lowest degree first.
    pub fn with_coefficients(coeffs: Vec<DataType>, field: Field<DataType>) -> (poly: Self)
        requires
            field.wf(),
        ensures
            poly.wf(),
            poly.modulus() == field.modulus(),
            poly.coefficients() == values(coeffs@),
    {
        Polynomial { coeffs, field }
    }

    /// A polynomial of the given degree whose constant term is `c` and whose
    /// other coefficients are drawn from the field.
    pub fn random(c: DataType, degree: usize, field: Field<DataType>) -> (poly: Self)
        requires
            field.wf(),
            degree < usize::MAX,
        ensures
            poly.wf(),
            poly.modulus() == field.modulus(),
            poly.coefficients().len() == degree + 1,
            poly.coefficients()[0] == c.value(),
            forall|k: int| 1 <= k <= degree ==> 0 <= #[trigger] poly.coefficients()[k] < field.modulus(),
    {
        let mut field = field;
        let ghost m: int = field.modulus();
        let mut coeffs: Vec<DataType> = Vec::new();
        coeffs.push(c);
        let mut k: usize = 0;
        while k < degree
            invariant
                k <= degree,
                field.wf(),
                field.modulus() == m,
                coeffs.len() == k + 1,
                coeffs[0] == c,
                forall|j: int| 1 <= j <= k ==> 0 <= #[trigger] coeffs[j].value() < m,
            decreases degree - k,
        {
            let sample: DataType = field.random();
            coeffs.push(sample);
            k = k + 1;
        }
        Polynomial { coeffs, field }
    }

    /// The coefficients, lowest degree first.
    pub fn get_coeffs(&self) -> (coeffs: Vec<DataType>)
        ensures
            values(coeffs@) == self.coefficients(),
    {
        let mut coeffs: Vec<DataType> = Vec::new();
        let mut k: usize = 0;
        while k < self.coeffs.len()
            invariant
                k <= self.coeffs.len(),
                coeffs@ == self.coeffs@.subrange(0, k as int),
            decreases self.coeffs.len() - k,
        {
            coeffs.push(self.coeffs[k]);
            k = k + 1;
        }
        assert(coeffs@ == self.coeffs@);
        coeffs
    }

    /// The value of the polynomial at `x`, in the field.
    pub fn eval(&self, x: DataType) -> (r: DataType)
        requires
            self.wf(),
        ensures
            r.value() == horner(self.coefficients(), x.value()) % self.modulus(),
            0 <= r.value() < self.modulus(),
    {
        let ghost m: int = self.field.modulus();
        let ghost cs: Seq<int> = values(self.coeffs@);
        let mut result: DataType = self.field.zero();
        let mut k: usize = self.coeffs.len();
        proof {
            assert(cs.subrange(k as int, cs.len() as int).len() == 0);
            lemma_small_mod(0, m as nat);
        }
        while k > 0
            invariant
                k <= self.coeffs.len(),
                self.field.wf(),
                m == self.field.modulus(),
                cs == values(self.coeffs@),
                0 <= result.value() < m,
                result.value() == horner(cs.subrange(k as int, cs.len() as int), x.value()) % m,
            decreases k,
        {
            k = k - 1;
            let coeff: DataType = self.coeffs[k];
            let ghost tail: Seq<int> = cs.subrange(k + 1, cs.len() as int);
            let ghost whole: Seq<int> = cs.subrange(k as int, cs.len() as int);
            proof {
                assert(whole.drop_first() == tail);
                assert(whole[0] == coeff.value());
                lemma_horner_step(coeff.value(), x.value(), horner(tail, x.value()), m);
            }
            result = self.field.mul(result, x);
            result = self.field.add(result, coeff);
        }
        proof {
            assert(cs.subrange(0, cs.len() as int) == cs);
        }
        result
    }

    /// The shares of the parties `1..=n_parties`: the value of the polynomial
    /// at the evaluation point of each.
    pub fn shares(&self, n_parties: usize) -> (shares: Vec<DataType>)
        requires
            self.wf(),
            n_parties <= DataType::max_value(),
        ensures
            shares.len() == n_parties,
            forall|p: int|
                0 <= p < n_parties ==> (#[trigger] shares[p]).value() == horner(
                    self.coefficients(),
                    p + 1,
                ) % self.modulus(),
            forall|p: int| 0 <= p < n_parties ==> 0 <= (#[trigger] shares[p]).value() < self.modulus(),
    {
        let mut shares: Vec<DataType> = Vec::new();
        let mut party: usize = 0;
        while party < n_parties
            invariant
                party <= n_parties <= DataType::max_value(),
                self.wf(),
                shares.len() == party,
                forall|p: int|
                    0 <= p < party ==> (#[trigger] shares[p]).value() == horner(
                        self.coefficients(),
                        p + 1,
                    ) % self.modulus(),
                forall|p: int| 0 <= p < party ==> 0 <= (#[trigger] shares[p]).value() < self.modulus(),
            decreases n_parties - party,
        {
            proof {
                knots_fit::<DataType>();
            }
            let point: DataType = DataType::from_u64((party + 1) as u64);
            let share: DataType = self.eval(point);
            shares.push(share);
            party = party + 1;
        }
        shares
    }

    /// The Lagrange basis coefficient of the point `i` among `knots`, for the
    /// value at zero.
    pub fn lagrange(knots: &Vec<DataType>, i: DataType, field: &Field<DataType>) -> (r: DataType)
        requires
            field.wf(),
        ensures
            r.value() == lagrange_basis(values(knots@), i.value(), field.modulus()),
            field.contains(r),
    {
        let ghost m: int = field.modulus();
        let ghost ks: Seq<int> = values(knots@);
        let mut result: DataType = field.one();
        let mut k: usize = 0;
        proof {
            assert(ks.subrange(0, 0).len() == 0);
        }
        while k < knots.len()
            invariant
                k <= knots.len(),
                field.wf(),
                m == field.modulus(),
                ks == values(knots@),
                result.value() == lagrange_basis(ks.subrange(0, k as int), i.value(), m),
                field.contains(result),
            decreases knots.len() - k,
        {
            let knot: DataType = knots[k];
            let term: DataType = if knot.to_u64() == i.to_u64() {
                field.one()
            } else {
                field.mul(knot, field.inv(field.sub(knot, i)))
            };
            proof {
                let next: Seq<int> = ks.subrange(0, k + 1);
                assert(next.drop_last() == ks.subrange(0, k as int));
                assert(next.last() == knot.value());
                assert(term.value() == lagrange_term(knot.value(), i.value(), m));
            }
            result = field.mul(result, term);
            k = k + 1;
        }
        proof {
            assert(ks.subrange(0, ks.len() as int) == ks);
        }
        result
    }

    /// The secret that the parties `1..=n_parties` share: the sum of their
    /// shares, each weighted with the Lagrange basis coefficient of its party.
    pub fn interpolate(shares: Vec<DataType>, field: &Field<DataType>, n_parties: usize) -> (r:
        DataType)
        requires
            field.wf(),
            n_parties <= shares.len(),
            n_parties <= DataType::max_value(),
        ensures
            r.value() == interpolation(values(shares@), n_parties as nat, field.modulus()),
            field.contains(r),
    {
        let ghost m: int = field.modulus();
        let ghost ss: Seq<int> = values(shares@);
        let knots: Vec<DataType> = Self::knots(n_parties);
        let mut result: DataType = field.zero();
        let mut party: usize = 0;
        while party < n_parties
            invariant
                party <= n_parties <= shares.len(),
                n_parties <= DataType::max_value(),
                field.wf(),
                m == field.modulus(),
                ss == values(shares@),
                values(knots@) == party_knots(n_parties as nat),
                field.contains(result),
                result.value() == weighted_sum(ss, n_parties as nat, m, party as nat),
            decreases n_parties - party,
        {
            proof {
                knots_fit::<DataType>();
            }
            let point: DataType = DataType::from_u64((party + 1) as u64);
            let weight: DataType = Self::lagrange(&knots, point, field);
            let term: DataType = field.mul(shares[party], weight);
            result = field.add(result, term);
            party = party + 1;
        }
        result
    }

    /// The evaluation points `1..=n_parties`, as elements.
    pub fn knots(n_parties: usize) -> (knots: Vec<DataType>)
        requires
            n_parties <= DataType::max_value(),
        ensures
            values(knots@) == party_knots(n_parties as nat),
    {
        let mut knots: Vec<DataType> = Vec::new();
        let mut k: usize = 0;
        while k < n_parties
            invariant
                k <= n_parties <= DataType::max_value(),
                knots.len() == k,
                forall|j: int| 0 <= j < k ==> (#[trigger] knots[j]).value() == j + 1,
            decreases n_parties - k,
        {
            proof {
                knots_fit::<DataType>();
            }
            knots.push(DataType::from_u64((k + 1) as u64));
            k = k + 1;
        }
        assert(values(knots@) =~= party_knots(n_parties as nat));
        knots
    }
}

/// The largest value of an element type fits 64 bits.
pub proof fn knots_fit<DataType: FieldElement>()
    ensures
        DataType::max_value() <= u64::MAX,
{
    let witness: DataType = arbitrary();
    witness.lemma_range();
}

/// One step of Horner's rule in the field agrees with the rule over the
/// integers.
proof fn lemma_horner_step(coeff: int, x: int, tail: int, m: int)
    requires
        m > 0,
    ensures
        add_mod(mul_mod(tail % m, x, m), coeff, m) == (coeff + x * tail) % m,
{
    lemma_mul_mod_noop_left(tail, x, m);
    lemma_add_mod_noop_left_part((tail % m) * x, coeff, m);
    lemma_add_mod_noop_left_part(tail * x, coeff, m);
    lemma_mul_is_commutative(tail, x);
}

/// Reducing the left summand first does not change a sum modulo `m`.
proof fn lemma_add_mod_noop_left_part(a: int, b: int, m: int)
    requires
        m > 0,
    ensures
        ((a % m) + b) % m == (a + b) % m,
{
    lemma_add_mod_noop(a, b, m);
    lemma_add_mod_noop(a % m, b, m);
    lemma_mod_twice(a, m);
}

} // verus!
