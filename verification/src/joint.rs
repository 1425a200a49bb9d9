//! What the parties compute together, when every message that a party takes
//! carries what its sender has handed out.

use crate::algebra::lemma_horner_add;
use crate::algebra::lemma_horner_scale;
use crate::algebra::poly_add;
use crate::algebra::poly_scale;
use crate::circuit::Circuit;
use crate::circuit::dependency_ordered;
use crate::circuit::gate_value;
use crate::circuit::lemma_gate_value_same_shape;
use crate::circuit::operands_precede;
use crate::circuit::placed_after_operands;
use crate::circuit::same_shape;
use crate::field::FieldElement;
use crate::gate::Gate;
use crate::message::Message;
use crate::number_theory::is_prime;
use crate::polynomial::horner;
use crate::polynomial::interpolation;
use crate::polynomial::values;
use crate::progress::lemma_honest_round;
use crate::progress::locally_evaluated;
use crate::progress::PartyView;
use crate::progress::recorded;
use crate::progress::sent_by;
use crate::reduction::combination;
use crate::reduction::gathered;
use crate::reduction::lemma_combined_masks;
use crate::reduction::lemma_mask_is_value;
use crate::reduction::lemma_masked_multiplication;
use crate::reduction::lemma_value_at_zero;
use crate::reduction::masked_with;
use crate::reduction::reduced_polynomial;
use crate::reduction::reduced_with;
use crate::sharing::lemma_congruent_mul;
use crate::sharing::lemma_shares_reconstruct;
use crate::sharing::shares_of;
use crate::voting::carried;
use crate::voting::votes;
use vstd::arithmetic::div_mod::*;
use vstd::prelude::*;

verus! {

/// Whether the messages `got`, which the party `id` has taken in a broadcast,
/// are those of parties that keep to the protocol: every other party has
/// sent one, and each carries the share of `handed` that its sender hands
/// out.
pub open spec fn honest_round<DataType: FieldElement>(
    got: Seq<Message<DataType>>,
    handed: Seq<DataType>,
    id: int,
) -> bool {
    &&& forall|k: int|
        0 <= k < got.len() ==> (#[trigger] got[k]).sender() < handed.len() && got[k].payload()
            == handed[got[k].sender() as int]
    &&& forall|j: int| 0 <= j < handed.len() && j != id ==> sent_by(got, j)
}

/// The mask of degree `t` that every party holds for gate `gate`.
pub open spec fn low_masks<DataType: FieldElement>(
    views: Seq<PartyView<DataType>>,
    gate: usize,
) -> Seq<int> {
    Seq::new(views.len(), |i: int| views[i].masks[gate].0.value())
}

/// The mask of degree `2t` that every party holds for gate `gate`.
pub open spec fn high_masks<DataType: FieldElement>(
    views: Seq<PartyView<DataType>>,
    gate: usize,
) -> Seq<int> {
    Seq::new(views.len(), |i: int| views[i].masks[gate].1.value())
}

/// The parties multiply together. Let `n` parties, at least `2t + 1` and
/// fewer than twice the prime order `m` of the field, hold shares of two
/// secrets as the outputs of the gates `first` and `second`, shared with the
/// polynomials `fa` and `fb` of a degree up to `t`. Let their masks for the
/// multiplication gate `gate` be the values of two polynomials with the same
/// constant term, `low` of a degree up to `t` and `high` of a degree up to
/// `2t`. Let every party have got its share `shares[i]` of the product from
/// the messages `gots[i]`, and let these carry the masked shares `handed`
/// that the parties hand out. Then the shares of the product reconstruct to
/// the product of the two secrets.
pub proof fn lemma_parties_multiply<DataType: FieldElement>(
    views: Seq<PartyView<DataType>>,
    gots: Seq<Seq<Message<DataType>>>,
    handed: Seq<DataType>,
    shares: Seq<DataType>,
    gate: usize,
    first: usize,
    second: usize,
    fa: Seq<int>,
    fb: Seq<int>,
    low: Seq<int>,
    high: Seq<int>,
    t: nat,
    m: int,
)
    requires
        is_prime(m),
        2 * t + 1 <= views.len() < 2 * m,
        0 < fa.len() <= t + 1,
        0 < fb.len() <= t + 1,
        low.len() <= t + 1,
        high.len() <= 2 * t + 1,
        horner(low, 0) % m == horner(high, 0) % m,
        gots.len() == views.len(),
        handed.len() == views.len(),
        shares.len() == views.len(),
        forall|i: int|
            0 <= i < views.len() ==> {
                &&& (#[trigger] views[i]).id == i
                &&& views[i].n() == views.len()
                &&& views[i].modulus == m
                &&& views[i].gates()[first as int].output()->0.value() == shares_of(
                    fa,
                    views.len(),
                    m,
                )[i]
                &&& views[i].gates()[second as int].output()->0.value() == shares_of(
                    fb,
                    views.len(),
                    m,
                )[i]
                &&& views[i].masks[gate].0.value() % m == horner(low, i + 1) % m
                &&& views[i].masks[gate].1.value() % m == horner(high, i + 1) % m
                &&& handed[i].value() == views[i].masked_value(gate, first, second)
                &&& views[i].reduction(gate, first, second, gots[i], shares[i])
                &&& honest_round(gots[i], handed, i)
            },
    ensures
        interpolation(values(shares), views.len(), m) == (fa[0] * fb[0]) % m,
{
    let n: nat = views.len();
    let lows: Seq<int> = low_masks(views, gate);
    let highs: Seq<int> = high_masks(views, gate);
    let masked: Seq<int> = masked_with(fa, fb, highs, n, m);
    assert(values(handed) =~= masked) by {
        assert forall|j: int| 0 <= j < n implies values(handed)[j] == masked[j] by {
            assert(views[j].id == j);
        }
    }
    assert forall|i: int| 0 <= i < n implies values(shares)[i] == reduced_with(
        fa,
        fb,
        lows,
        highs,
        n,
        m,
    )[i] by {
        let view: PartyView<DataType> = views[i];
        let own: Seq<DataType> = view.own(view.masked_value(gate, first, second));
        crate::field::lemma_element(handed[i]);
        assert(own[i] == handed[i]);
        lemma_honest_round(own, gots[i], handed, i);
        assert(recorded(own, gots[i]) == handed);
    }
    assert(values(shares) =~= reduced_with(fa, fb, lows, highs, n, m));
    assert forall|j: int| 0 <= j < n implies (#[trigger] lows[j]) % m == horner(low, j + 1) % m by {
        assert(views[j].id == j);
    }
    assert forall|j: int| 0 <= j < n implies (#[trigger] highs[j]) % m == horner(high, j + 1)
        % m by {
        assert(views[j].id == j);
    }
    lemma_masked_multiplication(fa, fb, low, high, lows, highs, t, n, m);
}

/// The mask of a party lies on the combination of the polynomials that the
/// parties have shared for the setup. Let the party of `view` have
/// reconstructed `mask` from its own share of the polynomial `polys[i]` and
/// from the messages `got`, which carry the shares `dealt` that the parties
/// deal to it, each of its own polynomial of `polys`. Then the mask is the
/// value of the combination of the polynomials at the evaluation point of the
/// party, modulo `m`.
pub proof fn lemma_party_mask<DataType: FieldElement>(
    view: PartyView<DataType>,
    gate: usize,
    got: Seq<Message<DataType>>,
    mask: DataType,
    polys: Seq<Seq<int>>,
    dealt: Seq<DataType>,
    len: nat,
)
    requires
        view.modulus > 0,
        view.id < view.n(),
        polys.len() == view.n(),
        dealt.len() == view.n(),
        forall|j: int| 0 <= j < polys.len() ==> (#[trigger] polys[j]).len() <= len,
        forall|j: int|
            0 <= j < dealt.len() ==> (#[trigger] dealt[j]).value() == horner(polys[j], view.id + 1)
                % view.modulus,
        view.mask_made(gate, polys[view.id as int], got, mask),
        honest_round(got, dealt, view.id as int),
    ensures
        mask.value() % view.modulus == horner(
            combination(polys, view.n() as nat, view.n() as nat, view.modulus),
            view.id + 1,
        ) % view.modulus,
{
    let n: nat = view.n() as nat;
    let m: int = view.modulus;
    let i: int = view.id as int;
    let own: Seq<DataType> = view.dealt(polys[i]);
    crate::field::lemma_element(dealt[i]);
    assert(own[i] == dealt[i]);
    lemma_honest_round(own, got, dealt, i);
    assert(values(dealt) =~= gathered(polys, i, m));
    lemma_mask_is_value(polys, i, n, m, len);
}

/// The polynomial on which the shares lie that the parties hold as the
/// output of `gate`, when they keep to the protocol: for an input the
/// polynomial `drawn(gate)` that its party has shared it with, for a sum the
/// sum of the polynomials of its operands, for a product with a constant the
/// polynomial of its operand times the constant, and for a product what the
/// parties have reconstructed from their masked shares, less the polynomial
/// `lows(gate)` of their masks.
pub open spec fn share_polynomial<DataType: FieldElement>(
    views: Seq<PartyView<DataType>>,
    drawn: spec_fn(usize) -> Seq<int>,
    lows: spec_fn(usize) -> Seq<int>,
    gate: usize,
) -> Seq<int>
    decreases gate,
{
    let gates = views[0].gates();
    if gate >= gates.len() {
        seq![0int]
    } else {
        match gates[gate as int] {
            Gate::Input { .. } => drawn(gate),
            Gate::Add { first, second, .. } => {
                if first < gate && second < gate {
                    poly_add(
                        share_polynomial(views, drawn, lows, first),
                        share_polynomial(views, drawn, lows, second),
                    )
                } else {
                    seq![0int]
                }
            },
            Gate::MulByConst { first, second, .. } => {
                if first < gate {
                    poly_scale(share_polynomial(views, drawn, lows, first), second.value())
                } else {
                    seq![0int]
                }
            },
            Gate::Mul { first, second, .. } => {
                if first < gate && second < gate {
                    reduced_polynomial(
                        interpolation(
                            masked_with(
                                share_polynomial(views, drawn, lows, first),
                                share_polynomial(views, drawn, lows, second),
                                high_masks(views, gate),
                                views.len(),
                                views[0].modulus,
                            ),
                            views.len(),
                            views[0].modulus,
                        ),
                        lows(gate),
                    )
                } else {
                    seq![0int]
                }
            },
        }
    }
}

/// Whether the views are those of the parties of one computation, in the
/// order of the parties: with the same field, the same order of evaluation
/// and the same circuit but for the outputs of its gates.
pub open spec fn parties_of_one<DataType: FieldElement>(
    views: Seq<PartyView<DataType>>,
    m: int,
) -> bool {
    &&& views.len() > 0
    &&& operands_precede(views[0].gates())
    &&& dependency_ordered(views[0].gates(), views[0].order)
    &&& forall|i: int|
        0 <= i < views.len() ==> {
            &&& (#[trigger] views[i]).id == i
            &&& views[i].n() == views.len()
            &&& views[i].modulus == m
            &&& views[i].order == views[0].order
            &&& views[i].circuit.roots() == views[0].circuit.roots()
            &&& same_shape(views[i].gates(), views[0].gates())
        }
}

/// Whether the party `i` has come to the output of what stands at place `p`
/// of the order as the protocol asks, among parties that keep to it. For an
/// input, the output is the party's share of the polynomial `drawn` that the
/// input was shared with, of the degree `t` and with the input as its
/// constant term. For a sum or a product with a constant, it is what the
/// party computes alone. For a product, it is the share of the product that
/// the party has got from the messages `gots`, which carry the masked shares
/// `handed` of the parties, and its masks are the values of the polynomials
/// `lows` and `highs`, of a degree up to `t` and `2t`, with one constant
/// term.
pub open spec fn kept_at<DataType: FieldElement>(
    views: Seq<PartyView<DataType>>,
    inputs: Seq<Seq<int>>,
    drawn: spec_fn(usize) -> Seq<int>,
    lows: spec_fn(usize) -> Seq<int>,
    highs: spec_fn(usize) -> Seq<int>,
    handed: spec_fn(usize) -> Seq<DataType>,
    gots: spec_fn(int, usize) -> Seq<Message<DataType>>,
    t: nat,
    i: int,
    p: int,
) -> bool {
    let view = views[i];
    let gate = view.order[p];
    let m = view.modulus;
    match view.gates()[gate as int] {
        Gate::Input { party, circuit_id, output } => {
            &&& drawn(gate).len() == t + 1
            &&& drawn(gate)[0] == inputs[party as int][circuit_id as int]
            &&& output matches Some(share) && share.value() == horner(drawn(gate), i + 1) % m
        },
        Gate::Mul { first, second, output } => {
            &&& output matches Some(share) && view.reduction(
                gate,
                first,
                second,
                gots(i, gate),
                share,
            )
            &&& handed(gate).len() == views.len()
            &&& handed(gate)[i].value() == view.masked_value(gate, first, second)
            &&& honest_round(gots(i, gate), handed(gate), i)
            &&& lows(gate).len() <= t + 1
            &&& highs(gate).len() <= 2 * t + 1
            &&& horner(lows(gate), 0) % m == horner(highs(gate), 0) % m
            &&& view.masks[gate].0.value() % m == horner(lows(gate), i + 1) % m
            &&& view.masks[gate].1.value() % m == horner(highs(gate), i + 1) % m
        },
        _ => locally_evaluated(view.gates(), view.gates()[gate as int], m),
    }
}

/// Whether every party has come to every output of the order as the
/// protocol asks.
pub open spec fn kept_to<DataType: FieldElement>(
    views: Seq<PartyView<DataType>>,
    inputs: Seq<Seq<int>>,
    drawn: spec_fn(usize) -> Seq<int>,
    lows: spec_fn(usize) -> Seq<int>,
    highs: spec_fn(usize) -> Seq<int>,
    handed: spec_fn(usize) -> Seq<DataType>,
    gots: spec_fn(int, usize) -> Seq<Message<DataType>>,
    t: nat,
) -> bool {
    forall|i: int, p: int|
        0 <= i < views.len() && 0 <= p < views[0].order.len() ==> #[trigger] kept_at(
            views,
            inputs,
            drawn,
            lows,
            highs,
            handed,
            gots,
            t,
            i,
            p,
        )
}

/// The parties hold shares of the values of the gates. Let `n` parties, more
/// than `t` and fewer than twice the prime order `m` of the field, and at
/// least `2t + 1` where the circuit has a product, have evaluated a circuit
/// as the protocol asks. Then the outputs that they
/// hold for a gate of the order are their shares of one polynomial of a
/// degree up to `t`, and its constant term is the value of that gate on the
/// inputs of the parties, modulo `m`.
#[verifier::spinoff_prover]
#[verifier::rlimit(50)]
pub proof fn lemma_parties_hold_shares<DataType: FieldElement>(
    views: Seq<PartyView<DataType>>,
    inputs: Seq<Seq<int>>,
    drawn: spec_fn(usize) -> Seq<int>,
    lows: spec_fn(usize) -> Seq<int>,
    highs: spec_fn(usize) -> Seq<int>,
    handed: spec_fn(usize) -> Seq<DataType>,
    gots: spec_fn(int, usize) -> Seq<Message<DataType>>,
    t: nat,
    m: int,
    p: int,
)
    requires
        is_prime(m),
        t + 1 <= views.len() < 2 * m,
        views[0].mul_free() || 2 * t + 1 <= views.len(),
        parties_of_one(views, m),
        kept_to(views, inputs, drawn, lows, highs, handed, gots, t),
        0 <= p < views[0].order.len(),
    ensures
        0 < share_polynomial(views, drawn, lows, views[0].order[p]).len() <= t + 1,
        horner(share_polynomial(views, drawn, lows, views[0].order[p]), 0) % m == gate_value(
            views[0].gates(),
            inputs,
            views[0].order[p],
            m,
        ) % m,
        forall|i: int|
            0 <= i < views.len() ==> (#[trigger] views[i]).gates()[views[0].order[p] as int].output() is Some
                && views[i].gates()[views[0].order[p] as int].output()->0.value() == horner(
                share_polynomial(views, drawn, lows, views[0].order[p]),
                i + 1,
            ) % m,
    decreases p,
{
    let n: nat = views.len();
    let gates = views[0].gates();
    let order = views[0].order;
    let gate: usize = order[p];
    let poly: Seq<int> = share_polynomial(views, drawn, lows, gate);
    assert(gate < gates.len());
    assert(placed_after_operands(gates, order, p));
    assert(kept_at(views, inputs, drawn, lows, highs, handed, gots, t, 0, p));
    assert forall|i: int| 0 <= i < n implies (#[trigger] views[i]).gates()[gate as int].with_output(
        None,
    ) == gates[gate as int].with_output(None) && kept_at(
        views,
        inputs,
        drawn,
        lows,
        highs,
        handed,
        gots,
        t,
        i,
        p,
    ) by {
        assert(same_shape(views[i].gates(), gates));
    }
    match gates[gate as int] {
        Gate::Input { party, circuit_id, .. } => {
            lemma_value_at_zero(poly);
            assert(poly == drawn(gate));
            assert(gate_value(gates, inputs, gate, m) == inputs[party as int][circuit_id as int]);
            assert(horner(poly, 0) == gate_value(gates, inputs, gate, m));
            assert forall|i: int| 0 <= i < n implies (#[trigger] views[i]).gates()[gate as int].output() is Some
                && views[i].gates()[gate as int].output()->0.value() == horner(poly, i + 1)
                % m by {
                assert(kept_at(views, inputs, drawn, lows, highs, handed, gots, t, i, p));
            }
        },
        Gate::Add { first, second, .. } => {
            let q: int = choose|q: int| 0 <= q < p && q < order.len() && order[q] == first;
            let r: int = choose|r: int| 0 <= r < p && r < order.len() && order[r] == second;
            lemma_parties_hold_shares(views, inputs, drawn, lows, highs, handed, gots, t, m, q);
            lemma_parties_hold_shares(views, inputs, drawn, lows, highs, handed, gots, t, m, r);
            let fa: Seq<int> = share_polynomial(views, drawn, lows, first);
            let fb: Seq<int> = share_polynomial(views, drawn, lows, second);
            lemma_horner_add(fa, fb, 0);
            lemma_add_mod_noop(horner(fa, 0), horner(fb, 0), m);
            lemma_add_mod_noop(
                gate_value(gates, inputs, first, m),
                gate_value(gates, inputs, second, m),
                m,
            );
            lemma_mod_twice(
                gate_value(gates, inputs, first, m) + gate_value(gates, inputs, second, m),
                m,
            );
            assert forall|i: int| 0 <= i < n implies (#[trigger] views[i]).gates()[gate as int].output() is Some
                && views[i].gates()[gate as int].output()->0.value() == horner(poly, i + 1)
                % m by {
                assert(kept_at(views, inputs, drawn, lows, highs, handed, gots, t, i, p));
                lemma_horner_add(fa, fb, i + 1);
                lemma_add_mod_noop(horner(fa, i + 1), horner(fb, i + 1), m);
            }
        },
        Gate::MulByConst { first, second, .. } => {
            let q: int = choose|q: int| 0 <= q < p && q < order.len() && order[q] == first;
            lemma_parties_hold_shares(views, inputs, drawn, lows, highs, handed, gots, t, m, q);
            let fa: Seq<int> = share_polynomial(views, drawn, lows, first);
            let c: int = second.value();
            lemma_horner_scale(fa, c, 0);
            lemma_congruent_mul(horner(fa, 0), gate_value(gates, inputs, first, m), c, m);
            lemma_mod_twice(gate_value(gates, inputs, first, m) * c, m);
            assert forall|i: int| 0 <= i < n implies (#[trigger] views[i]).gates()[gate as int].output() is Some
                && views[i].gates()[gate as int].output()->0.value() == horner(poly, i + 1)
                % m by {
                assert(kept_at(views, inputs, drawn, lows, highs, handed, gots, t, i, p));
                lemma_horner_scale(fa, c, i + 1);
                lemma_mod_twice(horner(fa, i + 1), m);
                lemma_congruent_mul(horner(fa, i + 1) % m, horner(fa, i + 1), c, m);
            }
        },
        Gate::Mul { first, second, .. } => {
            assert(views[0].gates()[views[0].order[p] as int] is Mul);
            assert(2 * t + 1 <= n);
            let q: int = choose|q: int| 0 <= q < p && q < order.len() && order[q] == first;
            let r: int = choose|r: int| 0 <= r < p && r < order.len() && order[r] == second;
            lemma_parties_hold_shares(views, inputs, drawn, lows, highs, handed, gots, t, m, q);
            lemma_parties_hold_shares(views, inputs, drawn, lows, highs, handed, gots, t, m, r);
            let fa: Seq<int> = share_polynomial(views, drawn, lows, first);
            let fb: Seq<int> = share_polynomial(views, drawn, lows, second);
            let low_all: Seq<int> = low_masks(views, gate);
            let high_all: Seq<int> = high_masks(views, gate);
            let masked: Seq<int> = masked_with(fa, fb, high_all, n, m);
            let all: Seq<DataType> = handed(gate);
            assert forall|j: int| 0 <= j < n implies (#[trigger] low_all[j]) % m == horner(
                lows(gate),
                j + 1,
            ) % m by {
                assert(kept_at(views, inputs, drawn, lows, highs, handed, gots, t, j, p));
            }
            assert forall|j: int| 0 <= j < n implies (#[trigger] high_all[j]) % m == horner(
                highs(gate),
                j + 1,
            ) % m by {
                assert(kept_at(views, inputs, drawn, lows, highs, handed, gots, t, j, p));
            }
            lemma_masked_multiplication(
                fa,
                fb,
                lows(gate),
                highs(gate),
                low_all,
                high_all,
                t,
                n,
                m,
            );
            assert forall|j: int| 0 <= j < n implies values(all)[j] == masked[j] by {
                assert(kept_at(views, inputs, drawn, lows, highs, handed, gots, t, j, p));
                assert(views[j].gates()[first as int].output()->0.value() == horner(fa, j + 1) % m);
                assert(views[j].gates()[second as int].output()->0.value() == horner(fb, j + 1)
                    % m);
            }
            assert(values(all) =~= masked);
            lemma_value_at_zero(fa);
            lemma_value_at_zero(fb);
            lemma_mul_mod_noop_general(horner(fa, 0), horner(fb, 0), m);
            lemma_mul_mod_noop_general(
                gate_value(gates, inputs, first, m),
                gate_value(gates, inputs, second, m),
                m,
            );
            lemma_mod_twice(
                gate_value(gates, inputs, first, m) * gate_value(gates, inputs, second, m),
                m,
            );
            assert forall|i: int| 0 <= i < n implies (#[trigger] views[i]).gates()[gate as int].output() is Some
                && views[i].gates()[gate as int].output()->0.value() == horner(poly, i + 1)
                % m by {
                assert(kept_at(views, inputs, drawn, lows, highs, handed, gots, t, i, p));
                let view: PartyView<DataType> = views[i];
                let own: Seq<DataType> = view.own(view.masked_value(gate, first, second));
                crate::field::lemma_element(all[i]);
                assert(own[i] == all[i]);
                lemma_honest_round(own, gots(i, gate), all, i);
                let share: int = view.gates()[gate as int].output()->0.value();
                assert(share == reduced_with(fa, fb, low_all, high_all, n, m)[i]);
                lemma_mod_bound(
                    interpolation(masked, n, m) - view.masks[gate].0.value(),
                    m,
                );
                lemma_small_mod(share as nat, m as nat);
            }
        },
    }
}

/// The parties reconstruct the values of the roots. Let `n` parties, more
/// than `t` and fewer than twice the prime order `m` of the field, and at
/// least `2t + 1` where the circuit has a product, have evaluated a circuit
/// as the protocol asks, and let the party `i` have
/// reconstructed the output `k` from the messages `got`, which carry the
/// shares `out` of that root that the parties hold. Then the output is the
/// value of that root on the inputs of the parties, modulo `m`.
pub proof fn lemma_parties_reconstruct<DataType: FieldElement>(
    views: Seq<PartyView<DataType>>,
    inputs: Seq<Seq<int>>,
    drawn: spec_fn(usize) -> Seq<int>,
    lows: spec_fn(usize) -> Seq<int>,
    highs: spec_fn(usize) -> Seq<int>,
    handed: spec_fn(usize) -> Seq<DataType>,
    gots: spec_fn(int, usize) -> Seq<Message<DataType>>,
    t: nat,
    m: int,
    i: int,
    k: int,
    got: Seq<Message<DataType>>,
    out: Seq<DataType>,
)
    requires
        is_prime(m),
        t + 1 <= views.len() < 2 * m,
        views[0].mul_free() || 2 * t + 1 <= views.len(),
        parties_of_one(views, m),
        kept_to(views, inputs, drawn, lows, highs, handed, gots, t),
        0 <= i < views.len(),
        0 <= k < views[i].results.len(),
        k < views[0].circuit.roots().len(),
        views[0].order.contains(views[0].circuit.roots()[k]),
        out.len() == views.len(),
        forall|j: int|
            0 <= j < views.len() ==> (#[trigger] out[j]).value() == views[j].root_output(k),
        views[i].output_from(k, got),
        honest_round(got, out, i),
    ensures
        views[i].results[k].value() == gate_value(
            views[0].gates(),
            inputs,
            views[0].circuit.roots()[k],
            m,
        ) % m,
{
    let n: nat = views.len();
    let order = views[0].order;
    let root: usize = views[0].circuit.roots()[k];
    let p: int = choose|p: int| 0 <= p < order.len() && order[p] == root;
    lemma_parties_hold_shares(views, inputs, drawn, lows, highs, handed, gots, t, m, p);
    let poly: Seq<int> = share_polynomial(views, drawn, lows, root);
    let view: PartyView<DataType> = views[i];
    let own: Seq<DataType> = view.own(view.root_output(k));
    crate::field::lemma_element(out[i]);
    assert(own[i] == out[i]);
    lemma_honest_round(own, got, out, i);
    assert forall|j: int| 0 <= j < n implies (#[trigger] values(out)[j]) % m == horner(poly, j + 1)
        % m by {
        assert(views[j].circuit.roots() == views[0].circuit.roots());
        lemma_mod_twice(horner(poly, j + 1), m);
    }
    lemma_shares_reconstruct(poly, values(out), n, m);
}

/// What the parties of one computation have drawn, handed out and taken,
/// gate by gate: the witnesses of what every one of them has sent and taken.
pub ghost struct Trace<DataType> {
    /// For an input gate, the polynomial that its party has shared the input
    /// with.
    pub drawn: spec_fn(usize) -> Seq<int>,
    /// For a party and an input gate of another party, the message that the
    /// party has taken for it.
    pub took: spec_fn(int, usize) -> Message<DataType>,
    /// For a product, the masked shares that the parties have handed out.
    pub handed: spec_fn(usize) -> Seq<DataType>,
    /// For a party and a product, the messages that the party has taken in
    /// the broadcast of the masked shares.
    pub gots: spec_fn(int, usize) -> Seq<Message<DataType>>,
    /// For a party and a product, the polynomial of degree `t` that the
    /// party has shared a number with for the setup.
    pub low: spec_fn(int, usize) -> Seq<int>,
    /// For a party and a product, the polynomial of degree `2t` that the
    /// party has shared the same number with.
    pub high: spec_fn(int, usize) -> Seq<int>,
    /// For a party and a product, the shares that the parties have dealt to
    /// it in the first sharing of the setup.
    pub dealt_low: spec_fn(int, usize) -> Seq<DataType>,
    /// For a party and a product, the shares that the parties have dealt to
    /// it in the second sharing of the setup.
    pub dealt_high: spec_fn(int, usize) -> Seq<DataType>,
    /// For a party and a product, the messages that the party has taken in
    /// the first sharing of the setup.
    pub got_low: spec_fn(int, usize) -> Seq<Message<DataType>>,
    /// For a party and a product, the messages that the party has taken in
    /// the second sharing of the setup.
    pub got_high: spec_fn(int, usize) -> Seq<Message<DataType>>,
}

/// The polynomials of degree `t` that the parties have shared for the setup
/// of `gate`, in the order of the parties.
pub open spec fn lows_of<DataType>(trace: Trace<DataType>, n: nat, gate: usize) -> Seq<Seq<int>> {
    Seq::new(n, |j: int| (trace.low)(j, gate))
}

/// The polynomials of degree `2t` that the parties have shared for the setup
/// of `gate`, in the order of the parties.
pub open spec fn highs_of<DataType>(trace: Trace<DataType>, n: nat, gate: usize) -> Seq<Seq<int>> {
    Seq::new(n, |j: int| (trace.high)(j, gate))
}

/// For every product, the polynomial on which the masks of degree `t` of the
/// parties lie.
pub open spec fn low_line<DataType>(trace: Trace<DataType>, n: nat, m: int) -> spec_fn(
    usize,
) -> Seq<int> {
    |gate: usize| combination(lows_of(trace, n, gate), n, n, m)
}

/// For every product, the polynomial on which the masks of degree `2t` of
/// the parties lie.
pub open spec fn high_line<DataType>(trace: Trace<DataType>, n: nat, m: int) -> spec_fn(
    usize,
) -> Seq<int> {
    |gate: usize| combination(highs_of(trace, n, gate), n, n, m)
}

/// Whether what the party `i` has sent and taken accounts for the output at
/// place `p` of the order and for the masks of a product there, with the
/// witnesses of `trace`: this is what a well-formed party that has set up
/// and evaluated its circuit holds of itself, witness by witness.
pub open spec fn accounted_at<DataType: FieldElement>(
    views: Seq<PartyView<DataType>>,
    trace: Trace<DataType>,
    i: int,
    p: int,
) -> bool {
    let view = views[i];
    let gate = view.order[p];
    match view.gates()[gate as int] {
        Gate::Input { party, circuit_id, .. } => if party == view.id {
            view.input_shared_with(gate, circuit_id, (trace.drawn)(gate))
        } else {
            view.input_taken_with(gate, (trace.took)(i, gate))
        },
        Gate::Mul { first, second, .. } => {
            &&& view.product_from(gate, first, second, (trace.gots)(i, gate))
            &&& view.set_up_with(
                gate,
                (trace.low)(i, gate),
                (trace.high)(i, gate),
                (trace.got_low)(i, gate),
                (trace.got_high)(i, gate),
            )
        },
        _ => locally_evaluated(view.gates(), view.gates()[gate as int], view.modulus),
    }
}

/// Whether the messages that the party `i` has taken for what stands at
/// place `p` of the order are those of parties that keep to the protocol.
/// For the input of another party, the message carries the share that its
/// party has dealt to `i`; the inputs are those of `inputs`. For a product,
/// the rounds of the setup carry the shares that the parties have dealt to
/// `i`, and the round of the multiplication carries the masked shares that
/// the parties have handed out.
pub open spec fn honest_at<DataType: FieldElement>(
    views: Seq<PartyView<DataType>>,
    inputs: Seq<Seq<int>>,
    trace: Trace<DataType>,
    i: int,
    p: int,
) -> bool {
    let view = views[i];
    let gate = view.order[p];
    let n = views.len();
    let m = view.modulus;
    match view.gates()[gate as int] {
        Gate::Input { party, circuit_id, .. } => {
            &&& party < n
            &&& inputs[party as int][circuit_id as int] == views[party as int].secret[circuit_id as int].value()
            &&& party != i ==> (trace.took)(i, gate).payload().value() == horner(
                (trace.drawn)(gate),
                i + 1,
            ) % m
        },
        Gate::Mul { first, second, .. } => {
            &&& (trace.handed)(gate).len() == n
            &&& (trace.handed)(gate)[i].value() == view.masked_value(gate, first, second)
            &&& honest_round((trace.gots)(i, gate), (trace.handed)(gate), i)
            &&& (trace.dealt_low)(i, gate).len() == n
            &&& (trace.dealt_high)(i, gate).len() == n
            &&& forall|j: int|
                0 <= j < n ==> (#[trigger] (trace.dealt_low)(i, gate)[j]).value() == horner(
                    (trace.low)(j, gate),
                    i + 1,
                ) % m
            &&& forall|j: int|
                0 <= j < n ==> (#[trigger] (trace.dealt_high)(i, gate)[j]).value() == horner(
                    (trace.high)(j, gate),
                    i + 1,
                ) % m
            &&& honest_round((trace.got_low)(i, gate), (trace.dealt_low)(i, gate), i)
            &&& honest_round((trace.got_high)(i, gate), (trace.dealt_high)(i, gate), i)
        },
        _ => true,
    }
}

/// Whether every party accounts for every output of the order, and has
/// taken for it the messages of parties that keep to the protocol.
pub open spec fn all_honest<DataType: FieldElement>(
    views: Seq<PartyView<DataType>>,
    inputs: Seq<Seq<int>>,
    trace: Trace<DataType>,
) -> bool {
    forall|i: int, p: int|
        0 <= i < views.len() && 0 <= p < views[0].order.len() ==> #[trigger] honest_and_accounted(
            views,
            inputs,
            trace,
            i,
            p,
        )
}

/// Whether the party `i` accounts for the output at place `p` of the order,
/// and has taken for it the messages of parties that keep to the protocol.
pub open spec fn honest_and_accounted<DataType: FieldElement>(
    views: Seq<PartyView<DataType>>,
    inputs: Seq<Seq<int>>,
    trace: Trace<DataType>,
    i: int,
    p: int,
) -> bool {
    accounted_at(views, trace, i, p) && honest_at(views, inputs, trace, i, p)
}

/// A well-formed party accounts for what it has evaluated: for every output
/// of the order that it has come to there are witnesses of what it has sent
/// and taken for it, and for every product that it has set up there are
/// witnesses of the two sharings of the setup.
pub proof fn lemma_party_accounts<DataType: FieldElement>(view: PartyView<DataType>, p: int)
    requires
        view.wf(),
        0 <= p < view.evaluated,
    ensures
        match view.gates()[view.order[p] as int] {
            Gate::Input { party, circuit_id, .. } => if party == view.id {
                exists|coeffs: Seq<int>| #[trigger]
                    view.input_shared_with(view.order[p], circuit_id, coeffs)
            } else {
                exists|msg: Message<DataType>| #[trigger] view.input_taken_with(view.order[p], msg)
            },
            Gate::Mul { first, second, .. } => {
                &&& exists|got: Seq<Message<DataType>>| #[trigger]
                    view.product_from(view.order[p], first, second, got)
                &&& p < view.prepared ==> exists|
                    low: Seq<int>,
                    high: Seq<int>,
                    got_low: Seq<Message<DataType>>,
                    got_high: Seq<Message<DataType>>,
                | #[trigger] view.set_up_with(view.order[p], low, high, got_low, got_high)
            },
            _ => locally_evaluated(view.gates(), view.gates()[view.order[p] as int], view.modulus),
        },
{
    let gate: usize = view.order[p];
    assert(view.accounted());
    assert(view.fitted());
    match view.gates()[gate as int] {
        Gate::Input { party, circuit_id, .. } => {
            if party == view.id {
                assert(view.input_shared(gate, circuit_id));
            } else {
                assert(view.input_taken(gate));
            }
        },
        Gate::Mul { first, second, .. } => {
            assert(view.product_reduced(gate, first, second));
            if p < view.prepared {
                assert(view.set_up(gate));
            }
        },
        _ => {
            assert(locally_evaluated(view.gates(), view.gates()[view.order[p] as int], view.modulus));
        },
    }
}

/// The witnesses that well-formed parties have for what they have
/// evaluated: for every gate one polynomial, message or round of messages
/// that accounts for its output and its masks, where there is one.
pub open spec fn witnesses<DataType: FieldElement>(views: Seq<PartyView<DataType>>) -> Trace<
    DataType,
> {
    Trace {
        drawn: |gate: usize| choose|coeffs: Seq<int>| #[trigger] shares_input(views, gate, coeffs),
        took: |i: int, gate: usize|
            choose|msg: Message<DataType>| #[trigger] views[i].input_taken_with(gate, msg),
        handed: |gate: usize| Seq::empty(),
        gots: |i: int, gate: usize|
            choose|got: Seq<Message<DataType>>| #[trigger] reduces_product(views[i], gate, got),
        low: |i: int, gate: usize| set_up_witness(views[i], gate).0,
        high: |i: int, gate: usize| set_up_witness(views[i], gate).1,
        dealt_low: |i: int, gate: usize| Seq::empty(),
        dealt_high: |i: int, gate: usize| Seq::empty(),
        got_low: |i: int, gate: usize| set_up_witness(views[i], gate).2,
        got_high: |i: int, gate: usize| set_up_witness(views[i], gate).3,
    }
}

/// Whether the party that supplies the input of `gate` has shared it with
/// the polynomial `coeffs`.
pub open spec fn shares_input<DataType: FieldElement>(
    views: Seq<PartyView<DataType>>,
    gate: usize,
    coeffs: Seq<int>,
) -> bool {
    views[0].gates()[gate as int] matches Gate::Input { party, circuit_id, .. }
        ==> views[party as int].input_shared_with(gate, circuit_id, coeffs)
}

/// Whether the party has got its share of the product at `gate` from the
/// messages `got`.
pub open spec fn reduces_product<DataType: FieldElement>(
    view: PartyView<DataType>,
    gate: usize,
    got: Seq<Message<DataType>>,
) -> bool {
    view.gates()[gate as int] matches Gate::Mul { first, second, .. } ==> view.product_from(
        gate,
        first,
        second,
        got,
    )
}

/// Two polynomials and two rounds of messages that account for the masks of
/// `gate`, where there are such.
pub open spec fn set_up_witness<DataType: FieldElement>(view: PartyView<DataType>, gate: usize) -> (
    Seq<int>,
    Seq<int>,
    Seq<Message<DataType>>,
    Seq<Message<DataType>>,
) {
    choose|w: (Seq<int>, Seq<int>, Seq<Message<DataType>>, Seq<Message<DataType>>)| #[trigger]
        view.set_up_with(gate, w.0, w.1, w.2, w.3)
}

/// Parties that are well formed, and have set up and evaluated their
/// circuit, account for every output of the order: there are witnesses of
/// what each of them has sent and taken.
pub proof fn lemma_parties_account<DataType: FieldElement>(
    views: Seq<PartyView<DataType>>,
    m: int,
    i: int,
    p: int,
)
    requires
        parties_of_one(views, m),
        forall|j: int|
            0 <= j < views.len() ==> (#[trigger] views[j]).wf() && views[j].finished()
                && views[j].prepared == views[j].order.len(),
        0 <= i < views.len(),
        0 <= p < views[0].order.len(),
    ensures
        accounted_at(views, witnesses(views), i, p),
{
    let view: PartyView<DataType> = views[i];
    let gate: usize = view.order[p];
    let trace: Trace<DataType> = witnesses(views);
    assert(view.wf() && view.finished());
    lemma_party_accounts(view, p);
    assert(same_shape(view.gates(), views[0].gates()));
    assert(views[0].order[p] < views[0].gates().len());
    assert(view.gates()[gate as int].with_output(None) == views[0].gates()[gate as int].with_output(
        None,
    ));
    match view.gates()[gate as int] {
        Gate::Input { party, circuit_id, .. } => {
            if party == view.id {
                let coeffs: Seq<int> = choose|coeffs: Seq<int>| #[trigger]
                    view.input_shared_with(gate, circuit_id, coeffs);
                assert(shares_input(views, gate, coeffs));
                assert(shares_input(views, gate, (trace.drawn)(gate)));
                assert(view.input_shared_with(gate, circuit_id, (trace.drawn)(gate)));
            } else {
                assert(view.input_taken_with(gate, (trace.took)(i, gate)));
            }
        },
        Gate::Mul { first, second, .. } => {
            let got: Seq<Message<DataType>> = choose|got: Seq<Message<DataType>>| #[trigger]
                view.product_from(gate, first, second, got);
            assert(reduces_product(view, gate, got));
            assert(reduces_product(view, gate, (trace.gots)(i, gate)));
            assert(view.product_from(gate, first, second, (trace.gots)(i, gate)));
            let found = choose|
                low: Seq<int>,
                high: Seq<int>,
                got_low: Seq<Message<DataType>>,
                got_high: Seq<Message<DataType>>,
            | #[trigger] view.set_up_with(gate, low, high, got_low, got_high);
            let w = (found.0, found.1, found.2, found.3);
            assert(view.set_up_with(gate, w.0, w.1, w.2, w.3));
            let chosen = set_up_witness(view, gate);
            assert(view.set_up_with(gate, chosen.0, chosen.1, chosen.2, chosen.3));
        },
        _ => {},
    }
}

/// Parties that account for what they have evaluated, and have taken the
/// messages of parties that keep to the protocol, have come to every output
/// as the protocol asks: the masks of every product lie on the two
/// combinations of the polynomials that the parties have shared for its
/// setup.
pub proof fn lemma_kept_to<DataType: FieldElement>(
    views: Seq<PartyView<DataType>>,
    inputs: Seq<Seq<int>>,
    trace: Trace<DataType>,
    t: nat,
    m: int,
)
    requires
        m > 0,
        parties_of_one(views, m),
        forall|i: int| 0 <= i < views.len() ==> (#[trigger] views[i]).threshold == t,
        all_honest(views, inputs, trace),
    ensures
        kept_to(
            views,
            inputs,
            trace.drawn,
            low_line(trace, views.len(), m),
            high_line(trace, views.len(), m),
            trace.handed,
            trace.gots,
            t,
        ),
{
    let n: nat = views.len();
    let lows = low_line(trace, n, m);
    let highs = high_line(trace, n, m);
    assert forall|i: int, p: int| 0 <= i < n && 0 <= p < views[0].order.len() implies #[trigger] kept_at(
        views,
        inputs,
        trace.drawn,
        lows,
        highs,
        trace.handed,
        trace.gots,
        t,
        i,
        p,
    ) by {
        let view: PartyView<DataType> = views[i];
        let gate: usize = view.order[p];
        assert(honest_and_accounted(views, inputs, trace, i, p));
        assert(same_shape(view.gates(), views[0].gates()));
        assert(views[0].order[p] < views[0].gates().len());
        match view.gates()[gate as int] {
            Gate::Input { party, circuit_id, .. } => {
                let dealer: int = party as int;
                assert(honest_and_accounted(views, inputs, trace, dealer, p));
                assert(same_shape(views[dealer].gates(), views[0].gates()));
                assert(views[dealer].gates()[gate as int].with_output(None)
                    == view.gates()[gate as int].with_output(None));
                assert(views[dealer].id == dealer);
            },
            Gate::Mul { first, second, .. } => {
                let all_lows: Seq<Seq<int>> = lows_of(trace, n, gate);
                let all_highs: Seq<Seq<int>> = highs_of(trace, n, gate);
                assert forall|j: int| 0 <= j < n implies (#[trigger] all_lows[j]).len() == t + 1
                    && all_highs[j].len() == 2 * t + 1 && all_lows[j][0] == all_highs[j][0] by {
                    assert(honest_and_accounted(views, inputs, trace, j, p));
                    assert(same_shape(views[j].gates(), views[0].gates()));
                    assert(views[j].gates()[gate as int].with_output(None)
                        == view.gates()[gate as int].with_output(None));
                }
                assert forall|j: int| 0 <= j < n implies (#[trigger] all_highs[j]).len() == 2 * t
                    + 1 by {
                    assert(all_lows[j].len() == t + 1);
                }
                lemma_combined_masks(all_lows, all_highs, t, n, m);
                lemma_party_mask(
                    view,
                    gate,
                    (trace.got_low)(i, gate),
                    view.masks[gate].0,
                    all_lows,
                    (trace.dealt_low)(i, gate),
                    t + 1,
                );
                lemma_party_mask(
                    view,
                    gate,
                    (trace.got_high)(i, gate),
                    view.masks[gate].1,
                    all_highs,
                    (trace.dealt_high)(i, gate),
                    2 * t + 1,
                );
            },
            _ => {},
        }
    }
}

/// The parties compute the values of the roots. Let `n` parties, more than
/// `t` and fewer than twice the prime order `m` of the field, and at least
/// `2t + 1` where the circuit has a product, have set up and evaluated a
/// circuit; let each account for what it has evaluated, and let every message
/// that one of them has taken carry what its sender has dealt or handed out.
/// Then the output `k` that the party `i` has reconstructed from the
/// messages `got`, which carry the shares `out` of that root, is the value
/// of the root on the inputs of the parties, modulo `m`.
pub proof fn lemma_parties_compute<DataType: FieldElement>(
    views: Seq<PartyView<DataType>>,
    inputs: Seq<Seq<int>>,
    trace: Trace<DataType>,
    t: nat,
    m: int,
    i: int,
    k: int,
    got: Seq<Message<DataType>>,
    out: Seq<DataType>,
)
    requires
        is_prime(m),
        t + 1 <= views.len() < 2 * m,
        views[0].mul_free() || 2 * t + 1 <= views.len(),
        parties_of_one(views, m),
        forall|j: int| 0 <= j < views.len() ==> (#[trigger] views[j]).threshold == t,
        all_honest(views, inputs, trace),
        0 <= i < views.len(),
        0 <= k < views[i].results.len(),
        k < views[0].circuit.roots().len(),
        views[0].order.contains(views[0].circuit.roots()[k]),
        out.len() == views.len(),
        forall|j: int|
            0 <= j < views.len() ==> (#[trigger] out[j]).value() == views[j].root_output(k),
        views[i].output_from(k, got),
        honest_round(got, out, i),
    ensures
        views[i].results[k].value() == gate_value(
            views[0].gates(),
            inputs,
            views[0].circuit.roots()[k],
            m,
        ) % m,
{
    lemma_kept_to(views, inputs, trace, t, m);
    lemma_parties_reconstruct(
        views,
        inputs,
        trace.drawn,
        low_line(trace, views.len(), m),
        high_line(trace, views.len(), m),
        trace.handed,
        trace.gots,
        t,
        m,
        i,
        k,
        got,
        out,
    );
}

/// The parties reconstruct a product. Let `n` parties, at least `2t + 1` and
/// fewer than twice the prime order `m` of the field, have set up and
/// evaluated the circuit of one product of an input of the first party and an
/// input of the second; let each account for what it has evaluated, and let
/// every message that one of them has taken carry what its sender has dealt
/// or handed out. Then the output that a party reconstructs is the product of
/// the two inputs, modulo `m`.
pub proof fn lemma_parties_reconstruct_product<DataType: FieldElement>(
    views: Seq<PartyView<DataType>>,
    inputs: Seq<Seq<int>>,
    trace: Trace<DataType>,
    t: nat,
    m: int,
    i: int,
    got: Seq<Message<DataType>>,
    out: Seq<DataType>,
)
    requires
        is_prime(m),
        2 * t + 1 <= views.len() < 2 * m,
        parties_of_one(views, m),
        forall|j: int| 0 <= j < views.len() ==> (#[trigger] views[j]).threshold == t,
        all_honest(views, inputs, trace),
        views[0].gates().len() == 3,
        views[0].gates()[0] matches Gate::Input { party, circuit_id, .. } && party == 0
            && circuit_id == 0,
        views[0].gates()[1] matches Gate::Input { party, circuit_id, .. } && party == 1
            && circuit_id == 0,
        views[0].gates()[2] matches Gate::Mul { first, second, .. } && first == 0 && second == 1,
        views[0].circuit.roots() == seq![2usize],
        views[0].order.contains(2),
        0 <= i < views.len(),
        views[i].results.len() == 1,
        out.len() == views.len(),
        forall|j: int|
            0 <= j < views.len() ==> (#[trigger] out[j]).value() == views[j].root_output(0),
        views[i].output_from(0, got),
        honest_round(got, out, i),
    ensures
        views[i].results[0].value() == (inputs[0][0] * inputs[1][0]) % m,
{
    lemma_parties_compute(views, inputs, trace, t, m, i, 0, got, out);
    let gates = views[0].gates();
    assert(gate_value(gates, inputs, 0, m) == inputs[0][0]);
    assert(gate_value(gates, inputs, 1, m) == inputs[1][0]);
    assert(gate_value(gates, inputs, 2, m) == (inputs[0][0] * inputs[1][0]) % m);
    lemma_mod_twice(inputs[0][0] * inputs[1][0], m);
}

/// The parties reconstruct the outcome of a vote. Let `n` voters, at least
/// `2t + 1` and fewer than twice the prime order `m` of the field, have set
/// up and evaluated, as the protocol asks and among voters that keep to it,
/// a circuit with the gates of `circuit`, whose root `k` has the value one on
/// their votes when at least `vote_threshold` of them chose the option `k`,
/// and zero when fewer did. Then the output `k` that a voter reconstructs
/// says whether the option is carried.
pub proof fn lemma_parties_reconstruct_vote(
    views: Seq<PartyView<u16>>,
    inputs: Seq<Seq<int>>,
    trace: Trace<u16>,
    t: nat,
    m: int,
    i: int,
    k: int,
    got: Seq<Message<u16>>,
    out: Seq<u16>,
    circuit: Circuit<u16>,
    vote_threshold: nat,
)
    requires
        is_prime(m),
        2 * t + 1 <= views.len() < 2 * m,
        parties_of_one(views, m),
        forall|j: int| 0 <= j < views.len() ==> (#[trigger] views[j]).threshold == t,
        all_honest(views, inputs, trace),
        same_shape(views[0].gates(), circuit.arena()),
        views[0].circuit.roots() == circuit.roots(),
        0 <= i < views.len(),
        0 <= k < views[i].results.len(),
        k < circuit.roots().len(),
        views[0].order.contains(circuit.roots()[k]),
        gate_value(circuit.arena(), inputs, circuit.roots()[k], m) == carried(
            votes(inputs, k, views.len()),
            vote_threshold,
        ),
        out.len() == views.len(),
        forall|j: int|
            0 <= j < views.len() ==> (#[trigger] out[j]).value() == views[j].root_output(k),
        views[i].output_from(k, got),
        honest_round(got, out, i),
    ensures
        views[i].results[k].value() == carried(votes(inputs, k, views.len()), vote_threshold),
{
    lemma_parties_compute(views, inputs, trace, t, m, i, k, got, out);
    lemma_gate_value_same_shape(
        views[0].gates(),
        circuit.arena(),
        inputs,
        circuit.roots()[k],
        m,
    );
    lemma_small_mod(carried(votes(inputs, k, views.len()), vote_threshold) as nat, m as nat);
}

} // verus!
