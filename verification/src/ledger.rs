//! What a party sends in the course of an evaluation: for every gate and
//! every output one block of messages, in the order of the evaluation.

use crate::circuit::dependency_ordered;
use crate::circuit::placed_after_operands;
use crate::field::FieldElement;
use crate::gate::Gate;
use crate::message::Message;
use crate::polynomial::horner;
use crate::progress::later;
use crate::progress::MaskingView;
use crate::progress::outgoing;
use crate::progress::PartyView;
use vstd::prelude::*;

verus! {

impl<DataType: FieldElement> PartyView<DataType> {
    /// The messages that the party sends for what stands at place `p` of the
    /// order: for an input of its own its sharing with the polynomial
    /// `coeffs`, for a product its masked share to every other party, and
    /// nothing for a sum, a product with a constant or the input of another
    /// party.
    pub open spec fn gate_block(&self, p: int, coeffs: Seq<int>) -> Seq<Message<DataType>> {
        match self.gates()[self.order[p] as int] {
            Gate::Input { party, .. } => if party == self.id {
                self.sharing(coeffs, self.order[p])
            } else {
                Seq::empty()
            },
            Gate::Mul { first, second, .. } => self.handing(
                self.masked_value(self.order[p], first, second),
                self.order[p],
            ),
            _ => Seq::empty(),
        }
    }

    /// The messages that the party sends for the first `upto` places of the
    /// order, where `drawn` holds for every place the polynomial that an input
    /// of the party is shared with there.
    pub open spec fn evaluation_sent(&self, drawn: Seq<Seq<int>>, upto: nat) -> Seq<
        Message<DataType>,
    >
        decreases upto,
    {
        if upto == 0 {
            Seq::empty()
        } else {
            self.evaluation_sent(drawn, (upto - 1) as nat) + self.gate_block(
                upto - 1,
                drawn[upto - 1],
            )
        }
    }

    /// The messages that the party sends for the first `upto` outputs: its
    /// share of each root to every other party.
    pub open spec fn outputs_sent(&self, upto: nat) -> Seq<Message<DataType>>
        decreases upto,
    {
        if upto == 0 {
            Seq::empty()
        } else {
            self.outputs_sent((upto - 1) as nat) + self.handing(
                self.root_output(upto - 1),
                self.order.len() as usize,
            )
        }
    }

    /// The number of places of the order for which the party has sent what
    /// it sends: those evaluated, and the product whose broadcast is in
    /// progress.
    pub open spec fn gates_begun(&self) -> nat {
        if self.exchange is Some && self.masking is Idle && self.evaluated < self.order.len() {
            self.evaluated + 1
        } else {
            self.evaluated
        }
    }

    /// The number of outputs for which the party has sent its share: those
    /// reconstructed, and the one whose broadcast is in progress.
    pub open spec fn outputs_begun(&self) -> nat {
        if self.exchange is Some && self.masking is Idle && self.evaluated == self.order.len() {
            self.results.len() + 1
        } else {
            self.results.len()
        }
    }

    /// The messages that the party has sent for the evaluation so far, in
    /// their order.
    pub open spec fn run_sent(&self, drawn: Seq<Seq<int>>) -> Seq<Message<DataType>> {
        self.evaluation_sent(drawn, self.gates_begun()) + self.outputs_sent(self.outputs_begun())
    }

    /// Whether `coeffs` is a polynomial that shares what the party supplies
    /// at place `p` of the order, where that is an input of its own: of the
    /// degree of the threshold, with the input as its constant term, and the
    /// output of that gate is the party's share of it.
    pub open spec fn drawn_fits(&self, p: int, coeffs: Seq<int>) -> bool {
        self.gates()[self.order[p] as int] matches Gate::Input { party, circuit_id, output }
            ==> (party == self.id ==> {
            &&& coeffs.len() == self.threshold + 1
            &&& coeffs[0] == self.secret[circuit_id as int].value()
            &&& output matches Some(share) && share.value() == horner(coeffs, self.id + 1)
                % self.modulus
        })
    }

    /// The number of the first `upto` places of the order for which the
    /// party sends messages: its own inputs and the products.
    pub open spec fn senders(&self, upto: nat) -> nat
        decreases upto,
    {
        if upto == 0 {
            0
        } else {
            self.senders((upto - 1) as nat) + match self.gates()[self.order[upto - 1] as int] {
                Gate::Input { party, .. } => if party == self.id {
                    1nat
                } else {
                    0nat
                },
                Gate::Mul { .. } => 1nat,
                _ => 0nat,
            }
        }
    }

    /// The number of the first `upto` places of the order at which the party
    /// takes the share of an input of another party.
    pub open spec fn takers(&self, upto: nat) -> nat
        decreases upto,
    {
        if upto == 0 {
            0
        } else {
            self.takers((upto - 1) as nat) + match self.gates()[self.order[upto - 1] as int] {
                Gate::Input { party, .. } => if party == self.id {
                    0nat
                } else {
                    1nat
                },
                _ => 0nat,
            }
        }
    }

    /// The number of products among the first `upto` places of the order.
    pub open spec fn products(&self, upto: nat) -> nat
        decreases upto,
    {
        if upto == 0 {
            0
        } else {
            self.products((upto - 1) as nat) + if self.gates()[self.order[upto - 1] as int] is Mul {
                1nat
            } else {
                0nat
            }
        }
    }

    /// The number of messages that the evaluation has asked the party to
    /// take so far: one for every input of another party, one of every other
    /// party for every product and every output, and those of the broadcast
    /// in progress.
    pub open spec fn run_taken(&self) -> int {
        self.takers(self.evaluated) + (self.n() - 1) * (self.products(self.evaluated)
            + self.results.len()) + self.got_so_far().len()
    }

    /// Whether the two parties are the same one, with the same field, masks
    /// and order, and with the same gates at the first `upto` places of the
    /// order.
    pub open spec fn same_so_far(&self, other: Self, upto: nat) -> bool {
        &&& self.id == other.id
        &&& self.circuit.parties() == other.circuit.parties()
        &&& self.modulus == other.modulus
        &&& self.masks == other.masks
        &&& self.order == other.order
        &&& upto <= self.order.len()
        &&& forall|q: int|
            0 <= q < upto ==> self.gates()[#[trigger] self.order[q] as int]
                == other.gates()[self.order[q] as int]
    }
}

/// Whether what the party has sent from `before` to `after` is what its
/// evaluation asks for: the blocks of the gates and outputs that it has gone
/// on to since, in their order and nothing else, where `drawn` holds for
/// every place of the order the polynomial that an input of the party is
/// shared with there.
pub open spec fn ran<DataType: FieldElement>(
    before: PartyView<DataType>,
    after: PartyView<DataType>,
    drawn: Seq<Seq<int>>,
) -> bool {
    &&& drawn.len() == after.order.len()
    &&& before.gates_begun() <= after.gates_begun()
    &&& before.outputs_begun() <= after.outputs_begun()
    &&& before.sent.is_prefix_of(after.sent)
    &&& after.run_sent(drawn) == before.run_sent(drawn) + after.sent.skip(before.sent.len() as int)
    &&& forall|p: int|
        before.gates_begun() <= p < after.evaluated ==> #[trigger] after.drawn_fits(p, drawn[p])
}

/// Whether the party has taken, from `before` to `after`, as many messages
/// as its evaluation has asked for since, and `extra` more.
pub open spec fn took<DataType: FieldElement>(
    before: PartyView<DataType>,
    after: PartyView<DataType>,
    extra: nat,
) -> bool {
    &&& before.taken.is_prefix_of(after.taken)
    &&& after.taken.len() + before.run_taken() == before.taken.len() + after.run_taken() + extra
}

/// How many inputs of others and how many products stand at the first places
/// of the order depends on the kinds of the gates alone.
pub proof fn lemma_counts_same<DataType: FieldElement>(
    a: PartyView<DataType>,
    b: PartyView<DataType>,
    upto: nat,
)
    requires
        a.id == b.id,
        a.order == b.order,
        forall|q: int|
            0 <= q < upto ==> a.gates()[#[trigger] a.order[q] as int].with_output(None)
                == b.gates()[a.order[q] as int].with_output(None),
    ensures
        a.takers(upto) == b.takers(upto),
        a.products(upto) == b.products(upto),
        a.senders(upto) == b.senders(upto),
    decreases upto,
{
    if upto > 0 {
        lemma_counts_same(a, b, (upto - 1) as nat);
        let gate: usize = a.order[upto - 1];
        assert(a.gates()[a.order[upto - 1] as int].with_output(None) == b.gates()[gate as int].with_output(
            None,
        ));
    }
}

/// A party that goes on with a broadcast, or waits for the input of another
/// party, has taken what its evaluation asks for, and `extra` more if that
/// is what the broadcast has not got of what was taken.
pub proof fn lemma_took_paused<DataType: FieldElement>(
    first: PartyView<DataType>,
    before: PartyView<DataType>,
    after: PartyView<DataType>,
    extra: nat,
)
    requires
        took(first, before, 0),
        later(before, after),
        after.taken.len() + before.got_so_far().len() == before.taken.len()
            + after.got_so_far().len() + extra,
    ensures
        took(first, after, extra),
{
    lemma_counts_same(before, after, before.evaluated);
    lemma_prefix_of_prefix(first.taken, before.taken, after.taken);
}

/// A party that has dealt with what it evaluates next has taken what its
/// evaluation asks for, if it has taken for that gate what was missing: the
/// share of an input of another party, or one masked share of every other
/// party.
pub proof fn lemma_took_step<DataType: FieldElement>(
    first: PartyView<DataType>,
    before: PartyView<DataType>,
    middle: PartyView<DataType>,
    after: PartyView<DataType>,
    output: DataType,
)
    requires
        took(first, before, 0),
        before.wf(),
        before.masking is Idle,
        before.evaluated < before.order.len(),
        later(before, middle),
        middle.exchange is None,
        after.gates() == middle.gates().update(
            middle.order[middle.evaluated as int] as int,
            middle.gates()[middle.order[middle.evaluated as int] as int].with_output(Some(output)),
        ),
        after.circuit.parties() == middle.circuit.parties(),
        after == (PartyView { circuit: after.circuit, evaluated: middle.evaluated + 1, ..middle }),
        match before.gates()[before.order[before.evaluated as int] as int] {
            Gate::Input { party, .. } => middle.taken.len() == before.taken.len() + if party
                == before.id {
                0int
            } else {
                1int
            },
            Gate::Mul { .. } => middle.taken.len() + before.got_so_far().len() == before.taken.len()
                + before.n() - 1,
            _ => middle.taken.len() == before.taken.len(),
        },
    ensures
        took(first, after, 0),
{
    let p: nat = before.evaluated;
    before.circuit.lemma_traversal_ordered();
    assert(before.results.len() == 0);
    assert(before.order[p as int] < before.gates().len());
    assert forall|q: int| 0 <= q < p + 1 implies before.gates()[#[trigger] before.order[q] as int].with_output(
        None,
    ) == after.gates()[before.order[q] as int].with_output(None) by {}
    lemma_counts_same(before, after, p);
    lemma_counts_same(before, after, p + 1);
    let one: int = before.products(p + 1) - before.products(p);
    assert((before.n() - 1) * (before.products(p) + one) == (before.n() - 1) * before.products(p)
        + (before.n() - 1) * one) by (nonlinear_arith);
    assert(one == 0 || one == 1);
    if !(before.gates()[before.order[p as int] as int] is Mul) {
        assert(before.exchange is None);
    }
    lemma_prefix_of_prefix(first.taken, before.taken, after.taken);
}

/// A party that has reconstructed one more output has taken what its
/// evaluation asks for, if it has taken for that output what was missing: one
/// share of every other party.
pub proof fn lemma_took_output_step<DataType: FieldElement>(
    first: PartyView<DataType>,
    before: PartyView<DataType>,
    middle: PartyView<DataType>,
    after: PartyView<DataType>,
    value: DataType,
)
    requires
        took(first, before, 0),
        before.evaluated == before.order.len(),
        later(before, middle),
        middle.exchange is None,
        after == (PartyView { results: middle.results.push(value), ..middle }),
        middle.taken.len() + before.got_so_far().len() == before.taken.len() + before.n() - 1,
    ensures
        took(first, after, 0),
{
    lemma_counts_same(before, after, before.evaluated);
    let done: int = before.results.len() as int;
    assert((before.n() - 1) * (before.products(before.evaluated) + (done + 1)) == (before.n() - 1)
        * (before.products(before.evaluated) + done) + (before.n() - 1)) by (nonlinear_arith);
    lemma_prefix_of_prefix(first.taken, before.taken, after.taken);
}

/// A beginning of a beginning is a beginning.
pub proof fn lemma_prefix_of_prefix<DataType>(
    a: Seq<Message<DataType>>,
    b: Seq<Message<DataType>>,
    c: Seq<Message<DataType>>,
)
    requires
        a.is_prefix_of(b),
        b.is_prefix_of(c),
    ensures
        a.is_prefix_of(c),
{
    assert(a =~= c.subrange(0, a.len() as int)) by {
        assert forall|i: int| 0 <= i < a.len() implies a[i] == c[i] by {
            assert(a[i] == b[i]);
        }
    }
}

/// An evaluation from its beginning to its end sends every other party one
/// message for each of the party's own inputs, each product and each output,
/// and takes one message for each input of another party and one of every
/// other party for each product and each output.
pub proof fn lemma_whole_run<DataType: FieldElement>(
    before: PartyView<DataType>,
    after: PartyView<DataType>,
    drawn: Seq<Seq<int>>,
)
    requires
        ran(before, after, drawn),
        took(before, after, 0),
        after.id < after.n(),
        before.evaluated == 0,
        before.results.len() == 0,
        before.exchange is None,
        after.finished(),
        after.exchange is None,
    ensures
        after.sent.len() == before.sent.len() + (after.n() - 1) * (after.senders(
            after.order.len(),
        ) + after.circuit.roots().len()),
        after.taken.len() == before.taken.len() + after.takers(after.order.len()) + (after.n() - 1)
            * (after.products(after.order.len()) + after.circuit.roots().len()),
{
    lemma_run_sent_len(after, drawn);
    assert(before.run_sent(drawn) =~= Seq::empty());
    assert((before.n() - 1) * (0 + 0) == 0) by (nonlinear_arith);
    assert(before.run_taken() == 0);
}

/// Every block has a message for every party but the sender.
pub proof fn lemma_block_len<DataType: Copy>(id: usize, values: Seq<DataType>, gate: usize, n: nat)
    ensures
        outgoing(id, values, gate, n).len() == if id < n {
            n - 1
        } else {
            n as int
        },
    decreases n,
{
    if n > 0 {
        lemma_block_len(id, values, gate, (n - 1) as nat);
    }
}

/// The messages sent for the first `upto` places of the order are as many as
/// there are other parties, for each of its own inputs and each product.
pub proof fn lemma_evaluation_sent_len<DataType: FieldElement>(
    view: PartyView<DataType>,
    drawn: Seq<Seq<int>>,
    upto: nat,
)
    requires
        view.id < view.n(),
    ensures
        view.evaluation_sent(drawn, upto).len() == (view.n() - 1) * view.senders(upto),
    decreases upto,
{
    if upto > 0 {
        let h: nat = (upto - 1) as nat;
        lemma_evaluation_sent_len(view, drawn, h);
        let block: Seq<Message<DataType>> = view.gate_block(h as int, drawn[h as int]);
        let gate: usize = view.order[h as int];
        match view.gates()[gate as int] {
            Gate::Input { party, .. } => {
                if party == view.id {
                    lemma_block_len(
                        view.id,
                        view.dealt(drawn[h as int]),
                        gate,
                        view.n() as nat,
                    );
                }
            },
            Gate::Mul { first, second, .. } => {
                lemma_block_len(
                    view.id,
                    view.own(view.masked_value(gate, first, second)),
                    gate,
                    view.n() as nat,
                );
            },
            _ => {},
        }
        let one: nat = (view.senders(upto) - view.senders(h)) as nat;
        assert(block.len() == (view.n() - 1) * one) by (nonlinear_arith)
            requires
                one == 0 || one == 1,
                one == 0 ==> block.len() == 0,
                one == 1 ==> block.len() == view.n() - 1,
        ;
        assert((view.n() - 1) * view.senders(upto) == (view.n() - 1) * view.senders(h) + (view.n()
            - 1) * one) by (nonlinear_arith)
            requires
                view.senders(upto) == view.senders(h) + one,
        ;
    } else {
        assert((view.n() - 1) * 0 == 0);
    }
}

/// The messages sent for the first `upto` outputs are as many as there are
/// other parties, for each output.
pub proof fn lemma_outputs_sent_len<DataType: FieldElement>(view: PartyView<DataType>, upto: nat)
    requires
        view.id < view.n(),
    ensures
        view.outputs_sent(upto).len() == (view.n() - 1) * upto,
    decreases upto,
{
    if upto > 0 {
        let h: nat = (upto - 1) as nat;
        lemma_outputs_sent_len(view, h);
        lemma_block_len(
            view.id,
            view.own(view.root_output(h as int)),
            view.order.len() as usize,
            view.n() as nat,
        );
        assert((view.n() - 1) * upto == (view.n() - 1) * h + (view.n() - 1)) by (nonlinear_arith)
            requires
                upto == h + 1,
        ;
    } else {
        assert((view.n() - 1) * 0 == 0);
    }
}

/// An evaluation sends to every other party one message for each of the
/// party's own inputs, each product and each output that it has gone on to.
pub proof fn lemma_run_sent_len<DataType: FieldElement>(
    view: PartyView<DataType>,
    drawn: Seq<Seq<int>>,
)
    requires
        view.id < view.n(),
    ensures
        view.run_sent(drawn).len() == (view.n() - 1) * (view.senders(view.gates_begun())
            + view.outputs_begun()),
{
    lemma_evaluation_sent_len(view, drawn, view.gates_begun());
    lemma_outputs_sent_len(view, view.outputs_begun());
    let a: nat = view.senders(view.gates_begun());
    let b: nat = view.outputs_begun();
    assert((view.n() - 1) * (a + b) == (view.n() - 1) * a + (view.n() - 1) * b)
        by (nonlinear_arith);
}

/// What is sent for the first places of the order depends on the gates at
/// these places and on the polynomials drawn for them alone.
pub proof fn lemma_evaluation_sent_same<DataType: FieldElement>(
    a: PartyView<DataType>,
    b: PartyView<DataType>,
    drawn_a: Seq<Seq<int>>,
    drawn_b: Seq<Seq<int>>,
    upto: nat,
)
    requires
        a.same_so_far(b, upto),
        dependency_ordered(a.gates(), a.order),
        forall|q: int| 0 <= q < upto ==> drawn_a[q] == drawn_b[q],
    ensures
        a.evaluation_sent(drawn_a, upto) == b.evaluation_sent(drawn_b, upto),
    decreases upto,
{
    if upto > 0 {
        let h: int = upto - 1;
        lemma_evaluation_sent_same(a, b, drawn_a, drawn_b, h as nat);
        lemma_gate_block_same(a, b, h, drawn_a[h]);
    }
}

/// What is sent for the first places of the order depends on the
/// polynomials drawn for these places alone.
pub proof fn lemma_evaluation_sent_drawn<DataType: FieldElement>(
    view: PartyView<DataType>,
    drawn_a: Seq<Seq<int>>,
    drawn_b: Seq<Seq<int>>,
    upto: nat,
)
    requires
        forall|q: int| 0 <= q < upto ==> drawn_a[q] == drawn_b[q],
    ensures
        view.evaluation_sent(drawn_a, upto) == view.evaluation_sent(drawn_b, upto),
    decreases upto,
{
    if upto > 0 {
        lemma_evaluation_sent_drawn(view, drawn_a, drawn_b, (upto - 1) as nat);
    }
}

/// What is sent for a gate depends on the gates up to its place alone.
pub proof fn lemma_gate_block_same<DataType: FieldElement>(
    a: PartyView<DataType>,
    b: PartyView<DataType>,
    p: int,
    coeffs: Seq<int>,
)
    requires
        0 <= p,
        a.same_so_far(b, (p + 1) as nat),
        dependency_ordered(a.gates(), a.order),
    ensures
        a.gate_block(p, coeffs) == b.gate_block(p, coeffs),
{
    let gate: usize = a.order[p];
    assert(a.gates()[a.order[p] as int] == b.gates()[a.order[p] as int]);
    assert(placed_after_operands(a.gates(), a.order, p));
    match a.gates()[gate as int] {
        Gate::Mul { first, second, .. } => {
            let q: int = choose|q: int| 0 <= q < p && q < a.order.len() && a.order[q] == first;
            let r: int = choose|r: int| 0 <= r < p && r < a.order.len() && a.order[r] == second;
            assert(a.gates()[a.order[q] as int] == b.gates()[a.order[q] as int]);
            assert(a.gates()[a.order[r] as int] == b.gates()[a.order[r] as int]);
        },
        _ => {},
    }
}

/// What is sent for the outputs depends on the gates alone.
pub proof fn lemma_outputs_sent_same<DataType: FieldElement>(
    a: PartyView<DataType>,
    b: PartyView<DataType>,
    upto: nat,
)
    requires
        a.id == b.id,
        a.circuit.parties() == b.circuit.parties(),
        a.order == b.order,
        a.gates() == b.gates(),
        a.circuit.roots() == b.circuit.roots(),
    ensures
        a.outputs_sent(upto) == b.outputs_sent(upto),
    decreases upto,
{
    if upto > 0 {
        lemma_outputs_sent_same(a, b, (upto - 1) as nat);
    }
}

/// A party that has done nothing has sent nothing.
pub proof fn lemma_ran_begins<DataType: FieldElement>(
    view: PartyView<DataType>,
    drawn: Seq<Seq<int>>,
)
    requires
        drawn.len() == view.order.len(),
    ensures
        ran(view, view, drawn),
{
    assert(view.sent.skip(view.sent.len() as int) =~= Seq::empty());
    assert(view.run_sent(drawn) + Seq::<Message<DataType>>::empty() =~= view.run_sent(drawn));
}

/// A party that goes on with a broadcast, or waits for the input of another
/// party, has sent what its evaluation asks for: nothing, or the block of the
/// product or of the output whose broadcast it has begun.
pub proof fn lemma_ran_paused<DataType: FieldElement>(
    first: PartyView<DataType>,
    before: PartyView<DataType>,
    after: PartyView<DataType>,
    drawn: Seq<Seq<int>>,
)
    requires
        ran(first, before, drawn),
        later(before, after),
        before.masking is Idle,
        after.masking is Idle,
        before.exchange is Some ==> after.exchange is Some,
        before.evaluated <= before.order.len(),
        before.results.len() > 0 ==> before.evaluated == before.order.len(),
        dependency_ordered(before.gates(), before.order),
        before.exchange is Some || after.exchange is None ==> after.sent == before.sent,
        before.exchange is None && after.exchange is Some ==> after.sent == before.sent + (if before.evaluated
            < before.order.len() {
            after.gate_block(before.evaluated as int, drawn[before.evaluated as int])
        } else {
            after.handing(
                after.root_output(before.results.len() as int),
                after.order.len() as usize,
            )
        }),
    ensures
        ran(first, after, drawn),
{
    let since: int = first.sent.len() as int;
    assert(before.same_so_far(after, before.gates_begun()));
    lemma_evaluation_sent_same(before, after, drawn, drawn, before.gates_begun());
    lemma_outputs_sent_same(before, after, before.outputs_begun());
    assert forall|p: int| first.gates_begun() <= p < after.evaluated implies #[trigger] after.drawn_fits(
        p,
        drawn[p],
    ) by {
        assert(before.drawn_fits(p, drawn[p]));
    }
    if before.exchange is None && after.exchange is Some {
        let block: Seq<Message<DataType>> = after.sent.skip(before.sent.len() as int);
        assert(after.sent =~= before.sent + block);
        assert(after.sent.skip(since) =~= before.sent.skip(since) + block);
        if before.evaluated < before.order.len() {
            let p: int = before.evaluated as int;
            assert(after.gates_begun() == p + 1);
            assert(before.gates_begun() == p);
            assert(after.outputs_begun() == 0);
            assert(before.outputs_begun() == 0);
            assert(after.outputs_sent(0) =~= Seq::empty());
            assert(before.outputs_sent(0) =~= Seq::empty());
            assert(after.evaluation_sent(drawn, (p + 1) as nat) == after.evaluation_sent(
                drawn,
                p as nat,
            ) + after.gate_block(p, drawn[p]));
            assert(after.run_sent(drawn) =~= before.run_sent(drawn) + block);
        } else {
            let k: int = before.results.len() as int;
            assert(after.outputs_begun() == k + 1);
            assert(before.outputs_begun() == k);
            assert(after.outputs_sent((k + 1) as nat) == after.outputs_sent(k as nat) + after.handing(
                after.root_output(k),
                after.order.len() as usize,
            ));
            assert(after.run_sent(drawn) =~= before.run_sent(drawn) + block);
        }
        assert(after.run_sent(drawn) =~= first.run_sent(drawn) + after.sent.skip(since));
    } else {
        assert(after.sent.skip(since) =~= before.sent.skip(since));
        assert(after.gates_begun() == before.gates_begun());
        assert(after.outputs_begun() == before.outputs_begun());
    }
}

/// A party that has evaluated one more gate has sent what its evaluation
/// asks for: the block of that gate, unless it had sent it before.
pub proof fn lemma_ran_gate_done<DataType: FieldElement>(
    first: PartyView<DataType>,
    before: PartyView<DataType>,
    after: PartyView<DataType>,
    drawn: Seq<Seq<int>>,
    coeffs: Seq<int>,
)
    requires
        ran(first, before, drawn),
        before.masking is Idle,
        before.evaluated < before.order.len(),
        before.results.len() == 0,
        dependency_ordered(before.gates(), before.order),
        after == (PartyView {
            circuit: after.circuit,
            evaluated: before.evaluated + 1,
            exchange: None,
            sent: after.sent,
            buffer: after.buffer,
            arrived: after.arrived,
            events: after.events,
            taken: after.taken,
            shares: after.shares,
            ..before
        }),
        after.circuit.parties() == before.circuit.parties(),
        after.circuit.roots() == before.circuit.roots(),
        exists|output: DataType|
            after.gates() == before.gates().update(
                before.order[before.evaluated as int] as int,
                #[trigger] before.gates()[before.order[before.evaluated as int] as int].with_output(
                    Some(output),
                ),
            ),
        before.exchange is Some ==> after.sent == before.sent && before.gates()[before.order[before.evaluated as int] as int] is Mul,
        before.exchange is None ==> after.sent == before.sent + before.gate_block(
            before.evaluated as int,
            coeffs,
        ),
        before.exchange is Some ==> coeffs == drawn[before.evaluated as int],
        after.drawn_fits(before.evaluated as int, coeffs),
    ensures
        ran(first, after, drawn.update(before.evaluated as int, coeffs)),
{
    let p: int = before.evaluated as int;
    let since: int = first.sent.len() as int;
    let next: Seq<Seq<int>> = drawn.update(p, coeffs);
    let gate: usize = before.order[p];
    assert(before.order.no_duplicates());
    assert(gate < before.gates().len());
    assert forall|q: int| 0 <= q < p implies before.gates()[#[trigger] before.order[q] as int]
        == after.gates()[before.order[q] as int] by {
        assert(before.order[q] != before.order[p]);
    }
    assert(before.same_so_far(after, p as nat));
    lemma_evaluation_sent_same(before, after, drawn, next, p as nat);
    if before.exchange is Some {
        assert(next =~= drawn);
    } else {
        lemma_evaluation_sent_drawn(first, drawn, next, first.gates_begun());
    }
    assert(first.run_sent(next) == first.run_sent(drawn));
    assert(after.gates_begun() == p + 1);
    assert(after.outputs_begun() == 0);
    assert(before.outputs_begun() == 0);
    assert(after.evaluation_sent(next, (p + 1) as nat) == after.evaluation_sent(next, p as nat)
        + after.gate_block(p, next[p]));
    assert(after.outputs_sent(0) =~= Seq::empty());
    assert(before.outputs_sent(0) =~= Seq::empty());
    assert(first.outputs_begun() == 0);
    assert(after.gates()[gate as int].with_output(None) == before.gates()[gate as int].with_output(
        None,
    ));
    if before.gates()[gate as int] is Mul {
        lemma_mul_block_same(before, after, p, coeffs, coeffs);
    }
    assert(after.gate_block(p, coeffs) == before.gate_block(p, coeffs));
    if before.exchange is None {
        let block: Seq<Message<DataType>> = after.gate_block(p, coeffs);
        assert(after.sent.skip(since) =~= before.sent.skip(since) + block);
        assert(after.run_sent(next) =~= before.run_sent(drawn) + block);
        assert(after.run_sent(next) =~= first.run_sent(next) + after.sent.skip(since));
    } else {
        // the block was sent when the broadcast began: it rests on the
        // operands, which have not changed
        assert forall|q: int| 0 <= q < p + 1 implies after.gates()[#[trigger] after.order[q] as int].with_output(
            None,
        ) == before.gates()[after.order[q] as int].with_output(None) by {}
        lemma_mul_block_same(before, after, p, drawn[p], coeffs);
        assert(before.gates_begun() == p + 1);
        assert(before.evaluation_sent(drawn, (p + 1) as nat) == before.evaluation_sent(
            drawn,
            p as nat,
        ) + before.gate_block(p, drawn[p]));
        assert(after.run_sent(next) =~= before.run_sent(drawn));
        assert(after.sent.skip(since) =~= before.sent.skip(since));
    }
    assert forall|q: int| first.gates_begun() <= q < after.evaluated implies #[trigger] after.drawn_fits(
        q,
        next[q],
    ) by {
        if q < p {
            assert(before.drawn_fits(q, drawn[q]));
            assert(before.order[q] != before.order[p]);
        }
    }
}

/// A party that has dealt with what it evaluates next, by way of `middle`
/// where it has sent and taken what that asks for, and has then put down the
/// output, has sent what its evaluation asks for.
pub proof fn lemma_ran_step<DataType: FieldElement>(
    first: PartyView<DataType>,
    before: PartyView<DataType>,
    middle: PartyView<DataType>,
    after: PartyView<DataType>,
    drawn: Seq<Seq<int>>,
    coeffs: Seq<int>,
    output: DataType,
)
    requires
        ran(first, before, drawn),
        before.wf(),
        before.masking is Idle,
        before.evaluated < before.order.len(),
        later(before, middle),
        middle.exchange is None,
        middle.masking is Idle,
        after.gates() == middle.gates().update(
            middle.order[middle.evaluated as int] as int,
            middle.gates()[middle.order[middle.evaluated as int] as int].with_output(Some(output)),
        ),
        after.circuit.roots() == middle.circuit.roots(),
        after.circuit.parties() == middle.circuit.parties(),
        after == (PartyView { circuit: after.circuit, evaluated: middle.evaluated + 1, ..middle }),
        before.exchange is Some ==> middle.sent == before.sent && before.gates()[before.order[before.evaluated as int] as int] is Mul
            && coeffs == drawn[before.evaluated as int],
        before.exchange is None ==> middle.sent == before.sent + before.gate_block(
            before.evaluated as int,
            coeffs,
        ),
        after.drawn_fits(before.evaluated as int, coeffs),
    ensures
        ran(first, after, drawn.update(before.evaluated as int, coeffs)),
{
    before.circuit.lemma_traversal_ordered();
    assert(before.gates()[before.order[before.evaluated as int] as int].with_output(Some(output))
        == middle.gates()[middle.order[middle.evaluated as int] as int].with_output(Some(output)));
    lemma_ran_gate_done(first, before, after, drawn, coeffs);
}

/// A party that has reconstructed one more output, by way of `middle` where
/// it has sent and taken what that asks for, has sent what its evaluation
/// asks for.
pub proof fn lemma_ran_output_step<DataType: FieldElement>(
    first: PartyView<DataType>,
    before: PartyView<DataType>,
    middle: PartyView<DataType>,
    after: PartyView<DataType>,
    drawn: Seq<Seq<int>>,
    value: DataType,
)
    requires
        ran(first, before, drawn),
        before.wf(),
        before.masking is Idle,
        before.evaluated == before.order.len(),
        later(before, middle),
        middle.exchange is None,
        middle.masking is Idle,
        after == (PartyView { results: middle.results.push(value), ..middle }),
        before.exchange is Some ==> middle.sent == before.sent,
        before.exchange is None ==> middle.sent == before.sent + before.handing(
            before.root_output(before.results.len() as int),
            before.order.len() as usize,
        ),
    ensures
        ran(first, after, drawn),
{
    before.circuit.lemma_traversal_ordered();
    assert(after == (PartyView {
        results: before.results.push(value),
        exchange: None,
        sent: after.sent,
        buffer: after.buffer,
        arrived: after.arrived,
        events: after.events,
        taken: after.taken,
        shares: after.shares,
        ..before
    }));
    lemma_ran_output_done(first, before, after, drawn);
}

/// Nothing more sent leaves what was sent.
pub proof fn lemma_nothing_more<DataType>(sent: Seq<Message<DataType>>)
    ensures
        sent + Seq::<Message<DataType>>::empty() == sent,
{
    assert(sent + Seq::<Message<DataType>>::empty() =~= sent);
}

/// What is sent for a product rests on its operands and its mask alone.
proof fn lemma_mul_block_same<DataType: FieldElement>(
    before: PartyView<DataType>,
    after: PartyView<DataType>,
    p: int,
    old_coeffs: Seq<int>,
    new_coeffs: Seq<int>,
)
    requires
        0 <= p < before.order.len(),
        before.same_so_far(after, p as nat),
        dependency_ordered(before.gates(), before.order),
        before.gates()[before.order[p] as int] is Mul,
        after.gates()[before.order[p] as int].with_output(None)
            == before.gates()[before.order[p] as int].with_output(None),
    ensures
        after.gate_block(p, new_coeffs) == before.gate_block(p, old_coeffs),
{
    let gate: usize = before.order[p];
    assert(placed_after_operands(before.gates(), before.order, p));
    match before.gates()[gate as int] {
        Gate::Mul { first, second, .. } => {
            let q: int = choose|q: int| 0 <= q < p && q < before.order.len() && before.order[q] == first;
            let r: int = choose|r: int|
                0 <= r < p && r < before.order.len() && before.order[r] == second;
            assert(before.gates()[before.order[q] as int] == after.gates()[before.order[q] as int]);
            assert(before.gates()[before.order[r] as int] == after.gates()[before.order[r] as int]);
            assert(after.gates()[gate as int] matches Gate::Mul { first: f, second: s, .. } && f
                == first && s == second);
        },
        _ => {},
    }
}

/// A party that has reconstructed one more output has sent what its
/// evaluation asks for: its share of the root, unless it had sent it before.
pub proof fn lemma_ran_output_done<DataType: FieldElement>(
    first: PartyView<DataType>,
    before: PartyView<DataType>,
    after: PartyView<DataType>,
    drawn: Seq<Seq<int>>,
)
    requires
        ran(first, before, drawn),
        before.masking is Idle,
        before.evaluated == before.order.len(),
        dependency_ordered(before.gates(), before.order),
        exists|value: DataType|
            after == (PartyView {
                results: #[trigger] before.results.push(value),
                exchange: None,
                sent: after.sent,
                buffer: after.buffer,
                arrived: after.arrived,
                events: after.events,
                taken: after.taken,
                shares: after.shares,
                ..before
            }),
        before.exchange is Some ==> after.sent == before.sent,
        before.exchange is None ==> after.sent == before.sent + after.handing(
            after.root_output(before.results.len() as int),
            after.order.len() as usize,
        ),
    ensures
        ran(first, after, drawn),
{
    let since: int = first.sent.len() as int;
    let k: int = before.results.len() as int;
    assert(before.same_so_far(after, before.gates_begun()));
    lemma_evaluation_sent_same(before, after, drawn, drawn, before.gates_begun());
    lemma_outputs_sent_same(before, after, (k + 1) as nat);
    lemma_outputs_sent_same(before, after, k as nat);
    assert(after.gates_begun() == before.gates_begun());
    assert(after.outputs_begun() == k + 1);
    assert(after.outputs_sent((k + 1) as nat) == after.outputs_sent(k as nat) + after.handing(
        after.root_output(k),
        after.order.len() as usize,
    ));
    assert forall|p: int| first.gates_begun() <= p < after.evaluated implies #[trigger] after.drawn_fits(
        p,
        drawn[p],
    ) by {
        assert(before.drawn_fits(p, drawn[p]));
    }
    if before.exchange is None {
        let block: Seq<Message<DataType>> = after.sent.skip(before.sent.len() as int);
        assert(after.sent =~= before.sent + block);
        assert(block =~= after.handing(after.root_output(k), after.order.len() as usize));
        assert(before.outputs_begun() == k);
        assert(after.sent.skip(since) =~= before.sent.skip(since) + block);
        assert(after.run_sent(drawn) =~= before.run_sent(drawn) + block);
        assert(after.run_sent(drawn) =~= first.run_sent(drawn) + after.sent.skip(since));
    } else {
        assert(before.outputs_begun() == k + 1);
        assert(after.sent.skip(since) =~= before.sent.skip(since));
        assert(after.run_sent(drawn) =~= before.run_sent(drawn));
    }
}

impl<DataType: FieldElement> PartyView<DataType> {
    /// How far the setup of the product in turn has come: no sharing sent, the
    /// first sent, or both.
    pub open spec fn stage(&self) -> nat {
        match self.masking {
            MaskingView::Idle => 0,
            MaskingView::Low { .. } => 1,
            MaskingView::High { .. } => 2,
        }
    }

    /// The messages that the party sends for the setup of what stands at
    /// place `p` of the order, as far as the stages after `from` and up to
    /// `to` go: for a product the sharing of a number with the polynomial
    /// `low` at the first stage and with `high` at the second.
    pub open spec fn stage_blocks(
        &self,
        p: int,
        low: Seq<int>,
        high: Seq<int>,
        from: nat,
        to: nat,
    ) -> Seq<Message<DataType>> {
        (if from < 1 <= to {
            self.sharing(low, self.order[p])
        } else {
            Seq::empty()
        }) + (if from < 2 <= to {
            self.sharing(high, self.order[p])
        } else {
            Seq::empty()
        })
    }

    /// The messages that the party sends for the setup of the first `upto`
    /// places of the order: two sharings for every product.
    pub open spec fn setup_sent_upto(
        &self,
        lows: Seq<Seq<int>>,
        highs: Seq<Seq<int>>,
        upto: nat,
    ) -> Seq<Message<DataType>>
        decreases upto,
    {
        if upto == 0 {
            Seq::empty()
        } else {
            self.setup_sent_upto(lows, highs, (upto - 1) as nat) + if self.gates()[self.order[upto
                - 1] as int] is Mul {
                self.stage_blocks(upto - 1, lows[upto - 1], highs[upto - 1], 0, 2)
            } else {
                Seq::empty()
            }
        }
    }

    /// The messages that the party has sent for the setup so far, in their
    /// order, where `lows` and `highs` hold for every place of the order the
    /// two polynomials that the party shares a number with there.
    pub open spec fn setup_sent(&self, lows: Seq<Seq<int>>, highs: Seq<Seq<int>>) -> Seq<
        Message<DataType>,
    > {
        self.setup_sent_upto(lows, highs, self.prepared) + self.stage_blocks(
            self.prepared as int,
            lows[self.prepared as int],
            highs[self.prepared as int],
            0,
            self.stage(),
        )
    }

    /// Whether `low` and `high` are polynomials that the setup shares a
    /// number with, as far as it has got to `stage`: of the degree of the
    /// threshold and of twice that degree, with one number of the field as
    /// their constant term.
    pub open spec fn pair_fits(&self, low: Seq<int>, high: Seq<int>, stage: nat) -> bool {
        &&& stage >= 1 ==> low.len() == self.threshold + 1 && 0 <= low[0] < self.modulus
        &&& stage >= 2 ==> high.len() == 2 * self.threshold + 1 && high[0] == low[0]
    }

    /// The number of messages that the setup has asked the party to take so
    /// far: one of every other party for each sharing, and those of the
    /// broadcast in progress.
    pub open spec fn setup_taken(&self) -> int {
        (self.n() - 1) * (2 * self.products(self.prepared) + if self.stage() == 2 {
            1int
        } else {
            0int
        }) + if self.stage() > 0 {
            self.got_so_far().len() as int
        } else {
            0int
        }
    }
}

/// Whether what the party has sent from `before` to `after` is what its
/// setup asks for: the sharings of the products that it has gone on to
/// since, in their order and nothing else, where `lows` and `highs` hold for
/// every place of the order the two polynomials that the party shares a
/// number with there.
pub open spec fn prepared_from<DataType: FieldElement>(
    before: PartyView<DataType>,
    after: PartyView<DataType>,
    lows: Seq<Seq<int>>,
    highs: Seq<Seq<int>>,
) -> bool {
    &&& lows.len() == after.order.len()
    &&& highs.len() == after.order.len()
    &&& before.prepared <= after.prepared
    &&& before.prepared == after.prepared ==> before.stage() <= after.stage()
    &&& before.sent.is_prefix_of(after.sent)
    &&& after.setup_sent(lows, highs) == before.setup_sent(lows, highs) + after.sent.skip(
        before.sent.len() as int,
    )
    &&& forall|p: int|
        before.prepared <= p < after.prepared && after.gates()[after.order[p] as int] is Mul
            ==> #[trigger] after.pair_fits(lows[p], highs[p], 2)
    &&& after.stage() > before.stage() || after.prepared > before.prepared ==> after.pair_fits(
        lows[after.prepared as int],
        highs[after.prepared as int],
        after.stage(),
    )
}

/// Whether the party has taken, from `before` to `after`, as many messages
/// as its setup has asked for since, and `extra` more.
pub open spec fn took_for_setup<DataType: FieldElement>(
    before: PartyView<DataType>,
    after: PartyView<DataType>,
    extra: nat,
) -> bool {
    &&& before.taken.is_prefix_of(after.taken)
    &&& after.taken.len() + before.setup_taken() == before.taken.len() + after.setup_taken()
        + extra
}

/// What is sent for the setup of the first places of the order depends on
/// the polynomials for these places alone.
pub proof fn lemma_setup_sent_same<DataType: FieldElement>(
    a: PartyView<DataType>,
    b: PartyView<DataType>,
    lows_a: Seq<Seq<int>>,
    highs_a: Seq<Seq<int>>,
    lows_b: Seq<Seq<int>>,
    highs_b: Seq<Seq<int>>,
    upto: nat,
)
    requires
        a.id == b.id,
        a.circuit == b.circuit,
        a.modulus == b.modulus,
        a.order == b.order,
        forall|q: int| 0 <= q < upto ==> lows_a[q] == lows_b[q] && highs_a[q] == highs_b[q],
    ensures
        a.setup_sent_upto(lows_a, highs_a, upto) == b.setup_sent_upto(lows_b, highs_b, upto),
    decreases upto,
{
    if upto > 0 {
        lemma_setup_sent_same(a, b, lows_a, highs_a, lows_b, highs_b, (upto - 1) as nat);
    }
}

/// A party that has begun nothing new has sent nothing for its setup.
pub proof fn lemma_prepared_begins<DataType: FieldElement>(
    view: PartyView<DataType>,
    lows: Seq<Seq<int>>,
    highs: Seq<Seq<int>>,
)
    requires
        lows.len() == view.order.len(),
        highs.len() == view.order.len(),
    ensures
        prepared_from(view, view, lows, highs),
        took_for_setup(view, view, 0),
{
    assert(view.sent.skip(view.sent.len() as int) =~= Seq::empty());
    assert(view.setup_sent(lows, highs) + Seq::<Message<DataType>>::empty() =~= view.setup_sent(
        lows,
        highs,
    ));
}

/// A party that has gone on with the setup of the product in turn, or has
/// finished it, has sent what its setup asks for: the sharings of the stages
/// that it has gone through, `mid` being what it had sent after the first
/// stage.
pub proof fn lemma_prepared_more<DataType: FieldElement>(
    first: PartyView<DataType>,
    before: PartyView<DataType>,
    after: PartyView<DataType>,
    lows: Seq<Seq<int>>,
    highs: Seq<Seq<int>>,
    low: Seq<int>,
    high: Seq<int>,
    mid: Seq<Message<DataType>>,
    to: nat,
)
    requires
        prepared_from(first, before, lows, highs),
        before.prepared < before.order.len(),
        before.gates()[before.order[before.prepared as int] as int] is Mul,
        after.id == before.id,
        after.circuit == before.circuit,
        after.modulus == before.modulus,
        after.order == before.order,
        after.threshold == before.threshold,
        before.stage() <= to <= 2,
        after.prepared == before.prepared && after.stage() == to && to > 0 || after.prepared
            == before.prepared + 1 && after.stage() == 0 && to == 2,
        before.stage() >= 1 ==> low == lows[before.prepared as int],
        before.stage() >= 2 ==> high == highs[before.prepared as int],
        after.pair_fits(low, high, to),
        mid == before.sent + (if before.stage() < 1 <= to {
            before.sharing(low, before.order[before.prepared as int])
        } else {
            Seq::empty()
        }),
        after.sent == mid + (if before.stage() < 2 <= to {
            before.sharing(high, before.order[before.prepared as int])
        } else {
            Seq::empty()
        }),
    ensures
        prepared_from(
            first,
            after,
            lows.update(before.prepared as int, low),
            highs.update(before.prepared as int, high),
        ),
{
    let p: int = before.prepared as int;
    let since: int = first.sent.len() as int;
    let next_lows: Seq<Seq<int>> = lows.update(p, low);
    let next_highs: Seq<Seq<int>> = highs.update(p, high);
    let block: Seq<Message<DataType>> = before.stage_blocks(p, low, high, before.stage(), to);
    assert(after.sent =~= before.sent + block);
    assert(after.sent.skip(since) =~= before.sent.skip(since) + block);
    lemma_setup_sent_same(before, after, lows, highs, next_lows, next_highs, p as nat);
    lemma_setup_sent_same(first, first, lows, highs, next_lows, next_highs, first.prepared);
    assert(first.setup_sent(next_lows, next_highs) == first.setup_sent(lows, highs)) by {
        if first.prepared == p {
            assert(first.stage() <= before.stage());
            assert(first.stage_blocks(p, next_lows[p], next_highs[p], 0, first.stage())
                =~= first.stage_blocks(p, lows[p], highs[p], 0, first.stage()));
        } else {
            assert(next_lows[first.prepared as int] == lows[first.prepared as int]);
            assert(next_highs[first.prepared as int] == highs[first.prepared as int]);
        }
    }
    let done: Seq<Message<DataType>> = before.setup_sent_upto(lows, highs, p as nat);
    assert(before.setup_sent(lows, highs) =~= done + before.stage_blocks(
        p,
        low,
        high,
        0,
        before.stage(),
    ));
    assert(after.stage_blocks(p, low, high, 0, to) =~= before.stage_blocks(
        p,
        low,
        high,
        0,
        before.stage(),
    ) + block);
    if after.prepared == before.prepared {
        assert(after.setup_sent(next_lows, next_highs) =~= done + after.stage_blocks(
            p,
            low,
            high,
            0,
            to,
        ));
    } else {
        assert(after.setup_sent_upto(next_lows, next_highs, (p + 1) as nat) == after.setup_sent_upto(
            next_lows,
            next_highs,
            p as nat,
        ) + after.stage_blocks(p, low, high, 0, 2));
        assert(after.stage_blocks(p + 1, next_lows[p + 1], next_highs[p + 1], 0, 0)
            =~= Seq::empty());
        assert(after.setup_sent(next_lows, next_highs) =~= done + after.stage_blocks(
            p,
            low,
            high,
            0,
            2,
        ));
    }
    assert(after.setup_sent(next_lows, next_highs) =~= before.setup_sent(lows, highs) + block);
    assert(before.setup_sent(lows, highs) == first.setup_sent(lows, highs) + before.sent.skip(
        since,
    ));
    assert(after.setup_sent(next_lows, next_highs) =~= first.setup_sent(next_lows, next_highs)
        + after.sent.skip(since));
    assert forall|q: int|
        first.prepared <= q < after.prepared && after.gates()[after.order[q] as int] is Mul implies #[trigger] after.pair_fits(
        next_lows[q],
        next_highs[q],
        2,
    ) by {
        if q < p {
            assert(before.pair_fits(lows[q], highs[q], 2));
        }
    }
}

/// A party that has passed by a gate that is no product has sent what its
/// setup asks for: nothing.
pub proof fn lemma_prepared_passed<DataType: FieldElement>(
    first: PartyView<DataType>,
    before: PartyView<DataType>,
    after: PartyView<DataType>,
    lows: Seq<Seq<int>>,
    highs: Seq<Seq<int>>,
)
    requires
        prepared_from(first, before, lows, highs),
        took_for_setup(first, before, 0),
        before.prepared < before.order.len(),
        !(before.gates()[before.order[before.prepared as int] as int] is Mul),
        before.masking is Idle,
        after == (PartyView { prepared: before.prepared + 1, ..before }),
    ensures
        prepared_from(first, after, lows, highs),
        took_for_setup(first, after, 0),
{
    let p: int = before.prepared as int;
    let since: int = first.sent.len() as int;
    lemma_setup_sent_same(before, after, lows, highs, lows, highs, p as nat);
    assert(after.setup_sent_upto(lows, highs, (p + 1) as nat) =~= after.setup_sent_upto(
        lows,
        highs,
        p as nat,
    ));
    assert(after.stage_blocks(p + 1, lows[p + 1], highs[p + 1], 0, 0) =~= Seq::empty());
    assert(before.stage_blocks(p, lows[p], highs[p], 0, 0) =~= Seq::empty());
    assert(after.setup_sent(lows, highs) =~= before.setup_sent(lows, highs));
    assert forall|q: int|
        first.prepared <= q < after.prepared && after.gates()[after.order[q] as int] is Mul implies #[trigger] after.pair_fits(
        lows[q],
        highs[q],
        2,
    ) by {
        if q < p {
            assert(before.pair_fits(lows[q], highs[q], 2));
        }
    }
    lemma_counts_same(before, after, (p + 1) as nat);
    assert(after.products((p + 1) as nat) == after.products(p as nat));
}

/// A party that has gone on with the setup of the product in turn, up to the
/// stage `to`, or has finished it, has taken what its setup asks for, and
/// `extra` more: where a sharing has come to its end, what was missing of
/// one message of every other party, `mid` being the number of messages taken
/// after the first sharing; and where one is in progress, what it has got
/// since and `extra` more.
pub proof fn lemma_took_for_setup<DataType: FieldElement>(
    first: PartyView<DataType>,
    before: PartyView<DataType>,
    after: PartyView<DataType>,
    mid: int,
    to: nat,
    extra: nat,
)
    requires
        took_for_setup(first, before, 0),
        before.taken.is_prefix_of(after.taken),
        before.prepared < before.order.len(),
        before.gates()[before.order[before.prepared as int] as int] is Mul,
        after.id == before.id,
        after.circuit == before.circuit,
        after.order == before.order,
        before.stage() <= to <= 2,
        1 <= to,
        after.prepared == before.prepared && after.stage() == to || after.prepared
            == before.prepared + 1 && after.stage() == 0 && to == 2 && extra == 0,
        before.stage() == 2 ==> mid == before.taken.len(),
        before.stage() == 1 && to == 2 ==> mid + before.got_so_far().len() == before.taken.len()
            + before.n() - 1,
        before.stage() == 0 && to == 2 ==> mid == before.taken.len() + before.n() - 1,
        before.stage() == 1 && to == 1 ==> after.taken.len() + before.got_so_far().len()
            == before.taken.len() + after.got_so_far().len() + extra,
        before.stage() == 0 && to == 1 ==> after.taken.len() == before.taken.len()
            + after.got_so_far().len() + extra,
        to == 2 && after.prepared > before.prepared ==> after.taken.len() + (if before.stage() == 2 {
            before.got_so_far().len()
        } else {
            0nat
        }) == mid + before.n() - 1,
        to == 2 && after.prepared == before.prepared ==> after.taken.len() + (if before.stage()
            == 2 {
            before.got_so_far().len()
        } else {
            0nat
        }) == mid + after.got_so_far().len() + extra,
    ensures
        took_for_setup(first, after, extra),
{
    let p: nat = before.prepared;
    let k: int = before.n() - 1;
    lemma_counts_same(before, after, p);
    lemma_counts_same(before, after, p + 1);
    lemma_prefix_of_prefix(first.taken, before.taken, after.taken);
    let c: int = before.products(p) as int;
    assert(after.products(p + 1) == c + 1);
    assert(k * (2 * c + 1) == 2 * (k * c) + k) by (nonlinear_arith);
    assert(k * (2 * c + 0) == 2 * (k * c)) by (nonlinear_arith);
    assert(k * (2 * (c + 1) + 0) == 2 * (k * c) + 2 * k) by (nonlinear_arith);
}

/// The messages sent for the setup of the first `upto` places of the order
/// are twice as many as there are other parties, for each product.
pub proof fn lemma_setup_sent_len<DataType: FieldElement>(
    view: PartyView<DataType>,
    lows: Seq<Seq<int>>,
    highs: Seq<Seq<int>>,
    upto: nat,
)
    requires
        view.id < view.n(),
    ensures
        view.setup_sent_upto(lows, highs, upto).len() == (view.n() - 1) * (2 * view.products(upto)),
    decreases upto,
{
    if upto > 0 {
        let h: nat = (upto - 1) as nat;
        lemma_setup_sent_len(view, lows, highs, h);
        let gate: usize = view.order[h as int];
        lemma_block_len(view.id, view.dealt(lows[h as int]), gate, view.n() as nat);
        lemma_block_len(view.id, view.dealt(highs[h as int]), gate, view.n() as nat);
        let k: int = view.n() - 1;
        let c: int = view.products(h) as int;
        assert(k * (2 * (c + 1)) == k * (2 * c) + 2 * k) by (nonlinear_arith);
    } else {
        assert((view.n() - 1) * (2 * 0) == 0) by (nonlinear_arith);
    }
}

/// A setup from its beginning to its end sends every other party two
/// messages for each product, and takes two messages of every other party
/// for each product.
pub proof fn lemma_whole_setup<DataType: FieldElement>(
    before: PartyView<DataType>,
    after: PartyView<DataType>,
    lows: Seq<Seq<int>>,
    highs: Seq<Seq<int>>,
)
    requires
        prepared_from(before, after, lows, highs),
        took_for_setup(before, after, 0),
        after.id < after.n(),
        before.prepared == 0,
        before.masking is Idle,
        after.prepared == after.order.len(),
        after.masking is Idle,
    ensures
        after.sent.len() == before.sent.len() + (after.n() - 1) * (2 * after.products(
            after.order.len(),
        )),
        after.taken.len() == before.taken.len() + (after.n() - 1) * (2 * after.products(
            after.order.len(),
        )),
{
    lemma_setup_sent_len(after, lows, highs, after.prepared);
    assert(before.setup_sent(lows, highs) =~= Seq::empty());
    assert(after.stage_blocks(
        after.prepared as int,
        lows[after.prepared as int],
        highs[after.prepared as int],
        0,
        0,
    ) =~= Seq::empty());
    let k: int = before.n() - 1;
    assert(k * (2 * 0 + 0) == 0) by (nonlinear_arith);
    assert(before.setup_taken() == 0);
    assert(after.setup_taken() == (after.n() - 1) * (2 * after.products(after.prepared) + 0));
}

} // verus!
