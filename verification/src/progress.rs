//! What a party has come to, as specifications see it: its parts, its
//! progress, and how what it has sent and taken accounts for it.

use crate::circuit::Circuit;
use crate::circuit::dependency_ordered;
use crate::circuit::lemma_visit_roots_same_shape;
use crate::circuit::occurs_before;
use crate::circuit::placed_after_operands;
use crate::circuit::same_shape;
use crate::field::add_mod;
use crate::field::element;
use crate::field::elements;
use crate::field::Field;
use crate::field::FieldElement;
use crate::field::mul_mod;
use crate::field::sub_mod;
use crate::gate::Gate;
use crate::link::Event;
use crate::link::messages_got;
use crate::link::messages_sent;
use crate::link::on_their_lines;
use crate::link::receipts;
use crate::link::sendings;
use crate::mailbox::awaited;
use crate::mailbox::none_awaited;
use crate::mailbox::taken;
use crate::message::Message;
use crate::polynomial::horner;
use crate::polynomial::interpolation;
use crate::polynomial::values;
use crate::sharing::shares_of;
use vstd::prelude::*;

verus! {

/// A broadcast in progress.
pub struct ExchangeView<DataType> {
    /// The shares known so far, one place per party.
    pub shares: Seq<DataType>,
    /// The number of messages still to come.
    pub missing: nat,
    /// The index of the circuit entry that the broadcast is for.
    pub gate: usize,
    /// The shares that the broadcast began with.
    pub begun: Seq<DataType>,
    /// The messages taken for the broadcast so far, oldest first.
    pub got: Seq<Message<DataType>>,
}

/// Why a party stops before its work is done.
#[derive(Clone, Copy, Debug)]
pub enum Halt<DataType> {
    /// The channel has no message to give.
    Starved,
    /// The message `msg`, which the party waited for in a broadcast, names a
    /// sender that is none of the parties.
    Stranger { msg: Message<DataType> },
}

/// The setup of a gate as specifications see it.
pub enum MaskingView<DataType> {
    /// No mask is being prepared.
    Idle,
    /// The sharing of degree `t` is in progress; the polynomial with the
    /// coefficients `high` waits for its turn.
    Low { high: Seq<int> },
    /// The sharing of degree `2t` is in progress; `low` is what the first
    /// sharing gave.
    High { low: DataType },
}

/// The state of a party as specifications see it.
pub struct PartyView<DataType> {
    /// The index of the party.
    pub id: usize,
    /// The private inputs of the party, one per input slot of the circuit.
    pub secret: Seq<DataType>,
    /// The number of sending channels, one per party.
    pub channels: nat,
    /// The shares of inputs and outputs on record, by party and gate.
    pub shares: Seq<Map<usize, DataType>>,
    /// The pair of masks of each multiplication gate that is set up: the
    /// share of the sharing of degree `t`, then that of degree `2t`.
    pub masks: Map<usize, (DataType, DataType)>,
    /// The modulus of the field.
    pub modulus: int,
    /// The circuit, with the outputs computed so far.
    pub circuit: Circuit<DataType>,
    /// The degree of the sharing polynomials.
    pub threshold: usize,
    /// The order in which the gates are evaluated.
    pub order: Seq<usize>,
    /// The number of gates of `order` that the setup has dealt with.
    pub prepared: nat,
    /// The number of gates of `order` that have their output.
    pub evaluated: nat,
    /// The outputs reconstructed so far, in the order of the roots.
    pub results: Seq<DataType>,
    /// The broadcast in progress, if there is one.
    pub exchange: Option<ExchangeView<DataType>>,
    /// How far the setup of the current multiplication gate has come.
    pub masking: MaskingView<DataType>,
    /// The messages that arrived before the party waited for them, oldest
    /// first.
    pub buffer: Seq<Message<DataType>>,
    /// What has passed through the channels of the party, oldest first: the
    /// messages handed to the sending channels and those that the receiving
    /// channel has given, in one order.
    pub events: Seq<Event<DataType>>,
    /// The messages that the party has handed to its sending channels,
    /// oldest first.
    pub sent: Seq<Message<DataType>>,
    /// The messages that the receiving channel has handed to the party,
    /// oldest first.
    pub arrived: Seq<Message<DataType>>,
    /// The messages that the party has taken as those it waited for, oldest
    /// first.
    pub taken: Seq<Message<DataType>>,
}

/// The messages that the party `id` sends to hand out `values`, one place per
/// party, for gate `gate`: to each of the first `count` parties but itself
/// its place, in the order of the parties.
pub open spec fn outgoing<DataType: Copy>(
    id: usize,
    values: Seq<DataType>,
    gate: usize,
    count: nat,
) -> Seq<Message<DataType>>
    decreases count,
{
    if count == 0 {
        Seq::empty()
    } else if count - 1 == id {
        outgoing(id, values, gate, (count - 1) as nat)
    } else {
        outgoing(id, values, gate, (count - 1) as nat).push(
            Message::composed(id, (count - 1) as usize, gate, values[count - 1]),
        )
    }
}

/// A party that is alone sends nothing.
pub proof fn lemma_alone_sends_nothing<DataType: Copy>(
    values: Seq<DataType>,
    gate: usize,
    sent: Seq<Message<DataType>>,
)
    ensures
        outgoing(0, values, gate, 1) == Seq::<Message<DataType>>::empty(),
        sent + outgoing(0, values, gate, 1) == sent,
{
    assert(outgoing(0, values, gate, 0) == Seq::<Message<DataType>>::empty());
    assert(outgoing(0, values, gate, 1) == outgoing(0, values, gate, 0));
    assert(sent + Seq::<Message<DataType>>::empty() =~= sent);
}

/// Whether, from `before` to `after`, the party `id` has sent the `n`
/// parties their shares of the polynomial with the coefficients `coeffs`,
/// for gate `gate`, and nothing else.
pub open spec fn shared_out<DataType: FieldElement>(
    before: Seq<Message<DataType>>,
    after: Seq<Message<DataType>>,
    id: usize,
    coeffs: Seq<int>,
    gate: usize,
    n: nat,
    m: int,
) -> bool {
    after == before + outgoing(id, elements::<DataType>(shares_of(coeffs, n, m)), gate, n)
}

/// Whether, from `before` to `after`, the party `id` has sent every other of
/// the `n` parties a share that stands for `share`, for gate `gate`, and
/// nothing else.
pub open spec fn handed_out<DataType: FieldElement>(
    before: Seq<Message<DataType>>,
    after: Seq<Message<DataType>>,
    id: usize,
    share: int,
    gate: usize,
    n: nat,
) -> bool {
    after == before + outgoing(id, uniform(n, element::<DataType>(share)), gate, n)
}

/// The shares `shares` after the shares that the messages `got` carry have
/// been put at the places of their senders, one message after the other.
pub open spec fn recorded<DataType: Copy>(
    shares: Seq<DataType>,
    got: Seq<Message<DataType>>,
) -> Seq<DataType>
    decreases got.len(),
{
    if got.len() == 0 {
        shares
    } else {
        recorded(shares, got.drop_last()).update(got.last().sender() as int, got.last().payload())
    }
}

/// Whether `msg` is a message that the party `id` waits for, for gate
/// `gate`, and comes from one of the `n` parties.
pub open spec fn expected<DataType: Copy>(
    msg: Message<DataType>,
    id: usize,
    gate: usize,
    n: usize,
) -> bool {
    awaited(msg, id, gate) && msg.sender() < n
}

/// Whether the party of `view`, waiting for a share of `gate`, has stopped
/// for the reason `halt`: none of the messages kept back is one that it waits
/// for; or the channel has handed over a message that it waited for, whose
/// sender is none of the parties.
pub open spec fn halted<DataType: FieldElement>(
    halt: Halt<DataType>,
    view: PartyView<DataType>,
    gate: usize,
) -> bool {
    match halt {
        Halt::Starved => none_awaited(view.buffer, view.id, gate),
        Halt::Stranger { msg } => awaited(msg, view.id, gate) && msg.sender() >= view.n()
            && view.arrived.contains(msg),
    }
}

/// Whether the party has sent, received and taken nothing from `before` to
/// `after`, and keeps back the same messages.
pub open spec fn silent<DataType>(before: PartyView<DataType>, after: PartyView<DataType>) -> bool {
    &&& after.sent == before.sent
    &&& after.arrived == before.arrived
    &&& after.buffer == before.buffer
    &&& after.taken == before.taken
}

/// Whether the messages that the party has taken from `before` to `after`
/// are those of the broadcast's messages `got` that came since, in their
/// order.
pub open spec fn taken_for<DataType: FieldElement>(
    before: PartyView<DataType>,
    after: PartyView<DataType>,
    got: Seq<Message<DataType>>,
) -> bool {
    after.taken == before.taken + got.skip(before.got_so_far().len() as int)
}

/// The message that a party has taken and not used, when it has stopped for
/// the reason `halt`.
pub open spec fn refused<DataType>(halt: Halt<DataType>) -> Seq<Message<DataType>> {
    match halt {
        Halt::Starved => Seq::empty(),
        Halt::Stranger { msg } => seq![msg],
    }
}

/// Whether the messages that the party has taken from `before` to `after`,
/// where it has stopped for the reason `halt`, are those that the broadcast
/// in progress has got since, in their order, and then the message of a
/// stranger, if it has stopped for one.
pub open spec fn taken_until<DataType: FieldElement>(
    before: PartyView<DataType>,
    after: PartyView<DataType>,
    halt: Halt<DataType>,
) -> bool {
    after.taken == before.taken + after.got_so_far().skip(before.got_so_far().len() as int)
        + refused(halt)
}

/// Whether the party has taken, from `before` to `after`, as many messages
/// as its broadcast asked for: with `halt` being `None`, what was missing of
/// one message of every other party; and else what the broadcast has got
/// since, and the message of a stranger, if it has stopped for one.
pub open spec fn taken_count<DataType: FieldElement>(
    before: PartyView<DataType>,
    after: PartyView<DataType>,
    halt: Option<Halt<DataType>>,
) -> bool {
    match halt {
        None => after.taken.len() + before.got_so_far().len() == before.taken.len() + before.n() - 1,
        Some(halt) => after.taken.len() + before.got_so_far().len() == before.taken.len()
            + after.got_so_far().len() + refused(halt).len(),
    }
}

/// Whether, from `before` to `after`, the party has first handed to its
/// sending channels all that it has sent, each message to the channel of its
/// recipient, and has then been given all that has arrived: the sends come
/// before the first receipt.
pub open spec fn sent_then_received<DataType: FieldElement>(
    before: PartyView<DataType>,
    after: PartyView<DataType>,
) -> bool {
    after.events == before.events + sendings(after.sent.skip(before.sent.len() as int)) + receipts(
        after.arrived.skip(before.arrived.len() as int),
    )
}

/// A party that has sent and then received, and goes on to receive, has
/// sent and then received.
pub proof fn lemma_received_more<DataType: FieldElement>(
    first: PartyView<DataType>,
    before: PartyView<DataType>,
    after: PartyView<DataType>,
)
    requires
        sent_then_received(first, before),
        first.arrived.is_prefix_of(before.arrived),
        before.arrived.is_prefix_of(after.arrived),
        after.sent == before.sent,
        sent_then_received(before, after),
    ensures
        sent_then_received(first, after),
{
    let a: int = first.arrived.len() as int;
    let b: int = before.arrived.len() as int;
    assert(after.sent.skip(before.sent.len() as int) =~= Seq::empty());
    assert(sendings(Seq::<Message<DataType>>::empty()) =~= Seq::empty());
    assert(after.events =~= before.events + receipts(after.arrived.skip(b)));
    assert(after.arrived.skip(a) =~= before.arrived.skip(a) + after.arrived.skip(b));
    assert(receipts(after.arrived.skip(a)) =~= receipts(before.arrived.skip(a)) + receipts(
        after.arrived.skip(b),
    ));
    assert(after.events =~= first.events + sendings(after.sent.skip(first.sent.len() as int))
        + receipts(after.arrived.skip(a)));
}

/// A party that has done nothing has sent and then received.
pub proof fn lemma_nothing_passed<DataType: FieldElement>(view: PartyView<DataType>)
    ensures
        sent_then_received(view, view),
{
    assert(view.sent.skip(view.sent.len() as int) =~= Seq::empty());
    assert(view.arrived.skip(view.arrived.len() as int) =~= Seq::empty());
    assert(sendings(Seq::<Message<DataType>>::empty()) =~= Seq::empty());
    assert(receipts(Seq::<Message<DataType>>::empty()) =~= Seq::empty());
    assert(view.events =~= view.events + sendings(Seq::<Message<DataType>>::empty()) + receipts(
        Seq::<Message<DataType>>::empty(),
    ));
}

/// A party that has only sent has sent and then received.
pub proof fn lemma_sent_only<DataType: FieldElement>(
    before: PartyView<DataType>,
    after: PartyView<DataType>,
    block: Seq<Message<DataType>>,
)
    requires
        after.sent == before.sent + block,
        after.arrived == before.arrived,
        after.events == before.events + sendings(block),
    ensures
        sent_then_received(before, after),
{
    assert(after.sent.skip(before.sent.len() as int) =~= block);
    assert(after.arrived.skip(before.arrived.len() as int) =~= Seq::empty());
    assert(receipts(Seq::<Message<DataType>>::empty()) =~= Seq::empty());
    assert(after.events =~= before.events + sendings(block) + receipts(
        Seq::<Message<DataType>>::empty(),
    ));
}

/// Whether the party `id` among `n` has waited for each of the messages
/// `got`, for gate `gate`, each comes from one of the parties, and the
/// channel has handed each of them over.
pub open spec fn round_so_far<DataType: Copy>(
    got: Seq<Message<DataType>>,
    arrived: Seq<Message<DataType>>,
    id: usize,
    gate: usize,
    n: usize,
) -> bool {
    forall|i: int|
        0 <= i < got.len() ==> expected(#[trigger] got[i], id, gate, n) && arrived.contains(got[i])
}

/// Whether `got` holds the messages of a whole broadcast: one of every other
/// party's, as far as each kept to its turn.
pub open spec fn round_ok<DataType: Copy>(
    got: Seq<Message<DataType>>,
    arrived: Seq<Message<DataType>>,
    id: usize,
    gate: usize,
    n: usize,
) -> bool {
    &&& got.len() + 1 == n
    &&& round_so_far(got, arrived, id, gate, n)
}

/// Messages that the channel has handed over stay handed over when more
/// arrive.
pub proof fn lemma_round_stays<DataType: Copy>(
    got: Seq<Message<DataType>>,
    arrived: Seq<Message<DataType>>,
    later: Seq<Message<DataType>>,
    id: usize,
    gate: usize,
    n: usize,
)
    requires
        round_so_far(got, arrived, id, gate, n),
        arrived.is_prefix_of(later),
    ensures
        round_so_far(got, later, id, gate, n),
{
    assert forall|i: int| 0 <= i < got.len() implies expected(#[trigger] got[i], id, gate, n)
        && later.contains(got[i]) by {
        assert(arrived.contains(got[i]));
        let at: int = choose|at: int| 0 <= at < arrived.len() && arrived[at] == got[i];
        assert(later[at] == arrived[at]);
    }
}

/// Whether a message of `got` comes from the party `j`.
pub open spec fn sent_by<DataType: Copy>(got: Seq<Message<DataType>>, j: int) -> bool {
    exists|i: int| 0 <= i < got.len() && (#[trigger] got[i]).sender() == j
}

/// A broadcast among parties that keep to the protocol gathers the shares of
/// all: when every message carries the share of its sender, and every party
/// but the one that gathers has sent a message, the shares gathered are the
/// shares of the parties, the party's own being the one it began with.
pub proof fn lemma_honest_round<DataType: Copy>(
    begun: Seq<DataType>,
    got: Seq<Message<DataType>>,
    all: Seq<DataType>,
    id: int,
)
    requires
        begun.len() == all.len(),
        0 <= id < all.len(),
        begun[id] == all[id],
        forall|i: int|
            0 <= i < got.len() ==> (#[trigger] got[i]).sender() < all.len() && got[i].payload()
                == all[got[i].sender() as int],
        forall|j: int| 0 <= j < all.len() && j != id ==> sent_by(got, j),
    ensures
        recorded(begun, got) == all,
{
    lemma_recorded(begun, got, all);
    assert(recorded(begun, got) =~= all);
}

/// The shares gathered from messages that carry the shares of their
/// senders: the share of every party that has sent a message, and at the
/// other places what the broadcast began with.
proof fn lemma_recorded<DataType: Copy>(
    begun: Seq<DataType>,
    got: Seq<Message<DataType>>,
    all: Seq<DataType>,
)
    requires
        begun.len() == all.len(),
        forall|i: int|
            0 <= i < got.len() ==> (#[trigger] got[i]).sender() < all.len() && got[i].payload()
                == all[got[i].sender() as int],
    ensures
        recorded(begun, got).len() == all.len(),
        forall|j: int|
            0 <= j < all.len() ==> #[trigger] recorded(begun, got)[j] == if sent_by(got, j) {
                all[j]
            } else {
                begun[j]
            },
    decreases got.len(),
{
    if got.len() > 0 {
        let front: Seq<Message<DataType>> = got.drop_last();
        let last: Message<DataType> = got.last();
        assert forall|i: int| 0 <= i < front.len() implies (#[trigger] front[i]).sender() < all.len()
            && front[i].payload() == all[front[i].sender() as int] by {
            assert(front[i] == got[i]);
        }
        lemma_recorded(begun, front, all);
        assert forall|j: int| 0 <= j < all.len() implies #[trigger] recorded(begun, got)[j] == if sent_by(
            got,
            j,
        ) {
            all[j]
        } else {
            begun[j]
        } by {
            if last.sender() == j {
                assert(got[got.len() - 1].sender() == j);
            } else {
                if sent_by(front, j) {
                    let i: int = choose|i: int| 0 <= i < front.len() && (#[trigger] front[i]).sender() == j;
                    assert(got[i].sender() == j);
                }
                if sent_by(got, j) {
                    let i: int = choose|i: int| 0 <= i < got.len() && (#[trigger] got[i]).sender() == j;
                    assert(front[i].sender() == j);
                }
            }
        }
    } else {
        assert forall|j: int| 0 <= j < all.len() implies !sent_by(got, j) by {}
    }
}

/// The same share for each of `n` parties.
pub open spec fn uniform<DataType>(n: nat, share: DataType) -> Seq<DataType> {
    Seq::new(n, |p: int| share)
}

/// What a broadcast goes on from: the broadcast in progress, if there is
/// one, and else a new one for gate `gate` that begins with the shares
/// `shares` and waits for a message from every other party.
pub open spec fn begun<DataType>(
    exchange: Option<ExchangeView<DataType>>,
    shares: Seq<DataType>,
    gate: usize,
) -> ExchangeView<DataType> {
    match exchange {
        Some(e) => e,
        None => ExchangeView {
            shares,
            missing: (shares.len() - 1) as nat,
            gate,
            begun: shares,
            got: Seq::empty(),
        },
    }
}

/// Whether the broadcast `from` has come to its end with the shares
/// `shares`: by the messages `got`, those taken before and those taken
/// since, a message for every other party's place.
pub open spec fn completed<DataType: Copy>(
    from: ExchangeView<DataType>,
    got: Seq<Message<DataType>>,
    shares: Seq<DataType>,
    arrived: Seq<Message<DataType>>,
    id: usize,
    n: usize,
) -> bool {
    &&& from.got.is_prefix_of(got)
    &&& round_ok(got, arrived, id, from.gate, n)
    &&& shares == recorded(from.begun, got)
}

/// Whether the broadcast `from` has gone on to `to`: by more messages taken
/// for the same gate.
pub open spec fn continued<DataType: Copy>(
    from: ExchangeView<DataType>,
    to: ExchangeView<DataType>,
) -> bool {
    &&& to.gate == from.gate
    &&& to.begun == from.begun
    &&& from.got.is_prefix_of(to.got)
}

/// Whether `share` is the share of a product that the broadcast `from` has
/// given with the messages `got`: what the parties reconstruct from the
/// shares gathered, less the mask `mask`.
pub open spec fn reduced_from<DataType: FieldElement>(
    from: ExchangeView<DataType>,
    got: Seq<Message<DataType>>,
    share: DataType,
    mask: int,
    arrived: Seq<Message<DataType>>,
    id: usize,
    n: usize,
    m: int,
) -> bool {
    &&& from.got.is_prefix_of(got)
    &&& round_ok(got, arrived, id, from.gate, n)
    &&& share.value() == sub_mod(
        interpolation(values(recorded(from.begun, got)), n as nat, m),
        mask,
        m,
    )
}

/// Whether `value` is what the parties reconstruct from the shares that the
/// broadcast `from` has gathered with the messages `got`.
pub open spec fn reconstructed_from<DataType: FieldElement>(
    from: ExchangeView<DataType>,
    got: Seq<Message<DataType>>,
    value: DataType,
    arrived: Seq<Message<DataType>>,
    id: usize,
    n: usize,
    m: int,
) -> bool {
    &&& from.got.is_prefix_of(got)
    &&& round_ok(got, arrived, id, from.gate, n)
    &&& value.value() == interpolation(values(recorded(from.begun, got)), n as nat, m)
}

/// Whether the records `after` are the records `before` with the shares
/// `shares` put on record under `key`, each with its party.
pub open spec fn kept_on_record<DataType>(
    before: Seq<Map<usize, DataType>>,
    after: Seq<Map<usize, DataType>>,
    key: usize,
    shares: Seq<DataType>,
) -> bool {
    &&& after.len() == before.len()
    &&& forall|p: int| 0 <= p < before.len() ==> #[trigger] after[p] == before[p].insert(key, shares[p])
}

/// Whether `value` is what the parties reconstruct from the shares that the
/// broadcast `from` has gathered with the messages `got`, and the shares are
/// on record under what the broadcast is for.
pub open spec fn output_made<DataType: FieldElement>(
    from: ExchangeView<DataType>,
    got: Seq<Message<DataType>>,
    value: DataType,
    arrived: Seq<Message<DataType>>,
    id: usize,
    n: usize,
    m: int,
    before: Seq<Map<usize, DataType>>,
    after: Seq<Map<usize, DataType>>,
) -> bool {
    &&& reconstructed_from(from, got, value, arrived, id, n, m)
    &&& kept_on_record(before, after, from.gate, recorded(from.begun, got))
}

/// Whether the messages of `block` stand in `sent` one behind the other.
pub open spec fn holds_block<DataType>(
    sent: Seq<Message<DataType>>,
    block: Seq<Message<DataType>>,
) -> bool {
    exists|at: int|
        0 <= at && at + block.len() <= sent.len() && #[trigger] sent.subrange(
            at,
            at + block.len(),
        ) == block
}

/// What has just been sent stands in what was sent.
pub proof fn lemma_block_at_end<DataType>(
    before: Seq<Message<DataType>>,
    block: Seq<Message<DataType>>,
)
    ensures
        holds_block(before + block, block),
{
    let sent: Seq<Message<DataType>> = before + block;
    assert(sent.subrange(before.len() as int, (before.len() + block.len()) as int) =~= block);
}

/// What stands in what was sent stays there when more is sent.
pub proof fn lemma_block_stays<DataType>(
    sent: Seq<Message<DataType>>,
    later: Seq<Message<DataType>>,
    block: Seq<Message<DataType>>,
)
    requires
        holds_block(sent, block),
        sent.is_prefix_of(later),
    ensures
        holds_block(later, block),
{
    let at: int = choose|at: int|
        0 <= at && at + block.len() <= sent.len() && #[trigger] sent.subrange(
            at,
            at + block.len(),
        ) == block;
    assert(later.subrange(at, at + block.len()) =~= sent.subrange(at, at + block.len()));
}

/// Every input gate of `order` names a party, and those of the party `id`
/// name one of its `slots` inputs.
pub open spec fn inputs_supplied<DataType: Copy>(
    gates: Seq<Gate<DataType>>,
    order: Seq<usize>,
    id: usize,
    n: usize,
    slots: nat,
) -> bool {
    forall|p: int|
        0 <= p < order.len() ==> (gates[#[trigger] order[p] as int] matches Gate::Input {
            party,
            circuit_id,
            ..
        } ==> party < n && (party == id ==> circuit_id < slots))
}

/// Whether a party can be made of these parts: the field and the circuit are
/// well formed, the party is one of the circuit's parties, every party has a
/// sending channel and an evaluation point among the elements, polynomials of
/// twice the threshold can be built, and the circuit's inputs are supplied.
pub open spec fn acceptable<DataType: FieldElement>(
    id: usize,
    secret: Seq<DataType>,
    channels: nat,
    field: Field<DataType>,
    circuit: Circuit<DataType>,
    threshold: usize,
) -> bool {
    &&& field.wf()
    &&& circuit.wf()
    &&& id < circuit.parties()
    &&& channels >= circuit.parties()
    &&& circuit.parties() <= DataType::max_value()
    &&& 2 * threshold < usize::MAX
    &&& inputs_supplied(
        circuit.arena(),
        circuit.traversal(),
        id,
        circuit.parties() as usize,
        secret.len(),
    )
}

/// Whether `gate` has the output that its kind asks for, as far as the
/// party computes it alone: a sum is the sum of its operands' outputs, a
/// product with a constant the product of its operand's output and the
/// constant, both in the field. Every gate has an output.
pub open spec fn locally_evaluated<DataType: FieldElement>(
    gates: Seq<Gate<DataType>>,
    gate: Gate<DataType>,
    m: int,
) -> bool {
    match gate {
        Gate::Add { first, second, output } => {
            &&& output is Some
            &&& gates[first as int].output() is Some
            &&& gates[second as int].output() is Some
            &&& output->0.value() == add_mod(
                gates[first as int].output()->0.value(),
                gates[second as int].output()->0.value(),
                m,
            )
        },
        Gate::MulByConst { first, second, output } => {
            &&& output is Some
            &&& gates[first as int].output() is Some
            &&& output->0.value() == mul_mod(gates[first as int].output()->0.value(), second.value(), m)
        },
        Gate::Mul { output, .. } => output is Some,
        Gate::Input { output, .. } => output is Some,
    }
}

impl<DataType: FieldElement> PartyView<DataType> {
    /// The number of parties.
    pub open spec fn n(&self) -> usize {
        self.circuit.parties() as usize
    }

    /// The gates of the circuit.
    pub open spec fn gates(&self) -> Seq<Gate<DataType>> {
        self.circuit.arena()
    }

    /// Whether `value` is a normalized element of the field.
    pub open spec fn in_field(&self, value: DataType) -> bool {
        0 <= value.value() < self.modulus
    }

    /// What sending and receiving rest on: the field has a modulus, the party
    /// is one of the parties, and every party has a channel, a record and an
    /// evaluation point; a broadcast in progress has a place for every party,
    /// and its shares are those it began with and those of the messages taken
    /// for it; the channel has handed over every message that is kept back.
    pub open spec fn connected(&self) -> bool {
        &&& self.modulus >= 2
        &&& self.id < self.n()
        &&& self.channels >= self.n()
        &&& self.shares.len() == self.n()
        &&& self.n() <= DataType::max_value()
        &&& 2 * self.threshold < usize::MAX
        &&& (self.exchange matches Some(e) ==> {
            &&& e.shares.len() == self.n()
            &&& e.missing < self.n()
            &&& e.begun.len() == self.n()
            &&& e.shares == recorded(e.begun, e.got)
            &&& e.got.len() + e.missing + 1 == self.n()
            &&& round_so_far(e.got, self.arrived, self.id, e.gate, self.n())
        })
        &&& self.kept_arrived()
        &&& self.conserved()
        &&& self.on_record()
    }

    /// What the party has sent and what has arrived is what has passed
    /// through its channels, and every message that it has sent has gone to
    /// the channel of its recipient.
    pub open spec fn on_record(&self) -> bool {
        &&& self.sent == messages_sent(self.events)
        &&& self.arrived == messages_got(self.events)
        &&& on_their_lines(self.events)
    }

    /// No message is lost and none is made up: the messages that the channel
    /// has handed over are those that are kept back and those that the party
    /// has taken, each as often as it came.
    pub open spec fn conserved(&self) -> bool {
        self.arrived.to_multiset() == self.buffer.to_multiset().add(self.taken.to_multiset())
    }

    /// The channel has handed over every message that is kept back.
    pub open spec fn kept_arrived(&self) -> bool {
        forall|j: int| 0 <= j < self.buffer.len() ==> self.arrived.contains(#[trigger] self.buffer[j])
    }

    /// The messages by which the party hands every other party its share of
    /// the polynomial with the coefficients `coeffs`, for gate `gate`.
    pub open spec fn sharing(&self, coeffs: Seq<int>, gate: usize) -> Seq<Message<DataType>> {
        outgoing(
            self.id,
            elements::<DataType>(shares_of(coeffs, self.n() as nat, self.modulus)),
            gate,
            self.n() as nat,
        )
    }

    /// The messages by which the party hands every other party the share
    /// that stands for `share`, for gate `gate`.
    pub open spec fn handing(&self, share: int, gate: usize) -> Seq<Message<DataType>> {
        outgoing(
            self.id,
            uniform(self.n() as nat, element::<DataType>(share)),
            gate,
            self.n() as nat,
        )
    }

    /// The shares that a broadcast of the share that stands for `value`
    /// begins with: the share, at every place.
    pub open spec fn own(&self, value: int) -> Seq<DataType> {
        uniform(self.n() as nat, element::<DataType>(value))
    }

    /// The shares of the polynomial `coeffs` for the parties.
    pub open spec fn dealt(&self, coeffs: Seq<int>) -> Seq<DataType> {
        elements::<DataType>(shares_of(coeffs, self.n() as nat, self.modulus))
    }

    /// What the parties reconstruct from the shares `begun` after the shares
    /// of the messages `got` have been put at the places of their senders.
    pub open spec fn reconstruction(
        &self,
        begun: Seq<DataType>,
        got: Seq<Message<DataType>>,
    ) -> int {
        interpolation(values(recorded(begun, got)), self.n() as nat, self.modulus)
    }

    /// Whether `got` holds the messages of a whole broadcast for gate `gate`.
    pub open spec fn round(&self, got: Seq<Message<DataType>>, gate: usize) -> bool {
        round_ok(got, self.arrived, self.id, gate, self.n())
    }

    /// The output of the root `k`, as a number.
    pub open spec fn root_output(&self, k: int) -> int {
        self.gates()[self.circuit.roots()[k] as int].output()->0.value()
    }

    /// The party has shared its input `slot` for the input gate `gate`: with
    /// a polynomial of the degree of the threshold whose constant term is the
    /// input, every other party was sent its share, and the output of the
    /// gate is the party's own.
    pub open spec fn input_shared(&self, gate: usize, slot: usize) -> bool {
        exists|coeffs: Seq<int>| #[trigger] self.input_shared_with(gate, slot, coeffs)
    }

    /// The party has shared its input `slot` for the input gate `gate` with
    /// the polynomial `coeffs`.
    pub open spec fn input_shared_with(&self, gate: usize, slot: usize, coeffs: Seq<int>) -> bool {
        &&& self.gates()[gate as int].output() matches Some(share) && self.input_sent(
            gate,
            slot,
            coeffs,
            share,
        )
    }

    /// The party has shared its input `slot` for the input gate `gate` with
    /// the polynomial `coeffs`, and `share` is its own share.
    pub open spec fn input_sent(
        &self,
        gate: usize,
        slot: usize,
        coeffs: Seq<int>,
        share: DataType,
    ) -> bool {
        &&& coeffs.len() == self.threshold + 1
        &&& coeffs[0] == self.secret[slot as int].value()
        &&& share.value() == horner(coeffs, self.id + 1) % self.modulus
        &&& holds_block(self.sent, self.sharing(coeffs, gate))
    }

    /// The output of the input gate `gate` of another party is the share
    /// that a message carried which the party waited for, for that gate.
    pub open spec fn input_taken(&self, gate: usize) -> bool {
        exists|msg: Message<DataType>| #[trigger] self.input_taken_with(gate, msg)
    }

    /// The output of the input gate `gate` is the share that `msg` carried.
    pub open spec fn input_taken_with(&self, gate: usize, msg: Message<DataType>) -> bool {
        &&& self.gates()[gate as int].output() == Some(msg.payload())
        &&& self.input_came(gate, msg)
    }

    /// The party waited for `msg` for the input gate `gate`, and the channel
    /// handed it over.
    pub open spec fn input_came(&self, gate: usize, msg: Message<DataType>) -> bool {
        &&& awaited(msg, self.id, gate)
        &&& self.arrived.contains(msg)
    }

    /// The share that the party hands out at the multiplication gate `gate`
    /// with the operands `first` and `second`: the product of their outputs,
    /// masked with the mask of degree `2t`.
    pub open spec fn masked_value(&self, gate: usize, first: usize, second: usize) -> int {
        add_mod(
            mul_mod(
                self.gates()[first as int].output()->0.value(),
                self.gates()[second as int].output()->0.value(),
                self.modulus,
            ),
            self.masks[gate].1.value(),
            self.modulus,
        )
    }

    /// The party has sent every other party its masked share for the
    /// multiplication gate `gate`.
    pub open spec fn product_handed(&self, gate: usize, first: usize, second: usize) -> bool {
        holds_block(self.sent, self.handing(self.masked_value(gate, first, second), gate))
    }

    /// The output of the multiplication gate `gate` is the share of the
    /// product: what the parties reconstruct from the masked shares, the
    /// party's own and those that whole broadcast of messages carried, less
    /// the mask of degree `t`.
    pub open spec fn product_reduced(&self, gate: usize, first: usize, second: usize) -> bool {
        exists|got: Seq<Message<DataType>>| #[trigger] self.product_from(gate, first, second, got)
    }

    /// The output of the multiplication gate `gate` is the share of the
    /// product that the messages `got` give.
    pub open spec fn product_from(
        &self,
        gate: usize,
        first: usize,
        second: usize,
        got: Seq<Message<DataType>>,
    ) -> bool {
        &&& self.gates()[gate as int].output() matches Some(share) && self.reduction(
            gate,
            first,
            second,
            got,
            share,
        )
    }

    /// `share` is the share of the product at the multiplication gate `gate`
    /// that the messages `got` give.
    pub open spec fn reduction(
        &self,
        gate: usize,
        first: usize,
        second: usize,
        got: Seq<Message<DataType>>,
        share: DataType,
    ) -> bool {
        &&& self.round(got, gate)
        &&& share.value() == sub_mod(
            self.reconstruction(self.own(self.masked_value(gate, first, second)), got),
            self.masks[gate].0.value(),
            self.modulus,
        )
    }

    /// The party has sent every other party its share of the output `k`.
    pub open spec fn output_handed(&self, k: int) -> bool {
        holds_block(self.sent, self.handing(self.root_output(k), self.order.len() as usize))
    }

    /// The output `k` is what the parties reconstruct from the shares of the
    /// root, the party's own and those that a whole broadcast of messages
    /// carried.
    pub open spec fn output_reconstructed(&self, k: int) -> bool {
        exists|got: Seq<Message<DataType>>| #[trigger] self.output_from(k, got)
    }

    /// The output `k` is what the messages `got` give.
    pub open spec fn output_from(&self, k: int, got: Seq<Message<DataType>>) -> bool {
        self.output_given(k, got, self.results[k])
    }

    /// `value` is the output `k` that the messages `got` give.
    pub open spec fn output_given(
        &self,
        k: int,
        got: Seq<Message<DataType>>,
        value: DataType,
    ) -> bool {
        &&& self.round(got, self.order.len() as usize)
        &&& value.value() == self.reconstruction(self.own(self.root_output(k)), got)
    }

    /// The party has shared a number of the field for the setup of the
    /// multiplication gate `gate`, with the polynomial `low` of the degree of
    /// the threshold.
    pub open spec fn low_shared(&self, gate: usize, low: Seq<int>) -> bool {
        &&& low.len() == self.threshold + 1
        &&& 0 <= low[0] < self.modulus
        &&& holds_block(self.sent, self.sharing(low, gate))
    }

    /// The party has shared a number for the setup of the multiplication
    /// gate `gate` twice, with `low`, a polynomial of the degree of the
    /// threshold, and with `high`, one of twice the degree, both with the
    /// number as their constant term.
    pub open spec fn pair_shared(&self, gate: usize, low: Seq<int>, high: Seq<int>) -> bool {
        &&& self.low_shared(gate, low)
        &&& high.len() == 2 * self.threshold + 1
        &&& high[0] == low[0]
        &&& holds_block(self.sent, self.sharing(high, gate))
    }

    /// `mask` is what the parties reconstruct from the shares of the
    /// polynomial `coeffs`, the party's own and those that the whole
    /// broadcast `got` carried, for gate `gate`.
    pub open spec fn mask_made(
        &self,
        gate: usize,
        coeffs: Seq<int>,
        got: Seq<Message<DataType>>,
        mask: DataType,
    ) -> bool {
        &&& self.round(got, gate)
        &&& mask.value() == self.reconstruction(self.dealt(coeffs), got)
    }

    /// The multiplication gate `gate` is set up: the party has shared a
    /// number twice, with a polynomial of the degree of the threshold and
    /// with one of twice the degree, and each of its two masks is what the
    /// parties reconstruct from the shares of one of the sharings.
    pub open spec fn set_up(&self, gate: usize) -> bool {
        exists|low: Seq<int>, high: Seq<int>, got_low: Seq<Message<DataType>>, got_high: Seq<
            Message<DataType>,
        >| #[trigger] self.set_up_with(gate, low, high, got_low, got_high)
    }

    /// The multiplication gate `gate` is set up with the polynomials `low`
    /// and `high` and the messages `got_low` and `got_high`.
    pub open spec fn set_up_with(
        &self,
        gate: usize,
        low: Seq<int>,
        high: Seq<int>,
        got_low: Seq<Message<DataType>>,
        got_high: Seq<Message<DataType>>,
    ) -> bool {
        &&& self.pair_shared(gate, low, high)
        &&& self.mask_made(gate, low, got_low, self.masks[gate].0)
        &&& self.mask_made(gate, high, got_high, self.masks[gate].1)
    }

    /// The first sharing for the setup of the multiplication gate `gate` is
    /// in progress, with the polynomial `low`, and `high` waits for its turn.
    pub open spec fn low_pending(&self, gate: usize, low: Seq<int>, high: Seq<int>) -> bool {
        &&& self.low_shared(gate, low)
        &&& high.len() == 2 * self.threshold + 1
        &&& high[0] == low[0]
        &&& self.exchange matches Some(e) && e.gate == gate && e.begun == self.dealt(low)
    }

    /// The second sharing for the setup of the multiplication gate `gate` is
    /// in progress, with the polynomial `high`; the first, with `low`, has
    /// given the mask `mask` with the messages `got_low`.
    pub open spec fn high_pending(
        &self,
        gate: usize,
        low: Seq<int>,
        high: Seq<int>,
        got_low: Seq<Message<DataType>>,
        mask: DataType,
    ) -> bool {
        &&& self.pair_shared(gate, low, high)
        &&& self.mask_made(gate, low, got_low, mask)
        &&& self.exchange matches Some(e) && e.gate == gate && e.begun == self.dealt(high)
    }

    /// What the party has sent and taken accounts for `output` as the output
    /// of what is evaluated next.
    pub open spec fn newly_accounted(&self, output: DataType) -> bool {
        match self.gates()[self.order[self.evaluated as int] as int] {
            Gate::Input { party, circuit_id, .. } => if party == self.id {
                exists|coeffs: Seq<int>| #[trigger]
                    self.input_sent(self.order[self.evaluated as int], circuit_id, coeffs, output)
            } else {
                exists|msg: Message<DataType>|
                    msg.payload() == output && #[trigger] self.input_came(
                        self.order[self.evaluated as int],
                        msg,
                    )
            },
            Gate::Mul { first, second, .. } => {
                &&& self.product_handed(self.order[self.evaluated as int], first, second)
                &&& exists|got: Seq<Message<DataType>>| #[trigger]
                    self.reduction(self.order[self.evaluated as int], first, second, got, output)
            },
            _ => true,
        }
    }

    /// What the party has sent and taken accounts for the gates it has dealt
    /// with: every gate set up has its two sharings and its masks from them;
    /// every input gate that has its output has the sharing of the party's
    /// input, or the share that another party sent; every multiplication
    /// gate that has its output has the masked share sent and the share of
    /// the product from the masked shares of the others; every output
    /// reconstructed has the share of the root sent and comes from the shares
    /// of the others.
    pub open spec fn accounted(&self) -> bool {
        &&& forall|p: int|
            0 <= p < self.prepared && self.gates()[#[trigger] self.order[p] as int] is Mul
                ==> self.set_up(self.order[p])
        &&& forall|p: int|
            0 <= p < self.evaluated ==> (self.gates()[#[trigger] self.order[p] as int] matches Gate::Input {
                party,
                circuit_id,
                ..
            } ==> if party == self.id {
                self.input_shared(self.order[p], circuit_id)
            } else {
                self.input_taken(self.order[p])
            })
        &&& forall|p: int|
            0 <= p < self.evaluated ==> (self.gates()[#[trigger] self.order[p] as int] matches Gate::Mul {
                first,
                second,
                ..
            } ==> self.product_handed(self.order[p], first, second) && self.product_reduced(
                self.order[p],
                first,
                second,
            ))
        &&& forall|k: int|
            0 <= k < self.results.len() ==> #[trigger] self.output_handed(k) && self.output_reconstructed(
                k,
            )
    }

    /// What the party has sent and taken accounts for the broadcast in
    /// progress.
    pub open spec fn in_progress_accounted(&self) -> bool {
        &&& (self.masking matches MaskingView::Low { high } ==> exists|low: Seq<int>| #[trigger]
            self.low_pending(self.order[self.prepared as int], low, high))
        &&& (self.masking matches MaskingView::High { low: mask } ==> exists|
            low: Seq<int>,
            high: Seq<int>,
            got_low: Seq<Message<DataType>>,
        | #[trigger] self.high_pending(self.order[self.prepared as int], low, high, got_low, mask))
        &&& (self.exchange is Some && self.masking is Idle && self.evaluated < self.order.len() ==> (
        self.gates()[self.order[self.evaluated as int] as int] matches Gate::Mul { first, second, .. }
            ==> self.product_pending(self.order[self.evaluated as int], first, second)))
        &&& (self.exchange is Some && self.masking is Idle && self.evaluated == self.order.len()
            ==> self.output_pending(self.results.len() as int))
    }

    /// The broadcast of the masked share for the multiplication gate `gate`
    /// is in progress.
    pub open spec fn product_pending(&self, gate: usize, first: usize, second: usize) -> bool {
        &&& self.product_handed(gate, first, second)
        &&& self.exchange matches Some(e) && e.gate == gate && e.begun == self.own(
            self.masked_value(gate, first, second),
        )
    }

    /// The broadcast of the share of the output `k` is in progress.
    pub open spec fn output_pending(&self, k: int) -> bool {
        &&& self.output_handed(k)
        &&& self.exchange matches Some(e) && e.gate == self.order.len() && e.begun == self.own(
            self.root_output(k),
        )
    }

    /// The parts of the party fit each other, and its progress fits its
    /// records and what it has sent and taken.
    pub open spec fn wf(&self) -> bool {
        &&& self.fitted()
        &&& self.accounted()
        &&& self.in_progress_accounted()
    }

    /// The parts of the party fit each other, and its progress fits its
    /// records.
    pub open spec fn fitted(&self) -> bool {
        &&& self.connected()
        &&& self.circuit.wf()
        &&& self.order == self.circuit.traversal()
        &&& inputs_supplied(self.gates(), self.order, self.id, self.n(), self.secret.len())
        &&& self.prepared <= self.order.len()
        &&& self.evaluated <= self.order.len()
        &&& self.results.len() <= self.circuit.roots().len()
        &&& (self.results.len() > 0 ==> self.evaluated == self.order.len())
        &&& forall|p: int|
            0 <= p < self.evaluated ==> locally_evaluated(
                self.gates(),
                self.gates()[#[trigger] self.order[p] as int],
                self.modulus,
            )
        &&& forall|p: int|
            0 <= p < self.prepared && self.gates()[#[trigger] self.order[p] as int] is Mul
                ==> self.masks.contains_key(self.order[p])
        &&& forall|gate: usize| #[trigger]
            self.masks.contains_key(gate) ==> self.in_field(self.masks[gate].0) && self.in_field(
                self.masks[gate].1,
            )
        &&& forall|k: int| 0 <= k < self.results.len() ==> self.in_field(#[trigger] self.results[k])
        &&& (self.masking !is Idle ==> {
            &&& self.exchange is Some
            &&& self.prepared < self.order.len()
            &&& self.gates()[self.order[self.prepared as int] as int] is Mul
        })
        &&& (self.masking matches MaskingView::High { low } ==> self.in_field(low))
        &&& (self.exchange is Some && self.masking is Idle ==> {
            ||| self.evaluated < self.order.len() && self.gates()[self.order[self.evaluated as int] as int] is Mul
            ||| self.evaluated == self.order.len() && self.results.len()
                < self.circuit.roots().len()
        })
    }

    /// The messages taken for the broadcast in progress, oldest first.
    pub open spec fn got_so_far(&self) -> Seq<Message<DataType>> {
        match self.exchange {
            Some(e) => e.got,
            None => Seq::empty(),
        }
    }

    /// What the messages are for that the party waits for: the broadcast in
    /// progress, or else what is evaluated next.
    pub open spec fn waits_for(&self) -> usize {
        match self.exchange {
            Some(e) => e.gate,
            None => self.order[self.evaluated as int],
        }
    }

    /// Whether the evaluation has come to a step that takes a message: a
    /// broadcast is in progress, or what is evaluated next is the input of
    /// another party.
    pub open spec fn awaits_message(&self) -> bool {
        self.exchange is Some || (self.evaluated < self.order.len() && (
        self.gates()[self.order[self.evaluated as int] as int] matches Gate::Input { party, .. }
            && party != self.id))
    }

    /// Every multiplication gate has its masks and no setup is in progress:
    /// the circuit can be evaluated.
    pub open spec fn ready(&self) -> bool {
        &&& self.masking is Idle
        &&& forall|p: int|
            0 <= p < self.order.len() && self.gates()[#[trigger] self.order[p] as int] is Mul
                ==> self.masks.contains_key(self.order[p])
    }

    /// No gate of the evaluation order is a multiplication gate.
    pub open spec fn mul_free(&self) -> bool {
        forall|p: int|
            0 <= p < self.order.len() ==> !(self.gates()[#[trigger] self.order[p] as int] is Mul)
    }

    /// The evaluation has not begun.
    pub open spec fn fresh(&self) -> bool {
        &&& self.evaluated == 0
        &&& self.results.len() == 0
        &&& (self.exchange is Some ==> self.masking !is Idle)
    }

    /// Every output is reconstructed.
    pub open spec fn finished(&self) -> bool {
        &&& self.evaluated == self.order.len()
        &&& self.results.len() == self.circuit.roots().len()
    }

    /// The party works on the same task as `other`: the same inputs, channels
    /// and field, and the same circuit but for the outputs of its gates.
    pub open spec fn same_task(&self, other: Self) -> bool {
        &&& self.id == other.id
        &&& self.secret == other.secret
        &&& self.channels == other.channels
        &&& self.modulus == other.modulus
        &&& self.threshold == other.threshold
        &&& self.order == other.order
        &&& self.circuit.roots() == other.circuit.roots()
        &&& self.circuit.parties() == other.circuit.parties()
        &&& same_shape(self.gates(), other.gates())
    }
}

/// Whether `after` is the party of `before` some messages later: what it
/// works on and how far it has come are the same, and what it had sent and
/// taken is what it sent and took first.
pub open spec fn later<DataType: FieldElement>(
    before: PartyView<DataType>,
    after: PartyView<DataType>,
) -> bool {
    &&& after == (PartyView {
        sent: after.sent,
        buffer: after.buffer,
        arrived: after.arrived,
        events: after.events,
        taken: after.taken,
        shares: after.shares,
        exchange: after.exchange,
        masking: after.masking,
        ..before
    })
    &&& after.shares.len() == before.shares.len()
    &&& before.sent.is_prefix_of(after.sent)
    &&& before.arrived.is_prefix_of(after.arrived)
    &&& before.taken.is_prefix_of(after.taken)
    &&& before.events.is_prefix_of(after.events)
}

/// Whether `after` has the parties, the field, the inputs and the order of
/// evaluation of `before`, and has sent and taken what `before` had, and
/// maybe more.
pub open spec fn same_parts<DataType: FieldElement>(
    before: PartyView<DataType>,
    after: PartyView<DataType>,
) -> bool {
    &&& after.id == before.id
    &&& after.circuit.parties() == before.circuit.parties()
    &&& after.circuit.roots() == before.circuit.roots()
    &&& after.modulus == before.modulus
    &&& after.threshold == before.threshold
    &&& after.secret == before.secret
    &&& after.order == before.order
    &&& before.sent.is_prefix_of(after.sent)
    &&& before.arrived.is_prefix_of(after.arrived)
}

/// The two sharings for the setup of a gate stay sent.
pub proof fn lemma_pair_shared_stays<DataType: FieldElement>(
    before: PartyView<DataType>,
    after: PartyView<DataType>,
    gate: usize,
    low: Seq<int>,
    high: Seq<int>,
)
    requires
        before.pair_shared(gate, low, high),
        same_parts(before, after),
    ensures
        after.pair_shared(gate, low, high),
{
    lemma_block_stays(before.sent, after.sent, before.sharing(low, gate));
    lemma_block_stays(before.sent, after.sent, before.sharing(high, gate));
}

/// A mask stays what the parties reconstructed.
pub proof fn lemma_mask_made_stays<DataType: FieldElement>(
    before: PartyView<DataType>,
    after: PartyView<DataType>,
    gate: usize,
    coeffs: Seq<int>,
    got: Seq<Message<DataType>>,
    mask: DataType,
)
    requires
        before.mask_made(gate, coeffs, got, mask),
        same_parts(before, after),
    ensures
        after.mask_made(gate, coeffs, got, mask),
{
    lemma_round_stays(got, before.arrived, after.arrived, before.id, gate, before.n());
}

/// A gate stays set up.
pub proof fn lemma_set_up_stays<DataType: FieldElement>(
    before: PartyView<DataType>,
    after: PartyView<DataType>,
    gate: usize,
)
    requires
        before.set_up(gate),
        same_parts(before, after),
        after.masks[gate] == before.masks[gate],
    ensures
        after.set_up(gate),
{
    let (low, high, got_low, got_high) = choose|
        low: Seq<int>,
        high: Seq<int>,
        got_low: Seq<Message<DataType>>,
        got_high: Seq<Message<DataType>>,
    | #[trigger] before.set_up_with(gate, low, high, got_low, got_high);
    lemma_pair_shared_stays(before, after, gate, low, high);
    lemma_mask_made_stays(before, after, gate, low, got_low, before.masks[gate].0);
    lemma_mask_made_stays(before, after, gate, high, got_high, before.masks[gate].1);
    assert(after.set_up_with(gate, low, high, got_low, got_high));
}

/// The sharing of an input stays sent.
pub proof fn lemma_input_shared_stays<DataType: FieldElement>(
    before: PartyView<DataType>,
    after: PartyView<DataType>,
    gate: usize,
    slot: usize,
)
    requires
        before.input_shared(gate, slot),
        same_parts(before, after),
        after.gates()[gate as int].output() == before.gates()[gate as int].output(),
    ensures
        after.input_shared(gate, slot),
{
    let coeffs: Seq<int> = choose|coeffs: Seq<int>| #[trigger]
        before.input_shared_with(gate, slot, coeffs);
    lemma_block_stays(before.sent, after.sent, before.sharing(coeffs, gate));
    assert(after.input_shared_with(gate, slot, coeffs));
}

/// The share of another party's input stays the one taken.
pub proof fn lemma_input_taken_stays<DataType: FieldElement>(
    before: PartyView<DataType>,
    after: PartyView<DataType>,
    gate: usize,
)
    requires
        before.input_taken(gate),
        same_parts(before, after),
        after.gates()[gate as int].output() == before.gates()[gate as int].output(),
    ensures
        after.input_taken(gate),
{
    let msg: Message<DataType> = choose|msg: Message<DataType>| #[trigger]
        before.input_taken_with(gate, msg);
    let at: int = choose|at: int| 0 <= at < before.arrived.len() && before.arrived[at] == msg;
    assert(after.arrived[at] == before.arrived[at]);
    assert(after.input_taken_with(gate, msg));
}

/// The masked share of a product stays sent, and the share of the product
/// stays what the parties reconstructed.
pub proof fn lemma_product_stays<DataType: FieldElement>(
    before: PartyView<DataType>,
    after: PartyView<DataType>,
    gate: usize,
    first: usize,
    second: usize,
)
    requires
        before.product_handed(gate, first, second),
        before.product_reduced(gate, first, second),
        same_parts(before, after),
        after.masks[gate] == before.masks[gate],
        after.gates()[gate as int].output() == before.gates()[gate as int].output(),
        after.gates()[first as int].output() == before.gates()[first as int].output(),
        after.gates()[second as int].output() == before.gates()[second as int].output(),
    ensures
        after.product_handed(gate, first, second),
        after.product_reduced(gate, first, second),
{
    lemma_block_stays(
        before.sent,
        after.sent,
        before.handing(before.masked_value(gate, first, second), gate),
    );
    let got: Seq<Message<DataType>> = choose|got: Seq<Message<DataType>>| #[trigger]
        before.product_from(gate, first, second, got);
    lemma_round_stays(got, before.arrived, after.arrived, before.id, gate, before.n());
    assert(after.product_from(gate, first, second, got));
}

/// The share of an output stays sent, and the output stays what the
/// parties reconstructed.
pub proof fn lemma_output_stays<DataType: FieldElement>(
    before: PartyView<DataType>,
    after: PartyView<DataType>,
    k: int,
)
    requires
        before.output_handed(k),
        before.output_reconstructed(k),
        same_parts(before, after),
        after.root_output(k) == before.root_output(k),
        after.results[k] == before.results[k],
    ensures
        after.output_handed(k),
        after.output_reconstructed(k),
{
    lemma_block_stays(
        before.sent,
        after.sent,
        before.handing(before.root_output(k), before.order.len() as usize),
    );
    let got: Seq<Message<DataType>> = choose|got: Seq<Message<DataType>>| #[trigger]
        before.output_from(k, got);
    lemma_round_stays(
        got,
        before.arrived,
        after.arrived,
        before.id,
        before.order.len() as usize,
        before.n(),
    );
    assert(after.output_from(k, got));
}

/// What the party has sent and taken keeps accounting for the gates it has
/// dealt with when it sends and takes more.
#[verifier::spinoff_prover]
#[verifier::rlimit(50)]
pub proof fn lemma_accounted_stays<DataType: FieldElement>(
    before: PartyView<DataType>,
    after: PartyView<DataType>,
)
    requires
        before.accounted(),
        later(before, after),
    ensures
        after.accounted(),
{
    assert forall|p: int|
        0 <= p < after.prepared && after.gates()[#[trigger] after.order[p] as int] is Mul implies after.set_up(
        after.order[p],
    ) by {
        lemma_set_up_stays(before, after, before.order[p]);
    }
    assert forall|p: int| 0 <= p < after.evaluated implies (after.gates()[#[trigger] after.order[p] as int] matches Gate::Input {
        party,
        circuit_id,
        ..
    } ==> if party == after.id {
        after.input_shared(after.order[p], circuit_id)
    } else {
        after.input_taken(after.order[p])
    }) by {
        match before.gates()[before.order[p] as int] {
            Gate::Input { party, circuit_id, .. } => {
                if party == before.id {
                    lemma_input_shared_stays(before, after, before.order[p], circuit_id);
                } else {
                    lemma_input_taken_stays(before, after, before.order[p]);
                }
            },
            _ => {},
        }
    }
    assert forall|p: int| 0 <= p < after.evaluated implies (after.gates()[#[trigger] after.order[p] as int] matches Gate::Mul {
        first,
        second,
        ..
    } ==> after.product_handed(after.order[p], first, second) && after.product_reduced(
        after.order[p],
        first,
        second,
    )) by {
        match before.gates()[before.order[p] as int] {
            Gate::Mul { first, second, .. } => {
                lemma_product_stays(before, after, before.order[p], first, second);
            },
            _ => {},
        }
    }
    assert forall|k: int| 0 <= k < after.results.len() implies #[trigger] after.output_handed(k)
        && after.output_reconstructed(k) by {
        assert(before.output_handed(k));
        lemma_output_stays(before, after, k);
    }
}

/// A party that has sent or taken some messages, with the broadcast in
/// progress accounted for, is well formed as it was.
#[verifier::spinoff_prover]
#[verifier::rlimit(50)]
pub proof fn lemma_paused<DataType: FieldElement>(
    before: PartyView<DataType>,
    after: PartyView<DataType>,
)
    requires
        before.wf(),
        later(before, after),
        after.connected(),
        after.masking !is Idle ==> {
            &&& after.exchange is Some
            &&& before.prepared < before.order.len()
            &&& before.gates()[before.order[before.prepared as int] as int] is Mul
        },
        after.masking matches MaskingView::High { low } ==> before.in_field(low),
        after.masking is Idle ==> before.masking is Idle,
        after.exchange is Some && after.masking is Idle ==> before.exchange is Some || {
            ||| before.evaluated < before.order.len() && before.gates()[before.order[before.evaluated as int] as int] is Mul
            ||| before.evaluated == before.order.len() && before.results.len()
                < before.circuit.roots().len()
        },
        after.in_progress_accounted(),
    ensures
        after.wf(),
        after.same_task(before),
{
    lemma_accounted_stays(before, after);
    assert forall|gate: usize| #[trigger] after.masks.contains_key(gate) implies after.in_field(
        after.masks[gate].0,
    ) && after.in_field(after.masks[gate].1) by {
        assert(before.masks.contains_key(gate));
    }
    assert(after.fitted());
}

/// A setup that has dealt with one more gate leaves the party well formed.
#[verifier::spinoff_prover]
#[verifier::rlimit(50)]
pub proof fn lemma_setup_advanced<DataType: FieldElement>(
    before: PartyView<DataType>,
    after: PartyView<DataType>,
    low: DataType,
    high: DataType,
)
    requires
        before.wf(),
        before.fresh(),
        before.prepared < before.order.len(),
        after == (PartyView {
            exchange: None,
            buffer: after.buffer,
            arrived: after.arrived,
            events: after.events,
            taken: after.taken,
            masking: MaskingView::Idle,
            masks: after.masks,
            prepared: before.prepared + 1,
            sent: after.sent,
            ..before
        }),
        before.sent.is_prefix_of(after.sent),
        before.arrived.is_prefix_of(after.arrived),
        after.kept_arrived(),
        after.conserved(),
        after.on_record(),
        before.gates()[before.order[before.prepared as int] as int] is Mul ==> before.in_field(low)
            && before.in_field(high) && after.masks == before.masks.insert(
            before.order[before.prepared as int],
            (low, high),
        ) && after.set_up(before.order[before.prepared as int]),
        !(before.gates()[before.order[before.prepared as int] as int] is Mul) ==> after.masks
            == before.masks && before.masking is Idle && after.sent == before.sent,
    ensures
        after.wf(),
        after.fresh(),
        after.same_task(before),
{
    let gate_id: usize = before.order[before.prepared as int];
    before.circuit.lemma_traversal_ordered();
    assert forall|gate: usize| #[trigger] after.masks.contains_key(gate) implies after.in_field(
        after.masks[gate].0,
    ) && after.in_field(after.masks[gate].1) by {
        if gate != gate_id || !(before.gates()[gate_id as int] is Mul) {
            assert(before.masks.contains_key(gate));
        }
    }
    assert forall|p: int|
        0 <= p < after.prepared && after.gates()[#[trigger] after.order[p] as int] is Mul implies after.masks.contains_key(
        after.order[p],
    ) by {
        if p < before.prepared {
            assert(before.masks.contains_key(before.order[p]));
        }
    }
    assert(after.fitted());
    assert forall|p: int|
        0 <= p < after.prepared && after.gates()[#[trigger] after.order[p] as int] is Mul implies after.set_up(
        after.order[p],
    ) by {
        if p < before.prepared {
            assert(before.order[p] != gate_id);
            lemma_set_up_stays(before, after, before.order[p]);
        }
    }
    assert(after.accounted());
    assert(after.in_progress_accounted());
}

/// An output reconstructed from the shares gathered leaves the party well
/// formed.
#[verifier::spinoff_prover]
#[verifier::rlimit(50)]
pub proof fn lemma_output_done<DataType: FieldElement>(
    before: PartyView<DataType>,
    after: PartyView<DataType>,
    value: DataType,
)
    requires
        before.wf(),
        before.exchange is None,
        before.evaluated == before.order.len(),
        before.results.len() < before.circuit.roots().len(),
        before.in_field(value),
        before.output_handed(before.results.len() as int),
        exists|got: Seq<Message<DataType>>| #[trigger]
            before.output_given(before.results.len() as int, got, value),
        after == (PartyView { results: before.results.push(value), ..before }),
    ensures
        after.wf(),
{
    let last: int = before.results.len() as int;
    assert forall|k: int| 0 <= k < after.results.len() implies #[trigger] after.output_handed(k)
        && after.output_reconstructed(k) by {
        if k < last {
            assert(before.output_handed(k));
            assert(after.results[k] == before.results[k]);
            lemma_output_stays(before, after, k);
        } else {
            let got: Seq<Message<DataType>> = choose|got: Seq<Message<DataType>>| #[trigger]
                before.output_given(last, got, value);
            assert(after.output_from(k, got));
        }
    }
    assert forall|k: int| 0 <= k < after.results.len() implies after.in_field(
        #[trigger] after.results[k],
    ) by {
        if k < before.results.len() {
            assert(after.results[k] == before.results[k]);
        }
    }
    assert forall|p: int|
        0 <= p < after.prepared && after.gates()[#[trigger] after.order[p] as int] is Mul implies after.set_up(
        after.order[p],
    ) by {
        lemma_set_up_stays(before, after, before.order[p]);
    }
    assert forall|p: int| 0 <= p < after.evaluated implies (after.gates()[#[trigger] after.order[p] as int] matches Gate::Input {
        party,
        circuit_id,
        ..
    } ==> if party == after.id {
        after.input_shared(after.order[p], circuit_id)
    } else {
        after.input_taken(after.order[p])
    }) by {
        match before.gates()[before.order[p] as int] {
            Gate::Input { party, circuit_id, .. } => {
                if party == before.id {
                    lemma_input_shared_stays(before, after, before.order[p], circuit_id);
                } else {
                    lemma_input_taken_stays(before, after, before.order[p]);
                }
            },
            _ => {},
        }
    }
    assert forall|p: int| 0 <= p < after.evaluated implies (after.gates()[#[trigger] after.order[p] as int] matches Gate::Mul {
        first,
        second,
        ..
    } ==> after.product_handed(after.order[p], first, second) && after.product_reduced(
        after.order[p],
        first,
        second,
    )) by {
        match before.gates()[before.order[p] as int] {
            Gate::Mul { first, second, .. } => {
                lemma_product_stays(before, after, before.order[p], first, second);
            },
            _ => {},
        }
    }
}

/// What the party has sent and taken accounts for one more gate when that
/// gate gets its output.
#[verifier::spinoff_prover]
#[verifier::rlimit(50)]
pub proof fn lemma_accounted_after_evaluation<DataType: FieldElement>(
    before: PartyView<DataType>,
    after: PartyView<DataType>,
    output: DataType,
)
    requires
        before.wf(),
        before.evaluated < before.order.len(),
        before.order[before.evaluated as int] < before.gates().len(),
        after.gates() == before.gates().update(
            before.order[before.evaluated as int] as int,
            before.gates()[before.order[before.evaluated as int] as int].with_output(Some(output)),
        ),
        after.circuit.roots() == before.circuit.roots(),
        after.circuit.parties() == before.circuit.parties(),
        after == (PartyView { circuit: after.circuit, evaluated: before.evaluated + 1, ..before }),
        before.newly_accounted(output),
    ensures
        after.accounted(),
{
    let e: int = before.evaluated as int;
    let gate_id: usize = before.order[e];
    let old_gates = before.gates();
    let new_gates = after.gates();
    before.circuit.lemma_traversal_ordered();
    assert forall|p: int|
        0 <= p < after.prepared && new_gates[#[trigger] after.order[p] as int] is Mul implies after.set_up(
        after.order[p],
    ) by {
        assert(before.order[p] < old_gates.len());
        assert(old_gates[before.order[p] as int] is Mul);
        lemma_set_up_stays(before, after, before.order[p]);
    }
    assert forall|p: int| 0 <= p < after.evaluated implies (new_gates[#[trigger] after.order[p] as int] matches Gate::Input {
        party,
        circuit_id,
        ..
    } ==> if party == after.id {
        after.input_shared(after.order[p], circuit_id)
    } else {
        after.input_taken(after.order[p])
    }) by {
        assert(before.order[p] < old_gates.len());
        match old_gates[before.order[p] as int] {
            Gate::Input { party, circuit_id, .. } => {
                if p < e {
                    assert(before.order[p] != gate_id);
                    if party == before.id {
                        lemma_input_shared_stays(before, after, before.order[p], circuit_id);
                    } else {
                        lemma_input_taken_stays(before, after, before.order[p]);
                    }
                } else if party == before.id {
                    let coeffs: Seq<int> = choose|coeffs: Seq<int>| #[trigger]
                        before.input_sent(gate_id, circuit_id, coeffs, output);
                    assert(after.input_shared_with(gate_id, circuit_id, coeffs));
                } else {
                    let msg: Message<DataType> = choose|msg: Message<DataType>|
                        msg.payload() == output && #[trigger] before.input_came(gate_id, msg);
                    assert(after.input_taken_with(gate_id, msg));
                }
            },
            _ => {},
        }
    }
    assert forall|p: int| 0 <= p < after.evaluated implies (new_gates[#[trigger] after.order[p] as int] matches Gate::Mul {
        first,
        second,
        ..
    } ==> after.product_handed(after.order[p], first, second) && after.product_reduced(
        after.order[p],
        first,
        second,
    )) by {
        assert(before.order[p] < old_gates.len());
        assert(placed_after_operands(old_gates, before.order, p));
        match old_gates[before.order[p] as int] {
            Gate::Mul { first, second, .. } => {
                let at_first: int = choose|q: int|
                    0 <= q < p && q < before.order.len() && before.order[q] == first;
                let at_second: int = choose|q: int|
                    0 <= q < p && q < before.order.len() && before.order[q] == second;
                assert(before.order[at_first] != gate_id);
                assert(before.order[at_second] != gate_id);
                assert(before.order[at_first] < old_gates.len());
                assert(before.order[at_second] < old_gates.len());
                if p < e {
                    assert(before.order[p] != gate_id);
                    lemma_product_stays(before, after, before.order[p], first, second);
                } else {
                    lemma_block_stays(
                        before.sent,
                        after.sent,
                        before.handing(before.masked_value(gate_id, first, second), gate_id),
                    );
                    let got: Seq<Message<DataType>> = choose|got: Seq<Message<DataType>>| #[trigger]
                        before.reduction(gate_id, first, second, got, output);
                    assert(after.masked_value(gate_id, first, second) == before.masked_value(
                        gate_id,
                        first,
                        second,
                    ));
                    assert(after.product_from(gate_id, first, second, got));
                }
            },
            _ => {},
        }
    }
}

/// The operands of what is evaluated next have their outputs.
pub proof fn lemma_operand_ready<DataType: FieldElement>(
    view: PartyView<DataType>,
    p: int,
    operand: usize,
)
    requires
        view.wf(),
        0 <= p < view.order.len(),
        p == view.evaluated,
        dependency_ordered(view.gates(), view.order),
        view.gates()[view.order[p] as int].first_operand() == Some(operand)
            || view.gates()[view.order[p] as int].second_operand() == Some(operand),
    ensures
        operand < view.gates().len(),
        view.gates()[operand as int].output() is Some,
{
    assert(placed_after_operands(view.gates(), view.order, p));
    assert(occurs_before(view.order, operand, p));
    let q: int = choose|q: int| 0 <= q < p && q < view.order.len() && view.order[q] == operand;
    assert(locally_evaluated(view.gates(), view.gates()[view.order[q] as int], view.modulus));
}

/// Filling the output of what is evaluated next, with a value that
/// fits its kind, keeps the party well formed.
#[verifier::spinoff_prover]
#[verifier::rlimit(50)]
pub proof fn lemma_evaluated_one<DataType: FieldElement>(
    before: PartyView<DataType>,
    after: PartyView<DataType>,
    output: DataType,
)
    requires
        before.wf(),
        before.ready(),
        before.evaluated < before.order.len(),
        before.exchange is None,
        before.order[before.evaluated as int] < before.gates().len(),
        after.gates() == before.gates().update(
            before.order[before.evaluated as int] as int,
            before.gates()[before.order[before.evaluated as int] as int].with_output(Some(output)),
        ),
        after.circuit.roots() == before.circuit.roots(),
        after.circuit.parties() == before.circuit.parties(),
        locally_evaluated(
            before.gates(),
            before.gates()[before.order[before.evaluated as int] as int].with_output(Some(output)),
            before.modulus,
        ),
        after == (PartyView { circuit: after.circuit, evaluated: before.evaluated + 1, ..before }),
        before.newly_accounted(output),
    ensures
        after.wf(),
        after.ready(),
        after.same_task(before),
{
    let e: int = before.evaluated as int;
    let gate_id: usize = before.order[e];
    let old_gates = before.gates();
    let new_gates = after.gates();
    before.circuit.lemma_traversal_ordered();
    assert(after.accounted()) by {
        lemma_accounted_after_evaluation(before, after, output);
    }
    assert(same_shape(new_gates, old_gates)) by {
        assert forall|i: int| 0 <= i < new_gates.len() implies (#[trigger] new_gates[i]).with_output(
            None,
        ) == old_gates[i].with_output(None) by {}
    }
    assert forall|i: int| 0 <= i < new_gates.len() implies (#[trigger] new_gates[i]).first_operand()
        == old_gates[i].first_operand() && new_gates[i].second_operand()
        == old_gates[i].second_operand() by {}
    lemma_visit_roots_same_shape(
        new_gates,
        old_gates,
        before.circuit.roots(),
        before.circuit.roots().len(),
    );
    assert(after.circuit.wf());
    assert(after.order == after.circuit.traversal());
    assert(inputs_supplied(new_gates, after.order, after.id, after.n(), after.secret.len())) by {
        assert forall|p: int| 0 <= p < after.order.len() implies (new_gates[#[trigger] after.order[p] as int] matches Gate::Input {
            party,
            circuit_id,
            ..
        } ==> party < after.n() && (party == after.id ==> circuit_id < after.secret.len())) by {
            let g = old_gates[before.order[p] as int];
            assert(before.order[p] < old_gates.len());
        }
    }
    assert forall|p: int| 0 <= p < after.evaluated implies locally_evaluated(
        new_gates,
        new_gates[#[trigger] after.order[p] as int],
        after.modulus,
    ) by {
        assert(before.order[p] < old_gates.len());
        assert(placed_after_operands(old_gates, before.order, p));
        let g = old_gates[before.order[p] as int];
        if g.first_operand() is Some {
            let a: usize = g.first_operand()->0;
            let q: int = choose|q: int| 0 <= q < p && q < before.order.len() && before.order[q] == a;
            assert(before.order[q] < old_gates.len());
            assert(before.order[q] != gate_id);
            if p == e {
                assert(locally_evaluated(old_gates, old_gates[before.order[q] as int], before.modulus));
            }
        }
        if g.second_operand() is Some {
            let b: usize = g.second_operand()->0;
            let q: int = choose|q: int| 0 <= q < p && q < before.order.len() && before.order[q] == b;
            assert(before.order[q] < old_gates.len());
            assert(before.order[q] != gate_id);
            if p == e {
                assert(locally_evaluated(old_gates, old_gates[before.order[q] as int], before.modulus));
            }
        }
        if p < e {
            assert(before.order[p] != gate_id);
            assert(locally_evaluated(old_gates, old_gates[before.order[p] as int], before.modulus));
        }
    }
    assert forall|p: int|
        0 <= p < after.order.len() && new_gates[#[trigger] after.order[p] as int] is Mul implies after.masks.contains_key(
        after.order[p],
    ) by {
        assert(before.order[p] < old_gates.len());
        assert(old_gates[before.order[p] as int] is Mul);
    }
}

} // verus!
