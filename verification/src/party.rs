//! The protocol engine of one party: the setup that prepares a pair of masks
//! for every multiplication gate, the evaluation of the circuit on shares,
//! and the reconstruction of the outputs.

use crate::circuit::Circuit;
use crate::circuit::dependency_ordered;
use crate::circuit::placed_after_operands;
use crate::field::add_mod;
use crate::field::element;
use crate::field::elements;
use crate::field::Field;
use crate::field::FieldElement;
use crate::field::lemma_element;
use crate::field::mul_mod;
use crate::field::sub_mod;
use crate::gate::Gate;
use crate::ledger::lemma_nothing_more;
use crate::ledger::lemma_prepared_begins;
use crate::ledger::lemma_prepared_more;
use crate::ledger::lemma_prepared_passed;
use crate::ledger::lemma_took_for_setup;
use crate::ledger::prepared_from;
use crate::ledger::took_for_setup;
use crate::ledger::lemma_ran_begins;
use crate::ledger::lemma_ran_output_step;
use crate::ledger::lemma_ran_paused;
use crate::ledger::lemma_ran_step;
use crate::ledger::lemma_took_output_step;
use crate::ledger::lemma_took_paused;
use crate::ledger::lemma_took_step;
use crate::ledger::ran;
use crate::ledger::took;
use crate::link::Event;
use crate::link::lemma_messages_of_receipts;
use crate::link::lemma_on_their_lines;
use crate::link::Link;
use crate::link::messages_got;
use crate::link::messages_sent;
use crate::link::receipts;
use crate::link::sendings;
use crate::mailbox::awaited;
use crate::mailbox::lemma_account_after_taking;
use crate::mailbox::lemma_account_after_waiting;
use crate::mailbox::lemma_account_begins;
use crate::mailbox::first_awaited;
use crate::mailbox::news;
use crate::mailbox::none_awaited;
use crate::mailbox::starved;
use crate::mailbox::taken;
use crate::message::Message;
use crate::polynomial::horner;
use crate::polynomial::interpolation;
use crate::polynomial::Polynomial;
use crate::polynomial::values;
use crate::progress::acceptable;
use crate::progress::begun;
use crate::progress::completed;
use crate::progress::continued;
use crate::progress::ExchangeView;
use crate::progress::Halt;
use crate::progress::halted;
use crate::progress::expected;
use crate::progress::handed_out;
use crate::progress::inputs_supplied;
use crate::progress::kept_on_record;
use crate::progress::lemma_alone_sends_nothing;
use crate::progress::lemma_block_at_end;
use crate::progress::lemma_block_stays;
use crate::progress::lemma_evaluated_one;
use crate::progress::lemma_mask_made_stays;
use crate::progress::lemma_operand_ready;
use crate::progress::lemma_output_done;
use crate::progress::lemma_pair_shared_stays;
use crate::progress::lemma_paused;
use crate::progress::lemma_round_stays;
use crate::progress::lemma_setup_advanced;
use crate::progress::locally_evaluated;
use crate::progress::MaskingView;
use crate::progress::outgoing;
use crate::progress::output_made;
use crate::progress::PartyView;
use crate::progress::reconstructed_from;
use crate::progress::recorded;
use crate::progress::reduced_from;
use crate::progress::round_ok;
use crate::progress::sent_then_received;
use crate::progress::lemma_nothing_passed;
use crate::progress::lemma_received_more;
use crate::progress::lemma_sent_only;
use crate::progress::shared_out;
use crate::progress::taken_count;
use crate::progress::taken_for;
use crate::progress::taken_until;
use crate::progress::refused;
use crate::progress::silent;
use crate::progress::uniform;
use crate::share_receiver::ShareReceiver;
use crate::share_sender::ShareSender;
use crate::sharing::shares_of;
use std::collections::HashMap;
use vstd::prelude::*;

verus! {

/// How far the setup of the current multiplication gate has come.
#[derive(Clone, Copy)]
enum Masking<DataType> {
    /// No mask is being prepared.
    Idle,
    /// The sharing of degree `t` is in progress.
    Low,
    /// The sharing of degree `2t` is in progress; `low` is what the first
    /// sharing gave.
    High { low: DataType },
}

/// What the records of the parties hold.
pub open spec fn record_views<DataType>(records: Seq<HashMap<usize, DataType>>) -> Seq<
    Map<usize, DataType>,
> {
    Seq::new(records.len(), |p: int| records[p]@)
}

/// One party of the computation.
#[verifier::reject_recursive_types(DataType)]
pub struct Party<DataType> {
    id: usize,
    secret: Vec<DataType>,
    link: Link<DataType>,
    shares: Vec<HashMap<usize, DataType>>,
    r_share: HashMap<usize, (DataType, DataType)>,
    field: Field<DataType>,
    circuit: Circuit<DataType>,
    threshold: usize,
    past_messages: Vec<Message<DataType>>,
    order: Vec<usize>,
    prepared: usize,
    evaluated: usize,
    results: Vec<DataType>,
    exchanging: bool,
    gathered: Vec<DataType>,
    missing: usize,
    masking: Masking<DataType>,
    held: Option<Polynomial<DataType>>,
    taken: Ghost<Seq<Message<DataType>>>,
    awaiting: Ghost<usize>,
    begun: Ghost<Seq<DataType>>,
    got: Ghost<Seq<Message<DataType>>>,
}

impl<DataType: FieldElement> View for Party<DataType> {
    type V = PartyView<DataType>;

    closed spec fn view(&self) -> PartyView<DataType> {
        PartyView {
            id: self.id,
            secret: self.secret@,
            channels: self.link.lines(),
            shares: record_views(self.shares@),
            masks: self.r_share@,
            modulus: self.field.modulus(),
            circuit: self.circuit,
            threshold: self.threshold,
            order: self.order@,
            prepared: self.prepared as nat,
            evaluated: self.evaluated as nat,
            results: self.results@,
            exchange: if self.exchanging {
                Some(
                    ExchangeView {
                        shares: self.gathered@,
                        missing: self.missing as nat,
                        gate: self.awaiting@,
                        begun: self.begun@,
                        got: self.got@,
                    },
                )
            } else {
                None
            },
            masking: match self.masking {
                Masking::Idle => MaskingView::Idle,
                Masking::Low => MaskingView::Low {
                    high: match self.held {
                        Some(poly) => poly.coefficients(),
                        None => Seq::empty(),
                    },
                },
                Masking::High { low } => MaskingView::High { low },
            },
            buffer: self.past_messages@,
            events: self.link.events(),
            sent: messages_sent(self.link.events()),
            arrived: messages_got(self.link.events()),
            taken: self.taken@,
        }
    }
}

/// A copy of `source`.
fn copy_of<DataType: Copy>(source: &Vec<DataType>) -> (copy: Vec<DataType>)
    ensures
        copy@ == source@,
{
    let mut copy: Vec<DataType> = Vec::new();
    let mut k: usize = 0;
    while k < source.len()
        invariant
            k <= source.len(),
            copy@ == source@.subrange(0, k as int),
        decreases source.len() - k,
    {
        copy.push(source[k]);
        k = k + 1;
    }
    assert(source@.subrange(0, source.len() as int) == source@);
    copy
}

impl<DataType: FieldElement> Party<DataType> {
    /// What the view leaves out: a polynomial that waits for its turn is one
    /// over the field of the party.
    pub closed spec fn inv(&self) -> bool {
        self.masking is Low ==> (self.held matches Some(poly) && poly.wf() && poly.modulus()
            == self.field.modulus())
    }

    /// The party is in a state that its functions accept.
    pub open spec fn wf(&self) -> bool {
        self.inv() && self@.wf()
    }

    pub fn new(
        id: usize,
        secret: Vec<DataType>,
        rx: Box<dyn ShareReceiver<Message<DataType>>>,
        txs: Vec<Box<dyn ShareSender<Message<DataType>>>>,
        field: Field<DataType>,
        circuit: Circuit<DataType>,
        threshold: usize,
    ) -> (party: Self)
        requires
            acceptable(id, secret@, txs.len() as nat, field, circuit, threshold),
        ensures
            party.wf(),
            party@.fresh(),
            party@.id == id,
            party@.secret == secret@,
            party@.channels == txs.len(),
            party@.modulus == field.modulus(),
            party@.circuit == circuit,
            party@.threshold == threshold,
            party@.order == circuit.traversal(),
            party@.prepared == 0,
            party@.masks == Map::<usize, (DataType, DataType)>::empty(),
            party@.exchange is None,
            party@.masking is Idle,
            party@.buffer == Seq::<Message<DataType>>::empty(),
            party@.events == Seq::<Event<DataType>>::empty(),
            party@.sent == Seq::<Message<DataType>>::empty(),
            party@.arrived == Seq::<Message<DataType>>::empty(),
            party@.shares.len() == circuit.parties(),
            forall|p: int|
                0 <= p < circuit.parties() ==> #[trigger] party@.shares[p] == Map::<
                    usize,
                    DataType,
                >::empty(),
    {
        let n_parties: usize = circuit.get_n_parties() as usize;
        let order: Vec<usize> = circuit.traverse();
        let mut shares: Vec<HashMap<usize, DataType>> = Vec::new();
        let mut p: usize = 0;
        while p < n_parties
            invariant
                p <= n_parties,
                shares.len() == p,
                forall|q: int| 0 <= q < p ==> shares[q]@ == Map::<usize, DataType>::empty(),
            decreases n_parties - p,
        {
            shares.push(HashMap::new());
            p = p + 1;
        }
        proof {
            lemma_account_begins::<DataType>();
        }
        let link: Link<DataType> = Link::new(rx, txs);
        Party {
            id,
            secret,
            link,
            shares,
            r_share: HashMap::new(),
            field,
            circuit,
            threshold,
            past_messages: Vec::new(),
            order,
            prepared: 0,
            evaluated: 0,
            results: Vec::new(),
            exchanging: false,
            gathered: Vec::new(),
            missing: 0,
            masking: Masking::Idle,
            held: None,
            taken: Ghost(Seq::empty()),
            awaiting: Ghost(0),
            begun: Ghost(Seq::empty()),
            got: Ghost(Seq::empty()),
        }
    }

    /// Whether a party can be made of these parts.
    pub fn accepts(
        id: usize,
        secret: &Vec<DataType>,
        channels: usize,
        field: &Field<DataType>,
        circuit: &Circuit<DataType>,
        threshold: usize,
    ) -> (ok: bool)
        ensures
            ok == acceptable(id, secret@, channels as nat, *field, *circuit, threshold),
    {
        let n_parties: usize = circuit.get_n_parties() as usize;
        if field.get_order().to_u64() < 2 || !circuit.is_well_formed() || id >= n_parties
            || channels < n_parties || n_parties as u64 > DataType::limit() || threshold > (usize::MAX
            - 1) / 2 {
            return false;
        }
        let order: Vec<usize> = circuit.traverse();
        proof {
            circuit.lemma_traversal_ordered();
        }
        let mut p: usize = 0;
        while p < order.len()
            invariant
                p <= order.len(),
                order@ == circuit.traversal(),
                dependency_ordered(circuit.arena(), order@),
                n_parties == circuit.parties(),
                inputs_supplied(circuit.arena(), order@.take(p as int), id, n_parties, secret@.len()),
            decreases order.len() - p,
        {
            let gate_id: usize = order[p];
            assert(order@[p as int] < circuit.arena().len());
            let ok: bool = match circuit.get_gate(gate_id) {
                Gate::Input { party, circuit_id, .. } => *party < n_parties && (*party != id
                    || *circuit_id < secret.len()),
                _ => true,
            };
            if !ok {
                assert(!inputs_supplied(circuit.arena(), order@, id, n_parties, secret@.len())) by {
                    let at: usize = order@[p as int];
                }
                return false;
            }
            proof {
                let before = order@.take(p as int);
                let after = order@.take(p + 1);
                assert forall|q: int| 0 <= q < after.len() implies (circuit.arena()[#[trigger] after[q] as int] matches Gate::Input {
                    party,
                    circuit_id,
                    ..
                } ==> party < n_parties && (party == id ==> circuit_id < secret@.len())) by {
                    if q < p {
                        assert(after[q] == before[q]);
                    }
                }
            }
            p = p + 1;
        }
        assert(order@.take(order.len() as int) == order@);
        true
    }

    /// Takes out of `past` the message that arrived first among those the
    /// party waits for.
    pub fn take_buffered(
        past: &mut Vec<Message<DataType>>,
        id: usize,
        gate_id: usize,
    ) -> (found: Option<Message<DataType>>)
        ensures
            match found {
                Some(msg) => exists|k: int|
                    first_awaited(old(past)@, k, id, gate_id) && msg == old(past)@[k]
                        && final(past)@ == old(past)@.remove(k),
                None => none_awaited(old(past)@, id, gate_id) && final(past)@ == old(past)@,
            },
    {
        let mut k: usize = 0;
        while k < past.len()
            invariant
                k <= past.len(),
                past@ == old(past)@,
                none_awaited(past@.take(k as int), id, gate_id),
            decreases past.len() - k,
        {
            let msg: Message<DataType> = past[k];
            if msg.get_to() == id && msg.get_gate() == gate_id {
                assert(first_awaited(past@, k as int, id, gate_id));
                let taken: Message<DataType> = past.remove(k);
                return Some(taken);
            }
            proof {
                let before = past@.take(k as int);
                let after = past@.take(k + 1);
                assert forall|j: int| 0 <= j < after.len() implies !awaited(
                    #[trigger] after[j],
                    id,
                    gate_id,
                ) by {
                    if j < k {
                        assert(after[j] == before[j]);
                    }
                }
            }
            k = k + 1;
        }
        assert(past@.take(past.len() as int) == past@);
        None
    }

    /// Hands `msg` back if the party waits for it, and puts it at the end of
    /// `past` if not.
    pub fn accept(
        past: &mut Vec<Message<DataType>>,
        msg: Message<DataType>,
        id: usize,
        gate_id: usize,
    ) -> (taken: Option<Message<DataType>>)
        ensures
            awaited(msg, id, gate_id) ==> taken == Some(msg) && final(past)@ == old(past)@,
            !awaited(msg, id, gate_id) ==> taken is None && final(past)@ == old(past)@.push(msg),
    {
        if msg.get_to() == id && msg.get_gate() == gate_id {
            Some(msg)
        } else {
            past.push(msg);
            None
        }
    }

    /// Receives until a message comes that the party waits for, keeping the
    /// others in `past`; gives up when the channel has no message or `past`
    /// cannot grow.
    #[verifier::spinoff_prover]
    #[verifier::rlimit(50)]
    fn pull(
        link: &mut Link<DataType>,
        past: &mut Vec<Message<DataType>>,
        id: usize,
        gate_id: usize,
    ) -> (found: Option<Message<DataType>>)
        requires
            none_awaited(old(past)@, id, gate_id),
        ensures
            final(link).lines() == old(link).lines(),
            messages_got(old(link).events()).is_prefix_of(messages_got(final(link).events())),
            messages_sent(final(link).events()) == messages_sent(old(link).events()),
            final(link).events() == old(link).events() + receipts(
                news(messages_got(old(link).events()), messages_got(final(link).events())),
            ),
            match found {
                Some(msg) => taken(
                    old(past)@,
                    final(past)@,
                    news(messages_got(old(link).events()), messages_got(final(link).events())),
                    msg,
                    id,
                    gate_id,
                ),
                None => starved(
                    old(past)@,
                    final(past)@,
                    news(messages_got(old(link).events()), messages_got(final(link).events())),
                    id,
                    gate_id,
                ),
            },
    {
        let ghost first: Seq<Message<DataType>> = messages_got(link.events());
        assert(news(first, first) =~= Seq::<Message<DataType>>::empty());
        assert(past@ + Seq::<Message<DataType>>::empty() =~= past@);
        assert(link.events() + receipts(Seq::<Message<DataType>>::empty()) =~= link.events());
        loop
            invariant
                link.lines() == old(link).lines(),
                first == messages_got(old(link).events()),
                first.is_prefix_of(messages_got(link.events())),
                messages_sent(link.events()) == messages_sent(old(link).events()),
                link.events() == old(link).events() + receipts(
                    news(first, messages_got(link.events())),
                ),
                past@ == old(past)@ + news(first, messages_got(link.events())),
                none_awaited(past@, id, gate_id),
                none_awaited(old(past)@, id, gate_id),
            decreases usize::MAX - past.len(),
        {
            if past.len() == usize::MAX {
                return None;
            }
            let ghost events: Seq<Event<DataType>> = link.events();
            let ghost before: Seq<Message<DataType>> = messages_got(events);
            match link.receive() {
                None => {
                    return None;
                },
                Some(msg) => {
                    let taken: Option<Message<DataType>> = Self::accept(
                        past,
                        msg,
                        id,
                        gate_id,
                    );
                    proof {
                        let longer: Seq<Event<DataType>> = events.push(Event::Got { msg });
                        assert(longer.drop_last() =~= events);
                        assert(messages_got(longer) == before.push(msg));
                        assert(messages_sent(longer) == messages_sent(events));
                        let all: Seq<Message<DataType>> = news(first, before.push(msg));
                        assert(all =~= news(first, before).push(msg));
                        assert(all.drop_last() =~= news(first, before));
                        assert(all.last() == msg);
                        assert(receipts(all) =~= receipts(news(first, before)).push(
                            Event::Got { msg },
                        ));
                        assert(longer =~= old(link).events() + receipts(all));
                        if taken is None {
                            assert(past@ =~= old(past)@ + all);
                        }
                    }
                    if taken.is_some() {
                        return taken;
                    }
                },
            }
        }
    }

    /// The message that the party waits for, for gate `gate_id`: the one
    /// that arrived first among those kept back, or else the first such
    /// message that the channel hands over, the others being kept back in the
    /// order of their arrival. `None` when the channel has no message to give.
    #[verifier::spinoff_prover]
    #[verifier::rlimit(50)]
    pub fn safe_recv(&mut self, gate_id: usize) -> (found: Option<Message<DataType>>)
        ensures
            final(self).inv() == old(self).inv(),
            final(self)@ == (PartyView {
                buffer: final(self)@.buffer,
                arrived: final(self)@.arrived,
                events: final(self)@.events,
                taken: final(self)@.taken,
                ..old(self)@
            }),
            old(self)@.arrived.is_prefix_of(final(self)@.arrived),
            old(self)@.taken.is_prefix_of(final(self)@.taken),
            old(self)@.events.is_prefix_of(final(self)@.events),
            match found {
                Some(msg) => taken(
                    old(self)@.buffer,
                    final(self)@.buffer,
                    news(old(self)@.arrived, final(self)@.arrived),
                    msg,
                    old(self)@.id,
                    gate_id,
                ),
                None => starved(
                    old(self)@.buffer,
                    final(self)@.buffer,
                    news(old(self)@.arrived, final(self)@.arrived),
                    old(self)@.id,
                    gate_id,
                ),
            },
            old(self)@.kept_arrived() ==> final(self)@.kept_arrived() && (found matches Some(msg)
                ==> final(self)@.arrived.contains(msg)),
            final(self)@.taken == match found {
                Some(msg) => old(self)@.taken.push(msg),
                None => old(self)@.taken,
            },
            old(self)@.conserved() ==> final(self)@.conserved(),
            final(self)@.events == old(self)@.events + receipts(
                news(old(self)@.arrived, final(self)@.arrived),
            ),
            old(self)@.on_record() ==> final(self)@.on_record(),
            sent_then_received(old(self)@, final(self)@),
    {
        let n_parties: usize = self.circuit.get_n_parties() as usize;
        proof {
            assert(news(self@.arrived, self@.arrived) =~= Seq::<Message<DataType>>::empty());
        }
        let kept: Option<Message<DataType>> = Self::take_buffered(
            &mut self.past_messages,
            self.id,
            gate_id,
        );
        match kept {
            Some(msg) => {
                proof {
                    if old(self)@.kept_arrived() {
                        let k: int = choose|k: int|
                            first_awaited(old(self)@.buffer, k, self.id, gate_id) && msg
                                == old(self)@.buffer[k] && self@.buffer == old(self)@.buffer.remove(k);
                        assert(self@.arrived.contains(old(self)@.buffer[k]));
                        assert forall|j: int| 0 <= j < self@.buffer.len() implies self@.arrived.contains(
                            #[trigger] self@.buffer[j],
                        ) by {
                            if j < k {
                                assert(self@.buffer[j] == old(self)@.buffer[j]);
                            } else {
                                assert(self@.buffer[j] == old(self)@.buffer[j + 1]);
                            }
                        }
                    }
                    self.taken = Ghost(self.taken@.push(msg));
                    assert(receipts(news(old(self)@.arrived, self@.arrived)) =~= Seq::empty());
                    assert(self@.events =~= old(self)@.events + receipts(
                        news(old(self)@.arrived, self@.arrived),
                    ));
                    if old(self)@.conserved() {
                        lemma_account_after_taking(
                            old(self)@.buffer,
                            self@.buffer,
                            news(old(self)@.arrived, self@.arrived),
                            old(self)@.arrived,
                            old(self)@.taken,
                            msg,
                            self.id,
                            gate_id,
                        );
                        assert(old(self)@.arrived + news(old(self)@.arrived, self@.arrived)
                            =~= self@.arrived);
                    }
                }
                Some(msg)
            },
            None => {
                let found: Option<Message<DataType>> = Self::pull(
                    &mut self.link,
                    &mut self.past_messages,
                    self.id,
                    gate_id,
                );
                proof {
                    if old(self)@.kept_arrived() {
                        let before: Seq<Message<DataType>> = old(self)@.arrived;
                        let all: Seq<Message<DataType>> = self@.arrived;
                        let fresh: Seq<Message<DataType>> = news(before, all);
                        assert forall|i: int| 0 <= i < fresh.len() implies all.contains(
                            #[trigger] fresh[i],
                        ) by {
                            assert(all[before.len() + i] == fresh[i]);
                        }
                        assert forall|j: int| 0 <= j < self@.buffer.len() implies all.contains(
                            #[trigger] self@.buffer[j],
                        ) by {
                            if j < old(self)@.buffer.len() {
                                assert(self@.buffer[j] == old(self)@.buffer[j]);
                                let at: int = choose|at: int|
                                    0 <= at < before.len() && before[at] == old(self)@.buffer[j];
                                assert(all[at] == before[at]);
                            } else {
                                assert(self@.buffer[j] == fresh[j - old(self)@.buffer.len()]);
                            }
                        }
                        if found is Some {
                            assert(fresh.last() == found->0);
                            assert(all.contains(fresh[fresh.len() - 1]));
                        }
                    }
                    let ghost log: Seq<Message<DataType>> = self.taken@;
                    if found is Some {
                        self.taken = Ghost(log.push(found->0));
                    }
                    lemma_messages_of_receipts(news(old(self)@.arrived, self@.arrived));
                    if old(self)@.on_record() {
                        lemma_on_their_lines(
                            old(self)@.events,
                            receipts(news(old(self)@.arrived, self@.arrived)),
                        );
                    }
                    if old(self)@.conserved() {
                        assert(old(self)@.arrived + news(old(self)@.arrived, self@.arrived)
                            =~= self@.arrived);
                        if found is Some {
                            lemma_account_after_taking(
                                old(self)@.buffer,
                                self@.buffer,
                                news(old(self)@.arrived, self@.arrived),
                                old(self)@.arrived,
                                log,
                                found->0,
                                self.id,
                                gate_id,
                            );
                        } else {
                            lemma_account_after_waiting(
                                old(self)@.buffer,
                                self@.buffer,
                                news(old(self)@.arrived, self@.arrived),
                                old(self)@.arrived,
                                log,
                                self.id,
                                gate_id,
                            );
                        }
                    }
                }
                found
            },
        }
    }

    /// Sends to every other party its place of `values`, for gate
    /// `gate_id`.
    fn dispatch(&mut self, values: &Vec<DataType>, gate_id: usize)
        requires
            old(self)@.connected(),
            values.len() == old(self)@.n(),
        ensures
            final(self).inv() == old(self).inv(),
            old(self)@.arrived.is_prefix_of(final(self)@.arrived),
            old(self)@.taken.is_prefix_of(final(self)@.taken),
            old(self)@.events.is_prefix_of(final(self)@.events),
            final(self)@ == (PartyView {
                sent: old(self)@.sent + outgoing(
                    old(self)@.id,
                    values@,
                    gate_id,
                    old(self)@.n() as nat,
                ),
                events: old(self)@.events + sendings(
                    outgoing(old(self)@.id, values@, gate_id, old(self)@.n() as nat),
                ),
                ..old(self)@
            }),
            final(self)@.on_record(),
            sent_then_received(old(self)@, final(self)@),
    {
        let n_parties: usize = self.circuit.get_n_parties() as usize;
        let mut party: usize = 0;
        assert(self@.sent + outgoing(self@.id, values@, gate_id, 0) =~= self@.sent);
        assert(self@.events + sendings(outgoing(self@.id, values@, gate_id, 0)) =~= self@.events);
        while party < n_parties
            invariant
                party <= n_parties,
                n_parties == self@.n(),
                values.len() == n_parties,
                self.inv() == old(self).inv(),
                old(self)@.arrived.is_prefix_of(self@.arrived),
                old(self)@.taken.is_prefix_of(self@.taken),
                old(self)@.events.is_prefix_of(self@.events),
                self@ == (PartyView {
                    sent: old(self)@.sent + outgoing(old(self)@.id, values@, gate_id, party as nat),
                    events: old(self)@.events + sendings(
                        outgoing(old(self)@.id, values@, gate_id, party as nat),
                    ),
                    ..old(self)@
                }),
                self@.on_record(),
                self@.channels >= n_parties,
            decreases n_parties - party,
        {
            let ghost before: Seq<Message<DataType>> = self@.sent;
            if party != self.id {
                let msg: Message<DataType> = Message::new(self.id, party, gate_id, values[party]);
                let ghost events: Seq<Event<DataType>> = self.link.events();
                self.link.send_to(party, msg);
                proof {
                    let longer: Seq<Event<DataType>> = events.push(Event::Sent { line: party, msg });
                    assert(longer.drop_last() =~= events);
                    assert(messages_sent(longer) == messages_sent(events).push(msg));
                    assert(messages_got(longer) == messages_got(events));
                }
            }
            assert(self@.sent =~= old(self)@.sent + outgoing(
                old(self)@.id,
                values@,
                gate_id,
                (party + 1) as nat,
            ));
            assert(self@.events =~= old(self)@.events + sendings(
                outgoing(old(self)@.id, values@, gate_id, (party + 1) as nat),
            ));
            party = party + 1;
        }
        proof {
            lemma_sent_only(
                old(self)@,
                self@,
                outgoing(old(self)@.id, values@, gate_id, n_parties as nat),
            );
        }
    }

    /// Puts the share that `msg` carries at the place of its sender.
    pub fn record(gathered: &mut Vec<DataType>, msg: Message<DataType>)
        requires
            msg.sender() < old(gathered).len(),
        ensures
            final(gathered)@ == old(gathered)@.update(msg.sender() as int, msg.payload()),
    {
        gathered.set(msg.get_from(), msg.get_share());
    }

    /// Begins a broadcast: every other party is sent its place of `values`,
    /// the party keeps its own, and a message of every other party is awaited.
    fn begin(&mut self, values: Vec<DataType>, gate_id: usize)
        requires
            old(self)@.connected(),
            old(self)@.exchange is None,
            values.len() == old(self)@.n(),
        ensures
            final(self).inv() == old(self).inv(),
            old(self)@.arrived.is_prefix_of(final(self)@.arrived),
            old(self)@.taken.is_prefix_of(final(self)@.taken),
            old(self)@.events.is_prefix_of(final(self)@.events),
            final(self)@ == (PartyView {
                exchange: Some(begun(None, values@, gate_id)),
                sent: old(self)@.sent + outgoing(
                    old(self)@.id,
                    values@,
                    gate_id,
                    old(self)@.n() as nat,
                ),
                events: old(self)@.events + sendings(
                    outgoing(old(self)@.id, values@, gate_id, old(self)@.n() as nat),
                ),
                ..old(self)@
            }),
            final(self)@.connected(),
            sent_then_received(old(self)@, final(self)@),
    {
        let n_parties: usize = self.circuit.get_n_parties() as usize;
        self.dispatch(&values, gate_id);
        self.awaiting = Ghost(gate_id);
        self.begun = Ghost(values@);
        self.got = Ghost(Seq::empty());
        self.gathered = values;
        self.missing = n_parties - 1;
        self.exchanging = true;
    }

    /// Goes on with the broadcast in progress: receives what is still
    /// missing. The shares of all parties when the last one has come. Stops
    /// when the channel has no message to give, or when a message that the
    /// party waited for names a sender that is none of the parties, the
    /// broadcast staying in progress.
    #[verifier::spinoff_prover]
    #[verifier::rlimit(50)]
    fn collect(&mut self, gate_id: usize) -> (outcome: Result<Vec<DataType>, Halt<DataType>>)
        requires
            old(self)@.connected(),
            old(self)@.exchange matches Some(e) && e.gate == gate_id,
        ensures
            final(self).inv() == old(self).inv(),
            old(self)@.arrived.is_prefix_of(final(self)@.arrived),
            old(self)@.taken.is_prefix_of(final(self)@.taken),
            old(self)@.events.is_prefix_of(final(self)@.events),
            final(self)@ == (PartyView {
                exchange: final(self)@.exchange,
                buffer: final(self)@.buffer,
                arrived: final(self)@.arrived,
                events: final(self)@.events,
                taken: final(self)@.taken,
                ..old(self)@
            }),
            final(self)@.connected(),
            sent_then_received(old(self)@, final(self)@),
            outcome matches Ok(shares) ==> final(self)@.exchange is None && shares.len() == old(self)@.n()
                && exists|got: Seq<Message<DataType>>| #[trigger]
                completed(
                    old(self)@.exchange->0,
                    got,
                    shares@,
                    final(self)@.arrived,
                    old(self)@.id,
                    old(self)@.n(),
                ) && taken_for(old(self)@, final(self)@, got),
            outcome matches Err(halt) ==> final(self)@.exchange is Some && continued(
                old(self)@.exchange->0,
                final(self)@.exchange->0,
            ) && halted(halt, final(self)@, gate_id) && taken_until(old(self)@, final(self)@, halt),
            old(self)@.exchange->0.missing == 0 ==> outcome is Ok && silent(old(self)@, final(self)@),
            taken_count(
                old(self)@,
                final(self)@,
                match outcome {
                    Ok(_) => None,
                    Err(halt) => Some(halt),
                },
            ),
    {
        let n_parties: usize = self.circuit.get_n_parties() as usize;
        proof {
            lemma_nothing_passed(self@);
        }
        while self.missing > 0
            invariant
                self@.connected(),
                self@.exchange is Some && continued(old(self)@.exchange->0, self@.exchange->0),
                self.inv() == old(self).inv(),
                old(self)@.arrived.is_prefix_of(self@.arrived),
                old(self)@.taken.is_prefix_of(self@.taken),
                old(self)@.events.is_prefix_of(self@.events),
                self@ == (PartyView {
                    exchange: self@.exchange,
                    buffer: self@.buffer,
                    arrived: self@.arrived,
                    events: self@.events,
                    taken: self@.taken,
                    ..old(self)@
                }),
                gate_id == old(self)@.exchange->0.gate,
                self.missing <= old(self)@.exchange->0.missing,
                n_parties == old(self)@.n(),
                old(self)@.exchange->0.missing == 0 ==> silent(old(self)@, self@),
                taken_until(old(self)@, self@, Halt::Starved),
                sent_then_received(old(self)@, self@),
                self@.sent == old(self)@.sent,
            decreases self.missing,
        {
            let ghost before: PartyView<DataType> = self@;
            let found: Option<Message<DataType>> = self.safe_recv(gate_id);
            proof {
                lemma_received_more(old(self)@, before, self@);
            }
            match found {
                Some(msg) => {
                    if msg.get_from() >= n_parties {
                        proof {
                            lemma_round_stays(
                                self.got@,
                                before.arrived,
                                self@.arrived,
                                self.id,
                                gate_id,
                                before.n(),
                            );
                            let since: int = old(self)@.got_so_far().len() as int;
                            assert(refused(Halt::Stranger { msg }) =~= Seq::empty().push(msg));
                            assert(self@.taken =~= old(self)@.taken + self.got@.skip(since) + refused(
                                Halt::Stranger { msg },
                            ));
                        }
                        return Err(Halt::Stranger { msg });
                    }
                    let ghost earlier: Seq<Message<DataType>> = self.got@;
                    Self::record(&mut self.gathered, msg);
                    self.missing = self.missing - 1;
                    self.got = Ghost(earlier.push(msg));
                    proof {
                        let longer: Seq<Message<DataType>> = earlier.push(msg);
                        assert(longer.drop_last() =~= earlier);
                        assert(longer.last() == msg);
                        assert(recorded(self.begun@, longer) == recorded(self.begun@, earlier).update(
                            msg.sender() as int,
                            msg.payload(),
                        ));
                        lemma_round_stays(
                            earlier,
                            before.arrived,
                            self@.arrived,
                            self.id,
                            gate_id,
                            before.n(),
                        );
                        assert forall|i: int| 0 <= i < longer.len() implies expected(
                            #[trigger] longer[i],
                            self.id,
                            gate_id,
                            before.n(),
                        ) && self@.arrived.contains(longer[i]) by {
                            if i < earlier.len() {
                                assert(longer[i] == earlier[i]);
                            }
                        }
                        assert(self@.connected());
                        let since: int = old(self)@.got_so_far().len() as int;
                        assert(longer.skip(since) =~= earlier.skip(since).push(msg));
                        assert(self@.taken =~= old(self)@.taken + longer.skip(since) + refused(
                            Halt::<DataType>::Starved,
                        ));
                    }
                },
                None => {
                    proof {
                        lemma_round_stays(
                            self.got@,
                            before.arrived,
                            self@.arrived,
                            self.id,
                            gate_id,
                            before.n(),
                        );
                    }
                    return Err(Halt::Starved);
                },
            }
        }
        let ghost last: ExchangeView<DataType> = self@.exchange->0;
        proof {
            assert(completed(
                old(self)@.exchange->0,
                last.got,
                last.shares,
                self@.arrived,
                old(self)@.id,
                old(self)@.n(),
            ));
        }
        let mut shares: Vec<DataType> = Vec::new();
        std::mem::swap(&mut shares, &mut self.gathered);
        self.exchanging = false;
        proof {
            assert(shares@ == last.shares);
            assert(self@.kept_arrived());
            assert(self@.taken =~= old(self)@.taken + last.got.skip(
                old(self)@.got_so_far().len() as int,
            ));
            assert(taken_for(old(self)@, self@, last.got));
        }
        Ok(shares)
    }

    /// Hands `share` to every party and gathers the shares that the others
    /// hand out for gate `gate_id`, each at the place of its sender. Goes
    /// on with the broadcast in progress if there is one. Stops when the
    /// channel has no message to give or a stranger has sent one, the
    /// broadcast staying in progress.
    #[verifier::spinoff_prover]
    #[verifier::rlimit(50)]
    pub fn broadcast_share(&mut self, share: DataType, gate_id: usize) -> (outcome: Result<
        Vec<DataType>,
        Halt<DataType>,
    >)
        requires
            old(self)@.connected(),
            old(self)@.exchange matches Some(e) ==> e.gate == gate_id,
        ensures
            final(self).inv() == old(self).inv(),
            old(self)@.arrived.is_prefix_of(final(self)@.arrived),
            old(self)@.taken.is_prefix_of(final(self)@.taken),
            old(self)@.events.is_prefix_of(final(self)@.events),
            final(self)@ == (PartyView {
                exchange: final(self)@.exchange,
                buffer: final(self)@.buffer,
                arrived: final(self)@.arrived,
                events: final(self)@.events,
                taken: final(self)@.taken,
                sent: final(self)@.sent,
                ..old(self)@
            }),
            old(self)@.exchange is Some ==> final(self)@.sent == old(self)@.sent,
            old(self)@.exchange is None ==> final(self)@.sent == old(self)@.sent + outgoing(
                old(self)@.id,
                uniform(old(self)@.n() as nat, share),
                gate_id,
                old(self)@.n() as nat,
            ),
            final(self)@.connected(),
            sent_then_received(old(self)@, final(self)@),
            outcome matches Ok(shares) ==> final(self)@.exchange is None && shares.len() == old(self)@.n()
                && exists|got: Seq<Message<DataType>>| #[trigger]
                completed(
                    begun(old(self)@.exchange, uniform(old(self)@.n() as nat, share), gate_id),
                    got,
                    shares@,
                    final(self)@.arrived,
                    old(self)@.id,
                    old(self)@.n(),
                ) && taken_for(old(self)@, final(self)@, got),
            outcome matches Err(halt) ==> final(self)@.exchange is Some && continued(
                begun(old(self)@.exchange, uniform(old(self)@.n() as nat, share), gate_id),
                final(self)@.exchange->0,
            ) && halted(halt, final(self)@, gate_id) && taken_until(old(self)@, final(self)@, halt),
            old(self)@.n() == 1 ==> outcome is Ok && silent(old(self)@, final(self)@),
            taken_count(
                old(self)@,
                final(self)@,
                match outcome {
                    Ok(_) => None,
                    Err(halt) => Some(halt),
                },
            ),
    {
        if !self.exchanging {
            let n_parties: usize = self.circuit.get_n_parties() as usize;
            let mut values: Vec<DataType> = Vec::new();
            let mut party: usize = 0;
            while party < n_parties
                invariant
                    party <= n_parties,
                    values.len() == party,
                    forall|p: int| 0 <= p < party ==> values[p] == share,
                decreases n_parties - party,
            {
                values.push(share);
                party = party + 1;
            }
            assert(values@ =~= uniform(n_parties as nat, share));
            self.begin(values, gate_id);
        }
        let ghost from: ExchangeView<DataType> = self@.exchange->0;
        assert(from == begun(old(self)@.exchange, uniform(old(self)@.n() as nat, share), gate_id));
        proof {
            if old(self)@.n() == 1 {
                lemma_alone_sends_nothing(uniform(1, share), gate_id, old(self)@.sent);
                assert(silent(old(self)@, self@));
            }
        }
        let outcome: Result<Vec<DataType>, Halt<DataType>> = self.collect(gate_id);
        proof {
            if outcome is Ok {
                let got: Seq<Message<DataType>> = choose|got: Seq<Message<DataType>>| #[trigger]
                    completed(
                        from,
                        got,
                        outcome->Ok_0@,
                        self@.arrived,
                        old(self)@.id,
                        old(self)@.n(),
                    );
                assert(completed(
                    begun(old(self)@.exchange, uniform(old(self)@.n() as nat, share), gate_id),
                    got,
                    outcome->Ok_0@,
                    self@.arrived,
                    old(self)@.id,
                    old(self)@.n(),
                ));
            }
        }
        outcome
    }

    /// Hands every party its share of `poly` and gathers the shares that the
    /// others hand out for gate `gate_id`, each at the place of its
    /// sender. Goes on with the broadcast in progress if there is one. Stops
    /// when the channel has no message to give or a stranger has sent one,
    /// the broadcast staying in progress.
    #[verifier::spinoff_prover]
    #[verifier::rlimit(50)]
    pub fn broadcast_poly(&mut self, poly: Polynomial<DataType>, gate_id: usize) -> (outcome:
        Result<Vec<DataType>, Halt<DataType>>)
        requires
            old(self)@.connected(),
            old(self)@.exchange matches Some(e) ==> e.gate == gate_id,
            poly.wf(),
            poly.modulus() == old(self)@.modulus,
        ensures
            final(self).inv() == old(self).inv(),
            old(self)@.arrived.is_prefix_of(final(self)@.arrived),
            old(self)@.taken.is_prefix_of(final(self)@.taken),
            old(self)@.events.is_prefix_of(final(self)@.events),
            final(self)@ == (PartyView {
                exchange: final(self)@.exchange,
                buffer: final(self)@.buffer,
                arrived: final(self)@.arrived,
                events: final(self)@.events,
                taken: final(self)@.taken,
                sent: final(self)@.sent,
                ..old(self)@
            }),
            old(self)@.exchange is Some ==> final(self)@.sent == old(self)@.sent,
            old(self)@.exchange is None ==> shared_out(
                old(self)@.sent,
                final(self)@.sent,
                old(self)@.id,
                poly.coefficients(),
                gate_id,
                old(self)@.n() as nat,
                old(self)@.modulus,
            ),
            final(self)@.connected(),
            sent_then_received(old(self)@, final(self)@),
            outcome matches Ok(shares) ==> final(self)@.exchange is None && shares.len() == old(self)@.n()
                && exists|got: Seq<Message<DataType>>| #[trigger]
                completed(
                    begun(
                        old(self)@.exchange,
                        elements::<DataType>(
                            shares_of(poly.coefficients(), old(self)@.n() as nat, old(self)@.modulus),
                        ),
                        gate_id,
                    ),
                    got,
                    shares@,
                    final(self)@.arrived,
                    old(self)@.id,
                    old(self)@.n(),
                ) && taken_for(old(self)@, final(self)@, got),
            outcome matches Err(halt) ==> final(self)@.exchange is Some && continued(
                begun(
                    old(self)@.exchange,
                    elements::<DataType>(
                        shares_of(poly.coefficients(), old(self)@.n() as nat, old(self)@.modulus),
                    ),
                    gate_id,
                ),
                final(self)@.exchange->0,
            ) && halted(halt, final(self)@, gate_id) && taken_until(old(self)@, final(self)@, halt),
            old(self)@.n() == 1 ==> outcome is Ok && silent(old(self)@, final(self)@),
            taken_count(
                old(self)@,
                final(self)@,
                match outcome {
                    Ok(_) => None,
                    Err(halt) => Some(halt),
                },
            ),
    {
        if !self.exchanging {
            let n_parties: usize = self.circuit.get_n_parties() as usize;
            let handed: Vec<DataType> = poly.shares(n_parties);
            proof {
                let ideal: Seq<int> = shares_of(poly.coefficients(), n_parties as nat, self@.modulus);
                assert forall|p: int| 0 <= p < n_parties implies handed@[p] == element::<DataType>(
                    #[trigger] ideal[p],
                ) by {
                    lemma_element(handed@[p]);
                }
                assert(handed@ =~= elements::<DataType>(ideal));
            }
            self.begin(handed, gate_id);
        }
        let ghost from: ExchangeView<DataType> = self@.exchange->0;
        let ghost target: ExchangeView<DataType> = begun(
            old(self)@.exchange,
            elements::<DataType>(
                shares_of(poly.coefficients(), old(self)@.n() as nat, old(self)@.modulus),
            ),
            gate_id,
        );
        assert(from == target);
        proof {
            if old(self)@.n() == 1 {
                lemma_alone_sends_nothing(target.begun, gate_id, old(self)@.sent);
                assert(silent(old(self)@, self@));
            }
        }
        let outcome: Result<Vec<DataType>, Halt<DataType>> = self.collect(gate_id);
        proof {
            if outcome is Ok {
                let got: Seq<Message<DataType>> = choose|got: Seq<Message<DataType>>| #[trigger]
                    completed(
                        from,
                        got,
                        outcome->Ok_0@,
                        self@.arrived,
                        old(self)@.id,
                        old(self)@.n(),
                    );
                assert(completed(
                    target,
                    got,
                    outcome->Ok_0@,
                    self@.arrived,
                    old(self)@.id,
                    old(self)@.n(),
                ));
            }
        }
        outcome
    }

    /// The share of the input gate `gate_id`, which the party `party`
    /// supplies from its input `circuit_id`. The party itself shares its
    /// input with a fresh polynomial, sends every other party its share and
    /// keeps its own; another party's share is awaited. The share goes on
    /// record. `None` when the channel has no message to give.
    #[verifier::spinoff_prover]
    #[verifier::rlimit(50)]
    pub fn process_input(&mut self, gate_id: usize, party: usize, circuit_id: usize) -> (outcome:
        Option<DataType>)
        requires
            old(self)@.connected(),
            party < old(self)@.n(),
            party == old(self)@.id ==> circuit_id < old(self)@.secret.len(),
        ensures
            final(self).inv() == old(self).inv(),
            old(self)@.arrived.is_prefix_of(final(self)@.arrived),
            old(self)@.taken.is_prefix_of(final(self)@.taken),
            old(self)@.events.is_prefix_of(final(self)@.events),
            final(self)@ == (PartyView {
                shares: final(self)@.shares,
                buffer: final(self)@.buffer,
                arrived: final(self)@.arrived,
                events: final(self)@.events,
                taken: final(self)@.taken,
                sent: final(self)@.sent,
                ..old(self)@
            }),
            match outcome {
                Some(share) => final(self)@.shares == old(self)@.shares.update(
                    party as int,
                    old(self)@.shares[party as int].insert(gate_id, share),
                ),
                None => final(self)@.shares == old(self)@.shares,
            },
            party == old(self)@.id ==> (outcome matches Some(share) && old(self)@.in_field(share)
                && exists|coeffs: Seq<int>|
                {
                    &&& coeffs.len() == old(self)@.threshold + 1
                    &&& coeffs[0] == old(self)@.secret[circuit_id as int].value()
                    &&& share.value() == horner(coeffs, party + 1) % old(self)@.modulus
                    &&& #[trigger] shared_out(
                        old(self)@.sent,
                        final(self)@.sent,
                        party,
                        coeffs,
                        gate_id,
                        old(self)@.n() as nat,
                        old(self)@.modulus,
                    )
                }),
            party != old(self)@.id ==> final(self)@.sent == old(self)@.sent && match outcome {
                Some(share) => exists|msg: Message<DataType>|
                    msg.payload() == share && final(self)@.arrived.contains(msg)
                        && final(self)@.taken == old(self)@.taken.push(msg) && #[trigger] taken(
                        old(self)@.buffer,
                        final(self)@.buffer,
                        news(old(self)@.arrived, final(self)@.arrived),
                        msg,
                        old(self)@.id,
                        gate_id,
                    ),
                None => starved(
                    old(self)@.buffer,
                    final(self)@.buffer,
                    news(old(self)@.arrived, final(self)@.arrived),
                    old(self)@.id,
                    gate_id,
                ),
            },
            party == old(self)@.id ==> final(self)@.buffer == old(self)@.buffer
                && final(self)@.arrived == old(self)@.arrived && final(self)@.taken
                == old(self)@.taken,
            party != old(self)@.id && outcome is None ==> final(self)@.taken == old(self)@.taken,
            final(self)@.connected(),
            sent_then_received(old(self)@, final(self)@),
    {
        let n_parties: usize = self.circuit.get_n_parties() as usize;
        let ghost before: Seq<Map<usize, DataType>> = self@.shares;
        if self.id == party {
            let poly: Polynomial<DataType> = Polynomial::random(
                self.secret[circuit_id],
                self.threshold,
                self.field.clone(),
            );
            let handed: Vec<DataType> = poly.shares(n_parties);
            self.dispatch(&handed, gate_id);
            let share: DataType = handed[party];
            self.shares[party].insert(gate_id, share);
            assert(self@.shares =~= before.update(
                party as int,
                before[party as int].insert(gate_id, share),
            ));
            proof {
                let ideal: Seq<int> = shares_of(poly.coefficients(), n_parties as nat, self@.modulus);
                assert forall|p: int| 0 <= p < n_parties implies handed@[p] == element::<DataType>(
                    #[trigger] ideal[p],
                ) by {
                    lemma_element(handed@[p]);
                }
                assert(handed@ =~= elements::<DataType>(ideal));
                assert(shared_out(
                    old(self)@.sent,
                    self@.sent,
                    party,
                    poly.coefficients(),
                    gate_id,
                    n_parties as nat,
                    self@.modulus,
                ));
            }
            Some(share)
        } else {
            match self.safe_recv(gate_id) {
                Some(msg) => {
                    let share: DataType = msg.get_share();
                    self.shares[party].insert(gate_id, share);
                    assert(self@.shares =~= before.update(
                        party as int,
                        before[party as int].insert(gate_id, share),
                    ));
                    Some(share)
                },
                None => None,
            }
        }
    }

    /// The share of a sum: the sum of the shares of its operands.
    pub fn process_add(
        &self,
        _gate_id: usize,
        first: &Gate<DataType>,
        second: &Gate<DataType>,
    ) -> (share: DataType)
        requires
            self@.modulus >= 2,
            first.output() is Some,
            second.output() is Some,
        ensures
            share.value() == add_mod(
                first.output()->0.value(),
                second.output()->0.value(),
                self@.modulus,
            ),
            self@.in_field(share),
    {
        self.field.add(first.get_output(), second.get_output())
    }

    /// The share of a product with a constant: the product of the operand's
    /// share and the constant.
    pub fn process_mul_by_const(
        &self,
        _gate_id: usize,
        first: &Gate<DataType>,
        second: DataType,
    ) -> (share: DataType)
        requires
            self@.modulus >= 2,
            first.output() is Some,
        ensures
            share.value() == mul_mod(first.output()->0.value(), second.value(), self@.modulus),
            self@.in_field(share),
    {
        self.field.mul(first.get_output(), second)
    }

    /// The share that the party hands out for the multiplication gate
    /// `gate_id`: the product of the shares of the operands, masked with the
    /// gate's mask of degree `2t`.
    pub fn masked_share(
        &self,
        gate_id: usize,
        first: &Gate<DataType>,
        second: &Gate<DataType>,
    ) -> (share: DataType)
        requires
            self@.modulus >= 2,
            self@.masks.contains_key(gate_id),
            first.output() is Some,
            second.output() is Some,
        ensures
            share.value() == add_mod(
                mul_mod(first.output()->0.value(), second.output()->0.value(), self@.modulus),
                self@.masks[gate_id].1.value(),
                self@.modulus,
            ),
            self@.in_field(share),
    {
        let c_share: DataType = self.field.mul(first.get_output(), second.get_output());
        let mask: Option<&(DataType, DataType)> = self.r_share.get(&gate_id);
        self.field.add(c_share, mask.unwrap().1)
    }

    /// The share of the product at the multiplication gate `gate_id`, from
    /// the masked shares of all parties: the masked product that they
    /// reconstruct, less that gate's mask of degree `t`.
    pub fn reduced_share(&self, gate_id: usize, shares: Vec<DataType>) -> (share: DataType)
        requires
            self@.modulus >= 2,
            self@.n() <= DataType::max_value(),
            self@.masks.contains_key(gate_id),
            shares.len() >= self@.n(),
        ensures
            share.value() == sub_mod(
                interpolation(values(shares@), self@.n() as nat, self@.modulus),
                self@.masks[gate_id].0.value(),
                self@.modulus,
            ),
            self@.in_field(share),
    {
        let n_parties: usize = self.circuit.get_n_parties() as usize;
        let g: DataType = Polynomial::interpolate(shares, &self.field, n_parties);
        let mask: Option<&(DataType, DataType)> = self.r_share.get(&gate_id);
        let low: DataType = mask.unwrap().0;
        self.field.sub(g, low)
    }

    /// The share of a product: the party hands out the masked product of its
    /// operands' shares, gathers those of the others and takes the mask of
    /// degree `t` off what they reconstruct. Goes on with the broadcast in
    /// progress if there is one. Stops when the channel has no message to
    /// give or a stranger has sent one.
    #[verifier::spinoff_prover]
    #[verifier::rlimit(50)]
    pub fn process_mul(
        &mut self,
        gate_id: usize,
        first: &Gate<DataType>,
        second: &Gate<DataType>,
    ) -> (outcome: Result<DataType, Halt<DataType>>)
        requires
            old(self)@.connected(),
            old(self)@.exchange matches Some(e) ==> e.gate == gate_id,
            old(self)@.masks.contains_key(gate_id),
            first.output() is Some,
            second.output() is Some,
        ensures
            final(self).inv() == old(self).inv(),
            old(self)@.arrived.is_prefix_of(final(self)@.arrived),
            old(self)@.taken.is_prefix_of(final(self)@.taken),
            old(self)@.events.is_prefix_of(final(self)@.events),
            final(self)@ == (PartyView {
                exchange: final(self)@.exchange,
                buffer: final(self)@.buffer,
                arrived: final(self)@.arrived,
                events: final(self)@.events,
                taken: final(self)@.taken,
                sent: final(self)@.sent,
                ..old(self)@
            }),
            old(self)@.exchange is Some ==> final(self)@.sent == old(self)@.sent,
            old(self)@.exchange is None ==> handed_out(
                old(self)@.sent,
                final(self)@.sent,
                old(self)@.id,
                add_mod(
                    mul_mod(
                        first.output()->0.value(),
                        second.output()->0.value(),
                        old(self)@.modulus,
                    ),
                    old(self)@.masks[gate_id].1.value(),
                    old(self)@.modulus,
                ),
                gate_id,
                old(self)@.n() as nat,
            ),
            outcome matches Ok(share) ==> final(self)@.exchange is None && old(self)@.in_field(
                share,
            ) && exists|got: Seq<Message<DataType>>| #[trigger]
                reduced_from(
                    begun(
                        old(self)@.exchange,
                        uniform(
                            old(self)@.n() as nat,
                            element::<DataType>(
                                add_mod(
                                    mul_mod(
                                        first.output()->0.value(),
                                        second.output()->0.value(),
                                        old(self)@.modulus,
                                    ),
                                    old(self)@.masks[gate_id].1.value(),
                                    old(self)@.modulus,
                                ),
                            ),
                        ),
                        gate_id,
                    ),
                    got,
                    share,
                    old(self)@.masks[gate_id].0.value(),
                    final(self)@.arrived,
                    old(self)@.id,
                    old(self)@.n(),
                    old(self)@.modulus,
                ) && taken_for(old(self)@, final(self)@, got),
            outcome is Err ==> final(self)@.exchange is Some && continued(
                begun(
                    old(self)@.exchange,
                    uniform(
                        old(self)@.n() as nat,
                        element::<DataType>(
                            add_mod(
                                mul_mod(
                                    first.output()->0.value(),
                                    second.output()->0.value(),
                                    old(self)@.modulus,
                                ),
                                old(self)@.masks[gate_id].1.value(),
                                old(self)@.modulus,
                            ),
                        ),
                    ),
                    gate_id,
                ),
                final(self)@.exchange->0,
            ),
            final(self)@.connected(),
            sent_then_received(old(self)@, final(self)@),
            outcome matches Err(halt) ==> halted(halt, final(self)@, gate_id) && taken_until(
                old(self)@,
                final(self)@,
                halt,
            ),
            old(self)@.n() == 1 ==> outcome is Ok && silent(old(self)@, final(self)@),
    {
        let g_share: DataType = self.masked_share(gate_id, first, second);
        proof {
            lemma_element(g_share);
        }
        let ghost from: ExchangeView<DataType> = begun(
            self@.exchange,
            uniform(self@.n() as nat, g_share),
            gate_id,
        );
        match self.broadcast_share(g_share, gate_id) {
            Ok(shares) => {
                let ghost got: Seq<Message<DataType>> = choose|got: Seq<Message<DataType>>| #[trigger]
                    completed(from, got, shares@, self@.arrived, old(self)@.id, old(self)@.n())
                        && taken_for(old(self)@, self@, got);
                let ghost gathered: Seq<DataType> = shares@;
                let share: DataType = self.reduced_share(gate_id, shares);
                proof {
                    let masked: int = add_mod(
                        mul_mod(
                            first.output()->0.value(),
                            second.output()->0.value(),
                            old(self)@.modulus,
                        ),
                        old(self)@.masks[gate_id].1.value(),
                        old(self)@.modulus,
                    );
                    let target: ExchangeView<DataType> = begun(
                        old(self)@.exchange,
                        uniform(old(self)@.n() as nat, element::<DataType>(masked)),
                        gate_id,
                    );
                    assert(element::<DataType>(masked) == g_share);
                    assert(target == from);
                    assert(gathered == recorded(target.begun, got));
                    assert(round_ok(got, self@.arrived, old(self)@.id, target.gate, old(self)@.n()));
                    assert(share.value() == sub_mod(
                        interpolation(
                            values(recorded(target.begun, got)),
                            old(self)@.n() as nat,
                            old(self)@.modulus,
                        ),
                        old(self)@.masks[gate_id].0.value(),
                        old(self)@.modulus,
                    ));
                    assert(reduced_from(
                        target,
                        got,
                        share,
                        old(self)@.masks[gate_id].0.value(),
                        self@.arrived,
                        old(self)@.id,
                        old(self)@.n(),
                        old(self)@.modulus,
                    ));
                    assert(self@.exchange is None);
                    assert(old(self)@.in_field(share));
                    assert(taken_for(old(self)@, self@, got));
                }
                Ok(share)
            },
            Err(halt) => Err(halt),
        }
    }

    /// An output of the circuit: the party hands out its share `output`,
    /// gathers those of the others, puts them on record under `n_gates` and
    /// reconstructs the output from them. Goes on with the broadcast in
    /// progress if there is one. Stops when the channel has no message to
    /// give or a stranger has sent one.
    #[verifier::spinoff_prover]
    #[verifier::rlimit(50)]
    pub fn process_output(&mut self, n_gates: usize, output: DataType) -> (outcome: Result<
        DataType,
        Halt<DataType>,
    >)
        requires
            old(self)@.connected(),
            old(self)@.exchange matches Some(e) ==> e.gate == n_gates,
        ensures
            final(self).inv() == old(self).inv(),
            old(self)@.arrived.is_prefix_of(final(self)@.arrived),
            old(self)@.taken.is_prefix_of(final(self)@.taken),
            old(self)@.events.is_prefix_of(final(self)@.events),
            final(self)@ == (PartyView {
                exchange: final(self)@.exchange,
                buffer: final(self)@.buffer,
                arrived: final(self)@.arrived,
                events: final(self)@.events,
                taken: final(self)@.taken,
                shares: final(self)@.shares,
                sent: final(self)@.sent,
                ..old(self)@
            }),
            old(self)@.exchange is Some ==> final(self)@.sent == old(self)@.sent,
            old(self)@.exchange is None ==> final(self)@.sent == old(self)@.sent + outgoing(
                old(self)@.id,
                uniform(old(self)@.n() as nat, output),
                n_gates,
                old(self)@.n() as nat,
            ),
            final(self)@.shares.len() == old(self)@.shares.len(),
            outcome matches Ok(value) ==> final(self)@.exchange is None && old(self)@.in_field(
                value,
            ) && exists|got: Seq<Message<DataType>>| #[trigger]
                output_made(
                    begun(old(self)@.exchange, uniform(old(self)@.n() as nat, output), n_gates),
                    got,
                    value,
                    final(self)@.arrived,
                    old(self)@.id,
                    old(self)@.n(),
                    old(self)@.modulus,
                    old(self)@.shares,
                    final(self)@.shares,
                ) && taken_for(old(self)@, final(self)@, got),
            outcome is Err ==> final(self)@.shares == old(self)@.shares && (
            final(self)@.exchange is Some && continued(
                begun(old(self)@.exchange, uniform(old(self)@.n() as nat, output), n_gates),
                final(self)@.exchange->0,
            )),
            final(self)@.connected(),
            sent_then_received(old(self)@, final(self)@),
            outcome matches Err(halt) ==> halted(halt, final(self)@, n_gates) && taken_until(
                old(self)@,
                final(self)@,
                halt,
            ),
            old(self)@.n() == 1 ==> outcome is Ok && silent(old(self)@, final(self)@),
    {
        let n_parties: usize = self.circuit.get_n_parties() as usize;
        let ghost from: ExchangeView<DataType> = begun(
            self@.exchange,
            uniform(self@.n() as nat, output),
            n_gates,
        );
        match self.broadcast_share(output, n_gates) {
            Ok(shares) => {
                let ghost got: Seq<Message<DataType>> = choose|got: Seq<Message<DataType>>| #[trigger]
                    completed(from, got, shares@, self@.arrived, old(self)@.id, old(self)@.n())
                        && taken_for(old(self)@, self@, got);
                self.put_on_record(n_gates, &shares);
                let value: DataType = Polynomial::interpolate(shares, &self.field, n_parties);
                proof {
                    let target: ExchangeView<DataType> = begun(
                        old(self)@.exchange,
                        uniform(old(self)@.n() as nat, output),
                        n_gates,
                    );
                    assert(target == from);
                    assert(reconstructed_from(
                        target,
                        got,
                        value,
                        self@.arrived,
                        old(self)@.id,
                        old(self)@.n(),
                        old(self)@.modulus,
                    ));
                    assert(kept_on_record(
                        old(self)@.shares,
                        self@.shares,
                        n_gates,
                        recorded(target.begun, got),
                    ));
                    assert(output_made(
                        target,
                        got,
                        value,
                        self@.arrived,
                        old(self)@.id,
                        old(self)@.n(),
                        old(self)@.modulus,
                        old(self)@.shares,
                        self@.shares,
                    ));
                    assert(taken_for(old(self)@, self@, got));
                }
                Ok(value)
            },
            Err(halt) => Err(halt),
        }
    }

    /// Puts the shares on record under `key`, each with its party.
    fn put_on_record(&mut self, key: usize, shares: &Vec<DataType>)
        requires
            old(self)@.connected(),
            shares.len() == old(self)@.n(),
        ensures
            final(self).inv() == old(self).inv(),
            final(self)@ == (PartyView { shares: final(self)@.shares, ..old(self)@ }),
            kept_on_record(old(self)@.shares, final(self)@.shares, key, shares@),
            final(self)@.connected(),
    {
        let n_parties: usize = self.circuit.get_n_parties() as usize;
        let mut party: usize = 0;
        while party < n_parties
            invariant
                party <= n_parties,
                n_parties == shares.len(),
                n_parties == self.shares.len(),
                n_parties == old(self)@.shares.len(),
                self.inv() == old(self).inv(),
                self@ == (PartyView { shares: self@.shares, ..old(self)@ }),
                forall|q: int|
                    0 <= q < party ==> #[trigger] self@.shares[q] == old(self)@.shares[q].insert(
                        key,
                        shares[q],
                    ),
                forall|q: int|
                    party <= q < n_parties ==> #[trigger] self@.shares[q] == old(self)@.shares[q],
            decreases n_parties - party,
        {
            let ghost before: Seq<Map<usize, DataType>> = self@.shares;
            self.shares[party].insert(key, shares[party]);
            assert(self@.shares =~= before.update(
                party as int,
                before[party as int].insert(key, shares[party as int]),
            ));
            party = party + 1;
        }
        proof {
            assert(self@.buffer == old(self)@.buffer);
            assert(self@.arrived == old(self)@.arrived);
            assert(self@.kept_arrived());
        }
    }

    /// Whether every multiplication gate has its masks and no setup is in
    /// progress.
    pub fn is_ready(&self) -> (ready: bool)
        requires
            self.wf(),
        ensures
            ready == self@.ready(),
    {
        match self.masking {
            Masking::Idle => {},
            _ => {
                return false;
            },
        }
        proof {
            self@.circuit.lemma_traversal_ordered();
        }
        let mut p: usize = 0;
        while p < self.order.len()
            invariant
                p <= self.order.len(),
                self.wf(),
                dependency_ordered(self@.gates(), self@.order),
                forall|q: int|
                    0 <= q < p && self@.gates()[#[trigger] self@.order[q] as int] is Mul
                        ==> self@.masks.contains_key(self@.order[q]),
            decreases self.order.len() - p,
        {
            let gate_id: usize = self.order[p];
            assert(self@.order[p as int] < self@.gates().len());
            let is_mul: bool = match self.circuit.get_gate(gate_id) {
                Gate::Mul { .. } => true,
                _ => false,
            };
            if is_mul && !self.r_share.contains_key(&gate_id) {
                return false;
            }
            p = p + 1;
        }
        true
    }

    /// Prepares a pair of masks for every multiplication gate: the party
    /// draws a random element and shares it twice, with a polynomial of
    /// degree `t` and with one of degree `2t`, as every other party does, and
    /// reconstructs a value from the shares it gathers of each sharing.
    /// Every gate of the order is set up when it returns `Ok`. It stops
    /// when the channel has no message to give, or when a message that it
    /// waited for names a sender that is none of the parties: the setup goes
    /// on from there when it is called again. Without a multiplication gate
    /// it sends and takes nothing.
    #[verifier::spinoff_prover]
    #[verifier::rlimit(50)]
    pub fn setup(&mut self) -> (outcome: Result<(), Halt<DataType>>)
        requires
            old(self).wf(),
            old(self)@.fresh(),
        ensures
            final(self).wf(),
            final(self)@.fresh(),
            final(self)@.same_task(old(self)@),
            final(self)@.circuit == old(self)@.circuit,
            final(self)@.shares == old(self)@.shares,
            old(self)@.sent.is_prefix_of(final(self)@.sent),
            old(self)@.arrived.is_prefix_of(final(self)@.arrived),
            old(self)@.taken.is_prefix_of(final(self)@.taken),
            old(self)@.events.is_prefix_of(final(self)@.events),
            outcome is Ok ==> final(self)@.ready() && final(self)@.prepared == final(self)@.order.len(),
            outcome matches Err(halt) ==> final(self)@.exchange matches Some(e) && halted(
                halt,
                final(self)@,
                e.gate,
            ),
            old(self)@.n() == 1 || old(self)@.mul_free() ==> outcome is Ok,
            forall|gate: usize| #[trigger]
                final(self)@.masks.contains_key(gate) ==> old(self)@.masks.contains_key(gate) || (
                final(self)@.order.contains(gate) && final(self)@.gates()[gate as int] is Mul),
            old(self)@.mul_free() ==> final(self)@ == (PartyView {
                prepared: final(self)@.prepared,
                ..old(self)@
            }),
            old(self)@.n() == 1 ==> silent(old(self)@, final(self)@),
            exists|lows: Seq<Seq<int>>, highs: Seq<Seq<int>>| #[trigger]
                prepared_from(old(self)@, final(self)@, lows, highs),
            took_for_setup(
                old(self)@,
                final(self)@,
                match outcome {
                    Ok(_) => 0nat,
                    Err(halt) => refused(halt).len(),
                },
            ),
    {
        let n_parties: usize = self.circuit.get_n_parties() as usize;
        let ghost mut lows: Seq<Seq<int>> = Seq::new(
            self@.order.len(),
            |p: int| Seq::<int>::empty(),
        );
        let ghost mut highs: Seq<Seq<int>> = lows;
        proof {
            lemma_prepared_begins(self@, lows, highs);
        }
        while self.prepared < self.order.len()
            invariant
                self.wf(),
                self@.fresh(),
                self@.same_task(old(self)@),
                self@.circuit == old(self)@.circuit,
                self@.shares == old(self)@.shares,
                old(self)@.sent.is_prefix_of(self@.sent),
                old(self)@.arrived.is_prefix_of(self@.arrived),
                old(self)@.taken.is_prefix_of(self@.taken),
                old(self)@.events.is_prefix_of(self@.events),
                n_parties == self@.n(),
                forall|gate: usize| #[trigger]
                    self@.masks.contains_key(gate) ==> old(self)@.masks.contains_key(gate) || (
                    self@.order.contains(gate) && self@.gates()[gate as int] is Mul),
                old(self)@.mul_free() ==> self@ == (PartyView {
                    prepared: self@.prepared,
                    ..old(self)@
                }),
                old(self)@.n() == 1 ==> silent(old(self)@, self@),
                prepared_from(old(self)@, self@, lows, highs),
                took_for_setup(old(self)@, self@, 0),
                self@.masking !is Idle ==> self@ == old(self)@,
            decreases self.order.len() - self.prepared,
        {
            let ghost start: PartyView<DataType> = self@;
            let ghost mut mid_sent: Seq<Message<DataType>> = start.sent;
            let ghost mut mid_taken: int = start.taken.len() as int;
            proof {
                start.circuit.lemma_traversal_ordered();
                assert(start.kept_arrived());
                lemma_nothing_more(start.sent);
            }
            let gate_id: usize = self.order[self.prepared];
            assert(start.order[start.prepared as int] < start.gates().len());
            let is_mul: bool = match self.circuit.get_gate(gate_id) {
                Gate::Mul { .. } => true,
                _ => false,
            };
            if is_mul {
                let ghost mut low_coeffs: Seq<int> = Seq::empty();
                let ghost mut high_coeffs: Seq<int> = Seq::empty();
                let ghost mut got_low: Seq<Message<DataType>> = Seq::empty();
                let ghost mut from: ExchangeView<DataType> = begun(None, Seq::empty(), gate_id);
                let low_shares: Result<Vec<DataType>, Halt<DataType>> = match self.masking {
                    Masking::Idle => {
                        let r: DataType = self.field.random();
                        let s_poly: Polynomial<DataType> = Polynomial::random(
                            r,
                            self.threshold,
                            self.field.clone(),
                        );
                        let t_poly: Polynomial<DataType> = Polynomial::random(
                            r,
                            self.threshold * 2,
                            self.field.clone(),
                        );
                        proof {
                            low_coeffs = s_poly.coefficients();
                            high_coeffs = t_poly.coefficients();
                            from = begun(None, start.dealt(low_coeffs), gate_id);
                        }
                        self.held = Some(t_poly);
                        self.masking = Masking::Low;
                        proof {
                            assert(self@.buffer == start.buffer);
                            assert(self@.arrived == start.arrived);
                            assert(self@.kept_arrived());
                        }
                        let outcome: Result<Vec<DataType>, Halt<DataType>> = self.broadcast_poly(s_poly, gate_id);
                        proof {
                            lemma_block_at_end(start.sent, start.sharing(low_coeffs, gate_id));
                            mid_sent = self@.sent;
                            assert(mid_sent == start.sent + start.sharing(low_coeffs, gate_id));
                        }
                        outcome
                    },
                    Masking::Low => {
                        proof {
                            high_coeffs = start.masking->Low_high;
                            low_coeffs = choose|low: Seq<int>| #[trigger]
                                start.low_pending(gate_id, low, high_coeffs);
                            from = start.exchange->0;
                            lows = lows.update(start.prepared as int, low_coeffs);
                            highs = highs.update(start.prepared as int, high_coeffs);
                            lemma_prepared_begins(start, lows, highs);
                        }
                        self.collect(gate_id)
                    },
                    Masking::High { .. } => Err(Halt::Starved),
                };
                let high_shares: Result<Vec<DataType>, Halt<DataType>> = match self.masking {
                    Masking::Low => {
                        match low_shares {
                            Err(halt) => {
                                proof {
                                    assert(self@.low_pending(
                                        self@.order[self@.prepared as int],
                                        low_coeffs,
                                        self@.masking->Low_high,
                                    ));
                                    lemma_paused(start, self@);
                                    assert(self@.masks == start.masks);
                                    lemma_nothing_more(mid_sent);
                                    lemma_prepared_more(
                                        old(self)@,
                                        start,
                                        self@,
                                        lows,
                                        highs,
                                        low_coeffs,
                                        high_coeffs,
                                        mid_sent,
                                        1,
                                    );
                                    lemma_took_for_setup(
                                        old(self)@,
                                        start,
                                        self@,
                                        mid_taken,
                                        1,
                                        refused(halt).len(),
                                    );
                                }
                                return Err(halt);
                            },
                            Ok(s_shares) => {
                                proof {
                                    got_low = choose|got: Seq<Message<DataType>>| #[trigger]
                                        completed(
                                            from,
                                            got,
                                            s_shares@,
                                            self@.arrived,
                                            self@.id,
                                            self@.n(),
                                        );
                                }
                                let low: DataType = Polynomial::interpolate(
                                    s_shares,
                                    &self.field,
                                    n_parties,
                                );
                                let ghost middle: PartyView<DataType> = self@;
                                proof {
                                    mid_taken = middle.taken.len() as int;
                                    assert(middle.sent == mid_sent);
                                }
                                let t_poly: Polynomial<DataType> = self.held.take().unwrap();
                                self.masking = Masking::High { low };
                                let outcome: Result<Vec<DataType>, Halt<DataType>> = self.broadcast_poly(
                                    t_poly,
                                    gate_id,
                                );
                                proof {
                                    from = begun(None, middle.dealt(high_coeffs), gate_id);
                                    lemma_block_stays(
                                        middle.sent,
                                        self@.sent,
                                        middle.sharing(low_coeffs, gate_id),
                                    );
                                    lemma_block_at_end(
                                        middle.sent,
                                        middle.sharing(high_coeffs, gate_id),
                                    );
                                    lemma_round_stays(
                                        got_low,
                                        middle.arrived,
                                        self@.arrived,
                                        middle.id,
                                        gate_id,
                                        middle.n(),
                                    );
                                    assert(self@.pair_shared(gate_id, low_coeffs, high_coeffs));
                                    assert(self@.mask_made(gate_id, low_coeffs, got_low, low));
                                    assert(self@.sent == mid_sent + start.sharing(
                                        high_coeffs,
                                        gate_id,
                                    ));
                                }
                                outcome
                            },
                        }
                    },
                    Masking::High { low } => {
                        proof {
                            let found = choose|
                                l: Seq<int>,
                                h: Seq<int>,
                                g: Seq<Message<DataType>>,
                            | #[trigger] start.high_pending(gate_id, l, h, g, low);
                            low_coeffs = found.0;
                            high_coeffs = found.1;
                            got_low = found.2;
                            from = start.exchange->0;
                            lows = lows.update(start.prepared as int, low_coeffs);
                            highs = highs.update(start.prepared as int, high_coeffs);
                            lemma_prepared_begins(start, lows, highs);
                        }
                        let outcome: Result<Vec<DataType>, Halt<DataType>> = self.collect(gate_id);
                        proof {
                            lemma_pair_shared_stays(start, self@, gate_id, low_coeffs, high_coeffs);
                            lemma_mask_made_stays(start, self@, gate_id, low_coeffs, got_low, low);
                        }
                        outcome
                    },
                    Masking::Idle => Err(Halt::Starved),
                };
                match high_shares {
                    Err(halt) => {
                        proof {
                            assert(self@.high_pending(
                                self@.order[self@.prepared as int],
                                low_coeffs,
                                high_coeffs,
                                got_low,
                                self@.masking->High_low,
                            ));
                            lemma_paused(start, self@);
                            assert(self@.masks == start.masks);
                            lemma_nothing_more(mid_sent);
                            lemma_prepared_more(
                                old(self)@,
                                start,
                                self@,
                                lows,
                                highs,
                                low_coeffs,
                                high_coeffs,
                                mid_sent,
                                2,
                            );
                            lemma_took_for_setup(
                                old(self)@,
                                start,
                                self@,
                                mid_taken,
                                2,
                                refused(halt).len(),
                            );
                        }
                        return Err(halt);
                    },
                    Ok(t_shares) => {
                        let ghost got_high: Seq<Message<DataType>> = choose|
                            got: Seq<Message<DataType>>,
                        | #[trigger]
                            completed(from, got, t_shares@, self@.arrived, self@.id, self@.n());
                        let high: DataType = Polynomial::interpolate(
                            t_shares,
                            &self.field,
                            n_parties,
                        );
                        let low: DataType = match self.masking {
                            Masking::High { low } => low,
                            _ => self.field.zero(),
                        };
                        let ghost shared: PartyView<DataType> = self@;
                        self.r_share.insert(gate_id, (low, high));
                        self.masking = Masking::Idle;
                        self.prepared = self.prepared + 1;
                        proof {
                            lemma_pair_shared_stays(shared, self@, gate_id, low_coeffs, high_coeffs);
                            lemma_mask_made_stays(shared, self@, gate_id, low_coeffs, got_low, low);
                            assert(self@.mask_made(gate_id, high_coeffs, got_high, high));
                            assert(self@.set_up_with(
                                gate_id,
                                low_coeffs,
                                high_coeffs,
                                got_low,
                                got_high,
                            ));
                            lemma_setup_advanced(start, self@, low, high);
                            assert(self@.order[start.prepared as int] == gate_id);
                            assert(self@.order.contains(gate_id));
                            assert forall|gate: usize| #[trigger]
                                self@.masks.contains_key(gate) implies old(self)@.masks.contains_key(
                                gate,
                            ) || (self@.order.contains(gate) && self@.gates()[gate as int] is Mul) by {
                                if gate != gate_id {
                                    assert(start.masks.contains_key(gate));
                                }
                            }
                            lemma_nothing_more(mid_sent);
                            lemma_prepared_more(
                                old(self)@,
                                start,
                                self@,
                                lows,
                                highs,
                                low_coeffs,
                                high_coeffs,
                                mid_sent,
                                2,
                            );
                            lemma_took_for_setup(old(self)@, start, self@, mid_taken, 2, 0);
                            lows = lows.update(start.prepared as int, low_coeffs);
                            highs = highs.update(start.prepared as int, high_coeffs);
                        }
                    },
                }
            } else {
                self.prepared = self.prepared + 1;
                proof {
                    assert(self@.buffer == start.buffer);
                    assert(self@.arrived == start.arrived);
                    assert(self@.kept_arrived());
                    lemma_setup_advanced(start, self@, arbitrary(), arbitrary());
                    assert(self@.masks == start.masks);
                    assert(self@.order == start.order);
                    assert(self@.gates() == start.gates());
                    assert(self@ == (PartyView { prepared: self@.prepared, ..start }));
                    lemma_prepared_passed(old(self)@, start, self@, lows, highs);
                }
            }
        }
        Ok(())
    }

    /// Evaluates the circuit on shares, gate by gate in the order of the
    /// traversal, and reconstructs the output at every root. Returns the
    /// outputs in the order of the roots. It stops when the channel has no
    /// message to give, or when a message that it waited for in a broadcast
    /// names a sender that is none of the parties: the evaluation goes on
    /// from there when it is called again. What it sends is one block of
    /// messages for each of its inputs, each product and each output, in
    /// that order, and it takes no message but those it waits for.
    #[verifier::spinoff_prover]
    #[verifier::rlimit(50)]
    pub fn run(&mut self) -> (outcome: Result<Vec<DataType>, Halt<DataType>>)
        requires
            old(self).wf(),
            old(self)@.ready(),
        ensures
            final(self).wf(),
            final(self)@.ready(),
            final(self)@.same_task(old(self)@),
            final(self)@.masks == old(self)@.masks,
            old(self)@.sent.is_prefix_of(final(self)@.sent),
            old(self)@.arrived.is_prefix_of(final(self)@.arrived),
            old(self)@.taken.is_prefix_of(final(self)@.taken),
            old(self)@.events.is_prefix_of(final(self)@.events),
            outcome matches Ok(results) ==> final(self)@.finished() && results@ == final(self)@.results,
            outcome matches Err(halt) ==> halted(halt, final(self)@, final(self)@.waits_for()),
            outcome is Err ==> final(self)@.awaits_message(),
            old(self)@.n() == 1 ==> outcome is Ok && silent(old(self)@, final(self)@),
            exists|drawn: Seq<Seq<int>>| #[trigger] ran(old(self)@, final(self)@, drawn),
            took(
                old(self)@,
                final(self)@,
                match outcome {
                    Ok(_) => 0nat,
                    Err(halt) => refused(halt).len(),
                },
            ),
    {
        let n_gates: usize = self.order.len();
        let ghost mut drawn: Seq<Seq<int>> = Seq::new(
            self@.order.len(),
            |p: int| Seq::<int>::empty(),
        );
        proof {
            lemma_ran_begins(self@, drawn);
        }
        while self.evaluated < self.order.len()
            invariant
                self.wf(),
                self@.ready(),
                self@.same_task(old(self)@),
                self@.masks == old(self)@.masks,
                old(self)@.sent.is_prefix_of(self@.sent),
                old(self)@.arrived.is_prefix_of(self@.arrived),
                old(self)@.taken.is_prefix_of(self@.taken),
                old(self)@.events.is_prefix_of(self@.events),
                n_gates == self@.order.len(),
                old(self)@.n() == 1 ==> silent(old(self)@, self@),
                ran(old(self)@, self@, drawn),
                took(old(self)@, self@, 0),
            decreases self.order.len() - self.evaluated,
        {
            let ghost before: PartyView<DataType> = self@;
            let ghost mut coeffs_now: Seq<int> = drawn[self@.evaluated as int];
            proof {
                before.circuit.lemma_traversal_ordered();
                assert(placed_after_operands(before.gates(), before.order, before.evaluated as int));
            }
            let gate_id: usize = self.order[self.evaluated];
            assert(before.order[before.evaluated as int] < before.gates().len());
            let gate: Gate<DataType> = *self.circuit.get_gate(gate_id);
            let output: DataType = match gate {
                Gate::Input { party, circuit_id, .. } => {
                    match self.process_input(gate_id, party, circuit_id) {
                        Some(share) => {
                            proof {
                                if party == before.id {
                                    let coeffs: Seq<int> = choose|coeffs: Seq<int>|
                                        {
                                            &&& coeffs.len() == before.threshold + 1
                                            &&& coeffs[0] == before.secret[circuit_id as int].value()
                                            &&& share.value() == horner(coeffs, party + 1)
                                                % before.modulus
                                            &&& #[trigger] shared_out(
                                                before.sent,
                                                self@.sent,
                                                party,
                                                coeffs,
                                                gate_id,
                                                before.n() as nat,
                                                before.modulus,
                                            )
                                        };
                                    lemma_block_at_end(before.sent, before.sharing(coeffs, gate_id));
                                    assert(self@.input_sent(gate_id, circuit_id, coeffs, share));
                                    coeffs_now = coeffs;
                                    assert(self@.sent == before.sent + before.gate_block(
                                        before.evaluated as int,
                                        coeffs_now,
                                    ));
                                    if before.n() == 1 {
                                        lemma_alone_sends_nothing(
                                            before.dealt(coeffs),
                                            gate_id,
                                            before.sent,
                                        );
                                        assert(silent(before, self@));
                                    }
                                } else {
                                    let msg: Message<DataType> = choose|msg: Message<DataType>|
                                        msg.payload() == share && self@.arrived.contains(msg)
                                            && self@.taken == before.taken.push(msg)
                                            && #[trigger] taken(
                                            before.buffer,
                                            self@.buffer,
                                            news(before.arrived, self@.arrived),
                                            msg,
                                            before.id,
                                            gate_id,
                                        );
                                    assert(self@.input_came(gate_id, msg));
                                    lemma_nothing_more(before.sent);
                                    assert(self@.sent == before.sent + before.gate_block(
                                        before.evaluated as int,
                                        coeffs_now,
                                    ));
                                }
                                assert(self@.newly_accounted(share));
                            }
                            share
                        },
                        None => {
                            proof {
                                lemma_paused(before, self@);
                                lemma_ran_paused(old(self)@, before, self@, drawn);
                                lemma_took_paused(old(self)@, before, self@, 0);
                                assert(refused(Halt::<DataType>::Starved).len() == 0);
                            }
                            return Err(Halt::Starved);
                        },
                    }
                },
                Gate::Add { first, second, .. } => {
                    proof {
                        lemma_operand_ready(before, before.evaluated as int, first);
                        lemma_operand_ready(before, before.evaluated as int, second);
                    }
                    let a: Gate<DataType> = *self.circuit.get_gate(first);
                    let b: Gate<DataType> = *self.circuit.get_gate(second);
                    proof {
                        lemma_nothing_more(before.sent);
                        assert(self@.sent == before.sent + before.gate_block(
                            before.evaluated as int,
                            coeffs_now,
                        ));
                    }
                    self.process_add(gate_id, &a, &b)
                },
                Gate::MulByConst { first, second, .. } => {
                    proof {
                        lemma_operand_ready(before, before.evaluated as int, first);
                    }
                    let a: Gate<DataType> = *self.circuit.get_gate(first);
                    proof {
                        lemma_nothing_more(before.sent);
                        assert(self@.sent == before.sent + before.gate_block(
                            before.evaluated as int,
                            coeffs_now,
                        ));
                    }
                    self.process_mul_by_const(gate_id, &a, second)
                },
                Gate::Mul { first, second, .. } => {
                    proof {
                        lemma_operand_ready(before, before.evaluated as int, first);
                        lemma_operand_ready(before, before.evaluated as int, second);
                    }
                    let a: Gate<DataType> = *self.circuit.get_gate(first);
                    let b: Gate<DataType> = *self.circuit.get_gate(second);
                    let ghost from: ExchangeView<DataType> = begun(
                        before.exchange,
                        before.own(before.masked_value(gate_id, first, second)),
                        gate_id,
                    );
                    assert(before.exchange is Some ==> before.product_pending(gate_id, first, second));
                    let outcome: Result<DataType, Halt<DataType>> = self.process_mul(gate_id, &a, &b);
                    proof {
                        if before.exchange is None {
                            lemma_block_at_end(
                                before.sent,
                                before.handing(before.masked_value(gate_id, first, second), gate_id),
                            );
                        }
                        assert(self@.product_handed(gate_id, first, second));
                        if before.exchange is None {
                            assert(self@.sent == before.sent + before.gate_block(
                                before.evaluated as int,
                                coeffs_now,
                            ));
                        }
                    }
                    match outcome {
                        Ok(share) => {
                            proof {
                                let got: Seq<Message<DataType>> = choose|got: Seq<Message<DataType>>| #[trigger]
                                    reduced_from(
                                        from,
                                        got,
                                        share,
                                        before.masks[gate_id].0.value(),
                                        self@.arrived,
                                        before.id,
                                        before.n(),
                                        before.modulus,
                                    ) && taken_for(before, self@, got);
                                assert(self@.reduction(gate_id, first, second, got, share));
                                assert(self@.taken.len() + before.got_so_far().len()
                                    == before.taken.len() + before.n() - 1);
                                assert(self@.newly_accounted(share));
                            }
                            share
                        },
                        Err(halt) => {
                            proof {
                                assert(self@.product_pending(gate_id, first, second));
                                lemma_paused(before, self@);
                                lemma_ran_paused(old(self)@, before, self@, drawn);
                                lemma_took_paused(old(self)@, before, self@, refused(halt).len());
                            }
                            return Err(halt);
                        },
                    }
                },
            };
            let ghost middle: PartyView<DataType> = self@;
            proof {
                lemma_paused(before, middle);
            }
            self.circuit.get_gate_mut(gate_id).set_output(output);
            self.evaluated = self.evaluated + 1;
            proof {
                lemma_evaluated_one(middle, self@, output);
                lemma_ran_step(old(self)@, before, middle, self@, drawn, coeffs_now, output);
                lemma_took_step(old(self)@, before, middle, self@, output);
                drawn = drawn.update(before.evaluated as int, coeffs_now);
            }
        }
        let roots: Vec<usize> = self.circuit.get_roots();
        while self.results.len() < roots.len()
            invariant
                self.wf(),
                self@.ready(),
                self@.same_task(old(self)@),
                self@.masks == old(self)@.masks,
                old(self)@.sent.is_prefix_of(self@.sent),
                old(self)@.arrived.is_prefix_of(self@.arrived),
                old(self)@.taken.is_prefix_of(self@.taken),
                old(self)@.events.is_prefix_of(self@.events),
                self@.evaluated == self@.order.len(),
                n_gates == self@.order.len(),
                roots@ == self@.circuit.roots(),
                old(self)@.n() == 1 ==> silent(old(self)@, self@),
                ran(old(self)@, self@, drawn),
                took(old(self)@, self@, 0),
            decreases roots.len() - self.results.len(),
        {
            let ghost before: PartyView<DataType> = self@;
            let root: usize = roots[self.results.len()];
            proof {
                before.circuit.lemma_traversal_ordered();
                assert(before.circuit.roots()[before.results.len() as int] == root);
                assert(before.order.contains(root));
                let p: int = choose|p: int| 0 <= p < before.order.len() && before.order[p] == root;
                assert(locally_evaluated(
                    before.gates(),
                    before.gates()[before.order[p] as int],
                    before.modulus,
                ));
            }
            let share: DataType = self.circuit.get_gate(root).get_output();
            let ghost from: ExchangeView<DataType> = begun(
                before.exchange,
                before.own(share.value()),
                n_gates,
            );
            proof {
                lemma_element(share);
                assert(before.exchange is Some ==> before.output_pending(before.results.len() as int));
            }
            let outcome: Result<DataType, Halt<DataType>> = self.process_output(n_gates, share);
            proof {
                if before.exchange is None {
                    lemma_block_at_end(before.sent, before.handing(share.value(), n_gates));
                }
                assert(self@.output_handed(before.results.len() as int));
                if outcome is Err {
                    assert(self@.output_pending(before.results.len() as int));
                }
                lemma_paused(before, self@);
            }
            match outcome {
                Ok(value) => {
                    let ghost middle: PartyView<DataType> = self@;
                    proof {
                        let got: Seq<Message<DataType>> = choose|got: Seq<Message<DataType>>| #[trigger]
                            output_made(
                                from,
                                got,
                                value,
                                middle.arrived,
                                before.id,
                                before.n(),
                                before.modulus,
                                before.shares,
                                middle.shares,
                            ) && taken_for(before, middle, got);
                        assert(middle.output_given(before.results.len() as int, got, value));
                        assert(middle.taken.len() + before.got_so_far().len() == before.taken.len()
                            + before.n() - 1);
                    }
                    self.results.push(value);
                    proof {
                        lemma_output_done(middle, self@, value);
                        lemma_ran_output_step(old(self)@, before, middle, self@, drawn, value);
                        lemma_took_output_step(old(self)@, before, middle, self@, value);
                    }
                },
                Err(halt) => {
                    proof {
                        lemma_ran_paused(old(self)@, before, self@, drawn);
                        lemma_took_paused(old(self)@, before, self@, refused(halt).len());
                    }
                    return Err(halt);
                },
            }
        }
        Ok(copy_of(&self.results))
    }
}

} // verus!
