//! The channels of a party, with the record of what passes through them: one
//! order over all that the party hands to its sending channels and all that
//! its receiving channel gives.

use crate::message::Message;
use crate::share_receiver::ShareReceiver;
use crate::share_sender::ShareSender;
use vstd::prelude::*;

verus! {

/// One passage of a message through a channel of a party.
pub enum Event<DataType> {
    /// The party has handed `msg` to its sending channel number `line`.
    Sent { line: usize, msg: Message<DataType> },
    /// The receiving channel has given `msg` to the party.
    Got { msg: Message<DataType> },
}

/// The messages that the events hand to sending channels, in their order.
pub open spec fn messages_sent<DataType>(events: Seq<Event<DataType>>) -> Seq<Message<DataType>>
    decreases events.len(),
{
    if events.len() == 0 {
        Seq::empty()
    } else {
        match events.last() {
            Event::Sent { msg, .. } => messages_sent(events.drop_last()).push(msg),
            Event::Got { .. } => messages_sent(events.drop_last()),
        }
    }
}

/// The messages that the receiving channel gives in the events, in their
/// order.
pub open spec fn messages_got<DataType>(events: Seq<Event<DataType>>) -> Seq<Message<DataType>>
    decreases events.len(),
{
    if events.len() == 0 {
        Seq::empty()
    } else {
        match events.last() {
            Event::Sent { .. } => messages_got(events.drop_last()),
            Event::Got { msg } => messages_got(events.drop_last()).push(msg),
        }
    }
}

/// The messages that the events hand to the sending channel number `line`,
/// in their order.
pub open spec fn messages_on<DataType>(events: Seq<Event<DataType>>, line: usize) -> Seq<
    Message<DataType>,
>
    decreases events.len(),
{
    if events.len() == 0 {
        Seq::empty()
    } else {
        match events.last() {
            Event::Sent { line: at, msg } => if at == line {
                messages_on(events.drop_last(), line).push(msg)
            } else {
                messages_on(events.drop_last(), line)
            },
            Event::Got { .. } => messages_on(events.drop_last(), line),
        }
    }
}

/// Whether every message that the events hand to a sending channel goes to
/// the channel of its recipient.
pub open spec fn on_their_lines<DataType: Copy>(events: Seq<Event<DataType>>) -> bool {
    forall|k: int|
        0 <= k < events.len() ==> (#[trigger] events[k] matches Event::Sent { line, msg } ==> line
            == msg.recipient())
}

/// The events by which the party hands each of the messages to the channel
/// of its recipient, in their order.
pub open spec fn sendings<DataType: Copy>(msgs: Seq<Message<DataType>>) -> Seq<Event<DataType>> {
    Seq::new(msgs.len(), |k: int| Event::Sent { line: msgs[k].recipient(), msg: msgs[k] })
}

/// The events by which the receiving channel gives each of the messages, in
/// their order.
pub open spec fn receipts<DataType>(msgs: Seq<Message<DataType>>) -> Seq<Event<DataType>> {
    Seq::new(msgs.len(), |k: int| Event::Got { msg: msgs[k] })
}

/// What the events hand over and give, when more events follow: what the
/// first did, and then what those that follow do.
pub proof fn lemma_messages_of_both<DataType>(
    first: Seq<Event<DataType>>,
    more: Seq<Event<DataType>>,
)
    ensures
        messages_sent(first + more) == messages_sent(first) + messages_sent(more),
        messages_got(first + more) == messages_got(first) + messages_got(more),
    decreases more.len(),
{
    if more.len() == 0 {
        assert(first + more =~= first);
        assert(messages_sent(first) + messages_sent(more) =~= messages_sent(first));
        assert(messages_got(first) + messages_got(more) =~= messages_got(first));
    } else {
        let all: Seq<Event<DataType>> = first + more;
        assert(all.drop_last() =~= first + more.drop_last());
        assert(all.last() == more.last());
        lemma_messages_of_both(first, more.drop_last());
        match more.last() {
            Event::Sent { msg, .. } => {
                assert(messages_sent(all) =~= messages_sent(first) + messages_sent(more));
            },
            Event::Got { msg } => {
                assert(messages_got(all) =~= messages_got(first) + messages_got(more));
            },
        }
    }
}

/// Handing messages over hands over these messages, and gives none.
pub proof fn lemma_messages_of_sendings<DataType: Copy>(msgs: Seq<Message<DataType>>)
    ensures
        messages_sent(sendings(msgs)) == msgs,
        messages_got(sendings(msgs)) == Seq::<Message<DataType>>::empty(),
        on_their_lines(sendings(msgs)),
    decreases msgs.len(),
{
    if msgs.len() > 0 {
        lemma_messages_of_sendings(msgs.drop_last());
        assert(sendings(msgs).drop_last() =~= sendings(msgs.drop_last()));
        assert(messages_sent(sendings(msgs)) =~= msgs);
    } else {
        assert(messages_sent(sendings(msgs)) =~= msgs);
    }
}

/// Giving messages gives these messages, and hands over none.
pub proof fn lemma_messages_of_receipts<DataType: Copy>(msgs: Seq<Message<DataType>>)
    ensures
        messages_got(receipts(msgs)) == msgs,
        messages_sent(receipts(msgs)) == Seq::<Message<DataType>>::empty(),
        on_their_lines(receipts(msgs)),
    decreases msgs.len(),
{
    if msgs.len() > 0 {
        lemma_messages_of_receipts(msgs.drop_last());
        assert(receipts(msgs).drop_last() =~= receipts(msgs.drop_last()));
        assert(messages_got(receipts(msgs)) =~= msgs);
    } else {
        assert(messages_got(receipts(msgs)) =~= msgs);
    }
}

/// Events that follow each other go to the channels of their recipients when
/// each part does.
pub proof fn lemma_on_their_lines<DataType: Copy>(
    first: Seq<Event<DataType>>,
    more: Seq<Event<DataType>>,
)
    requires
        on_their_lines(first),
        on_their_lines(more),
    ensures
        on_their_lines(first + more),
{
    let all: Seq<Event<DataType>> = first + more;
    assert forall|k: int| 0 <= k < all.len() implies (#[trigger] all[k] matches Event::Sent {
        line,
        msg,
    } ==> line == msg.recipient()) by {
        if k < first.len() {
            assert(all[k] == first[k]);
        } else {
            assert(all[k] == more[k - first.len()]);
        }
    }
}

/// The channels of a party: one that gives it the messages that arrive, and
/// one for every party to hand messages to. Nothing passes through them but
/// by `send_to` and `receive`, which put it on record.
#[verifier::reject_recursive_types(DataType)]
pub struct Link<DataType> {
    rx: Box<dyn ShareReceiver<Message<DataType>>>,
    txs: Vec<Box<dyn ShareSender<Message<DataType>>>>,
    events: Ghost<Seq<Event<DataType>>>,
}

impl<DataType: Copy> Link<DataType> {
    /// What has passed through the channels since they were put together,
    /// oldest first.
    pub closed spec fn events(&self) -> Seq<Event<DataType>> {
        self.events@
    }

    /// The number of sending channels.
    pub closed spec fn lines(&self) -> nat {
        self.txs.len() as nat
    }

    /// Puts the channels together; nothing has passed through them.
    pub fn new(
        rx: Box<dyn ShareReceiver<Message<DataType>>>,
        txs: Vec<Box<dyn ShareSender<Message<DataType>>>>,
    ) -> (link: Self)
        ensures
            link.events() == Seq::<Event<DataType>>::empty(),
            link.lines() == txs.len(),
    {
        Link { rx, txs, events: Ghost(Seq::empty()) }
    }

    /// Hands `msg` to the sending channel number `line`.
    pub fn send_to(&mut self, line: usize, msg: Message<DataType>)
        requires
            line < old(self).lines(),
        ensures
            final(self).lines() == old(self).lines(),
            final(self).events() == old(self).events().push(Event::Sent { line, msg }),
    {
        self.txs[line].send(msg);
        proof {
            self.events = Ghost(self.events@.push(Event::Sent { line, msg }));
        }
    }

    /// The next message that the receiving channel gives, if it gives one.
    pub fn receive(&mut self) -> (next: Option<Message<DataType>>)
        ensures
            final(self).lines() == old(self).lines(),
            final(self).events() == match next {
                Some(msg) => old(self).events().push(Event::Got { msg }),
                None => old(self).events(),
            },
    {
        let next: Option<Message<DataType>> = self.rx.recv();
        proof {
            if next is Some {
                self.events = Ghost(self.events@.push(Event::Got { msg: next->0 }));
            }
        }
        next
    }
}

} // verus!
