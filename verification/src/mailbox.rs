//! The messages that a party keeps back: which of them it waits for, and what
//! taking one of them leaves.

use crate::message::Message;
use vstd::prelude::*;

verus! {

/// Whether the party `id`, waiting for a share of `gate`, takes `msg`: the
/// message is for that party and that gate.
pub open spec fn awaited<DataType: Copy>(
    msg: Message<DataType>,
    id: usize,
    gate: usize,
) -> bool {
    msg.recipient() == id && msg.gate_id() == gate
}

/// Whether no message of `buffer` is one the party waits for.
pub open spec fn none_awaited<DataType: Copy>(
    buffer: Seq<Message<DataType>>,
    id: usize,
    gate: usize,
) -> bool {
    forall|j: int| 0 <= j < buffer.len() ==> !awaited(#[trigger] buffer[j], id, gate)
}

/// Whether `k` is the place of the message of `buffer` that arrived first
/// among those the party waits for.
pub open spec fn first_awaited<DataType: Copy>(
    buffer: Seq<Message<DataType>>,
    k: int,
    id: usize,
    gate: usize,
) -> bool {
    &&& 0 <= k < buffer.len()
    &&& awaited(buffer[k], id, gate)
    &&& none_awaited(buffer.take(k), id, gate)
}

/// Whether the party has taken `msg` as the message it waited for, the
/// messages kept back going from `before` to `after` while the channel handed
/// over the messages `news`: the message is the one that arrived first among
/// those kept back that the party waited for, it is kept no longer, and the
/// channel handed over nothing; or none was kept back, the message is the
/// last that the channel handed over, and the others are kept back behind
/// those that were, in the order of their arrival.
pub open spec fn taken<DataType: Copy>(
    before: Seq<Message<DataType>>,
    after: Seq<Message<DataType>>,
    news: Seq<Message<DataType>>,
    msg: Message<DataType>,
    id: usize,
    gate: usize,
) -> bool {
    &&& awaited(msg, id, gate)
    &&& {
        ||| exists|k: int|
            first_awaited(before, k, id, gate) && msg == before[k] && after == before.remove(k)
                && news.len() == 0
        ||| {
            &&& none_awaited(before, id, gate)
            &&& news.len() > 0
            &&& news.last() == msg
            &&& after == before + news.drop_last()
            &&& none_awaited(after, id, gate)
        }
    }
}

/// Whether the party has found no message that it waited for, the messages
/// kept back going from `before` to `after` while the channel handed over the
/// messages `news`: they are kept back behind those that were, in the order
/// of their arrival, and nothing of it all is waited for.
pub open spec fn starved<DataType: Copy>(
    before: Seq<Message<DataType>>,
    after: Seq<Message<DataType>>,
    news: Seq<Message<DataType>>,
    id: usize,
    gate: usize,
) -> bool {
    &&& after == before + news
    &&& none_awaited(after, id, gate)
}

/// What the channel has handed over from `before` to `after`.
pub open spec fn news<DataType>(
    before: Seq<Message<DataType>>,
    after: Seq<Message<DataType>>,
) -> Seq<Message<DataType>> {
    after.skip(before.len() as int)
}

/// A message that arrives before the party waits for it is not lost: put
/// behind messages that the party does not wait for, it is the one found when
/// the party comes to wait for it, and taking it out leaves what was there
/// before.
pub proof fn lemma_early_message_is_kept<DataType: Copy>(
    past: Seq<Message<DataType>>,
    early: Message<DataType>,
    id: usize,
    gate: usize,
)
    requires
        none_awaited(past, id, gate),
        awaited(early, id, gate),
    ensures
        first_awaited(past.push(early), past.len() as int, id, gate),
        past.push(early).remove(past.len() as int) == past,
        forall|k: int| first_awaited(past.push(early), k, id, gate) ==> k == past.len(),
{
    let kept = past.push(early);
    assert(kept.take(past.len() as int) == past);
    assert(kept.remove(past.len() as int) =~= past);
    assert forall|k: int| first_awaited(kept, k, id, gate) implies k == past.len() by {
        if k < past.len() {
            assert(kept[k] == past[k]);
        }
    }
}

/// Taking the message that the party waits for out of those kept back leaves
/// every other message where it was, in the order of arrival.
pub proof fn lemma_others_stay<DataType: Copy>(past: Seq<Message<DataType>>, k: int, j: int)
    requires
        0 <= k < past.len(),
        0 <= j < past.len(),
        j != k,
    ensures
        j < k ==> past.remove(k)[j] == past[j],
        j > k ==> past.remove(k)[j - 1] == past[j],
        past.remove(k).len() == past.len() - 1,
{
}

/// No message is lost and none is taken twice: what was kept back and what
/// the channel handed over is what is kept back now, and the message taken.
pub proof fn lemma_nothing_lost<DataType: Copy>(
    before: Seq<Message<DataType>>,
    after: Seq<Message<DataType>>,
    news: Seq<Message<DataType>>,
    msg: Message<DataType>,
    id: usize,
    gate: usize,
)
    requires
        taken(before, after, news, msg, id, gate),
    ensures
        (before + news).to_multiset() =~= after.to_multiset().insert(msg),
{
    broadcast use vstd::multiset::group_multiset_axioms;

    if news.len() == 0 {
        let k: int = choose|k: int|
            first_awaited(before, k, id, gate) && msg == before[k] && after == before.remove(k)
                && news.len() == 0;
        assert(before + news =~= before);
        vstd::seq_lib::to_multiset_remove(before, k);
        before.to_multiset_ensures();
        assert(before.contains(before[k]));
    } else {
        assert(before + news =~= (before + news.drop_last()).push(msg));
        vstd::seq_lib::to_multiset_build(before + news.drop_last(), msg);
    }
}

/// Before any message has come, the account of the messages holds.
pub proof fn lemma_account_begins<DataType: Copy>()
    ensures
        Seq::<Message<DataType>>::empty().to_multiset() == Seq::<Message<DataType>>::empty().to_multiset().add(
            Seq::<Message<DataType>>::empty().to_multiset(),
        ),
{
    let none: Seq<Message<DataType>> = Seq::empty();
    vstd::seq_lib::lemma_multiset_commutative(none, none);
    assert(none + none =~= none);
}

/// Taking a message keeps the account of the messages: when what the
/// channel had handed over was what was kept back and what was taken, it is
/// so again with the message taken and the news.
pub proof fn lemma_account_after_taking<DataType: Copy>(
    before: Seq<Message<DataType>>,
    after: Seq<Message<DataType>>,
    news: Seq<Message<DataType>>,
    arrived: Seq<Message<DataType>>,
    log: Seq<Message<DataType>>,
    msg: Message<DataType>,
    id: usize,
    gate: usize,
)
    requires
        taken(before, after, news, msg, id, gate),
        arrived.to_multiset() == before.to_multiset().add(log.to_multiset()),
    ensures
        (arrived + news).to_multiset() == after.to_multiset().add(log.push(msg).to_multiset()),
{
    broadcast use vstd::multiset::group_multiset_axioms;

    lemma_nothing_lost(before, after, news, msg, id, gate);
    vstd::seq_lib::lemma_multiset_commutative(arrived, news);
    vstd::seq_lib::lemma_multiset_commutative(before, news);
    vstd::seq_lib::to_multiset_build(log, msg);
    let gone = log.push(msg).to_multiset();
    let all = (arrived + news).to_multiset();
    let both = (before + news).to_multiset();
    assert forall|v: Message<DataType>| all.count(v) == after.to_multiset().add(gone).count(v) by {
        assert(all.count(v) == arrived.to_multiset().count(v) + news.to_multiset().count(v));
        assert(both.count(v) == before.to_multiset().count(v) + news.to_multiset().count(v));
        assert(both.count(v) == after.to_multiset().insert(msg).count(v));
        assert(gone.count(v) == log.to_multiset().insert(msg).count(v));
    }
    assert(all =~= after.to_multiset().add(gone));
}

/// Keeping back what the channel hands over keeps the account of the
/// messages.
pub proof fn lemma_account_after_waiting<DataType: Copy>(
    before: Seq<Message<DataType>>,
    after: Seq<Message<DataType>>,
    news: Seq<Message<DataType>>,
    arrived: Seq<Message<DataType>>,
    log: Seq<Message<DataType>>,
    id: usize,
    gate: usize,
)
    requires
        starved(before, after, news, id, gate),
        arrived.to_multiset() == before.to_multiset().add(log.to_multiset()),
    ensures
        (arrived + news).to_multiset() == after.to_multiset().add(log.to_multiset()),
{
    broadcast use vstd::multiset::group_multiset_axioms;

    vstd::seq_lib::lemma_multiset_commutative(arrived, news);
    vstd::seq_lib::lemma_multiset_commutative(before, news);
    let all = (arrived + news).to_multiset();
    assert forall|v: Message<DataType>| all.count(v) == after.to_multiset().add(
        log.to_multiset(),
    ).count(v) by {
        assert(all.count(v) == arrived.to_multiset().count(v) + news.to_multiset().count(v));
        assert(after.to_multiset().count(v) == before.to_multiset().count(v)
            + news.to_multiset().count(v));
    }
    assert(all =~= after.to_multiset().add(log.to_multiset()));
}

} // verus!
