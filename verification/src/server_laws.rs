//! What becomes of the lines that clients send, of notices and of connections.
use crate::hash::FullHash;
use crate::messages::{Message, Notification, ScriptHashSet};
use crate::server::{
    parse_request, retain_connected, still_connected, Delivery, LineFault, Peers,
};
use vstd::prelude::*;
use vstd::utf8::{decode_utf8, valid_utf8};

verus! {

/// A line starts with the bytes 22, 3 and 1, as the handshake of an encrypted
/// connection does.
pub open spec fn starts_handshake(line: Seq<u8>) -> bool {
    line.len() >= 3 && line.take(3) == seq![22u8, 3, 1]
}

/// A line that holds nothing ends the dialogue. One that looks like a handshake, or
/// is not valid text, is refused with all of its bytes. Every other line is taken
/// as the text that it encodes.
pub proof fn lemma_line_taken(line: Vec<u8>, r: Result<Option<Message>, LineFault>)
    requires
        call_ensures(parse_request, (line,), r),
    ensures
        line@.len() == 0 ==> (r matches Ok(message) && message is None),
        line@.len() > 0 && starts_handshake(line@) ==> (r matches Err(LineFault::Encrypted(bytes))
            && bytes@ == line@),
        line@.len() > 0 && !starts_handshake(line@) && !valid_utf8(line@) ==> (r matches Err(
            LineFault::InvalidUtf8(bytes),
        ) && bytes@ == line@),
        line@.len() > 0 && !starts_handshake(line@) && valid_utf8(line@) ==> (r matches Ok(
            Some(Message::Request(text)),
        ) && text@ == decode_utf8(line@)),
{
    if line@.len() >= 3 {
        let head = line@.take(3);
        assert(line@[0] == head[0] && line@[1] == head[1] && line@[2] == head[2]);
        if line@[0] == 22 && line@[1] == 3 && line@[2] == 1 {
            assert(head =~= seq![22u8, 3, 1]);
        }
    }
}

/// A notice that the mempool or the chain changed tells each connection just that;
/// the notice that the server stops tells them nothing.
pub proof fn lemma_notice_passed_on(
    dirty: ScriptHashSet,
    tip_changed: bool,
    notice: Notification,
    message: Option<Message>,
    none: Option<Message>,
)
    requires
        call_ensures(Notification::periodic, (dirty, tip_changed), notice),
        call_ensures(Notification::message, (&notice,), message),
        call_ensures(Notification::message, (&Notification::Exit,), none),
    ensures
        message matches Some(Message::PeriodicUpdate { dirty: d, tip_changed: c }) && d@ == dirty@
            && c == tip_changed,
        none is None,
{
}

/// A connection that is gone is forgotten, and every other one stays in its place
/// among the rest, whether or not it could take the message.
pub proof fn lemma_connections_kept<S>(
    senders: Seq<S>,
    deliveries: Seq<Delivery>,
    sender: S,
    delivery: Delivery,
)
    requires
        senders.len() == deliveries.len(),
    ensures
        still_connected(Seq::<S>::empty(), Seq::empty()) == Seq::<S>::empty(),
        still_connected(senders.push(sender), deliveries.push(delivery)) == (match delivery {
            Delivery::Disconnected => still_connected(senders, deliveries),
            Delivery::Delivered | Delivery::Full => still_connected(senders, deliveries).push(
                sender,
            ),
        }),
{
    assert(senders.push(sender).drop_last() =~= senders);
    assert(deliveries.push(delivery).drop_last() =~= deliveries);
}

/// Where no connection is gone, all stay.
pub proof fn lemma_all_kept<S>(senders: Seq<S>, deliveries: Seq<Delivery>)
    requires
        senders.len() == deliveries.len(),
        forall|i: int|
            0 <= i < deliveries.len() ==> #[trigger] deliveries[i] != Delivery::Disconnected,
    ensures
        still_connected(senders, deliveries) == senders,
    decreases senders.len(),
{
    if senders.len() > 0 {
        let (a, b) = (senders.drop_last(), deliveries.drop_last());
        assert forall|i: int| 0 <= i < b.len() implies #[trigger] b[i]
            != Delivery::Disconnected by {
            assert(b[i] == deliveries[i]);
        }
        lemma_all_kept(a, b);
        assert(deliveries.last() == deliveries[deliveries.len() - 1]);
        assert(a.push(senders.last()) =~= senders);
    }
}

/// The connections that are kept after messages were sent are those that are not gone,
/// in order.
pub proof fn lemma_connections_retained<S>(senders: &mut Vec<S>, deliveries: Vec<Delivery>)
    requires
        old(senders)@.len() == deliveries@.len(),
        call_ensures(retain_connected::<S>, (senders, &deliveries), ()),
    ensures
        final(senders)@ == still_connected(old(senders)@, deliveries@),
        (forall|i: int|
            0 <= i < deliveries@.len() ==> #[trigger] deliveries@[i] != Delivery::Disconnected)
            ==> final(senders)@ == old(senders)@,
{
    if forall|i: int|
        0 <= i < deliveries@.len() ==> #[trigger] deliveries@[i] != Delivery::Disconnected {
        lemma_all_kept(old(senders)@, deliveries@);
    }
}

/// A thread that is kept under a number is handed out under it, once: it leaves the
/// others, and the number for the next one, as they are.
pub proof fn lemma_thread_handed_out<T>(
    first: &mut Peers<T>,
    second: &mut Peers<T>,
    third: &mut Peers<T>,
    id: u64,
    thread: T,
    out: Option<T>,
    again: Option<T>,
)
    requires
        call_ensures(Peers::<T>::insert, (first, id, thread), ()),
        *old(second) == *final(first),
        call_ensures(Peers::<T>::remove, (second, id), out),
        *old(third) == *final(second),
        call_ensures(Peers::<T>::remove, (third, id), again),
    ensures
        final(first).threads@ == old(first).threads@.insert(id, thread),
        out == Some(thread),
        again is None,
        final(second).threads@ == old(first).threads@.remove(id),
        final(third).threads@ == old(first).threads@.remove(id),
        final(third).next == old(first).next,
{
    assert(old(first).threads@.insert(id, thread).remove(id) =~= old(first).threads@.remove(id));
    assert(old(first).threads@.remove(id).remove(id) =~= old(first).threads@.remove(id));
}

/// At first there are no threads. No two get the same number, and to give a number
/// touches none.
pub proof fn lemma_numbers_fresh<T>(
    none: Peers<T>,
    first: &mut Peers<T>,
    second: &mut Peers<T>,
    a: u64,
    b: u64,
)
    requires
        call_ensures(Peers::<T>::new, (), none),
        call_ensures(Peers::<T>::reserve, (first,), a),
        old(second).next >= final(first).next,
        call_ensures(Peers::<T>::reserve, (second,), b),
    ensures
        none.threads@ == Map::<u64, T>::empty(),
        a < b,
        final(first).threads@ == old(first).threads@,
        !old(first).threads@.contains_key(a),
{
}

/// A set of scripts holds what was put in: at first nothing, and then one script more,
/// which counts as new unless it was there.
pub proof fn lemma_scripts_held(
    none: ScriptHashSet,
    scripts: &mut ScriptHashSet,
    hash: FullHash,
    other: FullHash,
    fresh: bool,
    after: ScriptHashSet,
    held: bool,
    empty: bool,
)
    requires
        call_ensures(ScriptHashSet::new, (), none),
        call_ensures(ScriptHashSet::insert, (scripts, hash), fresh),
        after == *final(scripts),
        call_ensures(ScriptHashSet::contains, (&after, &other), held),
        call_ensures(ScriptHashSet::is_empty, (&after,), empty),
    ensures
        none@ == Set::<FullHash>::empty(),
        final(scripts)@ == old(scripts)@.insert(hash),
        fresh == !old(scripts)@.contains(hash),
        held == (other == hash || old(scripts)@.contains(other)),
        !empty,
{
    assert(after@.contains(hash));
}

} // verus!
