//! The server around its connections: the lines that clients send, the notices
//! that connections get, and the threads that serve them.
use crate::messages::{Message, Notification, ScriptHashSet};
use std::collections::HashMap;
use std::sync::Arc;
use vstd::prelude::*;
use vstd::utf8::{decode_utf8, valid_utf8};

verus! {

/// Why a line from a client is not taken.
#[derive(Debug)]
pub enum LineFault {
    /// It looks like the start of an encrypted connection.
    Encrypted(Vec<u8>),
    /// It is not UTF-8.
    InvalidUtf8(Vec<u8>),
}

/// A line starts as a TLS handshake does.
pub open spec fn looks_encrypted(line: Seq<u8>) -> bool {
    line.len() >= 3 && line[0] == 22 && line[1] == 3 && line[2] == 1
}

/// Takes bytes as text with `String::from_utf8` of the standard library: they
/// have to be valid UTF-8, and are given back where they are not.
#[verifier::external_body]
fn text_of_bytes(bytes: Vec<u8>) -> (r: Result<String, Vec<u8>>)
    ensures
        (match r {
            Ok(text) => valid_utf8(bytes@) && text@ == decode_utf8(bytes@),
            Err(back) => !valid_utf8(bytes@) && back@ == bytes@,
        }),
{
    String::from_utf8(bytes).map_err(|e| e.into_bytes())
}

/// What a connection is told of a line from its client; nothing where the client
/// is gone.
pub fn parse_request(line: Vec<u8>) -> (r: Result<Option<Message>, LineFault>)
    ensures
        (match r {
            Ok(None) => line@.len() == 0,
            Ok(Some(message)) => {
                &&& line@.len() > 0 && !looks_encrypted(line@) && valid_utf8(line@)
                &&& message matches Message::Request(text) && text@ == decode_utf8(line@)
            },
            Err(LineFault::Encrypted(bytes)) => looks_encrypted(line@) && bytes@ == line@,
            Err(LineFault::InvalidUtf8(bytes)) => {
                &&& line@.len() > 0 && !looks_encrypted(line@) && !valid_utf8(line@)
                &&& bytes@ == line@
            },
        }),
{
    if line.is_empty() {
        return Ok(None);
    }
    if line.len() >= 3 && line[0] == 22 && line[1] == 3 && line[2] == 1 {
        return Err(LineFault::Encrypted(line));
    }
    match text_of_bytes(line) {
        Ok(text) => Ok(Some(Message::Request(text))),
        Err(bytes) => Err(LineFault::InvalidUtf8(bytes)),
    }
}

impl Notification {
    /// The notice that the mempool state of some scripts or the chain changed.
    pub fn periodic(dirty: ScriptHashSet, tip_changed: bool) -> (r: Notification)
        ensures
            r matches Notification::Periodic { dirty: d, tip_changed: c } && d@ == dirty@ && c
                == tip_changed,
    {
        Notification::Periodic { dirty: Arc::new(dirty), tip_changed }
    }

    /// What each connection is told; nothing where the server stops.
    pub fn message(&self) -> (r: Option<Message>)
        ensures
            (match *self {
                Notification::Periodic { dirty, tip_changed } => r == Some(
                    Message::PeriodicUpdate { dirty, tip_changed },
                ),
                Notification::Exit => r is None,
            }),
    {
        match self {
            Notification::Periodic { dirty, tip_changed } => Some(
                Message::PeriodicUpdate { dirty: Arc::clone(dirty), tip_changed: *tip_changed },
            ),
            Notification::Exit => None,
        }
    }
}

/// What became of a message to a connection.
#[derive(Clone, Copy, Debug, PartialEq, Eq, Structural)]
pub enum Delivery {
    Delivered,
    /// The connection has too many messages waiting.
    Full,
    /// The connection is gone.
    Disconnected,
}

/// Those connections, in order, that are not gone.
pub open spec fn still_connected<S>(senders: Seq<S>, deliveries: Seq<Delivery>) -> Seq<S>
    decreases senders.len(),
{
    if senders.len() == 0 {
        Seq::empty()
    } else if deliveries.last() == Delivery::Disconnected {
        still_connected(senders.drop_last(), deliveries.drop_last())
    } else {
        still_connected(senders.drop_last(), deliveries.drop_last()).push(senders.last())
    }
}

/// Forgets the connections that are gone. One that cannot take a message now
/// misses it, and stays.
pub fn retain_connected<S>(senders: &mut Vec<S>, deliveries: &Vec<Delivery>)
    requires
        old(senders)@.len() == deliveries@.len(),
    ensures
        final(senders)@ == still_connected(old(senders)@, deliveries@),
{
    let ghost all = senders@;
    let mut kept: usize = 0;
    let mut i: usize = 0;
    proof {
        assert(senders@ =~= still_connected(all.take(0), deliveries@.take(0)) + all.skip(0));
    }
    while i < deliveries.len()
        invariant
            kept <= i <= deliveries@.len(),
            all.len() == deliveries@.len(),
            kept == still_connected(all.take(i as int), deliveries@.take(i as int)).len(),
            senders@ == still_connected(all.take(i as int), deliveries@.take(i as int)) + all.skip(
                i as int,
            ),
        decreases deliveries@.len() - i,
    {
        let ghost before = still_connected(all.take(i as int), deliveries@.take(i as int));
        proof {
            assert(all.take(i + 1).drop_last() =~= all.take(i as int));
            assert(deliveries@.take(i + 1).drop_last() =~= deliveries@.take(i as int));
            assert(senders@[kept as int] == all[i as int]);
            assert(before + all.skip(i as int) =~= before.push(all[i as int]) + all.skip(i + 1));
            assert((before + all.skip(i as int)).remove(kept as int) =~= before + all.skip(i + 1));
        }
        if deliveries[i] == Delivery::Disconnected {
            let _ = senders.remove(kept);
        } else {
            kept = kept + 1;
        }
        i = i + 1;
    }
    proof {
        assert(all.take(i as int) =~= all);
        assert(deliveries@.take(i as int) =~= deliveries@);
        assert(still_connected(all, deliveries@) + all.skip(i as int) =~= still_connected(
            all,
            deliveries@,
        ));
    }
}

/// The threads that serve connections, each under a number of its own.
pub struct Peers<T> {
    pub threads: HashMap<u64, T>,
    /// The number for the next thread.
    pub next: u64,
}

impl<T> Peers<T> {
    /// No thread has a number that is still to be given.
    pub open spec fn wf(&self) -> bool {
        forall|id: u64| #[trigger] self.threads@.contains_key(id) ==> id < self.next
    }

    /// No threads.
    pub fn new() -> (r: Peers<T>)
        ensures
            r.wf(),
            r.threads@ == Map::<u64, T>::empty(),
    {
        Peers { threads: HashMap::new(), next: 0 }
    }

    /// Gives a number that no thread has.
    pub fn reserve(&mut self) -> (id: u64)
        requires
            old(self).wf(),
            old(self).next < u64::MAX,
        ensures
            final(self).wf(),
            final(self).next == old(self).next + 1,
            final(self).threads@ == old(self).threads@,
            id == old(self).next,
            id < final(self).next,
            !final(self).threads@.contains_key(id),
    {
        let id: u64 = self.next;
        self.next = id + 1;
        id
    }

    /// Keeps a thread under its number.
    pub fn insert(&mut self, id: u64, thread: T)
        requires
            old(self).wf(),
            id < old(self).next,
        ensures
            final(self).wf(),
            final(self).next == old(self).next,
            final(self).threads@ == old(self).threads@.insert(id, thread),
    {
        broadcast use vstd::std_specs::hash::group_hash_axioms;

        let _ = self.threads.insert(id, thread);
    }

    /// Hands a thread out that has ended, so that it can be waited for. Another
    /// time there is nothing to hand out.
    pub fn remove(&mut self, id: u64) -> (r: Option<T>)
        requires
            old(self).wf(),
        ensures
            final(self).wf(),
            final(self).next == old(self).next,
            final(self).threads@ == old(self).threads@.remove(id),
            (match r {
                Some(thread) => old(self).threads@.contains_key(id) && thread
                    == old(self).threads@[id],
                None => !old(self).threads@.contains_key(id),
            }),
    {
        broadcast use vstd::std_specs::hash::group_hash_axioms;

        self.threads.remove(&id)
    }
}

} // verus!
