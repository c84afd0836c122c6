//! The queries sent to one upstream resolver and not yet answered, keyed by
//! transaction id, each with the handle of the caller waiting for its answer.
use crate::payload::{be_u16, Payload};
use std::collections::HashMap;
use vstd::prelude::*;

verus! {

broadcast use vstd::std_specs::hash::group_hash_axioms;

/// The table after an answer `b` arrives: the entry under the answer's id
/// leaves it, if there is one.
pub open spec fn after_answer<R>(m: Map<u16, R>, b: Seq<u8>) -> Map<u16, R> {
    if b.len() >= 2 {
        m.remove(be_u16(b))
    } else {
        m
    }
}

/// The caller that an answer `b` goes to: the one registered under the
/// answer's id, if any. A datagram too short to hold an id goes to nobody.
pub open spec fn answer_owner<R>(m: Map<u16, R>, b: Seq<u8>) -> Option<R> {
    if b.len() >= 2 && m.contains_key(be_u16(b)) {
        Some(m[be_u16(b)])
    } else {
        None
    }
}

/// A command to the task that owns an upstream's table.
#[derive(Debug)]
pub enum DnsCommand<R> {
    /// Send `payload` upstream; `resp` waits for the answer.
    Query { payload: Payload, resp: R },
    /// The caller waiting for the answer to `id` gave up.
    TimedOut { id: u16 },
}

/// Pending queries, at most one per transaction id: a newer query under the
/// same id replaces the older one.
pub struct PendingMap<R> {
    map: HashMap<u16, R>,
}

impl<R> View for PendingMap<R> {
    type V = Map<u16, R>;

    closed spec fn view(&self) -> Map<u16, R> {
        self.map@
    }
}

impl<R> PendingMap<R> {
    /// An empty table.
    pub fn new() -> (r: PendingMap<R>)
        ensures
            r@ == Map::<u16, R>::empty(),
    {
        PendingMap { map: HashMap::new() }
    }

    /// Records that the caller `resp` waits for the answer to query `id`,
    /// replacing any entry under the same id.
    pub fn register(&mut self, id: u16, resp: R)
        ensures
            final(self)@ == old(self)@.insert(id, resp),
    {
        self.map.insert(id, resp);
    }

    /// Forgets the query `id` once its caller gave up waiting; nothing
    /// happens if it was already answered.
    pub fn expire(&mut self, id: u16)
        ensures
            final(self)@ == old(self)@.remove(id),
    {
        self.map.remove(&id);
    }

    /// A query `id` is waiting.
    pub fn contains(&self, id: u16) -> (r: bool)
        ensures
            r == self@.contains_key(id),
    {
        self.map.contains_key(&id)
    }

    /// Applies a command to the table and returns the datagram to send
    /// upstream, if any: a query is registered under its id before it is
    /// sent, so that an early answer finds its caller; a query too short to
    /// hold an id is dropped; a time-out forgets its query.
    pub fn apply(&mut self, cmd: DnsCommand<R>) -> (r: Option<Payload>)
        ensures
            match cmd {
                DnsCommand::Query { payload, resp } => if payload@.len() >= 2 {
                    &&& final(self)@ == old(self)@.insert(be_u16(payload@), resp)
                    &&& r == Some(payload)
                } else {
                    &&& final(self)@ == old(self)@
                    &&& r is None
                },
                DnsCommand::TimedOut { id } => {
                    &&& final(self)@ == old(self)@.remove(id)
                    &&& r is None
                },
            },
    {
        match cmd {
            DnsCommand::Query { payload, resp } => {
                match payload.id() {
                    Some(id) => {
                        self.register(id, resp);
                        Some(payload)
                    },
                    None => None,
                }
            },
            DnsCommand::TimedOut { id } => {
                self.expire(id);
                None
            },
        }
    }

    /// Takes an upstream answer: returns the waiting caller with the answer,
    /// unchanged, and forgets the query; an answer that nobody waits for is
    /// dropped.
    pub fn deliver(&mut self, answer: Payload) -> (r: Option<(R, Payload)>)
        ensures
            final(self)@ == after_answer(old(self)@, answer@),
            match answer_owner(old(self)@, answer@) {
                Some(resp) => r == Some((resp, answer)),
                None => r is None,
            },
    {
        let id = match answer.id() {
            Some(id) => id,
            None => {
                return None;
            },
        };
        match self.map.remove(&id) {
            Some(resp) => Some((resp, answer)),
            None => None,
        }
    }
}

/// An answer to a registered query reaches the caller that registered it,
/// byte for byte, and the query leaves the table.
pub proof fn lemma_answer_reaches_caller<R>(m: Map<u16, R>, id: u16, resp: R, b: Seq<u8>)
    requires
        b.len() >= 2,
        be_u16(b) == id,
    ensures
        answer_owner(m.insert(id, resp), b) == Some(resp),
        !after_answer(m.insert(id, resp), b).contains_key(id),
{
}

/// Once a query has expired it is no longer pending, and a late answer to it
/// goes to nobody and leaves the table as it is.
pub proof fn lemma_late_answer_dropped<R>(m: Map<u16, R>, id: u16, b: Seq<u8>)
    requires
        b.len() >= 2,
        be_u16(b) == id,
    ensures
        !m.remove(id).contains_key(id),
        answer_owner(m.remove(id), b) is None,
        after_answer(m.remove(id), b) == m.remove(id),
{
    assert(m.remove(id).remove(id) =~= m.remove(id));
}

} // verus!
