//! Transaction bookkeeping for outstanding queries.
//!
//! Each peer owns a rolling 16-bit token counter and a table from
//! issued token to the waiter handle of the caller that awaits the
//! reply.  The registry here is the decision core of the request /
//! reply multiplexer: the host locks it, asks for the next token or
//! routes a reply, and performs the socket and timer work itself with
//! the handles these methods hand back.  Replies are matched strictly
//! by `(peer, token)` equality; a reply for an unknown pair routes to
//! no waiter.
//!
//! A peer's entry survives even when no query is outstanding: only
//! `declare_dead` drops it, because dropping would reset the counter
//! and risk reissuing a token that is still in flight.

use vstd::prelude::*;
use std::collections::HashMap;

verus! {

broadcast use vstd::std_specs::hash::group_hash_axioms;

pub type QueryId = u16;

/// Big-endian bytes of a transaction token, as it travels on the wire.
pub open spec fn spec_token_bytes(id: u16) -> Seq<u8> {
    seq![(id / 256) as u8, (id % 256) as u8]
}

/// Renders a token as its two big-endian wire bytes.
pub fn token_bytes(id: u16) -> (r: Vec<u8>)
    ensures
        r@ == spec_token_bytes(id),
{
    let mut r: Vec<u8> = Vec::new();
    r.push((id / 256) as u8);
    r.push((id % 256) as u8);
    proof {
        assert(r@ =~= spec_token_bytes(id));
    }
    r
}

/// Reads a two-byte wire token back into its counter value; any
/// other length is no token this queue issued.
pub fn token_id(t: &[u8]) -> (r: Option<u16>)
    ensures
        match r {
            Some(v) => t@.len() == 2 && spec_token_bytes(v) == t@,
            None => t@.len() != 2,
        },
{
    if t.len() == 2 {
        let v = (t[0] as u16) * 256 + (t[1] as u16);
        proof {
            assert(v / 256 == t@[0] && v % 256 == t@[1]) by (nonlinear_arith)
                requires
                    v == (t@[0] as u16) * 256 + (t@[1] as u16),
                    t@[0] < 256,
                    t@[1] < 256,
            ;
            assert(spec_token_bytes(v) =~= t@);
        }
        Some(v)
    } else {
        None
    }
}

/// Bookkeeping for one peer: the token counter and the waiters of
/// its outstanding queries.
pub struct NodeQueue {
    id: u16,
    waiting_for_reply: HashMap<u16, u64>,
}

impl NodeQueue {
    /// The last token issued; the next one will be this plus one,
    /// modulo 2^16.
    pub closed spec fn counter(&self) -> u16 {
        self.id
    }

    /// The outstanding queries: token to waiter handle.
    pub closed spec fn waiting(&self) -> Map<u16, u64> {
        self.waiting_for_reply@
    }

    pub fn new() -> (r: NodeQueue)
        ensures
            r.counter() == 0,
            r.waiting() == Map::<u16, u64>::empty(),
    {
        NodeQueue { id: 0, waiting_for_reply: HashMap::new() }
    }

    /// Pre-increments the counter, wrapping modulo 2^16, and returns
    /// the new value: the first token issued is 1.
    pub fn get_next_id(&mut self) -> (r: u16)
        ensures
            r == final(self).counter(),
            final(self).counter() == (old(self).counter() + 1) % 0x10000,
            final(self).waiting() == old(self).waiting(),
    {
        self.id = self.id.wrapping_add(1);
        self.id
    }

    /// Registers a waiter for a token.  A waiter still sitting under
    /// the same token is overwritten and thereby abandoned: its
    /// caller will observe a timeout.
    pub fn add_reply_info(&mut self, id: u16, waiter: u64)
        ensures
            final(self).counter() == old(self).counter(),
            final(self).waiting() == old(self).waiting().insert(id, waiter),
    {
        self.waiting_for_reply.insert(id, waiter);
    }

    /// Takes the waiter registered for `id`, if any, removing it.
    pub fn got_reply(&mut self, id: u16) -> (r: Option<u64>)
        ensures
            final(self).counter() == old(self).counter(),
            match r {
                Some(w) => {
                    &&& old(self).waiting().contains_key(id)
                    &&& w == old(self).waiting()[id]
                    &&& final(self).waiting() == old(self).waiting().remove(id)
                },
                None => {
                    &&& !old(self).waiting().contains_key(id)
                    &&& final(self).waiting() == old(self).waiting()
                },
            },
    {
        let r = self.waiting_for_reply.remove(&id);
        proof {
            if r is None {
                assert(self.waiting_for_reply@ =~= old(self).waiting_for_reply@);
            }
        }
        r
    }

    /// Drops the waiter registered for `id`, if any.
    pub fn remove(&mut self, id: u16)
        ensures
            final(self).counter() == old(self).counter(),
            final(self).waiting() == old(self).waiting().remove(id),
    {
        self.waiting_for_reply.remove(&id);
        proof {
            if !old(self).waiting().contains_key(id) {
                assert(self.waiting_for_reply@ =~= old(self).waiting_for_reply@.remove(id));
            }
        }
    }
}

impl Default for NodeQueue {
    fn default() -> (r: NodeQueue)
        ensures
            r.counter() == 0,
            r.waiting() == Map::<u16, u64>::empty(),
    {
        NodeQueue::new()
    }
}

/// The process-wide registry of per-peer queues, keyed by an opaque
/// peer key the host derives from the peer's socket address.
pub struct QueryQueue {
    timeout_ms: u64,
    nodes: HashMap<u64, NodeQueue>,
}

impl QueryQueue {
    /// The reply deadline, in milliseconds, that the host should
    /// apply to each query.
    pub closed spec fn timeout(&self) -> u64 {
        self.timeout_ms
    }

    pub closed spec fn peers(&self) -> Map<u64, NodeQueue> {
        self.nodes@
    }

    /// The waiter registered under `(peer, id)`, if any.
    pub open spec fn waiter_at(&self, peer: u64, id: u16) -> Option<u64> {
        if self.peers().contains_key(peer) && self.peers()[peer].waiting().contains_key(id) {
            Some(self.peers()[peer].waiting()[id])
        } else {
            None
        }
    }

    /// The token counter of a peer; a peer never seen counts from 0.
    pub open spec fn counter_of(&self, peer: u64) -> u16 {
        if self.peers().contains_key(peer) {
            self.peers()[peer].counter()
        } else {
            0
        }
    }

    pub fn new(timeout_ms: u64) -> (r: QueryQueue)
        ensures
            r.timeout() == timeout_ms,
            r.peers() == Map::<u64, NodeQueue>::empty(),
    {
        QueryQueue { timeout_ms, nodes: HashMap::new() }
    }

    /// Reads back the configured deadline.
    pub fn timeout_ms(&self) -> (r: u64)
        ensures
            r == self.timeout(),
    {
        self.timeout_ms
    }

    /// Allocates the next token for `peer`, creating its queue on
    /// first contact.  No waiter is registered yet.
    pub fn get_next_id(&mut self, peer: u64) -> (r: u16)
        ensures
            final(self).timeout() == old(self).timeout(),
            r == final(self).counter_of(peer),
            final(self).counter_of(peer) == (old(self).counter_of(peer) + 1) % 0x10000,
            forall|id: u16| final(self).waiter_at(peer, id) == old(self).waiter_at(peer, id),
            forall|p: u64, id: u16|
                p != peer ==> final(self).waiter_at(p, id) == old(self).waiter_at(p, id),
            forall|p: u64| p != peer ==> final(self).counter_of(p) == old(self).counter_of(p),
            final(self).peers().contains_key(peer),
    {
        let mut nq = match self.nodes.remove(&peer) {
            Some(q) => q,
            None => NodeQueue::new(),
        };
        let r = nq.get_next_id();
        self.nodes.insert(peer, nq);
        proof {
            if !old(self).peers().contains_key(peer) {
                assert(self.nodes@ =~= old(self).nodes@.insert(peer, self.nodes@[peer]));
            }
        }
        r
    }

    /// Registers `waiter` under `(peer, id)`; an old waiter under the
    /// same pair is overwritten and abandoned.  Every other
    /// registration and every counter stays as it was.
    pub fn add_reply_info(&mut self, peer: u64, id: u16, waiter: u64)
        ensures
            final(self).timeout() == old(self).timeout(),
            final(self).waiter_at(peer, id) == Some(waiter),
            forall|p: u64, t: u16|
                !(p == peer && t == id) ==> final(self).waiter_at(p, t) == old(self).waiter_at(
                    p,
                    t,
                ),
            forall|p: u64| final(self).counter_of(p) == old(self).counter_of(p),
    {
        let mut nq = match self.nodes.remove(&peer) {
            Some(q) => q,
            None => NodeQueue::new(),
        };
        nq.add_reply_info(id, waiter);
        self.nodes.insert(peer, nq);
        proof {
            if !old(self).peers().contains_key(peer) {
                assert(self.nodes@ =~= old(self).nodes@.insert(peer, self.nodes@[peer]));
            }
        }
    }

    /// Routes a reply: yields exactly the waiter registered under
    /// `(peer, id)` and removes it; a reply for an unknown pair
    /// yields nothing and changes nothing.  No other registration is
    /// touched, so no reply can reach the wrong waiter.
    pub fn got_reply(&mut self, peer: u64, id: u16) -> (r: Option<u64>)
        ensures
            final(self).timeout() == old(self).timeout(),
            r == old(self).waiter_at(peer, id),
            final(self).waiter_at(peer, id) is None,
            forall|p: u64, t: u16|
                !(p == peer && t == id) ==> final(self).waiter_at(p, t) == old(self).waiter_at(
                    p,
                    t,
                ),
            forall|p: u64| final(self).counter_of(p) == old(self).counter_of(p),
    {
        let mut nq = match self.nodes.remove(&peer) {
            Some(q) => q,
            None => {
                proof {
                    assert(self.nodes@ =~= old(self).nodes@);
                }
                return None;
            },
        };
        let r = nq.got_reply(id);
        self.nodes.insert(peer, nq);
        proof {
            assert(old(self).peers().contains_key(peer));
        }
        r
    }

    /// Frees the slot of a query whose deadline passed; the waiter,
    /// if one is still registered, is dropped.
    pub fn query_expired(&mut self, peer: u64, id: u16)
        ensures
            final(self).timeout() == old(self).timeout(),
            final(self).waiter_at(peer, id) is None,
            forall|p: u64, t: u16|
                !(p == peer && t == id) ==> final(self).waiter_at(p, t) == old(self).waiter_at(
                    p,
                    t,
                ),
            forall|p: u64| final(self).counter_of(p) == old(self).counter_of(p),
    {
        let mut nq = match self.nodes.remove(&peer) {
            Some(q) => q,
            None => {
                proof {
                    assert(self.nodes@ =~= old(self).nodes@);
                }
                return ;
            },
        };
        nq.remove(id);
        self.nodes.insert(peer, nq);
    }

    /// Forgets a peer entirely, counter included.  Only to be called
    /// when the host asserts no reply from that peer is in flight.
    pub fn declare_dead(&mut self, peer: u64)
        ensures
            final(self).timeout() == old(self).timeout(),
            !final(self).peers().contains_key(peer),
            forall|id: u16| final(self).waiter_at(peer, id) is None,
            forall|p: u64, t: u16|
                p != peer ==> final(self).waiter_at(p, t) == old(self).waiter_at(p, t),
            forall|p: u64| p != peer ==> final(self).counter_of(p) == old(self).counter_of(p),
    {
        self.nodes.remove(&peer);
        proof {
            if !old(self).peers().contains_key(peer) {
                assert(self.nodes@ =~= old(self).nodes@.remove(peer));
            }
        }
    }
}

} // verus!
