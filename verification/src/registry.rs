//! The server-side session registry: the sessions of connected clients,
//! keyed by client identifier, enumerated in insertion order.

use crate::channel::{ReceiveChannel, SendChannel};
use vstd::prelude::*;

verus! {

/// A peer's network address, as plain values: a 32-bit host address and a
/// port. The surrounding process converts to and from its socket types.
#[derive(Clone, Copy, Debug, PartialEq, Eq, Structural)]
pub struct PeerAddr {
    pub ip: u32,
    pub port: u16,
}

/// The lifecycle of one session.
#[derive(Clone, Copy, Debug, PartialEq, Eq, Structural)]
pub enum SessionState {
    /// Created by a first handshake packet; not yet accepted.
    Pending,
    /// The handshake completed; channels are live.
    Connected,
    /// Torn down; terminal. Channel state is discarded and no
    /// retransmission continues past this point.
    Disconnected,
}

/// One authenticated peer relationship: its identifier, address,
/// lifecycle state, and the two ends of its reliable-ordered channel.
pub struct Session {
    pub client_id: u64,
    pub peer: PeerAddr,
    pub state: SessionState,
    pub send: SendChannel,
    pub recv: ReceiveChannel,
}

impl Session {
    /// Both channel ends keep their invariants.
    pub open spec fn wf(self) -> bool {
        &&& self.send.wf()
        &&& self.recv.wf()
    }
}

/// The registry of live sessions, in insertion order, with client
/// identifiers unique.
pub struct SessionRegistry {
    pub sessions: Vec<Session>,
}

impl SessionRegistry {
    /// Identifiers are unique and every session is well-formed.
    pub open spec fn wf(self) -> bool {
        &&& forall|i: int, j: int|
            0 <= i < j < self.sessions@.len() ==> self.sessions@[i].client_id
                != self.sessions@[j].client_id
        &&& forall|i: int| 0 <= i < self.sessions@.len() ==> (#[trigger] self.sessions@[i]).wf()
    }

    /// Whether a session with this identifier is registered.
    pub open spec fn contains_spec(self, client_id: u64) -> bool {
        exists|i: int|
            0 <= i < self.sessions@.len() && (#[trigger] self.sessions@[i]).client_id == client_id
    }

    /// An empty registry.
    pub fn new() -> (r: SessionRegistry)
        ensures
            r.wf(),
            r.sessions@.len() == 0,
    {
        SessionRegistry { sessions: Vec::new() }
    }

    /// How many sessions are registered.
    pub fn len(&self) -> (n: usize)
        ensures
            n == self.sessions@.len(),
    {
        self.sessions.len()
    }

    /// Registers a session under its identifier, which must be new;
    /// enumeration order is insertion order.
    pub fn add(&mut self, session: Session)
        requires
            old(self).wf(),
            session.wf(),
            !old(self).contains_spec(session.client_id),
        ensures
            final(self).wf(),
            final(self).sessions@ == old(self).sessions@.push(session),
    {
        self.sessions.push(session);
    }

    /// The position of the session with this identifier, if any.
    pub fn index_of(&self, client_id: u64) -> (r: Option<usize>)
        ensures
            match r {
                Some(i) => i < self.sessions@.len() && self.sessions@[i as int].client_id
                    == client_id,
                None => !self.contains_spec(client_id),
            },
    {
        let n: usize = self.sessions.len();
        let mut i: usize = 0;
        while i < n
            invariant
                i <= n,
                n == self.sessions@.len(),
                forall|j: int| 0 <= j < i ==> (#[trigger] self.sessions@[j]).client_id != client_id,
            decreases n - i,
        {
            if self.sessions[i].client_id == client_id {
                return Some(i);
            }
            i = i + 1;
        }
        None
    }

    /// The position of the first session at this peer address, if any.
    pub fn index_of_peer(&self, peer: PeerAddr) -> (r: Option<usize>)
        ensures
            match r {
                Some(i) => i < self.sessions@.len() && self.sessions@[i as int].peer == peer
                    && forall|j: int| 0 <= j < i ==> (#[trigger] self.sessions@[j]).peer != peer,
                None => forall|j: int|
                    0 <= j < self.sessions@.len() ==> (#[trigger] self.sessions@[j]).peer != peer,
            },
    {
        let n: usize = self.sessions.len();
        let mut i: usize = 0;
        while i < n
            invariant
                i <= n,
                n == self.sessions@.len(),
                forall|j: int| 0 <= j < i ==> (#[trigger] self.sessions@[j]).peer != peer,
            decreases n - i,
        {
            if self.sessions[i].peer == peer {
                return Some(i);
            }
            i = i + 1;
        }
        None
    }

    /// Removes the session with this identifier; the order of the rest is
    /// kept, and a registry without it is unchanged.
    pub fn remove(&mut self, client_id: u64)
        requires
            old(self).wf(),
        ensures
            final(self).wf(),
            !old(self).contains_spec(client_id) ==> final(self).sessions@ == old(self).sessions@,
            old(self).contains_spec(client_id) ==> exists|i: int|
                0 <= i < old(self).sessions@.len() && (#[trigger] old(self).sessions@[i]).client_id
                    == client_id && final(self).sessions@ == old(self).sessions@.remove(i),
    {
        let r: Option<usize> = self.index_of(client_id);
        match r {
            Some(i) => {
                self.sessions.remove(i);
                proof {
                    assert(old(self).contains_spec(client_id));
                    assert forall|a: int, b: int|
                        0 <= a < b < self.sessions@.len() implies self.sessions@[a].client_id
                        != self.sessions@[b].client_id by {
                        assert(self.sessions@ == old(self).sessions@.remove(i as int));
                        let oa: int = if a < i { a } else { a + 1 };
                        let ob: int = if b < i { b } else { b + 1 };
                        assert(self.sessions@[a] == old(self).sessions@[oa]);
                        assert(self.sessions@[b] == old(self).sessions@[ob]);
                    }
                    assert forall|a: int| 0 <= a < self.sessions@.len() implies (#[trigger] self
                        .sessions@[a]).wf() by {
                        let oa: int = if a < i { a } else { a + 1 };
                        assert(self.sessions@[a] == old(self).sessions@[oa]);
                    }
                }
            },
            None => {},
        }
    }

    /// The identifiers of the connected sessions, in insertion order.
    pub fn connected_ids(&self) -> (r: Vec<u64>)
        ensures
            r@ == spec_connected_ids(self.sessions@),
    {
        let n: usize = self.sessions.len();
        let mut r: Vec<u64> = Vec::new();
        let mut i: usize = 0;
        proof {
            assert(r@ =~= spec_connected_ids(self.sessions@.take(0)));
        }
        while i < n
            invariant
                i <= n,
                n == self.sessions@.len(),
                r@ == spec_connected_ids(self.sessions@.take(i as int)),
            decreases n - i,
        {
            if self.sessions[i].state == SessionState::Connected {
                let id: u64 = self.sessions[i].client_id;
                r.push(id);
            }
            proof {
                assert(self.sessions@.take(i + 1).drop_last() =~= self.sessions@.take(i as int));
                assert(self.sessions@.take(i + 1).last() == self.sessions@[i as int]);
            }
            i = i + 1;
        }
        proof {
            assert(self.sessions@.take(n as int) =~= self.sessions@);
        }
        r
    }
}

/// The identifiers of the connected sessions of a session list, in order.
pub open spec fn spec_connected_ids(sessions: Seq<Session>) -> Seq<u64>
    decreases sessions.len(),
{
    if sessions.len() == 0 {
        Seq::<u64>::empty()
    } else {
        let rest = spec_connected_ids(sessions.drop_last());
        if sessions.last().state is Connected {
            rest.push(sessions.last().client_id)
        } else {
            rest
        }
    }
}

} // verus!
