use vstd::prelude::*;
use std::collections::HashMap;

verus! {

broadcast use vstd::std_specs::hash::group_hash_axioms;

/// A request a client of the key-value server sends.
#[derive(Clone, Copy, PartialEq, Eq, Structural, Debug)]
pub enum DbRequest {
    /// Store `value` under `key`.
    Put(u64, u64),
    /// Look `key` up.
    Get(u64),
    /// End the session.
    Quit,
}

/// What the server does after a request.
#[derive(Clone, Copy, PartialEq, Eq, Structural, Debug)]
pub enum DbReply {
    /// Nothing to send back; wait for the next request.
    Stored,
    /// Send the value found under the key, if any.
    Value(Option<u64>),
    /// Close the session.
    Closed,
}

/// The state of a key-value server: the values stored so far.
pub struct KvServer {
    db: HashMap<u64, u64>,
}

impl View for KvServer {
    type V = Map<u64, u64>;

    closed spec fn view(&self) -> Map<u64, u64> {
        self.db@
    }
}

/// The reply to a lookup of `key` in `m`.
pub open spec fn lookup(m: Map<u64, u64>, key: u64) -> Option<u64> {
    if m.dom().contains(key) {
        Some(m[key])
    } else {
        None
    }
}

impl KvServer {
    /// A server with nothing stored.
    pub fn new() -> (r: Self)
        ensures
            r@ == Map::<u64, u64>::empty(),
    {
        KvServer { db: HashMap::new() }
    }

    /// Serves one request.
    pub fn handle(&mut self, req: DbRequest) -> (r: DbReply)
        ensures
            req matches DbRequest::Put(k, v) ==> final(self)@ == old(self)@.insert(k, v) && r
                == DbReply::Stored,
            req matches DbRequest::Get(k) ==> final(self)@ == old(self)@ && r == DbReply::Value(
                lookup(old(self)@, k),
            ),
            req is Quit ==> final(self)@ == old(self)@ && r == DbReply::Closed,
    {
        match req {
            DbRequest::Put(key, val) => {
                self.db.insert(key, val);
                DbReply::Stored
            },
            DbRequest::Get(key) => {
                let r = match self.db.get(&key) {
                    Some(v) => Some(*v),
                    None => None,
                };
                DbReply::Value(r)
            },
            DbRequest::Quit => DbReply::Closed,
        }
    }
}

/// A lookup finds a value exactly for the keys stored, and it is the stored one;
/// on a server with nothing stored, every lookup finds nothing.
pub proof fn lemma_lookup_finds_stored(m: Map<u64, u64>, k: u64)
    ensures
        lookup(m, k) is None <==> !m.dom().contains(k),
        forall|v: u64| lookup(m, k) == Some(v) <==> (m.dom().contains(k) && m[k] == v),
        lookup(Map::<u64, u64>::empty(), k) is None,
{
}

/// A lookup gives back the last value stored under the key, and storing under one
/// key leaves the others as they were.
pub proof fn lemma_get_after_put(m: Map<u64, u64>, k: u64, v: u64, k2: u64)
    ensures
        lookup(m.insert(k, v), k) == Some(v),
        k2 != k ==> lookup(m.insert(k, v), k2) == lookup(m, k2),
{
}

} // verus!
