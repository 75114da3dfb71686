//! The sockets of a stack, each under its name.

use crate::socket;
use crate::socket::{Socket, SocketID, SocketView};
use std::collections::hash_map::Entry;
use std::collections::HashMap;
use vstd::prelude::*;

verus! {

broadcast use vstd::std_specs::hash::group_hash_axioms;

/// A hash map from socket names, as numbers, to sockets.
pub struct SocketTable {
    map: HashMap<u128, Socket>,
}

impl View for SocketTable {
    type V = Map<SocketID, SocketView>;

    closed spec fn view(&self) -> Map<SocketID, SocketView> {
        Map::new(
            |id: SocketID| self.map@.contains_key(id.key()),
            |id: SocketID| self.map@[id.key()]@,
        )
    }
}

/// Different names are kept under different numbers.
proof fn lemma_keys_differ(a: SocketID, b: SocketID)
    ensures
        a.key() == b.key() <==> a == b,
{
    socket::lemma_of_key(a);
    socket::lemma_of_key(b);
}

impl SocketTable {
    /// Every number in use stands for a name.
    pub closed spec fn wf(&self) -> bool {
        forall|key: u128| #[trigger]
            self.map@.contains_key(key) ==> key < 0x1_0000_0000_0000_0000_0000_0000
    }

    pub fn new() -> (r: Self)
        ensures
            r.wf(),
            r@ == Map::<SocketID, SocketView>::empty(),
    {
        let r = SocketTable { map: HashMap::new() };
        assert(r@ =~= Map::empty());
        r
    }

    pub fn get(&self, id: SocketID) -> (r: Option<&Socket>)
        ensures
            r is Some <==> self@.contains_key(id),
            r matches Some(socket) ==> socket@ == self@[id],
    {
        self.map.get(&id.to_key())
    }

    pub fn contains(&self, id: SocketID) -> (r: bool)
        ensures
            r == self@.contains_key(id),
    {
        self.map.contains_key(&id.to_key())
    }

    pub fn get_mut(&mut self, id: SocketID) -> (r: Option<&mut Socket>)
        requires
            old(self).wf(),
        ensures
            r is Some <==> old(self)@.contains_key(id),
            match r {
                Some(socket) => {
                    &&& socket@ == old(self)@[id]
                    &&& final(self)@ == old(self)@.insert(id, final(socket)@)
                },
                None => final(self)@ == old(self)@,
            },
            final(self).wf(),
    {
        proof {
            socket::lemma_of_key(id);
            assert forall|other: SocketID| other.key() == id.key() implies other == id by {
                lemma_keys_differ(other, id);
            }
        }
        match self.map.entry(id.to_key()) {
            Entry::Occupied(entry) => Some(entry.into_mut()),
            Entry::Vacant(_) => None,
        }
    }

    pub fn insert(&mut self, id: SocketID, socket: Socket)
        requires
            old(self).wf(),
        ensures
            final(self)@ == old(self)@.insert(id, socket@),
            final(self).wf(),
    {
        self.map.insert(id.to_key(), socket);
        proof {
            socket::lemma_of_key(id);
            assert forall|other: SocketID| other.key() == id.key() implies other == id by {
                lemma_keys_differ(other, id);
            }
            assert(self@ =~= old(self)@.insert(id, socket@));
        }
    }

    /// Whether a socket uses a local port.
    pub fn uses_local_port(&self, port: u16) -> (r: bool)
        requires
            self.wf(),
        ensures
            r == exists|id: SocketID| #[trigger] self@.contains_key(id) && id.2 == port,
    {
        let ghost keys = vstd::std_specs::iter::IteratorSpec::remaining(
            &vstd::std_specs::hash::spec_keys_iter(&self.map),
        ).unref();
        for key in it: self.map.keys()
            invariant
                self.wf(),
                it.seq().unref() == keys,
                keys.to_set() == self.map@.dom(),
                forall|i: int| 0 <= i < it.index() ==> SocketID::of_key(keys[i]).2 != port,
        {
            assert(keys[it.index()] == *key);
            assert(keys.to_set().contains(*key));
            let id: SocketID = SocketID::from_key(*key);
            if id.2 == port {
                proof {
                    socket::lemma_key_of(*key);
                    assert(self@.contains_key(id));
                }
                return true;
            }
        }
        assert forall|id: SocketID| #[trigger] self@.contains_key(id) implies id.2 != port by {
            assert(keys.to_set().contains(id.key()));
            let i = choose|i: int| 0 <= i < keys.len() && keys[i] == id.key();
            socket::lemma_of_key(id);
        }
        false
    }

    /// The names of all sockets, in no particular order.
    pub fn ids(&self) -> (r: Vec<SocketID>)
        requires
            self.wf(),
        ensures
            r@.no_duplicates(),
            r@.to_set() == self@.dom(),
    {
        let ghost keys = vstd::std_specs::iter::IteratorSpec::remaining(
            &vstd::std_specs::hash::spec_keys_iter(&self.map),
        ).unref();
        let mut r: Vec<SocketID> = Vec::new();
        for key in it: self.map.keys()
            invariant
                self.wf(),
                it.seq().unref() == keys,
                keys.to_set() == self.map@.dom(),
                r@.len() == it.index(),
                forall|i: int| 0 <= i < r@.len() ==> r@[i] == SocketID::of_key(keys[i]),
        {
            assert(keys[it.index()] == *key);
            assert(keys.to_set().contains(*key));
            r.push(SocketID::from_key(*key));
        }
        proof {
            assert forall|i: int| 0 <= i < keys.len() implies #[trigger] r@[i].key() == keys[i] by {
                assert(keys.to_set().contains(keys[i]));
                socket::lemma_key_of(keys[i]);
            }
            assert(keys.no_duplicates()) by {
                let refs = vstd::std_specs::iter::IteratorSpec::remaining(
                    &vstd::std_specs::hash::spec_keys_iter(&self.map),
                );
                assert(refs.no_duplicates());
                assert forall|i: int, j: int|
                    0 <= i < keys.len() && 0 <= j < keys.len() && i != j implies keys[i]
                    != keys[j] by {
                    assert(*refs[i] == keys[i] && *refs[j] == keys[j]);
                }
            }
            assert forall|i: int, j: int|
                0 <= i < r@.len() && 0 <= j < r@.len() && i != j implies r@[i] != r@[j] by {
                assert(r@[i].key() == keys[i] && r@[j].key() == keys[j]);
            }
            assert forall|id: SocketID| self@.dom().contains(id) implies r@.to_set().contains(
                id,
            ) by {
                let i = choose|i: int| 0 <= i < keys.len() && keys[i] == id.key();
                assert(keys.to_set().contains(id.key()));
                socket::lemma_of_key(id);
                assert(r@[i] == id);
            }
            assert(r@.to_set() =~= self@.dom());
        }
        r
    }
}

} // verus!
