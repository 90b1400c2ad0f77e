//! The dispatch registry: maps every bound handler id to the token of the
//! closure that answers it. Ids come from a counter and are never handed out twice.
use std::collections::HashMap;
use vstd::prelude::*;

verus! {

broadcast use vstd::std_specs::hash::group_hash_axioms;

pub struct Registry {
    pub next_id: u64,
    pub handlers: HashMap<u64, u64>,
}

impl Registry {
    /// The ids bound so far, each with the token of its closure.
    pub closed spec fn table(&self) -> Map<u64, u64> {
        self.handlers@
    }

    pub fn new() -> (r: Registry)
        ensures
            r.next_id == 0,
            r.table() == Map::<u64, u64>::empty(),
    {
        Registry { next_id: 0, handlers: HashMap::new() }
    }

    /// Hands out an id that has never been handed out before.
    pub fn gen_id(&mut self) -> (id: u64)
        requires
            old(self).next_id < u64::MAX,
        ensures
            id == old(self).next_id,
            final(self).next_id == id + 1,
            final(self).table() == old(self).table(),
    {
        let id = self.next_id;
        self.next_id = id + 1;
        id
    }

    /// Binds `id` to the closure token `token`.
    pub fn add_event_handler(&mut self, id: u64, token: u64)
        ensures
            final(self).next_id == old(self).next_id,
            final(self).table() == old(self).table().insert(id, token),
    {
        self.handlers.insert(id, token);
    }

    /// Unbinds `id`.
    pub fn remove_event_handler(&mut self, id: u64)
        ensures
            final(self).next_id == old(self).next_id,
            final(self).table() == old(self).table().remove(id),
    {
        self.handlers.remove(&id);
    }

    /// The closure token that answers `id`, if it is bound.
    pub fn lookup(&self, id: u64) -> (r: Option<u64>)
        ensures
            r == (if self.table().contains_key(id) { Some(self.table()[id]) } else { None::<u64> }),
    {
        match self.handlers.get(&id) {
            Some(t) => Some(*t),
            None => None,
        }
    }
}

} // verus!
