//! Component slots addressed by stable indices. A parent keeps the references
//! of its children and a child the reference of its parent, without either
//! owning the other; each slot counts generations, so that a reference taken
//! before its instance was replaced or removed no longer reaches anything.
use crate::instance::InstanceRef;
use vstd::prelude::*;

verus! {

pub struct ArenaSlot<T> {
    pub generation: u64,
    pub value: Option<T>,
}

pub struct Arena<T> {
    pub slots: Vec<ArenaSlot<T>>,
}

impl<T> Arena<T> {
    /// Whether `r` names the current occupant of its slot and it is in place.
    pub open spec fn live(&self, r: InstanceRef) -> bool {
        &&& r.slot < self.slots@.len()
        &&& self.slots@[r.slot as int].generation == r.generation
        &&& self.slots@[r.slot as int].value is Some
    }

    /// The occupant that `r` names, taken out or not.
    pub open spec fn current(&self, r: InstanceRef) -> bool {
        r.slot < self.slots@.len() && self.slots@[r.slot as int].generation == r.generation
    }

    pub open spec fn value(&self, r: InstanceRef) -> T {
        self.slots@[r.slot as int].value->0
    }

    /// The slots other than `slot` are as in `other`.
    pub open spec fn same_elsewhere(&self, other: &Arena<T>, slot: int) -> bool {
        &&& self.slots@.len() == other.slots@.len()
        &&& forall|i: int| 0 <= i < self.slots@.len() && i != slot ==> #[trigger] self.slots@[i] == other.slots@[i]
    }

    pub fn new() -> (r: Arena<T>)
        ensures
            r.slots@.len() == 0,
    {
        Arena { slots: Vec::new() }
    }

    /// Puts `v` into a new slot.
    pub fn insert(&mut self, v: T) -> (r: InstanceRef)
        requires
            old(self).slots@.len() < u64::MAX,
        ensures
            r.slot == old(self).slots@.len(),
            r.generation == 0,
            final(self).slots@ == old(self).slots@.push(ArenaSlot { generation: 0, value: Some(v) }),
            final(self).live(r),
            final(self).value(r) == v,
    {
        let slot = self.slots.len() as u64;
        self.slots.push(ArenaSlot { generation: 0, value: Some(v) });
        InstanceRef { slot, generation: 0 }
    }

    pub fn is_live(&self, r: InstanceRef) -> (b: bool)
        ensures
            b == self.live(r),
    {
        if r.slot < self.slots.len() as u64 {
            let s = &self.slots[r.slot as usize];
            s.generation == r.generation && s.value.is_some()
        } else {
            false
        }
    }

    pub fn get(&self, r: InstanceRef) -> (v: Option<&T>)
        ensures
            v is Some <==> self.live(r),
            v is Some ==> *v->0 == self.value(r),
    {
        if r.slot < self.slots.len() as u64 {
            let s = &self.slots[r.slot as usize];
            if s.generation == r.generation {
                return s.value.as_ref();
            }
        }
        None
    }

    /// Takes the occupant that `r` names out of its slot, for one exclusive
    /// use; a stale reference, or one whose occupant is already out, gets
    /// nothing and changes nothing.
    pub fn take(&mut self, r: InstanceRef) -> (v: Option<T>)
        ensures
            v is Some <==> old(self).live(r),
            v is Some ==> v->0 == old(self).value(r) && final(self).current(r) && !final(self).live(r),
            final(self).same_elsewhere(old(self), r.slot as int),
            v is None ==> *final(self) == *old(self),
    {
        if r.slot < self.slots.len() as u64 && self.slots[r.slot as usize].generation == r.generation
            && self.slots[r.slot as usize].value.is_some() {
            let i = r.slot as usize;
            let mut s = self.slots.remove(i);
            let v = s.value.take();
            self.slots.insert(i, s);
            assert(self.slots@ =~= old(self).slots@.update(i as int, ArenaSlot { generation: r.generation, value: None }));
            v
        } else {
            None
        }
    }

    /// Puts a taken occupant back under the same reference.
    pub fn restore(&mut self, r: InstanceRef, v: T)
        requires
            old(self).current(r),
        ensures
            final(self).live(r),
            final(self).value(r) == v,
            final(self).same_elsewhere(old(self), r.slot as int),
    {
        let n = self.slots.len();
        assert(r.slot < n);
        let i = r.slot as usize;
        let mut s = self.slots.remove(i);
        s.value = Some(v);
        self.slots.insert(i, s);
        assert(self.slots@ =~= old(self).slots@.update(i as int, ArenaSlot { generation: r.generation, value: Some(v) }));
    }

    /// Replaces the occupant that `r` names by `v` in the same slot under the
    /// next generation, so that every reference to the old occupant goes
    /// stale. Where `r` is stale, or the slot has used up its generations,
    /// nothing changes and nothing is returned.
    pub fn replace(&mut self, r: InstanceRef, v: T) -> (n: Option<InstanceRef>)
        ensures
            n is Some <==> (old(self).current(r) && r.generation < u64::MAX),
            n is Some ==> ({
                let m = n->0;
                &&& m.slot == r.slot
                &&& m.generation == r.generation + 1
                &&& final(self).live(m)
                &&& final(self).value(m) == v
                &&& !final(self).current(r)
                &&& final(self).same_elsewhere(old(self), r.slot as int)
            }),
            n is None ==> *final(self) == *old(self),
    {
        if r.slot < self.slots.len() as u64 && self.slots[r.slot as usize].generation == r.generation
            && r.generation < u64::MAX {
            let i = r.slot as usize;
            let g = r.generation + 1;
            self.slots.remove(i);
            self.slots.insert(i, ArenaSlot { generation: g, value: Some(v) });
            assert(self.slots@ =~= old(self).slots@.update(i as int, ArenaSlot { generation: g, value: Some(v) }));
            Some(InstanceRef { slot: r.slot, generation: g })
        } else {
            None
        }
    }
}

/// A reference taken before its occupant was replaced reaches nothing after:
/// a deferred resolver holding it becomes a no-op.
pub proof fn lemma_replaced_is_stale<T>(a0: Arena<T>, a1: Arena<T>, r: InstanceRef, m: InstanceRef)
    requires
        a0.current(r),
        m.slot == r.slot,
        m.generation == r.generation + 1,
        a1.current(m),
    ensures
        !a1.live(r),
        !a1.current(r),
{
}

} // verus!
