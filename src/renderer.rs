//! The reconciler: diffs the committed node list of one parent against a new
//! one, position by position, and records the live mutations that this takes.
use crate::patch::{lemma_ops_view_add, lemma_ops_view_push, ops_view, Op, OpView};
use crate::registry::Registry;
use crate::vnode::{
    find_attribute, find_event, joined, node_events, node_handle, reusable, slot_count, strs, weight,
    weight_list, Attribute, ElementNode, EventList, Node, Slot, TextNode,
};
use vstd::prelude::*;
use vstd::string::StringExecFns;

verus! {

/// The id that slot `j` of the list named `name` held before, if it was bound.
pub open spec fn carried(before: Seq<EventList>, name: Seq<char>, j: int) -> Option<u64> {
    let k = find_event(before, name);
    if 0 <= k < before.len() && 0 <= j < before[k].slots@.len() {
        match before[k].slots@[j] {
            Slot::Bound(h) => Some(h),
            Slot::Pending(_) => None,
        }
    } else {
        None
    }
}

/// What becomes of one slot: a bound slot stays; a pending one takes the
/// carried id, or else a fresh id out of `[lo, hi)`.
pub open spec fn slot_bound(c: Option<u64>, s: Slot, r: Slot, lo: u64, hi: u64) -> bool {
    match s {
        Slot::Bound(h) => r == Slot::Bound(h),
        Slot::Pending(_) => match c {
            Some(h) => r == Slot::Bound(h),
            None => match r {
                Slot::Bound(id) => lo <= id < hi,
                Slot::Pending(_) => false,
            },
        },
    }
}

pub open spec fn list_bound(b: Seq<EventList>, a: EventList, r: EventList, lo: u64, hi: u64) -> bool {
    &&& r.name == a.name
    &&& r.slots@.len() == a.slots@.len()
    &&& forall|j: int|
        0 <= j < a.slots@.len() ==> slot_bound(
            carried(b, a.name@, j),
            #[trigger] a.slots@[j],
            r.slots@[j],
            lo,
            hi,
        )
}

/// `r` is `a` with every slot bound, against the lists `b` held before.
pub open spec fn events_bound(b: Seq<EventList>, a: Seq<EventList>, r: Seq<EventList>, lo: u64, hi: u64) -> bool {
    &&& r.len() == a.len()
    &&& forall|k: int| 0 <= k < a.len() ==> list_bound(b, #[trigger] a[k], r[k], lo, hi)
}

/// Every pending slot of `a` finds a bound id at its place in `b`.
pub open spec fn all_carried(b: Seq<EventList>, a: Seq<EventList>) -> bool {
    forall|k: int, j: int|
        0 <= k < a.len() && 0 <= j < a[k].slots@.len() && (#[trigger] a[k].slots@[j]) is Pending
            ==> carried(b, a[k].name@, j) is Some
}

pub open spec fn slot_id(s: Slot) -> u64 {
    match s {
        Slot::Bound(id) => id,
        Slot::Pending(t) => t,
    }
}

/// Slot `j` of `a` waits for an id and finds none to take over in `b`.
pub open spec fn fresh_slot(b: Seq<EventList>, a: EventList, j: int) -> bool {
    a.slots@[j] is Pending && carried(b, a.name@, j) is None
}

/// The listener attachments that the first `n` slots of `a` ask for on
/// `handle`, in order: one for each slot that took a fresh id, under the id in
/// `rs`.
pub open spec fn slot_ops(b: Seq<EventList>, a: EventList, rs: Seq<Slot>, n: int, handle: u64) -> Seq<OpView>
    decreases n,
{
    if n <= 0 {
        Seq::empty()
    } else {
        slot_ops(b, a, rs, n - 1, handle) + (if fresh_slot(b, a, n - 1) {
            seq![OpView::Listen { handle, event: a.name@, id: slot_id(rs[n - 1]) }]
        } else {
            Seq::empty()
        })
    }
}

/// The listener attachments that binding `a` into `r` asks for, list by list.
pub open spec fn event_ops(b: Seq<EventList>, a: Seq<EventList>, r: Seq<EventList>, handle: u64) -> Seq<OpView>
    decreases a.len(),
{
    if a.len() == 0 {
        Seq::empty()
    } else {
        event_ops(b, a.drop_last(), r.subrange(0, a.len() - 1), handle) + slot_ops(
            b,
            a.last(),
            r[a.len() - 1].slots@,
            a.last().slots@.len() as int,
            handle,
        )
    }
}

/// No two slots of the first `n` lists of `a` that took fresh ids took the
/// same one.
pub open spec fn fresh_ids_distinct(b: Seq<EventList>, a: Seq<EventList>, r: Seq<EventList>, n: int) -> bool {
    forall|k1: int, j1: int, k2: int, j2: int|
        0 <= k1 < n && 0 <= k2 < n && 0 <= j1 < a[k1].slots@.len() && 0 <= j2 < a[k2].slots@.len()
            && fresh_slot(b, a[k1], j1) && fresh_slot(b, a[k2], j2) && (k1 != k2 || j1 != j2) ==> slot_id(
            #[trigger] r[k1].slots@[j1],
        ) != slot_id(#[trigger] r[k2].slots@[j2])
}

/// Every slot of `evs` is bound, to an id below `bound`, and no two slots
/// share an id.
pub open spec fn ids_ok(evs: Seq<EventList>, bound: u64) -> bool {
    &&& forall|k: int, j: int|
        0 <= k < evs.len() && 0 <= j < evs[k].slots@.len() ==> (#[trigger] evs[k].slots@[j]) is Bound
            && slot_id(evs[k].slots@[j]) < bound
    &&& forall|k1: int, j1: int, k2: int, j2: int|
        0 <= k1 < evs.len() && 0 <= k2 < evs.len() && 0 <= j1 < evs[k1].slots@.len() && 0 <= j2
            < evs[k2].slots@.len() && (k1 != k2 || j1 != j2) ==> slot_id(#[trigger] evs[k1].slots@[j1])
            != slot_id(#[trigger] evs[k2].slots@[j2])
}

/// Every slot of `evs` waits for an id.
pub open spec fn all_pending(evs: Seq<EventList>) -> bool {
    forall|k: int, j: int|
        0 <= k < evs.len() && 0 <= j < evs[k].slots@.len() ==> (#[trigger] evs[k].slots@[j]) is Pending
}

/// No two event lists share a name.
pub open spec fn distinct_event_names(evs: Seq<EventList>) -> bool {
    forall|x: int, y: int| 0 <= x < y < evs.len() ==> (#[trigger] evs[x]).name@ != (#[trigger] evs[y]).name@
}

proof fn lemma_find_event_spec(s: Seq<EventList>, name: Seq<char>)
    ensures
        0 <= find_event(s, name) <= s.len(),
        find_event(s, name) < s.len() ==> s[find_event(s, name)].name@ == name,
    decreases s.len(),
{
    if s.len() > 0 {
        lemma_find_event_spec(s.drop_last(), name);
    }
}

/// What binding a declaration's slots against the committed lists of a
/// well-formed node gives: every slot bound, ids below the counter, no two
/// slots on one id.
proof fn lemma_events_ids_ok(b: Seq<EventList>, a: Seq<EventList>, r: Seq<EventList>, lo: u64, hi: u64)
    requires
        events_bound(b, a, r, lo, hi),
        ids_ok(b, lo),
        all_pending(a),
        distinct_event_names(a),
        fresh_ids_distinct(b, a, r, a.len() as int),
        lo <= hi,
    ensures
        ids_ok(r, hi),
        forall|k: int, j: int, k0: int, j0: int|
            0 <= k < r.len() && 0 <= j < r[k].slots@.len() && 0 <= k0 < b.len() && 0 <= j0 < b[k0].slots@.len()
                && fresh_slot(b, a[k], j) ==> slot_id(#[trigger] r[k].slots@[j]) != slot_id(#[trigger] b[k0].slots@[j0]),
{
    assert forall|k: int, j: int| 0 <= k < r.len() && 0 <= j < r[k].slots@.len() implies (#[trigger] r[k].slots@[j]) is Bound
        && slot_id(r[k].slots@[j]) < hi by {
        assert(list_bound(b, a[k], r[k], lo, hi));
        assert(a[k].slots@[j] is Pending);
        assert(slot_bound(carried(b, a[k].name@, j), a[k].slots@[j], r[k].slots@[j], lo, hi));
        lemma_find_event_spec(b, a[k].name@);
    }
    assert forall|k1: int, j1: int, k2: int, j2: int|
        0 <= k1 < r.len() && 0 <= k2 < r.len() && 0 <= j1 < r[k1].slots@.len() && 0 <= j2 < r[k2].slots@.len()
            && (k1 != k2 || j1 != j2) implies slot_id(#[trigger] r[k1].slots@[j1]) != slot_id(#[trigger] r[k2].slots@[j2]) by {
        assert(list_bound(b, a[k1], r[k1], lo, hi));
        assert(list_bound(b, a[k2], r[k2], lo, hi));
        assert(a[k1].slots@[j1] is Pending);
        assert(a[k2].slots@[j2] is Pending);
        assert(slot_bound(carried(b, a[k1].name@, j1), a[k1].slots@[j1], r[k1].slots@[j1], lo, hi));
        assert(slot_bound(carried(b, a[k2].name@, j2), a[k2].slots@[j2], r[k2].slots@[j2], lo, hi));
        lemma_find_event_spec(b, a[k1].name@);
        lemma_find_event_spec(b, a[k2].name@);
        let f1 = find_event(b, a[k1].name@);
        let f2 = find_event(b, a[k2].name@);
        if carried(b, a[k1].name@, j1) is Some && carried(b, a[k2].name@, j2) is Some {
            if f1 == f2 && j1 == j2 {
                assert(a[k1].name@ == a[k2].name@);
                if k1 < k2 {
                    assert(a[k1].name@ != a[k2].name@);
                } else {
                    assert(a[k2].name@ != a[k1].name@);
                }
            }
            assert(slot_id(b[f1].slots@[j1]) != slot_id(b[f2].slots@[j2]));
        }
    }
    assert forall|k: int, j: int, k0: int, j0: int|
        0 <= k < r.len() && 0 <= j < r[k].slots@.len() && 0 <= k0 < b.len() && 0 <= j0 < b[k0].slots@.len()
            && fresh_slot(b, a[k], j) implies slot_id(#[trigger] r[k].slots@[j]) != slot_id(#[trigger] b[k0].slots@[j0]) by {
        assert(list_bound(b, a[k], r[k], lo, hi));
        assert(slot_bound(carried(b, a[k].name@, j), a[k].slots@[j], r[k].slots@[j], lo, hi));
        assert(slot_id(b[k0].slots@[j0]) < lo);
    }
}

proof fn lemma_bind_slots_facts(t: Map<u64, u64>, al: EventList, rs: Seq<Slot>, n: int)
    requires
        0 <= n <= al.slots@.len(),
        n <= rs.len(),
        forall|j: int| 0 <= j < n ==> (#[trigger] al.slots@[j]) is Pending,
        forall|j1: int, j2: int| 0 <= j1 < n && 0 <= j2 < n && j1 != j2 ==> slot_id(#[trigger] rs[j1]) != slot_id(#[trigger] rs[j2]),
    ensures
        forall|j: int|
            0 <= j < n ==> bind_slots(t, al, rs, n).contains_key(slot_id(#[trigger] rs[j])) && bind_slots(t, al, rs, n)[slot_id(rs[j])]
                == slot_id(al.slots@[j]),
        forall|key: u64|
            (forall|j: int| 0 <= j < n ==> slot_id(#[trigger] rs[j]) != key) ==> (#[trigger] bind_slots(t, al, rs, n).contains_key(key))
                == t.contains_key(key) && (t.contains_key(key) ==> bind_slots(t, al, rs, n)[key] == t[key]),
    decreases n,
{
    if n > 0 {
        lemma_bind_slots_facts(t, al, rs, n - 1);
        assert(al.slots@[n - 1] is Pending);
        let x = slot_id(rs[n - 1]);
        assert forall|j: int| 0 <= j < n implies bind_slots(t, al, rs, n).contains_key(slot_id(#[trigger] rs[j]))
            && bind_slots(t, al, rs, n)[slot_id(rs[j])] == slot_id(al.slots@[j]) by {
            if j < n - 1 {
                assert(slot_id(rs[j]) != x);
            }
        }
        assert forall|key: u64| (forall|j: int| 0 <= j < n ==> slot_id(#[trigger] rs[j]) != key) implies (#[trigger] bind_slots(t, al, rs, n).contains_key(key))
            == t.contains_key(key) && (t.contains_key(key) ==> bind_slots(t, al, rs, n)[key] == t[key]) by {
            assert(slot_id(rs[n - 1]) != key);
            assert(forall|j: int| 0 <= j < n - 1 ==> slot_id(#[trigger] rs[j]) != key);
            assert(bind_slots(t, al, rs, n) == bind_slots(t, al, rs, n - 1).insert(x, slot_id(al.slots@[n - 1])));
            assert(bind_slots(t, al, rs, n - 1).contains_key(key) == t.contains_key(key));
        }
    }
}

proof fn lemma_bind_lists_facts(t: Map<u64, u64>, a: Seq<EventList>, r: Seq<EventList>)
    requires
        r.len() == a.len(),
        forall|k: int| 0 <= k < a.len() ==> (#[trigger] r[k]).slots@.len() == a[k].slots@.len(),
        all_pending(a),
        forall|k1: int, j1: int, k2: int, j2: int|
            0 <= k1 < r.len() && 0 <= k2 < r.len() && 0 <= j1 < r[k1].slots@.len() && 0 <= j2 < r[k2].slots@.len()
                && (k1 != k2 || j1 != j2) ==> slot_id(#[trigger] r[k1].slots@[j1]) != slot_id(#[trigger] r[k2].slots@[j2]),
    ensures
        forall|k: int, j: int|
            0 <= k < a.len() && 0 <= j < a[k].slots@.len() ==> bind_lists(t, a, r).contains_key(slot_id(#[trigger] r[k].slots@[j]))
                && bind_lists(t, a, r)[slot_id(r[k].slots@[j])] == slot_id(a[k].slots@[j]),
        forall|key: u64|
            (forall|k: int, j: int| 0 <= k < a.len() && 0 <= j < a[k].slots@.len() ==> slot_id(#[trigger] r[k].slots@[j]) != key)
                ==> (#[trigger] bind_lists(t, a, r).contains_key(key)) == t.contains_key(key),
    decreases a.len(),
{
    if a.len() > 0 {
        let n = a.len() - 1;
        let a0 = a.drop_last();
        let r0 = r.subrange(0, n);
        assert forall|k: int| 0 <= k < a0.len() implies (#[trigger] r0[k]).slots@.len() == a0[k].slots@.len() by {
            assert(r0[k] == r[k]);
        }
        assert forall|k: int, j: int| 0 <= k < a0.len() && 0 <= j < a0[k].slots@.len() implies (#[trigger] a0[k].slots@[j]) is Pending by {
            assert(a0[k] == a[k]);
        }
        assert forall|k1: int, j1: int, k2: int, j2: int|
            0 <= k1 < r0.len() && 0 <= k2 < r0.len() && 0 <= j1 < r0[k1].slots@.len() && 0 <= j2 < r0[k2].slots@.len()
                && (k1 != k2 || j1 != j2) implies slot_id(#[trigger] r0[k1].slots@[j1]) != slot_id(#[trigger] r0[k2].slots@[j2]) by {
            assert(r0[k1] == r[k1] && r0[k2] == r[k2]);
        }
        lemma_bind_lists_facts(t, a0, r0);
        let m0 = bind_lists(t, a0, r0);
        let rs = r[n].slots@;
        assert forall|j: int| 0 <= j < a[n].slots@.len() implies (#[trigger] a.last().slots@[j]) is Pending by {
            assert(a[n].slots@[j] is Pending);
        }
        assert forall|j1: int, j2: int| 0 <= j1 < a.last().slots@.len() && 0 <= j2 < a.last().slots@.len() && j1 != j2 implies slot_id(#[trigger] rs[j1]) != slot_id(#[trigger] rs[j2]) by {
            assert(slot_id(r[n].slots@[j1]) != slot_id(r[n].slots@[j2]));
        }
        lemma_bind_slots_facts(m0, a.last(), rs, a.last().slots@.len() as int);
        let m = bind_lists(t, a, r);
        assert(m == bind_slots(m0, a.last(), rs, a.last().slots@.len() as int));
        assert forall|k: int, j: int| 0 <= k < a.len() && 0 <= j < a[k].slots@.len() implies m.contains_key(slot_id(#[trigger] r[k].slots@[j]))
            && m[slot_id(r[k].slots@[j])] == slot_id(a[k].slots@[j]) by {
            if k < n {
                assert(r0[k] == r[k] && a0[k] == a[k]);
                assert(m0.contains_key(slot_id(r0[k].slots@[j])));
                assert forall|jj: int| 0 <= jj < a.last().slots@.len() implies slot_id(#[trigger] rs[jj]) != slot_id(r[k].slots@[j]) by {
                    assert(slot_id(r[n].slots@[jj]) != slot_id(r[k].slots@[j]));
                }
            }
        }
        assert forall|key: u64|
            (forall|k: int, j: int| 0 <= k < a.len() && 0 <= j < a[k].slots@.len() ==> slot_id(#[trigger] r[k].slots@[j]) != key)
                implies (#[trigger] m.contains_key(key)) == t.contains_key(key) by {
            assert forall|jj: int| 0 <= jj < a.last().slots@.len() implies slot_id(#[trigger] rs[jj]) != key by {
                assert(slot_id(r[n].slots@[jj]) != key);
            }
            assert forall|k: int, j: int| 0 <= k < a0.len() && 0 <= j < a0[k].slots@.len() implies slot_id(#[trigger] r0[k].slots@[j]) != key by {
                assert(r0[k] == r[k] && a0[k] == a[k]);
                assert(slot_id(r[k].slots@[j]) != key);
            }
        }
    }
}

proof fn lemma_unbind_slots_facts(t: Map<u64, u64>, s: Seq<Slot>)
    ensures
        forall|j: int| 0 <= j < s.len() && (#[trigger] s[j]) is Bound ==> !unbind_slots(t, s).contains_key(slot_id(s[j])),
        forall|key: u64| !t.contains_key(key) ==> !(#[trigger] unbind_slots(t, s).contains_key(key)),
    decreases s.len(),
{
    if s.len() > 0 {
        lemma_unbind_slots_facts(t, s.drop_last());
        assert forall|key: u64| !t.contains_key(key) implies !(#[trigger] unbind_slots(t, s).contains_key(key)) by {
            assert(!unbind_slots(t, s.drop_last()).contains_key(key));
        }
        assert forall|j: int| 0 <= j < s.len() && (#[trigger] s[j]) is Bound implies !unbind_slots(t, s).contains_key(slot_id(s[j])) by {
            if j < s.len() - 1 {
                assert(s.drop_last()[j] == s[j]);
            }
        }
    }
}

proof fn lemma_unbind_lists_facts(t: Map<u64, u64>, b: Seq<EventList>)
    ensures
        forall|k: int, j: int|
            0 <= k < b.len() && 0 <= j < b[k].slots@.len() && (#[trigger] b[k].slots@[j]) is Bound ==> !unbind_lists(t, b).contains_key(
                slot_id(b[k].slots@[j]),
            ),
        forall|key: u64| !t.contains_key(key) ==> !(#[trigger] unbind_lists(t, b).contains_key(key)),
    decreases b.len(),
{
    if b.len() > 0 {
        let b0 = b.drop_last();
        lemma_unbind_lists_facts(t, b0);
        lemma_unbind_slots_facts(unbind_lists(t, b0), b.last().slots@);
        assert forall|k: int, j: int|
            0 <= k < b.len() && 0 <= j < b[k].slots@.len() && (#[trigger] b[k].slots@[j]) is Bound implies !unbind_lists(t, b).contains_key(
                slot_id(b[k].slots@[j]),
            ) by {
            if k < b.len() - 1 {
                assert(b0[k] == b[k]);
                assert(b0[k].slots@[j] is Bound);
            } else {
                assert(b.last().slots@[j] == b[k].slots@[j]);
            }
        }
    }
}

/// The dispatch table with every id bound in `slots` unbound.
pub open spec fn unbind_slots(t: Map<u64, u64>, slots: Seq<Slot>) -> Map<u64, u64>
    decreases slots.len(),
{
    if slots.len() == 0 {
        t
    } else {
        let u = unbind_slots(t, slots.drop_last());
        match slots.last() {
            Slot::Bound(id) => u.remove(id),
            Slot::Pending(_) => u,
        }
    }
}

pub open spec fn unbind_lists(t: Map<u64, u64>, lists: Seq<EventList>) -> Map<u64, u64>
    decreases lists.len(),
{
    if lists.len() == 0 {
        t
    } else {
        unbind_slots(unbind_lists(t, lists.drop_last()), lists.last().slots@)
    }
}

/// The dispatch table after the first `n` slots of `a` are bound: each slot
/// that waited for an id binds the id it got in `rs` to its closure token.
pub open spec fn bind_slots(t: Map<u64, u64>, a: EventList, rs: Seq<Slot>, n: int) -> Map<u64, u64>
    decreases n,
{
    if n <= 0 {
        t
    } else {
        let u = bind_slots(t, a, rs, n - 1);
        match a.slots@[n - 1] {
            Slot::Pending(tok) => u.insert(slot_id(rs[n - 1]), tok),
            Slot::Bound(_) => u,
        }
    }
}

pub open spec fn bind_lists(t: Map<u64, u64>, a: Seq<EventList>, r: Seq<EventList>) -> Map<u64, u64>
    decreases a.len(),
{
    if a.len() == 0 {
        t
    } else {
        bind_slots(
            bind_lists(t, a.drop_last(), r.subrange(0, a.len() - 1)),
            a.last(),
            r[a.len() - 1].slots@,
            a.last().slots@.len() as int,
        )
    }
}

proof fn lemma_slot_specs_prefix(b: Seq<EventList>, a: EventList, rs1: Seq<Slot>, rs2: Seq<Slot>, n: int, handle: u64, t: Map<u64, u64>)
    requires
        0 <= n <= rs1.len(),
        n <= rs2.len(),
        forall|i: int| 0 <= i < n ==> rs1[i] == rs2[i],
    ensures
        slot_ops(b, a, rs1, n, handle) == slot_ops(b, a, rs2, n, handle),
        bind_slots(t, a, rs1, n) == bind_slots(t, a, rs2, n),
    decreases n,
{
    if n > 0 {
        lemma_slot_specs_prefix(b, a, rs1, rs2, n - 1, handle, t);
    }
}

fn find_event_exec(evs: &Vec<EventList>, name: &String) -> (k: usize)
    ensures
        k == find_event(evs@, name@),
{
    let mut k: usize = 0;
    while k < evs.len()
        invariant
            0 <= k <= evs.len(),
            find_event(evs@.subrange(0, k as int), name@) == k,
        decreases evs.len() - k,
    {
        assert(evs@.subrange(0, k + 1).drop_last() =~= evs@.subrange(0, k as int));
        if evs[k].name == *name {
            proof { lemma_find_event_prefix(evs@, name@, k + 1); }
            return k;
        }
        k = k + 1;
    }
    assert(evs@.subrange(0, evs.len() as int) =~= evs@);
    k
}

/// A name found in a prefix is found at the same place in the whole.
proof fn lemma_find_event_prefix(evs: Seq<EventList>, name: Seq<char>, n: int)
    requires
        0 <= n <= evs.len(),
        find_event(evs.subrange(0, n), name) < n,
    ensures
        find_event(evs, name) == find_event(evs.subrange(0, n), name),
    decreases evs.len() - n,
{
    if n < evs.len() {
        assert(evs.subrange(0, n + 1).drop_last() =~= evs.subrange(0, n));
        lemma_find_event_prefix(evs, name, n + 1);
    } else {
        assert(evs.subrange(0, n) =~= evs);
    }
}

proof fn lemma_slot_count_step(s: Seq<EventList>, k: int)
    requires
        0 <= k < s.len(),
    ensures
        slot_count(s.subrange(0, k + 1)) == slot_count(s.subrange(0, k)) + s[k].slots@.len(),
        slot_count(s.subrange(0, k + 1)) <= slot_count(s),
{
    assert(s.subrange(0, k + 1).drop_last() =~= s.subrange(0, k));
    lemma_slot_count_prefix(s, k + 1);
}

proof fn lemma_slot_count_prefix(s: Seq<EventList>, n: int)
    requires
        0 <= n <= s.len(),
    ensures
        slot_count(s.subrange(0, n)) <= slot_count(s),
    decreases s.len() - n,
{
    if n < s.len() {
        assert(s.subrange(0, n + 1).drop_last() =~= s.subrange(0, n));
        lemma_slot_count_prefix(s, n + 1);
    } else {
        assert(s.subrange(0, n) =~= s);
    }
}

/// Unbinds every id that the lists of `before` hold.
fn unbind_all(before: &Vec<EventList>, reg: &mut Registry)
    ensures
        final(reg).next_id == old(reg).next_id,
        final(reg).table() == unbind_lists(old(reg).table(), before@),
{
    let mut k: usize = 0;
    while k < before.len()
        invariant
            0 <= k <= before.len(),
            reg.next_id == old(reg).next_id,
            reg.table() == unbind_lists(old(reg).table(), before@.subrange(0, k as int)),
        decreases before.len() - k,
    {
        let ghost t0 = reg.table();
        let mut j: usize = 0;
        while j < before[k].slots.len()
            invariant
                0 <= k < before.len(),
                0 <= j <= before[k as int].slots@.len(),
                reg.next_id == old(reg).next_id,
                reg.table() == unbind_slots(t0, before@[k as int].slots@.subrange(0, j as int)),
            decreases before[k as int].slots@.len() - j,
        {
            assert(before@[k as int].slots@.subrange(0, j + 1).drop_last() =~= before@[k as int].slots@.subrange(0, j as int));
            if let Slot::Bound(h) = before[k].slots[j] {
                reg.remove_event_handler(h);
            }
            j = j + 1;
        }
        assert(before@[k as int].slots@.subrange(0, j as int) =~= before@[k as int].slots@);
        assert(before@.subrange(0, k + 1).drop_last() =~= before@.subrange(0, k as int));
        k = k + 1;
    }
    assert(before@.subrange(0, k as int) =~= before@);
}

/// Binds the handler slots of `after` against those of `before` on the live
/// resource `handle`. The ids of `before` are unbound first. A pending slot
/// whose place (event name, position under it) held a bound id in `before`
/// takes that id over and is bound again to its new closure, with no new
/// listener; any other pending slot gets a fresh id, is bound, and has a
/// listener attached.
pub fn render_events(
    before: &Vec<EventList>,
    after: &Vec<EventList>,
    handle: u64,
    reg: &mut Registry,
    ops: &mut Vec<Op>,
) -> (r: Vec<EventList>)
    requires
        old(reg).next_id + slot_count(after@) <= u64::MAX,
        ids_ok(before@, old(reg).next_id),
        all_pending(after@),
        distinct_event_names(after@),
    ensures
        events_bound(before@, after@, r@, old(reg).next_id, final(reg).next_id),
        ids_ok(r@, final(reg).next_id),
        forall|k: int, j: int, k0: int, j0: int|
            0 <= k < r@.len() && 0 <= j < r@[k].slots@.len() && 0 <= k0 < before@.len() && 0 <= j0
                < before@[k0].slots@.len() && fresh_slot(before@, after@[k], j) ==> slot_id(#[trigger] r@[k].slots@[j])
                != slot_id(#[trigger] before@[k0].slots@[j0]),
        forall|k: int, j: int|
            0 <= k < after@.len() && 0 <= j < after@[k].slots@.len() ==> final(reg).table().contains_key(
                slot_id(#[trigger] r@[k].slots@[j]),
            ) && final(reg).table()[slot_id(r@[k].slots@[j])] == slot_id(after@[k].slots@[j]),
        forall|k0: int, j0: int|
            0 <= k0 < before@.len() && 0 <= j0 < before@[k0].slots@.len() && (forall|k: int, j: int|
                0 <= k < r@.len() && 0 <= j < r@[k].slots@.len() ==> slot_id(#[trigger] r@[k].slots@[j]) != slot_id(
                    before@[k0].slots@[j0],
                )) ==> !final(reg).table().contains_key(slot_id(#[trigger] before@[k0].slots@[j0])),
        old(reg).next_id <= final(reg).next_id <= old(reg).next_id + slot_count(after@),
        final(reg).next_id == old(reg).next_id + event_ops(before@, after@, r@, handle).len(),
        final(reg).table() == bind_lists(unbind_lists(old(reg).table(), before@), after@, r@),
        old(ops)@.len() <= final(ops)@.len(),
        final(ops)@.subrange(0, old(ops)@.len() as int) == old(ops)@,
        ops_view(final(ops)@) == ops_view(old(ops)@) + event_ops(before@, after@, r@, handle),
        all_carried(before@, after@) ==> final(ops)@ == old(ops)@,
        all_carried(before@, after@) ==> final(reg).next_id == old(reg).next_id,
        fresh_ids_distinct(before@, after@, r@, after@.len() as int),
{
    unbind_all(before, reg);
    let ghost lo = reg.next_id;
    let ghost t1 = reg.table();
    let mut res: Vec<EventList> = Vec::new();
    let mut k: usize = 0;
    while k < after.len()
        invariant
            0 <= k <= after.len(),
            lo == old(reg).next_id,
            t1 == unbind_lists(old(reg).table(), before@),
            lo <= reg.next_id <= lo + slot_count(after@.subrange(0, k as int)),
            slot_count(after@) + lo <= u64::MAX,
            res@.len() == k,
            forall|i: int| 0 <= i < k ==> list_bound(before@, #[trigger] after@[i], res@[i], lo, reg.next_id),
            old(ops)@.len() <= ops@.len(),
            ops@.subrange(0, old(ops)@.len() as int) == old(ops)@,
            ops_view(ops@) == ops_view(old(ops)@) + event_ops(before@, after@.subrange(0, k as int), res@, handle),
            reg.next_id == lo + ops@.len() - old(ops)@.len(),
            reg.table() == bind_lists(t1, after@.subrange(0, k as int), res@),
            fresh_ids_distinct(before@, after@, res@, k as int),
            all_carried(before@, after@) ==> ops@ == old(ops)@,
        decreases after.len() - k,
    {
        proof { lemma_slot_count_step(after@, k as int); }
        let list = &after[k];
        let bk = find_event_exec(before, &list.name);
        let mut slots: Vec<Slot> = Vec::new();
        let ghost id0 = reg.next_id;
        let ghost ops0 = ops@;
        let ghost tk = reg.table();
        let mut j: usize = 0;
        while j < list.slots.len()
            invariant
                0 <= k < after.len(),
                list == after@[k as int],
                bk == find_event(before@, list.name@),
                0 <= j <= list.slots@.len(),
                slots@.len() == j,
                res@.len() == k,
                lo <= id0 <= reg.next_id <= id0 + j,
                id0 <= lo + slot_count(after@.subrange(0, k as int)),
                slot_count(after@.subrange(0, k as int)) + list.slots@.len() + lo <= u64::MAX,
                forall|i: int| 0 <= i < k ==> list_bound(before@, #[trigger] after@[i], res@[i], lo, id0),
                forall|i: int|
                    0 <= i < j ==> slot_bound(
                        carried(before@, list.name@, i),
                        #[trigger] list.slots@[i],
                        slots@[i],
                        lo,
                        reg.next_id,
                    ),
                old(ops)@.len() <= ops@.len(),
                ops@.subrange(0, old(ops)@.len() as int) == old(ops)@,
                ops0.len() <= ops@.len(),
                ops_view(ops@) == ops_view(ops0) + slot_ops(before@, *list, slots@, j as int, handle),
                reg.next_id == lo + ops@.len() - old(ops)@.len(),
                reg.table() == bind_slots(tk, *list, slots@, j as int),
                ops_view(ops0) == ops_view(old(ops)@) + event_ops(before@, after@.subrange(0, k as int), res@, handle),
                tk == bind_lists(t1, after@.subrange(0, k as int), res@),
                fresh_ids_distinct(before@, after@, res@, k as int),
                forall|k1: int, j1: int, j2: int|
                    0 <= k1 < k && 0 <= j1 < after@[k1].slots@.len() && 0 <= j2 < j && fresh_slot(before@, after@[k1], j1)
                        && fresh_slot(before@, *list, j2) ==> slot_id(#[trigger] res@[k1].slots@[j1]) != slot_id(
                        #[trigger] slots@[j2],
                    ),
                forall|j1: int, j2: int|
                    0 <= j1 < j && 0 <= j2 < j && j1 != j2 && fresh_slot(before@, *list, j1) && fresh_slot(before@, *list, j2)
                        ==> slot_id(#[trigger] slots@[j1]) != slot_id(#[trigger] slots@[j2]),
                all_carried(before@, after@) ==> ops@ == old(ops)@,
            decreases list.slots@.len() - j,
        {
            let s = list.slots[j];
            let ghost pre = ops@;
            let ghost pre_slots = slots@;
            let ghost pre_table = reg.table();
            let ghost old_next = reg.next_id;
            match s {
                Slot::Bound(h) => {
                    slots.push(Slot::Bound(h));
                },
                Slot::Pending(tok) => {
                    let mut prior: Option<u64> = None;
                    if bk < before.len() && j < before[bk].slots.len() {
                        if let Slot::Bound(h) = before[bk].slots[j] {
                            prior = Some(h);
                        }
                    }
                    assert(prior == carried(before@, list.name@, j as int));
                    match prior {
                        Some(h) => {
                            reg.add_event_handler(h, tok);
                            slots.push(Slot::Bound(h));
                        },
                        None => {
                            assert(!all_carried(before@, after@)) by {
                                assert(after@[k as int].slots@[j as int] is Pending);
                            }
                            let id = reg.gen_id();
                            reg.add_event_handler(id, tok);
                            ops.push(Op::Listen { handle, event: list.name.clone(), id });
                            assert(ops@.subrange(0, old(ops)@.len() as int) =~= pre.subrange(
                                0,
                                old(ops)@.len() as int,
                            ));
                            slots.push(Slot::Bound(id));
                            proof {
                                lemma_ops_view_push(pre, Op::Listen { handle, event: list.name, id });
                            }
                        },
                    }
                },
            }
            proof {
                lemma_slot_specs_prefix(before@, *list, pre_slots, slots@, j as int, handle, tk);
                assert(slots@[j as int] == slots@.last());
                assert forall|jj: int| 0 <= jj < j implies slots@[jj] == pre_slots[jj] by {}
                if fresh_slot(before@, *list, j as int) {
                    assert(slot_bound(carried(before@, list.name@, j as int), list.slots@[j as int], slots@[j as int], lo, reg.next_id));
                    assert forall|k1: int, j1: int|
                        0 <= k1 < k && 0 <= j1 < after@[k1].slots@.len() && fresh_slot(before@, after@[k1], j1)
                        implies slot_id(res@[k1].slots@[j1]) < slot_id(slots@[j as int]) by {
                        assert(list_bound(before@, after@[k1], res@[k1], lo, id0));
                        assert(slot_bound(carried(before@, after@[k1].name@, j1), after@[k1].slots@[j1], res@[k1].slots@[j1], lo, id0));
                    }
                    assert forall|j1: int| 0 <= j1 < j && fresh_slot(before@, *list, j1)
                        implies slot_id(slots@[j1]) < slot_id(slots@[j as int]) by {
                        assert(slot_bound(carried(before@, list.name@, j1), list.slots@[j1], pre_slots[j1], lo, old_next));
                    }
                }
            }
            j = j + 1;
        }
        let ghost sl = slots@;
        let ghost res_before = res@;
        assert(slots@.subrange(0, j as int) =~= slots@);
        res.push(EventList { name: list.name.clone(), slots });
        proof {
            let a1 = after@.subrange(0, k + 1);
            assert(a1.drop_last() =~= after@.subrange(0, k as int));
            assert(res@.subrange(0, k as int) =~= res_before);
            assert(res@[k as int].slots@ == sl);
            assert(a1.last() == *list);
            assert(event_ops(before@, a1, res@, handle) == event_ops(before@, after@.subrange(0, k as int), res_before, handle)
                + slot_ops(before@, *list, sl, list.slots@.len() as int, handle));
            assert(bind_lists(t1, a1, res@) == bind_slots(bind_lists(t1, after@.subrange(0, k as int), res_before), *list, sl, list.slots@.len() as int));
            assert(ops_view(ops@) =~= ops_view(old(ops)@) + event_ops(before@, a1, res@, handle));
            assert forall|i: int| 0 <= i < k implies res@[i] == res_before[i] by {}
        }
        k = k + 1;
    }
    assert(after@.subrange(0, after@.len() as int) =~= after@);
    proof {
        lemma_events_ids_ok(before@, after@, res@, lo, reg.next_id);
        assert forall|kk: int| 0 <= kk < after@.len() implies (#[trigger] res@[kk]).slots@.len() == after@[kk].slots@.len() by {
            assert(list_bound(before@, after@[kk], res@[kk], lo, reg.next_id));
        }
        lemma_bind_lists_facts(t1, after@, res@);
        lemma_unbind_lists_facts(old(reg).table(), before@);
        assert forall|k0: int, j0: int|
            0 <= k0 < before@.len() && 0 <= j0 < before@[k0].slots@.len() && (forall|k: int, j: int|
                0 <= k < res@.len() && 0 <= j < res@[k].slots@.len() ==> slot_id(#[trigger] res@[k].slots@[j]) != slot_id(
                    before@[k0].slots@[j0],
                )) implies !reg.table().contains_key(slot_id(#[trigger] before@[k0].slots@[j0])) by {
            assert(before@[k0].slots@[j0] is Bound);
            let key = slot_id(before@[k0].slots@[j0]);
            assert(!t1.contains_key(key));
            assert forall|k: int, j: int| 0 <= k < after@.len() && 0 <= j < after@[k].slots@.len() implies slot_id(#[trigger] res@[k].slots@[j]) != key by {
                assert(list_bound(before@, after@[k], res@[k], lo, reg.next_id));
            }
        }
    }
    res
}


/// The name of the attribute that input-like elements also keep as a live property.
pub open spec fn value_name() -> Seq<char> {
    seq!['v', 'a', 'l', 'u', 'e']
}

/// Whether `x` stands unchanged in `b`: the first attribute of its name in `b`
/// has the same values and the same delimiter.
pub open spec fn unchanged_attribute(b: Seq<Attribute>, x: Attribute) -> bool {
    let k = find_attribute(b, x.name@);
    &&& 0 <= k < b.len()
    &&& strs(b[k].values@) == strs(x.values@)
    &&& b[k].delimiter@ == x.delimiter@
}

/// The names of the attributes of `b` that `a` lacks, in the order of `b`.
pub open spec fn removed_names(b: Seq<Attribute>, a: Seq<Attribute>) -> Seq<Seq<char>>
    decreases b.len(),
{
    if b.len() == 0 {
        Seq::<Seq<char>>::empty()
    } else {
        let r = removed_names(b.drop_last(), a);
        if find_attribute(a, b.last().name@) < a.len() {
            r
        } else {
            r.push(b.last().name@)
        }
    }
}

/// The attributes of `a` that have to be written, in the order of `a`.
pub open spec fn written(b: Seq<Attribute>, a: Seq<Attribute>) -> Seq<Attribute>
    decreases a.len(),
{
    if a.len() == 0 {
        Seq::<Attribute>::empty()
    } else {
        let r = written(b, a.drop_last());
        if unchanged_attribute(b, a.last()) {
            r
        } else {
            r.push(a.last())
        }
    }
}

pub open spec fn removal_op_is(op: Op, handle: u64, name: Seq<char>) -> bool {
    match op {
        Op::RemoveAttribute { handle: h, name: n } => h == handle && n@ == name,
        _ => false,
    }
}

/// `op` writes `x` on `handle`: its values joined by its delimiter, through the
/// live value property where `input` says the element is input-like.
pub open spec fn write_op_is(op: Op, handle: u64, x: Attribute, input: bool) -> bool {
    let v = joined(strs(x.values@), x.delimiter@);
    if input && x.name@ == value_name() {
        match op {
            Op::SetInputValue { handle: h, value } => h == handle && value@ == v,
            _ => false,
        }
    } else {
        match op {
            Op::SetAttribute { handle: h, name, value } => h == handle && name@ == x.name@ && value@ == v,
            _ => false,
        }
    }
}

/// The ops from `n` on are the removals of `names`, then the writes of `xs`.
pub open spec fn attribute_ops(
    ops: Seq<Op>,
    n: int,
    handle: u64,
    names: Seq<Seq<char>>,
    xs: Seq<Attribute>,
    input: bool,
) -> bool {
    &&& ops.len() == n + names.len() + xs.len()
    &&& forall|i: int| 0 <= i < names.len() ==> removal_op_is(#[trigger] ops[n + i], handle, names[i])
    &&& forall|i: int|
        0 <= i < xs.len() ==> write_op_is(#[trigger] ops[n + names.len() + i], handle, xs[i], input)
}

/// The values joined by the delimiter.
fn join_values(values: &Vec<String>, delimiter: &String) -> (r: String)
    ensures
        r@ == joined(strs(values@), delimiter@),
{
    let mut out = String::new();
    let mut i: usize = 0;
    while i < values.len()
        invariant
            0 <= i <= values.len(),
            out@ == joined(strs(values@.subrange(0, i as int)), delimiter@),
        decreases values.len() - i,
    {
        let ghost pre = strs(values@.subrange(0, i as int));
        let ghost next = strs(values@.subrange(0, i + 1));
        assert(next.drop_last() =~= pre);
        assert(next.last() == values@[i as int]@);
        if i > 0 {
            out.append(delimiter.as_str());
        } else {
            assert(next =~= seq![values@[0]@]);
        }
        out.append(values[i].as_str());
        i = i + 1;
    }
    assert(values@.subrange(0, i as int) =~= values@);
    out
}

fn is_value_name(name: &String) -> (r: bool)
    ensures
        r == (name@ == value_name()),
{
    let v = "value".to_owned();
    proof {
        reveal_strlit("value");
    }
    assert(v@ =~= value_name());
    *name == v
}

fn is_input_tag(tag: &String) -> (r: bool)
    ensures
        r == (tag@ == input_tag() || tag@ == textarea_tag()),
{
    let a = "input".to_owned();
    let b = "textarea".to_owned();
    proof {
        reveal_strlit("input");
        reveal_strlit("textarea");
    }
    assert(a@ =~= input_tag());
    assert(b@ =~= textarea_tag());
    *tag == a || *tag == b
}

pub open spec fn input_tag() -> Seq<char> {
    seq!['i', 'n', 'p', 'u', 't']
}

pub open spec fn textarea_tag() -> Seq<char> {
    seq!['t', 'e', 'x', 't', 'a', 'r', 'e', 'a']
}

/// Writes one attribute on `handle`.
fn write_attribute(x: &Attribute, handle: u64, input: bool, ops: &mut Vec<Op>)
    ensures
        final(ops)@.len() == old(ops)@.len() + 1,
        final(ops)@.subrange(0, old(ops)@.len() as int) == old(ops)@,
        write_op_is(final(ops)@.last(), handle, *x, input),
{
    let value = join_values(&x.values, &x.delimiter);
    let ghost pre = ops@;
    if input && is_value_name(&x.name) {
        ops.push(Op::SetInputValue { handle, value });
    } else {
        ops.push(Op::SetAttribute { handle, name: x.name.clone(), value });
    }
    assert(ops@.subrange(0, pre.len() as int) =~= pre);
}

/// Writes every attribute of `attrs` on the fresh resource `handle`, in order.
pub fn force_render_element_attribute(attrs: &Vec<Attribute>, handle: u64, input: bool, ops: &mut Vec<Op>)
    ensures
        final(ops)@.subrange(0, old(ops)@.len() as int) == old(ops)@,
        attribute_ops(final(ops)@, old(ops)@.len() as int, handle, Seq::empty(), attrs@, input),
{
    let mut k: usize = 0;
    while k < attrs.len()
        invariant
            0 <= k <= attrs.len(),
            ops@.subrange(0, old(ops)@.len() as int) == old(ops)@,
            attribute_ops(ops@, old(ops)@.len() as int, handle, Seq::empty(), attrs@.subrange(0, k as int), input),
        decreases attrs.len() - k,
    {
        let ghost pre = ops@;
        write_attribute(&attrs[k], handle, input, ops);
        assert(ops@.subrange(0, old(ops)@.len() as int) =~= pre.subrange(0, old(ops)@.len() as int));
        assert forall|i: int| 0 <= i < k + 1 implies write_op_is(
            #[trigger] ops@[old(ops)@.len() + 0 + i],
            handle,
            attrs@.subrange(0, k + 1)[i],
            input,
        ) by {
            if i < k {
                assert(ops@[old(ops)@.len() + 0 + i] == pre[old(ops)@.len() + 0 + i]);
            }
        }
        k = k + 1;
    }
    assert(attrs@.subrange(0, attrs.len() as int) =~= attrs@);
}

/// Whether the values of `b` and `a` are equal, one by one.
fn same_values(b: &Vec<String>, a: &Vec<String>) -> (r: bool)
    ensures
        r == (strs(b@) == strs(a@)),
{
    if b.len() != a.len() {
        assert(strs(b@).len() != strs(a@).len());
        return false;
    }
    let mut i: usize = 0;
    while i < b.len()
        invariant
            b.len() == a.len(),
            0 <= i <= b.len(),
            forall|j: int| 0 <= j < i ==> b@[j]@ == a@[j]@,
        decreases b.len() - i,
    {
        if b[i] != a[i] {
            assert(strs(b@)[i as int] != strs(a@)[i as int]);
            return false;
        }
        i = i + 1;
    }
    assert(strs(b@) =~= strs(a@));
    true
}

fn find_attribute_exec(attrs: &Vec<Attribute>, name: &String) -> (k: usize)
    ensures
        k == find_attribute(attrs@, name@),
{
    let mut k: usize = 0;
    while k < attrs.len()
        invariant
            0 <= k <= attrs.len(),
            find_attribute(attrs@.subrange(0, k as int), name@) == k,
        decreases attrs.len() - k,
    {
        assert(attrs@.subrange(0, k + 1).drop_last() =~= attrs@.subrange(0, k as int));
        if attrs[k].name == *name {
            proof { lemma_find_attribute_prefix(attrs@, name@, k + 1); }
            return k;
        }
        k = k + 1;
    }
    assert(attrs@.subrange(0, attrs.len() as int) =~= attrs@);
    k
}

proof fn lemma_find_attribute_prefix(attrs: Seq<Attribute>, name: Seq<char>, n: int)
    requires
        0 <= n <= attrs.len(),
        find_attribute(attrs.subrange(0, n), name) < n,
    ensures
        find_attribute(attrs, name) == find_attribute(attrs.subrange(0, n), name),
    decreases attrs.len() - n,
{
    if n < attrs.len() {
        assert(attrs.subrange(0, n + 1).drop_last() =~= attrs.subrange(0, n));
        lemma_find_attribute_prefix(attrs, name, n + 1);
    } else {
        assert(attrs.subrange(0, n) =~= attrs);
    }
}

/// Whether `x` stands unchanged in `before`, so that it need not be written.
pub fn compare_element_attribute(before: &Vec<Attribute>, x: &Attribute) -> (r: bool)
    ensures
        r == unchanged_attribute(before@, *x),
{
    let k = find_attribute_exec(before, &x.name);
    if k < before.len() {
        let b = &before[k];
        b.delimiter == x.delimiter && same_values(&b.values, &x.values)
    } else {
        false
    }
}


proof fn lemma_removed_step(b: Seq<Attribute>, a: Seq<Attribute>, k: int)
    requires
        0 <= k < b.len(),
    ensures
        removed_names(b.subrange(0, k + 1), a) == (if find_attribute(a, b[k].name@) < a.len() {
            removed_names(b.subrange(0, k), a)
        } else {
            removed_names(b.subrange(0, k), a).push(b[k].name@)
        }),
{
    assert(b.subrange(0, k + 1).drop_last() =~= b.subrange(0, k));
}

proof fn lemma_written_step(b: Seq<Attribute>, a: Seq<Attribute>, k: int)
    requires
        0 <= k < a.len(),
    ensures
        written(b, a.subrange(0, k + 1)) == (if unchanged_attribute(b, a[k]) {
            written(b, a.subrange(0, k))
        } else {
            written(b, a.subrange(0, k)).push(a[k])
        }),
{
    assert(a.subrange(0, k + 1).drop_last() =~= a.subrange(0, k));
}

/// Diffs the attributes of a kept element: removes those that `after` lacks,
/// then writes those of `after` that do not stand unchanged in `before`.
pub fn diff_render_element_attribute(
    before: &Vec<Attribute>,
    after: &Vec<Attribute>,
    handle: u64,
    input: bool,
    ops: &mut Vec<Op>,
)
    ensures
        final(ops)@.subrange(0, old(ops)@.len() as int) == old(ops)@,
        attribute_ops(
            final(ops)@,
            old(ops)@.len() as int,
            handle,
            removed_names(before@, after@),
            written(before@, after@),
            input,
        ),
{
    let ghost n = old(ops)@.len() as int;
    let mut k: usize = 0;
    while k < before.len()
        invariant
            0 <= k <= before.len(),
            n == old(ops)@.len(),
            ops@.subrange(0, n) == old(ops)@,
            attribute_ops(ops@, n, handle, removed_names(before@.subrange(0, k as int), after@), Seq::empty(), input),
        decreases before.len() - k,
    {
        proof { lemma_removed_step(before@, after@, k as int); }
        let name = &before[k].name;
        let ghost pre = ops@;
        if find_attribute_exec(after, name) >= after.len() {
            ops.push(Op::RemoveAttribute { handle, name: name.clone() });
            assert(ops@.subrange(0, n) =~= pre.subrange(0, n));
            let ghost names = removed_names(before@.subrange(0, k + 1), after@);
            assert forall|i: int| 0 <= i < names.len() implies removal_op_is(#[trigger] ops@[n + i], handle, names[i]) by {
                if i < names.len() - 1 {
                    assert(ops@[n + i] == pre[n + i]);
                }
            }
        }
        k = k + 1;
    }
    assert(before@.subrange(0, before.len() as int) =~= before@);
    let ghost names = removed_names(before@, after@);
    let mut k: usize = 0;
    while k < after.len()
        invariant
            0 <= k <= after.len(),
            n == old(ops)@.len(),
            names == removed_names(before@, after@),
            ops@.subrange(0, n) == old(ops)@,
            attribute_ops(ops@, n, handle, names, written(before@, after@.subrange(0, k as int)), input),
        decreases after.len() - k,
    {
        proof { lemma_written_step(before@, after@, k as int); }
        if !compare_element_attribute(before, &after[k]) {
            let ghost pre = ops@;
            write_attribute(&after[k], handle, input, ops);
            assert(ops@.subrange(0, n) =~= pre.subrange(0, n));
            let ghost xs = written(before@, after@.subrange(0, k + 1));
            assert forall|i: int| 0 <= i < names.len() implies removal_op_is(#[trigger] ops@[n + i], handle, names[i]) by {
                assert(ops@[n + i] == pre[n + i]);
            }
            assert forall|i: int| 0 <= i < xs.len() implies write_op_is(
                #[trigger] ops@[n + names.len() + i],
                handle,
                xs[i],
                input,
            ) by {
                if i < xs.len() - 1 {
                    assert(ops@[n + names.len() + i] == pre[n + names.len() + i]);
                }
            }
        }
        k = k + 1;
    }
    assert(after@.subrange(0, after.len() as int) =~= after@);
}


/// Whether the node at a place keeps its live resource: there was a node
/// there and it can be reused for `a`.
pub open spec fn kept(b: Option<Node>, a: Node) -> bool {
    b is Some && node_handle(b->0) is Some && reusable(b->0, a)
}

pub open spec fn node_children(n: Node) -> Seq<Node> {
    match n {
        Node::Element(e) => e.children@,
        Node::Text(_) => Seq::empty(),
    }
}

/// The node at place `i` of `bs`, if there is one.
pub open spec fn at(bs: Seq<Node>, i: int) -> Option<Node> {
    if 0 <= i < bs.len() {
        Some(bs[i])
    } else {
        None
    }
}

/// `r` is what rendering `a` over `b` commits: the declaration of `a` with every
/// handler slot bound, on the live resource of `b` where that is kept, and on a
/// fresh handle out of `[hlo, hhi)` where it is not. Fresh handler ids come out
/// of `[ilo, ihi)`. The same holds of the children, position by position,
/// against the children of `b` where it is kept and against nothing where not.
pub open spec fn reconciled(b: Option<Node>, a: Node, r: Node, hlo: u64, hhi: u64, ilo: u64, ihi: u64) -> bool
    decreases a,
{
    let k = kept(b, a);
    let bev = if k { node_events(b->0) } else { Seq::empty() };
    let bch = if k { node_children(b->0) } else { Seq::empty() };
    &&& events_bound(bev, node_events(a), node_events(r), ilo, ihi)
    &&& node_handle(r) is Some
    &&& (k ==> node_handle(r) == node_handle(b->0))
    &&& (!k ==> hlo <= node_handle(r)->0 < hhi)
    &&& match (a, r) {
        (Node::Element(ae), Node::Element(re)) => {
            &&& re.tag == ae.tag
            &&& re.attributes == ae.attributes
            &&& reconciled_list(bch, ae.children@, re.children@, hlo, hhi, ilo, ihi)
        },
        (Node::Text(at), Node::Text(rt)) => rt.text == at.text,
        _ => false,
    }
}

pub open spec fn reconciled_list(
    bs: Seq<Node>,
    as_: Seq<Node>,
    rs: Seq<Node>,
    hlo: u64,
    hhi: u64,
    ilo: u64,
    ihi: u64,
) -> bool
    decreases as_,
{
    &&& rs.len() == as_.len()
    &&& forall|i: int|
        0 <= i < as_.len() ==> reconciled(at(bs, i), #[trigger] as_[i], rs[i], hlo, hhi, ilo, ihi)
}

/// The removals that drop the nodes of `bs` from the live parent, in order.
pub open spec fn tail_removals(parent: u64, bs: Seq<Node>) -> Seq<Op>
    decreases bs.len(),
{
    if bs.len() == 0 {
        Seq::<Op>::empty()
    } else {
        let r = tail_removals(parent, bs.drop_last());
        match node_handle(bs.last()) {
            Some(h) => r.push(Op::Remove { parent, child: h }),
            None => r,
        }
    }
}

/// Nothing about `a` differs from the committed `b` in a way that the live
/// output could show: same kind and tag or text, no attribute to remove or
/// write, every pending handler finds its id, and the same of the children.
pub open spec fn settled(b: Node, a: Node) -> bool
    decreases a,
{
    &&& node_handle(b) is Some
    &&& reusable(b, a)
    &&& all_carried(node_events(b), node_events(a))
    &&& match (b, a) {
        (Node::Element(be), Node::Element(ae)) => {
            &&& removed_names(be.attributes@, ae.attributes@).len() == 0
            &&& written(be.attributes@, ae.attributes@).len() == 0
            &&& settled_list(be.children@, ae.children@)
        },
        _ => true,
    }
}

pub open spec fn settled_list(bs: Seq<Node>, as_: Seq<Node>) -> bool
    decreases as_,
{
    &&& bs.len() == as_.len()
    &&& forall|i: int| 0 <= i < as_.len() ==> settled(bs[i], #[trigger] as_[i])
}

pub open spec fn node_attributes(n: Node) -> Seq<Attribute> {
    match n {
        Node::Element(e) => e.attributes@,
        Node::Text(_) => Seq::empty(),
    }
}

/// Whether elements of this tag keep a live editable value.
pub open spec fn is_input(tag: Seq<char>) -> bool {
    tag == input_tag() || tag == textarea_tag()
}

/// The attributes, events and children that rendering `a` diffs against:
/// those of `b` where its resource is kept, none where not.
pub open spec fn prior_attributes(b: Option<Node>, a: Node) -> Seq<Attribute> {
    if kept(b, a) { node_attributes(b->0) } else { Seq::empty() }
}

pub open spec fn prior_events(b: Option<Node>, a: Node) -> Seq<EventList> {
    if kept(b, a) { node_events(b->0) } else { Seq::empty() }
}

pub open spec fn prior_children(b: Option<Node>, a: Node) -> Seq<Node> {
    if kept(b, a) { node_children(b->0) } else { Seq::empty() }
}

/// `write_op_is` as a view: what writing `x` on `h` looks like.
pub open spec fn write_view(x: Attribute, h: u64, input: bool) -> OpView {
    let v = joined(strs(x.values@), x.delimiter@);
    if input && x.name@ == value_name() {
        OpView::SetInputValue { handle: h, value: v }
    } else {
        OpView::SetAttribute { handle: h, name: x.name@, value: v }
    }
}

/// The attribute operations of diffing `a` against `b` on `h`: the removals,
/// then the writes.
pub open spec fn attribute_views(b: Seq<Attribute>, a: Seq<Attribute>, h: u64, input: bool) -> Seq<OpView> {
    removed_names(b, a).map_values(|n: Seq<char>| OpView::RemoveAttribute { handle: h, name: n }) + written(
        b,
        a,
    ).map_values(|x: Attribute| write_view(x, h, input))
}

/// Every operation that rendering `a` over `b` into `r` issues, in order: the
/// creation of a fresh resource, the attribute removals and writes, the
/// listener attachments, then the children's own operations with their
/// placements into this node's resource, and the removals of the children
/// that are left over.
pub open spec fn node_ops(b: Option<Node>, a: Node, r: Node) -> Seq<OpView>
    decreases a, 0nat,
{
    let k = kept(b, a);
    let h = node_handle(r)->0;
    match (a, r) {
        (Node::Element(ae), Node::Element(re)) => (if k {
            Seq::empty()
        } else {
            seq![OpView::CreateElement { handle: h, tag: ae.tag@ }]
        }) + attribute_views(prior_attributes(b, a), ae.attributes@, h, is_input(ae.tag@)) + event_ops(
            prior_events(b, a),
            ae.events@,
            re.events@,
            h,
        ) + items_ops(prior_children(b, a), ae.children@, re.children@, h) + tail_views(
            h,
            prior_children(b, a),
            ae.children@.len() as int,
        ),
        (Node::Text(at), Node::Text(rt)) => (if k {
            Seq::empty()
        } else {
            seq![OpView::CreateText { handle: h, text: at.text@ }]
        }) + event_ops(prior_events(b, a), at.events@, rt.events@, h),
        _ => Seq::empty(),
    }
}

/// The operations of rendering the nodes `as_` over `bs` into `rs` under
/// `parent`, place by place: each node's own operations, then its placement
/// into the parent where it has a fresh resource.
pub open spec fn items_ops(bs: Seq<Node>, as_: Seq<Node>, rs: Seq<Node>, parent: u64) -> Seq<OpView>
    decreases as_,
{
    if as_.len() == 0 {
        Seq::empty()
    } else {
        let i = as_.len() - 1;
        items_ops(bs, as_.drop_last(), rs.subrange(0, i), parent) + node_ops(at(bs, i), as_.last(), rs[i]) + (if kept(
            at(bs, i),
            as_.last(),
        ) {
            Seq::empty()
        } else {
            seq![placement(parent, at(bs, i), node_handle(rs[i])->0)@]
        })
    }
}

/// The dispatch table after rendering `a` over `b` into `r`, from `t`: the
/// node's old ids unbound and its slots bound, then the same for the
/// children in order.
pub open spec fn node_table(b: Option<Node>, a: Node, r: Node, t: Map<u64, u64>) -> Map<u64, u64>
    decreases a, 0nat,
{
    let t1 = bind_lists(unbind_lists(t, prior_events(b, a)), node_events(a), node_events(r));
    match (a, r) {
        (Node::Element(ae), Node::Element(re)) => items_table(prior_children(b, a), ae.children@, re.children@, t1),
        _ => t1,
    }
}

pub open spec fn items_table(bs: Seq<Node>, as_: Seq<Node>, rs: Seq<Node>, t: Map<u64, u64>) -> Map<u64, u64>
    decreases as_,
{
    if as_.len() == 0 {
        t
    } else {
        let i = as_.len() - 1;
        node_table(at(bs, i), as_.last(), rs[i], items_table(bs, as_.drop_last(), rs.subrange(0, i), t))
    }
}

/// The removals of the nodes of `bs` past the first `n`.
pub open spec fn tail_views(parent: u64, bs: Seq<Node>, n: int) -> Seq<OpView> {
    if n < bs.len() {
        ops_view(tail_removals(parent, bs.subrange(n, bs.len() as int)))
    } else {
        Seq::empty()
    }
}

/// Every operation of rendering `as_` over `bs` into `rs` under `parent`.
pub open spec fn list_ops(bs: Seq<Node>, as_: Seq<Node>, rs: Seq<Node>, parent: u64) -> Seq<OpView> {
    items_ops(bs, as_, rs, parent) + tail_views(parent, bs, as_.len() as int)
}

proof fn lemma_attribute_views(
    ops: Seq<Op>,
    n: int,
    h: u64,
    b: Seq<Attribute>,
    a: Seq<Attribute>,
    names: Seq<Seq<char>>,
    xs: Seq<Attribute>,
    input: bool,
)
    requires
        0 <= n <= ops.len(),
        names == removed_names(b, a),
        xs == written(b, a),
        attribute_ops(ops, n, h, names, xs, input),
    ensures
        ops_view(ops) == ops_view(ops.subrange(0, n)) + attribute_views(b, a, h, input),
{
    let rhs = ops_view(ops.subrange(0, n)) + attribute_views(b, a, h, input);
    assert forall|i: int| 0 <= i < ops.len() implies ops_view(ops)[i] == rhs[i] by {
        if i >= n && i < n + names.len() {
            assert(removal_op_is(ops[n + (i - n)], h, names[i - n]));
        } else if i >= n + names.len() {
            assert(write_op_is(ops[n + names.len() + (i - n - names.len())], h, xs[i - n - names.len()], input));
        }
    }
    assert(ops_view(ops) =~= rhs);
}

proof fn lemma_written_all(a: Seq<Attribute>)
    ensures
        written(Seq::empty(), a) == a,
        removed_names(Seq::empty(), a).len() == 0,
    decreases a.len(),
{
    if a.len() > 0 {
        lemma_written_all(a.drop_last());
        assert(!unchanged_attribute(Seq::empty(), a.last()));
        assert(a.drop_last().push(a.last()) =~= a);
    }
}

/// A declaration as a render pass takes it: no two attributes and no two
/// event lists of a node share a name, every handler slot waits for an id,
/// and the same of the children.
pub open spec fn declared(a: Node) -> bool
    decreases a,
{
    &&& all_pending(node_events(a))
    &&& distinct_event_names(node_events(a))
    &&& match a {
        Node::Element(e) => {
            &&& distinct_attribute_names(e.attributes@)
            &&& forall|i: int| 0 <= i < e.children@.len() ==> declared(#[trigger] e.children@[i])
        },
        Node::Text(_) => true,
    }
}

/// A committed node: it stands on a live resource with a handle below `hb`,
/// its handler slots are bound to ids below `ib` with no id twice, and the
/// same of the children.
pub open spec fn committed(n: Node, hb: u64, ib: u64) -> bool
    decreases n,
{
    &&& node_handle(n) is Some
    &&& node_handle(n)->0 < hb
    &&& ids_ok(node_events(n), ib)
    &&& match n {
        Node::Element(e) => forall|i: int| 0 <= i < e.children@.len() ==> committed(#[trigger] e.children@[i], hb, ib),
        Node::Text(_) => true,
    }
}

proof fn lemma_committed_mono(n: Node, hb: u64, ib: u64, hb2: u64, ib2: u64)
    requires
        committed(n, hb, ib),
        hb <= hb2,
        ib <= ib2,
    ensures
        committed(n, hb2, ib2),
    decreases n,
{
    match n {
        Node::Element(e) => {
            assert forall|i: int| 0 <= i < e.children@.len() implies committed(#[trigger] e.children@[i], hb2, ib2) by {
                assert(decreases_to!(n => e.children@[i]));
                lemma_committed_mono(e.children@[i], hb, ib, hb2, ib2);
            }
        },
        _ => {},
    }
}

/// The state one render pass works on.
pub struct Pass {
    pub next_handle: u64,
    pub registry: Registry,
    pub ops: Vec<Op>,
}

pub open spec fn grew(st0: Pass, st1: Pass) -> bool {
    &&& st0.next_handle <= st1.next_handle
    &&& st0.registry.next_id <= st1.registry.next_id
    &&& st0.ops@.len() <= st1.ops@.len()
    &&& st1.ops@.subrange(0, st0.ops@.len() as int) == st0.ops@
}

pub open spec fn within(st0: Pass, st1: Pass, w: nat) -> bool {
    &&& st1.next_handle <= st0.next_handle + w
    &&& st1.registry.next_id <= st0.registry.next_id + w
}

pub open spec fn room(p: Pass, w: nat) -> bool {
    &&& p.next_handle + w <= u64::MAX
    &&& p.registry.next_id + w <= u64::MAX
}

/// Where a fresh resource at place `i` goes: in place of the resource that
/// stood there, or at the end of the parent.
pub open spec fn placement(parent: u64, b: Option<Node>, h: u64) -> Op {
    if b is Some && node_handle(b->0) is Some {
        Op::Replace { parent, child: h, old: node_handle(b->0)->0 }
    } else {
        Op::Append { parent, child: h }
    }
}

proof fn lemma_contains_grows(ops0: Seq<Op>, ops1: Seq<Op>, x: Op)
    requires
        ops0.len() <= ops1.len(),
        ops1.subrange(0, ops0.len() as int) == ops0,
        ops0.contains(x),
    ensures
        ops1.contains(x),
{
    let j = choose|j: int| 0 <= j < ops0.len() && ops0[j] == x;
    assert(ops1.subrange(0, ops0.len() as int)[j] == ops1[j]);
}

proof fn lemma_weight_step(s: Seq<Node>, k: int)
    requires
        0 <= k < s.len(),
    ensures
        weight_list(s.subrange(0, k + 1)) == weight_list(s.subrange(0, k)) + weight(s[k]),
        weight_list(s.subrange(0, k + 1)) <= weight_list(s),
{
    assert(s.subrange(0, k + 1).drop_last() =~= s.subrange(0, k));
    lemma_weight_prefix(s, k + 1);
}

proof fn lemma_weight_prefix(s: Seq<Node>, n: int)
    requires
        0 <= n <= s.len(),
    ensures
        weight_list(s.subrange(0, n)) <= weight_list(s),
    decreases s.len() - n,
{
    if n < s.len() {
        assert(s.subrange(0, n + 1).drop_last() =~= s.subrange(0, n));
        lemma_weight_prefix(s, n + 1);
    } else {
        assert(s.subrange(0, n) =~= s);
    }
}

proof fn lemma_grew_trans(st0: Pass, st1: Pass, st2: Pass)
    requires
        grew(st0, st1),
        grew(st1, st2),
    ensures
        grew(st0, st2),
{
    assert(st2.ops@.subrange(0, st0.ops@.len() as int) =~= st2.ops@.subrange(0, st1.ops@.len() as int).subrange(
        0,
        st0.ops@.len() as int,
    ));
}

/// Renders one node over what stood at its place. Returns the committed node
/// and whether a new live resource was made for it, which the caller then puts
/// into the parent.
#[verifier::rlimit(100)]
pub fn diff_render_node(before: Option<Node>, after: Node, pass: &mut Pass) -> (res: (Node, bool))
    requires
        room(*old(pass), weight(after)),
        declared(after),
        before is Some ==> committed(before->0, old(pass).next_handle, old(pass).registry.next_id),
    ensures
        committed(res.0, final(pass).next_handle, final(pass).registry.next_id),
        final(pass).registry.table() == node_table(before, after, res.0, old(pass).registry.table()),
        grew(*old(pass), *final(pass)),
        within(*old(pass), *final(pass), weight(after)),
        reconciled(
            before,
            after,
            res.0,
            old(pass).next_handle,
            final(pass).next_handle,
            old(pass).registry.next_id,
            final(pass).registry.next_id,
        ),
        res.1 == !kept(before, after),
        ops_view(final(pass).ops@) == ops_view(old(pass).ops@) + node_ops(before, after, res.0),
        before is Some && settled(before->0, after) ==> final(pass).ops@ == old(pass).ops@,
    decreases weight(after), 0nat,
{
    let ghost st0 = *pass;
    let ghost a0 = after;
    match after {
        Node::Element(ae) => {
            let ElementNode { tag, attributes, events, children, handle: _ } = ae;
            let input = is_input_tag(&tag);
            let mut bnode: Option<ElementNode> = None;
            match before {
                Some(Node::Element(be)) => {
                    if be.tag == tag && be.handle.is_some() {
                        bnode = Some(be);
                    }
                },
                _ => {},
            }
            match bnode {
                Some(be) => {
                    let ElementNode { tag: _, attributes: battrs, events: bevents, children: bchildren, handle: bhandle } = be;
                    let h = bhandle.unwrap();
                    diff_render_element_attribute(&battrs, &attributes, h, input, &mut pass.ops);
                    let ghost st1 = *pass;
                    assert(st1.ops@.subrange(0, st0.ops@.len() as int) == st0.ops@);
                    let evs = render_events(&bevents, &events, h, &mut pass.registry, &mut pass.ops);
                    let ghost st2 = *pass;
                    proof {
                        lemma_grew_trans(st0, st1, st2);
                    }
                    proof {
                        assert forall|i: int| 0 <= i < bchildren@.len() implies committed(#[trigger] bchildren@[i], st2.next_handle, st2.registry.next_id) by {
                            assert(committed(bchildren@[i], st0.next_handle, st0.registry.next_id));
                            lemma_committed_mono(bchildren@[i], st0.next_handle, st0.registry.next_id, st2.next_handle, st2.registry.next_id);
                        }
                    }
                    let ch = render_node_list(bchildren, children, h, pass);
                    proof {
                        lemma_grew_trans(st0, st2, *pass);
                        lemma_events_widen(bevents@, events@, evs@, st0.registry.next_id, st1.registry.next_id, st2.registry.next_id, pass.registry.next_id);
                        lemma_list_widen(bchildren@, children@, ch@, st0.next_handle, st2.next_handle, pass.next_handle, pass.next_handle, st0.registry.next_id, st2.registry.next_id, pass.registry.next_id, pass.registry.next_id);
                        lemma_attribute_views(
                            st1.ops@,
                            st0.ops@.len() as int,
                            h,
                            battrs@,
                            attributes@,
                            removed_names(battrs@, attributes@),
                            written(battrs@, attributes@),
                            input,
                        );
                        assert(prior_attributes(before, a0) == battrs@);
                        assert(prior_events(before, a0) == bevents@);
                        assert(prior_children(before, a0) == bchildren@);
                        assert(kept(before, a0));
                        assert(node_table(before, a0, Node::Element(ElementNode { tag, attributes, events: evs, children: ch, handle: Some(h) }), st0.registry.table())
                            == items_table(bchildren@, children@, ch@, bind_lists(unbind_lists(st0.registry.table(), bevents@), events@, evs@)));
                        let av = attribute_views(battrs@, attributes@, h, input);
                        let eo = event_ops(bevents@, events@, evs@, h);
                        let lo = list_ops(bchildren@, children@, ch@, h);
                        assert(ops_view(pass.ops@) =~= ops_view(st0.ops@) + (av + eo + lo));
                        assert(node_ops(before, a0, Node::Element(ElementNode { tag, attributes, events: evs, children: ch, handle: Some(h) })) =~= Seq::<OpView>::empty() + av + eo + items_ops(bchildren@, children@, ch@, h) + tail_views(h, bchildren@, children@.len() as int));
                    }
                    (Node::Element(ElementNode { tag, attributes, events: evs, children: ch, handle: Some(h) }), false)
                },
                None => {
                    let h = pass.next_handle;
                    pass.next_handle = h + 1;
                    let ghost pre = pass.ops@;
                    pass.ops.push(Op::CreateElement { handle: h, tag: tag.clone() });
                    assert(pass.ops@.subrange(0, pre.len() as int) =~= pre);
                    let ghost pushed = pass.ops@;
                    force_render_element_attribute(&attributes, h, input, &mut pass.ops);
                    let ghost st1 = *pass;
                    proof {
                        assert(pass.ops@.subrange(0, st0.ops@.len() as int) =~= pass.ops@.subrange(0, pushed.len() as int).subrange(0, st0.ops@.len() as int));
                    }
                    let empty: Vec<EventList> = Vec::new();
                    let evs = render_events(&empty, &events, h, &mut pass.registry, &mut pass.ops);
                    let ghost st2 = *pass;
                    proof {
                        lemma_grew_trans(st0, st1, st2);
                    }
                    let ch = render_node_list(Vec::new(), children, h, pass);
                    proof {
                        lemma_grew_trans(st0, st2, *pass);
                        lemma_events_widen(empty@, events@, evs@, st0.registry.next_id, st1.registry.next_id, st2.registry.next_id, pass.registry.next_id);
                        lemma_list_widen(Seq::empty(), children@, ch@, st0.next_handle, st2.next_handle, pass.next_handle, pass.next_handle, st0.registry.next_id, st2.registry.next_id, pass.registry.next_id, pass.registry.next_id);
                        lemma_written_all(attributes@);
                        lemma_ops_view_push(pre, Op::CreateElement { handle: h, tag });
                        assert(st1.ops@.subrange(0, pushed.len() as int) == pushed);
                        lemma_attribute_views(
                            st1.ops@,
                            pushed.len() as int,
                            h,
                            Seq::empty(),
                            attributes@,
                            Seq::empty(),
                            attributes@,
                            input,
                        );
                        let cr = seq![OpView::CreateElement { handle: h, tag: tag@ }];
                        let av = attribute_views(Seq::empty(), attributes@, h, input);
                        let eo = event_ops(empty@, events@, evs@, h);
                        let lo = list_ops(Seq::empty(), children@, ch@, h);
                        assert(ops_view(pass.ops@) =~= ops_view(st0.ops@) + (cr + av + eo + lo));
                        assert(!kept(before, a0));
                        assert(prior_attributes(before, a0) == Seq::<Attribute>::empty());
                        assert(prior_events(before, a0) == empty@);
                        assert(prior_children(before, a0) == Seq::<Node>::empty());
                        assert(node_table(before, a0, Node::Element(ElementNode { tag, attributes, events: evs, children: ch, handle: Some(h) }), st0.registry.table())
                            == items_table(Seq::empty(), children@, ch@, bind_lists(unbind_lists(st0.registry.table(), empty@), events@, evs@)));
                        assert(prior_events(before, a0) == empty@);
                        assert(prior_children(before, a0) == Seq::<Node>::empty());
                        assert(node_ops(before, a0, Node::Element(ElementNode { tag, attributes, events: evs, children: ch, handle: Some(h) })) =~= cr + av + eo + items_ops(Seq::empty(), children@, ch@, h) + tail_views(h, Seq::empty(), children@.len() as int));
                    }
                    (Node::Element(ElementNode { tag, attributes, events: evs, children: ch, handle: Some(h) }), true)
                },
            }
        },
        Node::Text(at) => {
            let TextNode { text, events, handle: _ } = at;
            let mut bnode: Option<TextNode> = None;
            match before {
                Some(Node::Text(bt)) => {
                    if bt.text == text && bt.handle.is_some() {
                        bnode = Some(bt);
                    }
                },
                _ => {},
            }
            match bnode {
                Some(bt) => {
                    let h = bt.handle.unwrap();
                    let evs = render_events(&bt.events, &events, h, &mut pass.registry, &mut pass.ops);
                    assert(prior_events(before, a0) == bt.events@);
                    assert(kept(before, a0));
                    assert(node_ops(before, a0, Node::Text(TextNode { text, events: evs, handle: Some(h) })) =~= Seq::<OpView>::empty() + event_ops(bt.events@, events@, evs@, h));
                    assert(ops_view(pass.ops@) =~= ops_view(st0.ops@) + node_ops(before, a0, Node::Text(TextNode { text, events: evs, handle: Some(h) })));
                    (Node::Text(TextNode { text, events: evs, handle: Some(h) }), false)
                },
                None => {
                    let h = pass.next_handle;
                    pass.next_handle = h + 1;
                    let ghost pre = pass.ops@;
                    pass.ops.push(Op::CreateText { handle: h, text: text.clone() });
                    assert(pass.ops@.subrange(0, pre.len() as int) =~= pre);
                    let empty: Vec<EventList> = Vec::new();
                    let evs = render_events(&empty, &events, h, &mut pass.registry, &mut pass.ops);
                    proof {
                        assert(pass.ops@.subrange(0, st0.ops@.len() as int) =~= pass.ops@.subrange(0, pre.len() + 1 as int).subrange(0, st0.ops@.len() as int));
                        assert(pass.ops@.subrange(0, pre.len() + 1 as int)[pre.len() as int] == pass.ops@[pre.len() as int]);
                        assert(pass.ops@[pre.len() as int] == Op::CreateText { handle: h, text });
                        assert(prior_events(before, a0) == empty@);
                        assert(!kept(before, a0));
                        lemma_ops_view_push(pre, Op::CreateText { handle: h, text });
                        let cr = seq![OpView::CreateText { handle: h, text: text@ }];
                        let eo = event_ops(empty@, events@, evs@, h);
                        assert(node_ops(before, a0, Node::Text(TextNode { text, events: evs, handle: Some(h) })) =~= cr + eo);
                        assert(ops_view(pass.ops@) =~= ops_view(st0.ops@) + (cr + eo));
                    }
                    (Node::Text(TextNode { text, events: evs, handle: Some(h) }), true)
                },
            }
        },
    }
}

/// Renders the node list `afters` over the committed list `befores` of the
/// live resource `parent`, position by position. A node that does not keep the
/// resource at its place is put in place of it, or appended where the place was
/// empty. The committed nodes that `afters` does not reach are removed from
/// the parent afterwards, in order.
#[verifier::rlimit(100)]
pub fn render_node_list(befores: Vec<Node>, afters: Vec<Node>, parent: u64, pass: &mut Pass) -> (res: Vec<Node>)
    requires
        room(*old(pass), weight_list(afters@)),
        forall|i: int| 0 <= i < afters@.len() ==> declared(#[trigger] afters@[i]),
        forall|i: int| 0 <= i < befores@.len() ==> committed(#[trigger] befores@[i], old(pass).next_handle, old(pass).registry.next_id),
        parent < old(pass).next_handle || old(pass).next_handle + weight_list(afters@) <= parent,
    ensures
        forall|i: int| 0 <= i < res@.len() ==> committed(#[trigger] res@[i], final(pass).next_handle, final(pass).registry.next_id),
        final(pass).registry.table() == items_table(befores@, afters@, res@, old(pass).registry.table()),
        grew(*old(pass), *final(pass)),
        within(*old(pass), *final(pass), weight_list(afters@)),
        reconciled_list(
            befores@,
            afters@,
            res@,
            old(pass).next_handle,
            final(pass).next_handle,
            old(pass).registry.next_id,
            final(pass).registry.next_id,
        ),
        forall|i: int|
            0 <= i < afters@.len() && !kept(at(befores@, i), afters@[i]) ==> final(pass).ops@.contains(
                placement(parent, at(befores@, i), node_handle(#[trigger] res@[i])->0),
            ),
        ops_view(final(pass).ops@) == ops_view(old(pass).ops@) + list_ops(befores@, afters@, res@, parent),
        afters@.len() < befores@.len() ==> ({
            let t = tail_removals(parent, befores@.subrange(afters@.len() as int, befores@.len() as int));
            final(pass).ops@.subrange(final(pass).ops@.len() - t.len(), final(pass).ops@.len() as int) == t
        }),
        settled_list(befores@, afters@) ==> final(pass).ops@ == old(pass).ops@,
    decreases weight_list(afters@), 1nat,
{
    let ghost st0 = *pass;
    assert(pass.ops@.subrange(0, pass.ops@.len() as int) =~= pass.ops@);
    let ghost bs = befores@;
    let ghost as_ = afters@;
    let blen = befores.len();
    let alen = afters.len();
    let mut rest_b = befores;
    let mut rest_a = afters;
    let mut res: Vec<Node> = Vec::new();
    let mut i: usize = 0;
    while rest_a.len() > 0
        invariant
            0 <= i <= as_.len(),
            alen == as_.len(),
            as_ == afters@,
            rest_a@ == as_.subrange(i as int, as_.len() as int),
            i <= bs.len() ==> rest_b@ == bs.subrange(i as int, bs.len() as int),
            i > bs.len() ==> rest_b@.len() == 0,
            room(st0, weight_list(as_)),
            grew(st0, *pass),
            within(st0, *pass, weight_list(as_.subrange(0, i as int))),
            weight_list(as_.subrange(0, i as int)) <= weight_list(as_),
            res@.len() == i,
            forall|j: int| 0 <= j < as_.len() ==> declared(#[trigger] as_[j]),
            forall|j: int| 0 <= j < bs.len() ==> committed(#[trigger] bs[j], st0.next_handle, st0.registry.next_id),
            forall|j: int| 0 <= j < i ==> committed(#[trigger] res@[j], pass.next_handle, pass.registry.next_id),
            pass.registry.table() == items_table(bs, as_.subrange(0, i as int), res@, st0.registry.table()),
            forall|j: int|
                0 <= j < i ==> reconciled(
                    at(bs, j),
                    #[trigger] as_[j],
                    res@[j],
                    st0.next_handle,
                    pass.next_handle,
                    st0.registry.next_id,
                    pass.registry.next_id,
                ),
            forall|j: int|
                0 <= j < i && !kept(at(bs, j), as_[j]) ==> pass.ops@.contains(
                    placement(parent, at(bs, j), node_handle(#[trigger] res@[j])->0),
                ),
            ops_view(pass.ops@) == ops_view(st0.ops@) + items_ops(bs, as_.subrange(0, i as int), res@, parent),
            settled_list(bs, as_) ==> pass.ops@ == st0.ops@,
        decreases rest_a@.len(),
    {
        proof {
            lemma_weight_step(as_, i as int);
        }
        let a = rest_a.remove(0);
        assert(a == as_[i as int]);
        let b = if rest_b.len() > 0 {
            Some(rest_b.remove(0))
        } else {
            None
        };
        assert(b == at(bs, i as int));
        let old_handle = match &b {
            Some(Node::Element(e)) => e.handle,
            Some(Node::Text(t)) => t.handle,
            None => None,
        };
        let ghost st1 = *pass;
        assert(weight(a) <= weight_list(as_));
        proof {
            if b is Some {
                lemma_committed_mono(bs[i as int], st0.next_handle, st0.registry.next_id, st1.next_handle, st1.registry.next_id);
            }
        }
        let (r, fresh) = diff_render_node(b, a, pass);
        let ghost st2 = *pass;
        let ghost bb = at(bs, i as int);
        if fresh {
            let h = match &r {
                Node::Element(e) => e.handle.unwrap(),
                Node::Text(t) => t.handle.unwrap(),
            };
            let ghost pre = pass.ops@;
            match old_handle {
                Some(o) => pass.ops.push(Op::Replace { parent, child: h, old: o }),
                None => pass.ops.push(Op::Append { parent, child: h }),
            }
            assert(pass.ops@.subrange(0, pre.len() as int) =~= pre);
            assert(pass.ops@[pre.len() as int] == placement(parent, bb, h));
            assert(pass.ops@ =~= pre.push(placement(parent, bb, h)));
            proof {
                lemma_ops_view_push(pre, placement(parent, bb, h));
            }
        }
        let ghost items_before = items_ops(bs, as_.subrange(0, i as int), res@, parent);
        let ghost step = node_ops(bb, a, r) + (if kept(bb, a) {
            Seq::<OpView>::empty()
        } else {
            seq![placement(parent, bb, node_handle(r)->0)@]
        });
        assert(ops_view(pass.ops@) =~= ops_view(st0.ops@) + items_before + step);
        proof {
            assert(pass.ops@.subrange(0, st2.ops@.len() as int) =~= st2.ops@);
            lemma_grew_trans(st0, st1, st2);
            lemma_grew_trans(st0, st2, *pass);
            lemma_grew_trans(st1, st2, *pass);
            assert forall|j: int|
                0 <= j < i && !kept(at(bs, j), as_[j]) implies pass.ops@.contains(
                placement(parent, at(bs, j), node_handle(#[trigger] res@[j])->0),
            ) by {
                lemma_contains_grows(st1.ops@, pass.ops@, placement(parent, at(bs, j), node_handle(res@[j])->0));
            }
            lemma_reconciled_widen_all(bs, as_, res@, i as int, st0.next_handle, st1.next_handle, pass.next_handle, st0.registry.next_id, st1.registry.next_id, pass.registry.next_id);
            lemma_reconciled_widen2(at(bs, i as int), a, r, st0.next_handle, st1.next_handle, st2.next_handle, pass.next_handle, st0.registry.next_id, st1.registry.next_id, st2.registry.next_id, pass.registry.next_id);
            if settled_list(bs, as_) {
                assert(settled(bs[i as int], as_[i as int]));
            }
        }
        proof {
            assert forall|j: int| 0 <= j < i implies committed(#[trigger] res@[j], pass.next_handle, pass.registry.next_id) by {
                lemma_committed_mono(res@[j], st1.next_handle, st1.registry.next_id, pass.next_handle, pass.registry.next_id);
            }
        }
        let ghost res_before = res@;
        res.push(r);
        proof {
            let p1 = as_.subrange(0, i + 1);
            assert(p1.drop_last() =~= as_.subrange(0, i as int));
            assert(res@.subrange(0, i as int) =~= res_before);
            assert(p1.last() == a);
            assert(res@[i as int] == r);
            assert(items_ops(bs, p1, res@, parent) == items_before + step);
            assert(items_table(bs, p1, res@, st0.registry.table()) == node_table(bb, a, r, items_table(bs, as_.subrange(0, i as int), res_before, st0.registry.table())));
        }
        i = i + 1;
        proof {
            assert(rest_a@ =~= as_.subrange(i as int, as_.len() as int));
            if i <= bs.len() {
                assert(rest_b@ =~= bs.subrange(i as int, bs.len() as int));
            }
        }
    }
    assert(as_.subrange(0, i as int) =~= as_);
    let ghost mid = pass.ops@;
    let ghost st3 = *pass;
    let ghost start = i as int;
    if rest_b.len() > 0 {
        assert(bs.subrange(start, i as int) =~= Seq::<Node>::empty());
        assert(pass.ops@ =~= mid + tail_removals(parent, bs.subrange(start, i as int)));
        while rest_b.len() > 0
            invariant
                start == as_.len(),
                start <= i <= bs.len(),
                blen == bs.len(),
                rest_b@ == bs.subrange(i as int, bs.len() as int),
                pass.next_handle == st3.next_handle,
                pass.registry.next_id == st3.registry.next_id,
                pass.registry == st3.registry,
                pass.ops@ == mid + tail_removals(parent, bs.subrange(start, i as int)),
            decreases rest_b@.len(),
        {
            let b = rest_b.remove(0);
            assert(b == bs[i as int]);
            assert(bs.subrange(start, i + 1).drop_last() =~= bs.subrange(start, i as int));
            let ghost pre = pass.ops@;
            match b {
                Node::Element(e) => {
                    if let Some(h) = e.handle {
                        pass.ops.push(Op::Remove { parent, child: h });
                    }
                },
                Node::Text(t) => {
                    if let Some(h) = t.handle {
                        pass.ops.push(Op::Remove { parent, child: h });
                    }
                },
            }
            i = i + 1;
            assert(pass.ops@ =~= mid + tail_removals(parent, bs.subrange(start, i as int)));
            assert(rest_b@ =~= bs.subrange(i as int, bs.len() as int));
        }
    }
    proof {
        if start < bs.len() {
            let t = tail_removals(parent, bs.subrange(start, bs.len() as int));
            assert(i == bs.len());
            assert(pass.ops@.subrange(pass.ops@.len() - t.len(), pass.ops@.len() as int) =~= t);
        } else {
            assert(pass.ops@ =~= mid);
        }
        assert(pass.ops@.subrange(0, mid.len() as int) =~= mid);
        lemma_grew_trans(st0, st3, *pass);
        if start < bs.len() {
            lemma_ops_view_add(mid, tail_removals(parent, bs.subrange(start, bs.len() as int)));
        }
        assert(ops_view(pass.ops@) =~= ops_view(st0.ops@) + list_ops(bs, as_, res@, parent));
    }
    res
}

/// Widening the ranges of fresh handles and ids keeps a node reconciled.
proof fn lemma_reconciled_widen(b: Option<Node>, a: Node, r: Node, hlo: u64, hhi: u64, hhi2: u64, ilo: u64, ihi: u64, ihi2: u64)
    requires
        hhi <= hhi2,
        ihi <= ihi2,
        reconciled(b, a, r, hlo, hhi, ilo, ihi),
    ensures
        reconciled(b, a, r, hlo, hhi2, ilo, ihi2),
{
    lemma_reconciled_widen2(b, a, r, hlo, hlo, hhi, hhi2, ilo, ilo, ihi, ihi2);
}

/// Widening the ranges of fresh handles and ids on both sides keeps a node reconciled.
proof fn lemma_reconciled_widen2(b: Option<Node>, a: Node, r: Node, hlo2: u64, hlo: u64, hhi: u64, hhi2: u64, ilo2: u64, ilo: u64, ihi: u64, ihi2: u64)
    requires
        hlo2 <= hlo,
        hhi <= hhi2,
        ilo2 <= ilo,
        ihi <= ihi2,
        reconciled(b, a, r, hlo, hhi, ilo, ihi),
    ensures
        reconciled(b, a, r, hlo2, hhi2, ilo2, ihi2),
    decreases a,
{
    let k = kept(b, a);
    let bev = if k { node_events(b->0) } else { Seq::empty() };
    lemma_events_widen(bev, node_events(a), node_events(r), ilo2, ilo, ihi, ihi2);
    match (a, r) {
        (Node::Element(ae), Node::Element(re)) => {
            let bch = if k { node_children(b->0) } else { Seq::empty() };
            assert forall|i: int| 0 <= i < ae.children@.len() implies reconciled(at(bch, i), #[trigger] ae.children@[i], re.children@[i], hlo2, hhi2, ilo2, ihi2) by {
                assert(decreases_to!(a => ae.children@[i]));
                lemma_reconciled_widen2(at(bch, i), ae.children@[i], re.children@[i], hlo2, hlo, hhi, hhi2, ilo2, ilo, ihi, ihi2);
            }
        },
        _ => {},
    }
}

proof fn lemma_events_widen(b: Seq<EventList>, a: Seq<EventList>, r: Seq<EventList>, lo2: u64, lo: u64, hi: u64, hi2: u64)
    requires
        lo2 <= lo,
        hi <= hi2,
        events_bound(b, a, r, lo, hi),
    ensures
        events_bound(b, a, r, lo2, hi2),
{
    assert forall|x: int| 0 <= x < a.len() implies list_bound(b, #[trigger] a[x], r[x], lo2, hi2) by {
        assert(list_bound(b, a[x], r[x], lo, hi));
        assert forall|j: int| 0 <= j < a[x].slots@.len() implies slot_bound(
            carried(b, a[x].name@, j),
            #[trigger] a[x].slots@[j],
            r[x].slots@[j],
            lo2,
            hi2,
        ) by {
            assert(slot_bound(carried(b, a[x].name@, j), a[x].slots@[j], r[x].slots@[j], lo, hi));
        }
    }
}

proof fn lemma_list_widen(bs: Seq<Node>, as_: Seq<Node>, rs: Seq<Node>, hlo2: u64, hlo: u64, hhi: u64, hhi2: u64, ilo2: u64, ilo: u64, ihi: u64, ihi2: u64)
    requires
        hlo2 <= hlo,
        hhi <= hhi2,
        ilo2 <= ilo,
        ihi <= ihi2,
        reconciled_list(bs, as_, rs, hlo, hhi, ilo, ihi),
    ensures
        reconciled_list(bs, as_, rs, hlo2, hhi2, ilo2, ihi2),
{
    assert forall|j: int| 0 <= j < as_.len() implies reconciled(at(bs, j), #[trigger] as_[j], rs[j], hlo2, hhi2, ilo2, ihi2) by {
        lemma_reconciled_widen2(at(bs, j), as_[j], rs[j], hlo2, hlo, hhi, hhi2, ilo2, ilo, ihi, ihi2);
    }
}

proof fn lemma_reconciled_widen_all(bs: Seq<Node>, as_: Seq<Node>, rs: Seq<Node>, n: int, hlo: u64, hhi: u64, hhi2: u64, ilo: u64, ihi: u64, ihi2: u64)
    requires
        hhi <= hhi2,
        ihi <= ihi2,
        0 <= n <= as_.len(),
        n <= rs.len(),
        forall|j: int| 0 <= j < n ==> reconciled(at(bs, j), #[trigger] as_[j], rs[j], hlo, hhi, ilo, ihi),
    ensures
        forall|j: int| 0 <= j < n ==> reconciled(at(bs, j), #[trigger] as_[j], rs[j], hlo, hhi2, ilo, ihi2),
{
    assert forall|j: int| 0 <= j < n implies reconciled(at(bs, j), #[trigger] as_[j], rs[j], hlo, hhi2, ilo, ihi2) by {
        lemma_reconciled_widen(at(bs, j), as_[j], rs[j], hlo, hhi, hhi2, ilo, ihi, ihi2);
    }
}


/// What one pass of `Renderer::render` does: the new committed list renders
/// `afters` over the old one; the counters only grow, and by no more than the
/// weight of `afters`; every place that does not keep its resource has the new
/// one put in (in place of the old one, or appended); the operations are
/// exactly those of `list_ops`, in that order; the dispatch table is as
/// `items_table` says; the committed nodes past
/// the end of `afters` are removed last, in order; and where nothing differs
/// that the live output could show, no operation is asked for at all.
pub open spec fn render_done(r0: Renderer, r1: Renderer, afters: Seq<Node>, parent: u64, ops: Seq<Op>) -> bool {
    &&& reconciled_list(
        r0.befores@,
        afters,
        r1.befores@,
        r0.next_handle,
        r1.next_handle,
        r0.registry.next_id,
        r1.registry.next_id,
    )
    &&& r0.next_handle <= r1.next_handle <= r0.next_handle + weight_list(afters)
    &&& r0.registry.next_id <= r1.registry.next_id <= r0.registry.next_id + weight_list(afters)
    &&& forall|i: int|
        0 <= i < afters.len() && !kept(at(r0.befores@, i), afters[i]) ==> ops.contains(
            placement(parent, at(r0.befores@, i), node_handle(#[trigger] r1.befores@[i])->0),
        )
    &&& ops_view(ops) == list_ops(r0.befores@, afters, r1.befores@, parent)
    &&& r1.registry.table() == items_table(r0.befores@, afters, r1.befores@, r0.registry.table())
    &&& afters.len() < r0.befores@.len() ==> ({
        let t = tail_removals(parent, r0.befores@.subrange(afters.len() as int, r0.befores@.len() as int));
        ops.subrange(ops.len() - t.len(), ops.len() as int) == t
    })
    &&& settled_list(r0.befores@, afters) ==> ops.len() == 0
}

/// The reconciler of one parent: the node list committed by the last pass,
/// the handle counter of the live resources, and the dispatch registry.
pub struct Renderer {
    pub befores: Vec<Node>,
    pub next_handle: u64,
    pub registry: Registry,
}

impl Renderer {
    /// Every committed node stands on a handle below the handle counter, with
    /// its handler ids below the id counter and no id twice in one node.
    pub open spec fn wf(&self) -> bool {
        forall|i: int| 0 <= i < self.befores@.len() ==> committed(#[trigger] self.befores@[i], self.next_handle, self.registry.next_id)
    }

    pub fn new() -> (r: Renderer)
        ensures
            r.wf(),
            r.befores@.len() == 0,
            r.next_handle == 0,
            r.registry.next_id == 0,
            r.registry.table() == Map::<u64, u64>::empty(),
    {
        Renderer { befores: Vec::new(), next_handle: 0, registry: Registry::new() }
    }

    /// Renders `afters` as the new children of the live resource `parent`,
    /// against the list that the last pass committed, and commits the result.
    /// Returns the mutations of the live output, in the order to apply them.
    pub fn render(&mut self, afters: Vec<Node>, parent: u64) -> (ops: Vec<Op>)
        requires
            old(self).wf(),
            forall|i: int| 0 <= i < afters@.len() ==> declared(#[trigger] afters@[i]),
            old(self).next_handle + weight_list(afters@) <= u64::MAX,
            old(self).registry.next_id + weight_list(afters@) <= u64::MAX,
            parent < old(self).next_handle || old(self).next_handle + weight_list(afters@) <= parent,
        ensures
            final(self).wf(),
            render_done(*old(self), *final(self), afters@, parent, ops@),
    {
        let mut befores: Vec<Node> = Vec::new();
        std::mem::swap(&mut befores, &mut self.befores);
        let mut registry = Registry::new();
        std::mem::swap(&mut registry, &mut self.registry);
        let mut pass = Pass { next_handle: self.next_handle, registry, ops: Vec::new() };
        let committed = render_node_list(befores, afters, parent, &mut pass);
        let Pass { next_handle, registry, ops } = pass;
        self.befores = committed;
        self.next_handle = next_handle;
        self.registry = registry;
        ops
    }

    /// Renders as `render` does where the counters have room for `afters`
    /// (and its weight is below the largest `u64`); otherwise leaves
    /// everything as it is and returns nothing.
    pub fn try_render(&mut self, afters: Vec<Node>, parent: u64) -> (ops: Option<Vec<Op>>)
        requires
            old(self).wf(),
        ensures
            final(self).wf(),
            ops is Some <==> (weight_list(afters@) < u64::MAX && old(self).next_handle + weight_list(afters@)
                <= u64::MAX && old(self).registry.next_id + weight_list(afters@) <= u64::MAX && (parent
                < old(self).next_handle || old(self).next_handle + weight_list(afters@) <= parent) && forall|i: int|
                0 <= i < afters@.len() ==> declared(#[trigger] afters@[i])),
            ops is Some ==> render_done(*old(self), *final(self), afters@, parent, ops->0@),
            ops is None ==> *final(self) == *old(self),
    {
        let w = list_weight(&afters);
        if w < u64::MAX && self.next_handle <= u64::MAX - w && self.registry.next_id <= u64::MAX - w
            && (parent < self.next_handle || self.next_handle + w <= parent) && declared_list(&afters) {
            Some(self.render(afters, parent))
        } else {
            None
        }
    }
}

fn slot_total(evs: &Vec<EventList>) -> (r: u64)
    ensures
        r == (if slot_count(evs@) < u64::MAX { slot_count(evs@) } else { u64::MAX as nat }),
{
    let mut total: u64 = 0;
    let mut k: usize = 0;
    while k < evs.len()
        invariant
            0 <= k <= evs.len(),
            total == (if slot_count(evs@.subrange(0, k as int)) < u64::MAX {
                slot_count(evs@.subrange(0, k as int))
            } else {
                u64::MAX as nat
            }),
        decreases evs.len() - k,
    {
        proof {
            lemma_slot_count_step(evs@, k as int);
        }
        let n = evs[k].slots.len() as u64;
        total = total.saturating_add(n);
        k = k + 1;
    }
    assert(evs@.subrange(0, evs.len() as int) =~= evs@);
    total
}

/// The weight of a node, saturated at the largest `u64`.
fn node_weight(n: &Node) -> (r: u64)
    ensures
        r == (if weight(*n) < u64::MAX { weight(*n) } else { u64::MAX as nat }),
    decreases weight(*n), 0nat,
{
    match n {
        Node::Element(e) => {
            let s = slot_total(&e.events);
            let c = list_weight(&e.children);
            1u64.saturating_add(s).saturating_add(c)
        },
        Node::Text(t) => 1u64.saturating_add(slot_total(&t.events)),
    }
}

/// The weight of a node list, saturated at the largest `u64`.
pub fn list_weight(nodes: &Vec<Node>) -> (r: u64)
    ensures
        r == (if weight_list(nodes@) < u64::MAX { weight_list(nodes@) } else { u64::MAX as nat }),
    decreases weight_list(nodes@), 1nat,
{
    let mut total: u64 = 0;
    let mut k: usize = 0;
    while k < nodes.len()
        invariant
            0 <= k <= nodes.len(),
            total == (if weight_list(nodes@.subrange(0, k as int)) < u64::MAX {
                weight_list(nodes@.subrange(0, k as int))
            } else {
                u64::MAX as nat
            }),
        decreases nodes.len() - k,
    {
        proof {
            lemma_weight_step(nodes@, k as int);
        }
        let w = node_weight(&nodes[k]);
        total = total.saturating_add(w);
        k = k + 1;
    }
    assert(nodes@.subrange(0, nodes.len() as int) =~= nodes@);
    total
}

/// The two declarations say the same: same kinds, tags, texts and attributes,
/// event lists of the same names and lengths, whose slots in `a2` all wait for
/// an id, and the same of the children.
pub open spec fn same_declaration(a1: Node, a2: Node) -> bool
    decreases a1,
{
    &&& same_events(node_events(a1), node_events(a2))
    &&& match (a1, a2) {
        (Node::Element(e1), Node::Element(e2)) => {
            &&& e1.tag@ == e2.tag@
            &&& same_attributes(e1.attributes@, e2.attributes@)
            &&& e1.children@.len() == e2.children@.len()
            &&& forall|i: int| 0 <= i < e1.children@.len() ==> same_declaration(#[trigger] e1.children@[i], e2.children@[i])
        },
        (Node::Text(t1), Node::Text(t2)) => t1.text@ == t2.text@,
        _ => false,
    }
}

pub open spec fn same_attributes(x: Seq<Attribute>, y: Seq<Attribute>) -> bool {
    &&& x.len() == y.len()
    &&& forall|k: int| 0 <= k < x.len() ==> {
        &&& (#[trigger] x[k]).name@ == y[k].name@
        &&& strs(x[k].values@) == strs(y[k].values@)
        &&& x[k].delimiter@ == y[k].delimiter@
    }
}

pub open spec fn same_events(x: Seq<EventList>, y: Seq<EventList>) -> bool {
    &&& x.len() == y.len()
    &&& forall|k: int| 0 <= k < x.len() ==> {
        &&& (#[trigger] x[k]).name@ == y[k].name@
        &&& x[k].slots@.len() == y[k].slots@.len()
        &&& forall|j: int| 0 <= j < y[k].slots@.len() ==> (#[trigger] y[k].slots@[j]) is Pending
    }
}

/// No two attributes and no two event lists of a node share a name, at any depth.
pub open spec fn distinct_names(a: Node) -> bool
    decreases a,
{
    &&& forall|k: int, l: int|
        0 <= k < l < node_events(a).len() ==> (#[trigger] node_events(a)[k]).name@ != (#[trigger] node_events(a)[l]).name@
    &&& match a {
        Node::Element(e) => {
            &&& forall|k: int, l: int|
                0 <= k < l < e.attributes@.len() ==> (#[trigger] e.attributes@[k]).name@ != (#[trigger] e.attributes@[l]).name@
            &&& forall|i: int| 0 <= i < e.children@.len() ==> distinct_names(#[trigger] e.children@[i])
        },
        Node::Text(_) => true,
    }
}

proof fn lemma_find_event_at(s: Seq<EventList>, k: int)
    requires
        0 <= k < s.len(),
        forall|x: int, y: int| 0 <= x < y < s.len() ==> (#[trigger] s[x]).name@ != (#[trigger] s[y]).name@,
    ensures
        find_event(s, s[k].name@) == k,
    decreases s.len(),
{
    if k < s.len() - 1 {
        let t = s.drop_last();
        assert forall|x: int, y: int| 0 <= x < y < t.len() implies (#[trigger] t[x]).name@ != (#[trigger] t[y]).name@ by {
            assert(t[x] == s[x] && t[y] == s[y]);
        }
        lemma_find_event_at(t, k);
    } else {
        lemma_find_event_absent(s.drop_last(), s[k].name@);
    }
}

proof fn lemma_find_event_absent(s: Seq<EventList>, name: Seq<char>)
    requires
        forall|x: int| 0 <= x < s.len() ==> (#[trigger] s[x]).name@ != name,
    ensures
        find_event(s, name) == s.len(),
    decreases s.len(),
{
    if s.len() > 0 {
        lemma_find_event_absent(s.drop_last(), name);
    }
}

proof fn lemma_find_attribute_at(s: Seq<Attribute>, k: int)
    requires
        0 <= k < s.len(),
        forall|x: int, y: int| 0 <= x < y < s.len() ==> (#[trigger] s[x]).name@ != (#[trigger] s[y]).name@,
    ensures
        find_attribute(s, s[k].name@) == k,
    decreases s.len(),
{
    if k < s.len() - 1 {
        let t = s.drop_last();
        assert forall|x: int, y: int| 0 <= x < y < t.len() implies (#[trigger] t[x]).name@ != (#[trigger] t[y]).name@ by {
            assert(t[x] == s[x] && t[y] == s[y]);
        }
        lemma_find_attribute_at(t, k);
    } else {
        lemma_find_attribute_absent(s.drop_last(), s[k].name@);
    }
}

proof fn lemma_find_attribute_absent(s: Seq<Attribute>, name: Seq<char>)
    requires
        forall|x: int| 0 <= x < s.len() ==> (#[trigger] s[x]).name@ != name,
    ensures
        find_attribute(s, name) == s.len(),
    decreases s.len(),
{
    if s.len() > 0 {
        lemma_find_attribute_absent(s.drop_last(), name);
    }
}

/// A name that stands in `s` is found in it.
proof fn lemma_find_attribute_found(s: Seq<Attribute>, k: int)
    requires
        0 <= k < s.len(),
    ensures
        find_attribute(s, s[k].name@) <= k,
    decreases s.len(),
{
    if k < s.len() - 1 {
        lemma_find_attribute_found(s.drop_last(), k);
    }
}

proof fn lemma_nothing_removed(b: Seq<Attribute>, a: Seq<Attribute>)
    requires
        same_attributes(b, a),
    ensures
        removed_names(b, a).len() == 0,
{
    lemma_nothing_removed_prefix(b, a, b.len() as int);
    assert(b.subrange(0, b.len() as int) =~= b);
}

proof fn lemma_nothing_removed_prefix(b: Seq<Attribute>, a: Seq<Attribute>, n: int)
    requires
        same_attributes(b, a),
        0 <= n <= b.len(),
    ensures
        removed_names(b.subrange(0, n), a).len() == 0,
    decreases n,
{
    if n > 0 {
        lemma_nothing_removed_prefix(b, a, n - 1);
        assert(b.subrange(0, n).drop_last() =~= b.subrange(0, n - 1));
        lemma_find_attribute_found(a, n - 1);
    }
}

proof fn lemma_nothing_written(b: Seq<Attribute>, a: Seq<Attribute>)
    requires
        same_attributes(b, a),
        forall|x: int, y: int| 0 <= x < y < b.len() ==> (#[trigger] b[x]).name@ != (#[trigger] b[y]).name@,
    ensures
        written(b, a).len() == 0,
{
    lemma_nothing_written_prefix(b, a, a.len() as int);
    assert(a.subrange(0, a.len() as int) =~= a);
}

proof fn lemma_nothing_written_prefix(b: Seq<Attribute>, a: Seq<Attribute>, n: int)
    requires
        same_attributes(b, a),
        forall|x: int, y: int| 0 <= x < y < b.len() ==> (#[trigger] b[x]).name@ != (#[trigger] b[y]).name@,
        0 <= n <= a.len(),
    ensures
        written(b, a.subrange(0, n)).len() == 0,
    decreases n,
{
    if n > 0 {
        lemma_nothing_written_prefix(b, a, n - 1);
        assert(a.subrange(0, n).drop_last() =~= a.subrange(0, n - 1));
        lemma_find_attribute_at(b, n - 1);
        assert(unchanged_attribute(b, a[n - 1]));
    }
}

/// Rendering the same declaration twice in a row: whatever the first pass
/// committed, the second pass finds everything settled, so it asks nothing of
/// the live output (see the last clause of `Renderer::render`).
pub proof fn lemma_render_twice_settles(
    bs: Seq<Node>,
    as1: Seq<Node>,
    rs: Seq<Node>,
    as2: Seq<Node>,
    hlo: u64,
    hhi: u64,
    ilo: u64,
    ihi: u64,
)
    requires
        reconciled_list(bs, as1, rs, hlo, hhi, ilo, ihi),
        as1.len() == as2.len(),
        forall|i: int| 0 <= i < as1.len() ==> same_declaration(#[trigger] as1[i], as2[i]),
        forall|i: int| 0 <= i < as1.len() ==> declared(#[trigger] as1[i]),
    ensures
        settled_list(rs, as2),
    decreases as1,
{
    assert forall|i: int| 0 <= i < as1.len() implies distinct_names(#[trigger] as1[i]) by {
        lemma_declared_distinct(as1[i]);
    }
    assert forall|i: int| 0 <= i < as2.len() implies settled(rs[i], #[trigger] as2[i]) by {
        assert(reconciled(at(bs, i), as1[i], rs[i], hlo, hhi, ilo, ihi));
        assert(same_declaration(as1[i], as2[i]));
        lemma_node_twice_settles(at(bs, i), as1[i], rs[i], as2[i], hlo, hhi, ilo, ihi);
    }
}

proof fn lemma_declared_distinct(a: Node)
    requires
        declared(a),
    ensures
        distinct_names(a),
    decreases a,
{
    match a {
        Node::Element(e) => {
            assert forall|i: int| 0 <= i < e.children@.len() implies distinct_names(#[trigger] e.children@[i]) by {
                assert(decreases_to!(a => e.children@[i]));
                lemma_declared_distinct(e.children@[i]);
            }
        },
        _ => {},
    }
}

proof fn lemma_node_twice_settles(b: Option<Node>, a1: Node, r: Node, a2: Node, hlo: u64, hhi: u64, ilo: u64, ihi: u64)
    requires
        reconciled(b, a1, r, hlo, hhi, ilo, ihi),
        same_declaration(a1, a2),
        distinct_names(a1),
    ensures
        settled(r, a2),
    decreases a1,
{
    let k = kept(b, a1);
    let bev = if k { node_events(b->0) } else { Seq::empty() };
    let rev = node_events(r);
    let aev = node_events(a1);
    assert forall|x: int, y: int| 0 <= x < y < rev.len() implies (#[trigger] rev[x]).name@ != (#[trigger] rev[y]).name@ by {
        assert(list_bound(bev, aev[x], rev[x], ilo, ihi));
        assert(list_bound(bev, aev[y], rev[y], ilo, ihi));
    }
    assert forall|x: int, j: int|
        0 <= x < node_events(a2).len() && 0 <= j < node_events(a2)[x].slots@.len() && (#[trigger] node_events(a2)[x].slots@[j]) is Pending
        implies carried(rev, node_events(a2)[x].name@, j) is Some by {
        assert(list_bound(bev, aev[x], rev[x], ilo, ihi));
        lemma_find_event_at(rev, x);
        assert(slot_bound(carried(bev, aev[x].name@, j), aev[x].slots@[j], rev[x].slots@[j], ilo, ihi));
    }
    match (a1, r, a2) {
        (Node::Element(e1), Node::Element(re), Node::Element(e2)) => {
            lemma_nothing_removed(re.attributes@, e2.attributes@);
            lemma_nothing_written(re.attributes@, e2.attributes@);
            let bch = if k { node_children(b->0) } else { Seq::empty() };
            assert forall|i: int| 0 <= i < e2.children@.len() implies settled(re.children@[i], #[trigger] e2.children@[i]) by {
                assert(reconciled(at(bch, i), e1.children@[i], re.children@[i], hlo, hhi, ilo, ihi));
                assert(same_declaration(e1.children@[i], e2.children@[i]));
                assert(distinct_names(e1.children@[i]));
                lemma_node_twice_settles(at(bch, i), e1.children@[i], re.children@[i], e2.children@[i], hlo, hhi, ilo, ihi);
            }
        },
        _ => {},
    }
}

/// What a list of attributes says of `name`: the values and delimiter of the
/// first attribute of that name, or nothing.
pub open spec fn attribute_lookup(s: Seq<Attribute>, name: Seq<char>) -> Option<(Seq<Seq<char>>, Seq<char>)> {
    let k = find_attribute(s, name);
    if 0 <= k < s.len() {
        Some((strs(s[k].values@), s[k].delimiter@))
    } else {
        None
    }
}

pub open spec fn distinct_attribute_names(s: Seq<Attribute>) -> bool {
    forall|x: int, y: int| 0 <= x < y < s.len() ==> (#[trigger] s[x]).name@ != (#[trigger] s[y]).name@
}

proof fn lemma_find_attribute_spec(s: Seq<Attribute>, name: Seq<char>)
    ensures
        0 <= find_attribute(s, name) <= s.len(),
        find_attribute(s, name) < s.len() ==> s[find_attribute(s, name)].name@ == name,
    decreases s.len(),
{
    if s.len() > 0 {
        lemma_find_attribute_spec(s.drop_last(), name);
    }
}

proof fn lemma_removed_count(b: Seq<Attribute>, a: Seq<Attribute>, n: Seq<char>, i: int)
    requires
        0 <= i <= b.len(),
        distinct_attribute_names(b),
        forall|m: Seq<char>| m != n ==> attribute_lookup(b, m) == attribute_lookup(a, m),
    ensures
        removed_names(b.subrange(0, i), a).len() == (if find_attribute(b, n) < i && attribute_lookup(a, n) is None {
            1int
        } else {
            0int
        }),
    decreases i,
{
    lemma_find_attribute_spec(b, n);
    if i > 0 {
        lemma_removed_count(b, a, n, i - 1);
        assert(b.subrange(0, i).drop_last() =~= b.subrange(0, i - 1));
        let m = b[i - 1].name@;
        lemma_find_attribute_at(b, i - 1);
        lemma_find_attribute_spec(a, m);
        if m != n {
            assert(attribute_lookup(b, m) == attribute_lookup(a, m));
            assert(attribute_lookup(b, m) is Some);
            assert(find_attribute(a, m) < a.len());
            assert(find_attribute(b, n) != i - 1);
        } else {
            assert(find_attribute(b, n) == i - 1);
        }
    } else {
        assert(b.subrange(0, 0) =~= Seq::<Attribute>::empty());
    }
}

proof fn lemma_written_count(b: Seq<Attribute>, a: Seq<Attribute>, n: Seq<char>, j: int)
    requires
        0 <= j <= a.len(),
        distinct_attribute_names(a),
        forall|m: Seq<char>| m != n ==> attribute_lookup(b, m) == attribute_lookup(a, m),
        attribute_lookup(b, n) != attribute_lookup(a, n),
    ensures
        written(b, a.subrange(0, j)).len() == (if find_attribute(a, n) < j { 1int } else { 0int }),
    decreases j,
{
    lemma_find_attribute_spec(a, n);
    if j > 0 {
        lemma_written_count(b, a, n, j - 1);
        assert(a.subrange(0, j).drop_last() =~= a.subrange(0, j - 1));
        let m = a[j - 1].name@;
        lemma_find_attribute_at(a, j - 1);
        lemma_find_attribute_spec(b, m);
        if m != n {
            assert(attribute_lookup(b, m) == attribute_lookup(a, m));
            assert(unchanged_attribute(b, a[j - 1]));
        } else {
            assert(!unchanged_attribute(b, a[j - 1]));
        }
    }
}

/// Attribute minimality: where the attributes before and after differ in
/// exactly one name (no two attributes of one list share a name), diffing them
/// costs exactly one attribute operation.
pub proof fn lemma_one_name_one_op(b: Seq<Attribute>, a: Seq<Attribute>, n: Seq<char>)
    requires
        distinct_attribute_names(b),
        distinct_attribute_names(a),
        forall|m: Seq<char>| m != n ==> attribute_lookup(b, m) == attribute_lookup(a, m),
        attribute_lookup(b, n) != attribute_lookup(a, n),
    ensures
        removed_names(b, a).len() + written(b, a).len() == 1,
{
    lemma_removed_count(b, a, n, b.len() as int);
    lemma_written_count(b, a, n, a.len() as int);
    assert(b.subrange(0, b.len() as int) =~= b);
    assert(a.subrange(0, a.len() as int) =~= a);
    lemma_find_attribute_spec(a, n);
    lemma_find_attribute_spec(b, n);
}

/// Matching is by position only: where two children trade places and neither
/// can stand in for the other, each place gets a fresh live resource out of
/// the pass's range of new handles, unlike any resource that stood in the
/// list before. Nothing is moved.
pub proof fn lemma_swap_replaces(
    bs: Seq<Node>,
    as_: Seq<Node>,
    rs: Seq<Node>,
    i: int,
    j: int,
    hlo: u64,
    hhi: u64,
    ilo: u64,
    ihi: u64,
)
    requires
        reconciled_list(bs, as_, rs, hlo, hhi, ilo, ihi),
        0 <= i < bs.len(),
        0 <= j < bs.len(),
        i < as_.len(),
        j < as_.len(),
        reusable(bs[j], as_[i]),
        reusable(bs[i], as_[j]),
        !reusable(bs[i], bs[j]),
        all_below(bs, hlo),
    ensures
        !kept(at(bs, i), as_[i]),
        !kept(at(bs, j), as_[j]),
        hlo <= node_handle(rs[i])->0 < hhi,
        hlo <= node_handle(rs[j])->0 < hhi,
        forall|k: int| 0 <= k < bs.len() ==> node_handle(#[trigger] bs[k]) != node_handle(rs[i]),
        forall|k: int| 0 <= k < bs.len() ==> node_handle(#[trigger] bs[k]) != node_handle(rs[j]),
{
    assert forall|k: int| 0 <= k < bs.len() implies node_handle(#[trigger] bs[k]) != node_handle(rs[i]) && node_handle(bs[k]) != node_handle(rs[j]) by {
        assert(below(bs[k], hlo));
        assert(reconciled(at(bs, i), as_[i], rs[i], hlo, hhi, ilo, ihi));
        assert(reconciled(at(bs, j), as_[j], rs[j], hlo, hhi, ilo, ihi));
    }
    assert(reconciled(at(bs, i), as_[i], rs[i], hlo, hhi, ilo, ihi));
    assert(reconciled(at(bs, j), as_[j], rs[j], hlo, hhi, ilo, ihi));
}

/// The removals of a tail whose nodes all have live resources: one for each
/// node, in order, on the node's own resource.
pub proof fn lemma_tail_removals(parent: u64, bs: Seq<Node>)
    requires
        forall|i: int| 0 <= i < bs.len() ==> ((#[trigger] node_handle(bs[i])) is Some),
    ensures
        tail_removals(parent, bs).len() == bs.len(),
        forall|i: int|
            0 <= i < bs.len() ==> (tail_removals(parent, bs)[i] == (Op::Remove {
                parent,
                child: (#[trigger] node_handle(bs[i]))->0,
            })),
    decreases bs.len(),
{
    if bs.len() > 0 {
        let t = bs.drop_last();
        assert forall|i: int| 0 <= i < t.len() implies (#[trigger] node_handle(t[i])) is Some by {
            assert(t[i] == bs[i]);
            assert(node_handle(bs[i]) is Some);
        }
        lemma_tail_removals(parent, t);
        assert(node_handle(bs[bs.len() - 1]) is Some);
        assert forall|i: int| 0 <= i < bs.len() implies tail_removals(parent, bs)[i] == Op::Remove {
            parent,
            child: (#[trigger] node_handle(bs[i]))->0,
        } by {
            if i < bs.len() - 1 {
                assert(t[i] == bs[i]);
                assert(node_handle(t[i]) is Some);
            }
        }
    }
}

/// Every node that a pass commits stands on a live resource.
pub proof fn lemma_committed_live(bs: Seq<Node>, as_: Seq<Node>, rs: Seq<Node>, hlo: u64, hhi: u64, ilo: u64, ihi: u64)
    requires
        reconciled_list(bs, as_, rs, hlo, hhi, ilo, ihi),
    ensures
        forall|i: int| 0 <= i < rs.len() ==> ((#[trigger] node_handle(rs[i])) is Some),
{
    assert forall|i: int| 0 <= i < rs.len() implies (#[trigger] node_handle(rs[i])) is Some by {
        assert(reconciled(at(bs, i), as_[i], rs[i], hlo, hhi, ilo, ihi));
    }
}

/// Every live resource in the tree of `n` has a handle below `bound`.
pub open spec fn below(n: Node, bound: u64) -> bool
    decreases n,
{
    &&& (node_handle(n) is Some ==> node_handle(n)->0 < bound)
    &&& match n {
        Node::Element(e) => forall|i: int| 0 <= i < e.children@.len() ==> below(#[trigger] e.children@[i], bound),
        Node::Text(_) => true,
    }
}

pub open spec fn all_below(ns: Seq<Node>, bound: u64) -> bool {
    forall|i: int| 0 <= i < ns.len() ==> below(#[trigger] ns[i], bound)
}

proof fn lemma_reconciled_below(b: Option<Node>, a: Node, r: Node, hlo: u64, hhi: u64, ilo: u64, ihi: u64)
    requires
        reconciled(b, a, r, hlo, hhi, ilo, ihi),
        b is Some ==> below(b->0, hlo),
        hlo <= hhi,
    ensures
        below(r, hhi),
    decreases a,
{
    match (a, r) {
        (Node::Element(ae), Node::Element(re)) => {
            let bch = prior_children(b, a);
            assert forall|i: int| 0 <= i < re.children@.len() implies below(#[trigger] re.children@[i], hhi) by {
                assert(reconciled(at(bch, i), ae.children@[i], re.children@[i], hlo, hhi, ilo, ihi));
                if kept(b, a) && 0 <= i < bch.len() {
                    match b->0 {
                        Node::Element(be) => {
                            assert(below(be.children@[i], hlo));
                        },
                        _ => {},
                    }
                }
                assert(decreases_to!(a => ae.children@[i]));
                lemma_reconciled_below(at(bch, i), ae.children@[i], re.children@[i], hlo, hhi, ilo, ihi);
            }
        },
        _ => {},
    }
}

/// A pass keeps every committed handle below the handle counter: where that
/// held of the list before, it holds of the list the pass commits.
pub proof fn lemma_committed_below(r0: Renderer, r1: Renderer, afters: Seq<Node>, parent: u64, ops: Seq<Op>)
    requires
        render_done(r0, r1, afters, parent, ops),
        all_below(r0.befores@, r0.next_handle),
    ensures
        all_below(r1.befores@, r1.next_handle),
{
    assert forall|i: int| 0 <= i < r1.befores@.len() implies below(#[trigger] r1.befores@[i], r1.next_handle) by {
        assert(reconciled(at(r0.befores@, i), afters[i], r1.befores@[i], r0.next_handle, r1.next_handle, r0.registry.next_id, r1.registry.next_id));
        lemma_reconciled_below(at(r0.befores@, i), afters[i], r1.befores@[i], r0.next_handle, r1.next_handle, r0.registry.next_id, r1.registry.next_id);
    }
}

fn all_pending_exec(evs: &Vec<EventList>) -> (b: bool)
    ensures
        b == all_pending(evs@),
{
    let mut k: usize = 0;
    while k < evs.len()
        invariant
            0 <= k <= evs.len(),
            forall|kk: int, j: int| 0 <= kk < k && 0 <= j < evs@[kk].slots@.len() ==> (#[trigger] evs@[kk].slots@[j]) is Pending,
        decreases evs.len() - k,
    {
        let mut j: usize = 0;
        while j < evs[k].slots.len()
            invariant
                0 <= k < evs.len(),
                0 <= j <= evs@[k as int].slots@.len(),
                forall|kk: int, jj: int| 0 <= kk < k && 0 <= jj < evs@[kk].slots@.len() ==> (#[trigger] evs@[kk].slots@[jj]) is Pending,
                forall|jj: int| 0 <= jj < j ==> (#[trigger] evs@[k as int].slots@[jj]) is Pending,
            decreases evs@[k as int].slots@.len() - j,
        {
            if let Slot::Bound(_) = evs[k].slots[j] {
                return false;
            }
            j = j + 1;
        }
        k = k + 1;
    }
    true
}

fn distinct_event_names_exec(evs: &Vec<EventList>) -> (b: bool)
    ensures
        b == distinct_event_names(evs@),
{
    let mut y: usize = 0;
    while y < evs.len()
        invariant
            0 <= y <= evs.len(),
            forall|a: int, c: int| 0 <= a < c < y ==> (#[trigger] evs@[a]).name@ != (#[trigger] evs@[c]).name@,
        decreases evs.len() - y,
    {
        let mut x: usize = 0;
        while x < y
            invariant
                0 <= x <= y < evs.len(),
                forall|a: int, c: int| 0 <= a < c < y ==> (#[trigger] evs@[a]).name@ != (#[trigger] evs@[c]).name@,
                forall|a: int| 0 <= a < x ==> (#[trigger] evs@[a]).name@ != evs@[y as int].name@,
            decreases y - x,
        {
            if evs[x].name == evs[y].name {
                return false;
            }
            x = x + 1;
        }
        y = y + 1;
    }
    true
}

fn distinct_attribute_names_exec(attrs: &Vec<Attribute>) -> (b: bool)
    ensures
        b == distinct_attribute_names(attrs@),
{
    let mut y: usize = 0;
    while y < attrs.len()
        invariant
            0 <= y <= attrs.len(),
            forall|a: int, c: int| 0 <= a < c < y ==> (#[trigger] attrs@[a]).name@ != (#[trigger] attrs@[c]).name@,
        decreases attrs.len() - y,
    {
        let mut x: usize = 0;
        while x < y
            invariant
                0 <= x <= y < attrs.len(),
                forall|a: int, c: int| 0 <= a < c < y ==> (#[trigger] attrs@[a]).name@ != (#[trigger] attrs@[c]).name@,
                forall|a: int| 0 <= a < x ==> (#[trigger] attrs@[a]).name@ != attrs@[y as int].name@,
            decreases y - x,
        {
            if attrs[x].name == attrs[y].name {
                return false;
            }
            x = x + 1;
        }
        y = y + 1;
    }
    true
}

fn declared_node(n: &Node) -> (b: bool)
    ensures
        b == declared(*n),
    decreases weight(*n), 0nat,
{
    match n {
        Node::Element(e) => all_pending_exec(&e.events) && distinct_event_names_exec(&e.events)
            && distinct_attribute_names_exec(&e.attributes) && declared_list(&e.children),
        Node::Text(t) => all_pending_exec(&t.events) && distinct_event_names_exec(&t.events),
    }
}

/// Whether every node of the list is a declaration a render pass takes.
pub fn declared_list(nodes: &Vec<Node>) -> (b: bool)
    ensures
        b == forall|i: int| 0 <= i < nodes@.len() ==> declared(#[trigger] nodes@[i]),
    decreases weight_list(nodes@), 1nat,
{
    let mut k: usize = 0;
    while k < nodes.len()
        invariant
            0 <= k <= nodes.len(),
            forall|i: int| 0 <= i < k ==> declared(#[trigger] nodes@[i]),
        decreases nodes.len() - k,
    {
        proof {
            lemma_weight_step(nodes@, k as int);
        }
        if !declared_node(&nodes[k]) {
            return false;
        }
        k = k + 1;
    }
    true
}
} // verus!
