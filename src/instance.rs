//! Component instances: user state kept alive across passes, the current props
//! and message mapper, and the queue of lifecycle commands that the parent
//! drains while it renders.
use crate::cmd::{leaves, load_cmd, lowered, lifted, subs_of, tasks_of, AssembledCmd, Cmd, Scheduled};
use crate::arena::Arena;
use crate::vnode::Node;
use vstd::prelude::*;

verus! {

/// What a component is: how it is built from its props, the hooks of its
/// lifecycle, how it takes a message, and what it renders.
pub trait Component: Sized {
    type Props;
    type Msg;
    type Sub;
    type Task;

    /// The state that the constructor builds from `props`.
    spec fn constructed(props: Self::Props) -> Self;

    fn constructor(props: &Self::Props) -> (r: Self)
        ensures
            r == Self::constructed(*props),
    ;

    fn on_assemble(&mut self, props: &Self::Props) -> Cmd<Self::Sub, Self::Task>;

    fn on_load(&mut self, props: &Self::Props) -> Cmd<Self::Sub, Self::Task>;

    fn update(&mut self, props: &Self::Props, msg: Self::Msg) -> Cmd<Self::Sub, Self::Task>;

    fn render(&self, props: &Self::Props, children: Vec<Node>) -> Vec<Node>;
}

/// The partial translation of a child's outbound events into messages of its
/// parent; an event it does not map is dropped.
pub trait SubMapper<S, M> {
    spec fn maps(&self, s: S) -> Option<M>;

    fn try_map(&self, s: S) -> (r: Option<M>)
        ensures
            r == self.maps(s),
    ;
}

/// Hands every event on unchanged.
pub struct Forward;

impl<S> SubMapper<S, S> for Forward {
    open spec fn maps(&self, s: S) -> Option<S> {
        Some(s)
    }

    fn try_map(&self, s: S) -> (r: Option<S>) {
        Some(s)
    }
}

/// Drops every event.
pub struct Ignore;

impl<S, M> SubMapper<S, M> for Ignore {
    open spec fn maps(&self, s: S) -> Option<M> {
        None
    }

    fn try_map(&self, s: S) -> (r: Option<M>) {
        None
    }
}

/// A non-owning reference to an instance: its slot and the generation of the
/// slot when the reference was taken.
#[derive(Clone, Copy, PartialEq, Eq, Structural, Debug)]
pub struct InstanceRef {
    pub slot: u64,
    pub generation: u64,
}

pub struct AssembledComponentInstance<C: Component, M, Mp> {
    /// The component type, as the tag that prefabs compare against.
    pub kind: u64,
    pub index_id: Option<String>,
    pub data: C,
    pub props: C::Props,
    pub sub_mapper: Mp,
    /// The instance that receives what this one posts upward.
    pub demiroot: Option<InstanceRef>,
    pub is_updated: bool,
    /// Lifecycle commands, oldest first.
    pub lazy_cmd: Vec<AssembledCmd<C::Sub, C::Task, M>>,
    /// The instances this one renders, in order, by their slots.
    pub children: Vec<InstanceRef>,
}

/// The messages that the events `subs` map to, in order, dropping the unmapped.
pub open spec fn mapped_all<S, M, Mp: SubMapper<S, M>>(mp: Mp, subs: Seq<S>) -> Seq<M>
    decreases subs.len(),
{
    if subs.len() == 0 {
        Seq::empty()
    } else {
        let r = mapped_all(mp, subs.drop_last());
        match mp.maps(subs.last()) {
            Some(m) => r.push(m),
            None => r,
        }
    }
}

/// The message of the first event in `subs` that maps to one.
pub open spec fn first_mapped<S, M, Mp: SubMapper<S, M>>(mp: Mp, subs: Seq<S>) -> Option<M>
    decreases subs.len(),
{
    if subs.len() == 0 {
        None
    } else {
        match mp.maps(subs[0]) {
            Some(m) => Some(m),
            None => first_mapped(mp, subs.subrange(1, subs.len() as int)),
        }
    }
}

/// Draining the lifecycle queue `q`: the message it stops at, if any, and how
/// many commands it took from the front.
pub open spec fn drain<S, T, M, Mp: SubMapper<S, M>>(mp: Mp, q: Seq<AssembledCmd<S, T, M>>) -> (Option<M>, nat)
    decreases q.len(),
{
    if q.len() == 0 {
        (None, 0)
    } else {
        match q[0] {
            AssembledCmd::Msg(m) => (Some(m), 1),
            c => match first_mapped(mp, subs_of(leaves(lowered(c)))) {
                Some(m) => (Some(m), 1),
                None => {
                    let r = drain(mp, q.subrange(1, q.len() as int));
                    (r.0, r.1 + 1)
                },
            },
        }
    }
}

/// The deferred work of the first `n` queued commands, in order.
pub open spec fn drained_tasks<S, T, M>(q: Seq<AssembledCmd<S, T, M>>, n: int) -> Seq<Scheduled<T>>
    decreases n,
{
    if n <= 0 {
        Seq::empty()
    } else {
        drained_tasks(q, n - 1) + tasks_of(leaves(lowered(q[n - 1])))
    }
}

proof fn lemma_drained_tasks_shift<S, T, M>(q: Seq<AssembledCmd<S, T, M>>, n: int)
    requires
        0 <= n < q.len(),
    ensures
        drained_tasks(q, n + 1) == tasks_of(leaves(lowered(q[0]))) + drained_tasks(
            q.subrange(1, q.len() as int),
            n,
        ),
    decreases n,
{
    if n == 0 {
        assert(drained_tasks(q, 0) =~= Seq::<Scheduled<T>>::empty());
        assert(drained_tasks(q.subrange(1, q.len() as int), 0) =~= Seq::<Scheduled<T>>::empty());
        assert(tasks_of(leaves(lowered(q[0]))) + Seq::<Scheduled<T>>::empty() =~= tasks_of(leaves(lowered(q[0]))));
    } else {
        lemma_drained_tasks_shift(q, n - 1);
        assert(q.subrange(1, q.len() as int)[n - 1] == q[n]);
        assert(tasks_of(leaves(lowered(q[0]))) + drained_tasks(q.subrange(1, q.len() as int), n) =~= tasks_of(
            leaves(lowered(q[0])),
        ) + drained_tasks(q.subrange(1, q.len() as int), n - 1) + tasks_of(leaves(lowered(q[n]))));
    }
}

impl<C: Component, M, Mp: SubMapper<C::Sub, M>> AssembledComponentInstance<C, M, Mp> {
    /// A fresh instance around `data`: no parent yet, nothing queued.
    pub fn new_ref(kind: u64, index_id: Option<String>, data: C, props: C::Props, sub_mapper: Mp) -> (r: Self)
        ensures
            r.kind == kind,
            r.index_id == index_id,
            r.data == data,
            r.props == props,
            r.sub_mapper == sub_mapper,
            r.demiroot is None,
            r.is_updated,
            r.lazy_cmd@.len() == 0,
            r.children@.len() == 0,
    {
        AssembledComponentInstance {
            kind,
            index_id,
            data,
            props,
            sub_mapper,
            demiroot: None,
            is_updated: true,
            lazy_cmd: Vec::new(),
            children: Vec::new(),
        }
    }

    /// Replaces the props; the state and the queue stay.
    pub fn set_props(&mut self, props: C::Props)
        ensures
            *final(self) == (AssembledComponentInstance { props, ..*old(self) }),
    {
        self.props = props;
    }

    /// Replaces the mapper; the state and the queue stay.
    pub fn set_sub_mapper(&mut self, sub_mapper: Mp)
        ensures
            *final(self) == (AssembledComponentInstance { sub_mapper, ..*old(self) }),
    {
        self.sub_mapper = sub_mapper;
    }

    /// Replaces the list of child instances; the state and the queue stay.
    pub fn set_children(&mut self, children: Vec<InstanceRef>)
        ensures
            *final(self) == (AssembledComponentInstance { children, ..*old(self) }),
    {
        self.children = children;
    }

    pub fn set_demiroot(&mut self, demiroot: Option<InstanceRef>)
        ensures
            *final(self) == (AssembledComponentInstance { demiroot, ..*old(self) }),
    {
        self.demiroot = demiroot;
    }

    /// Queues a lifecycle command at the back.
    pub fn push_lazy(&mut self, cmd: Cmd<C::Sub, C::Task>)
        ensures
            final(self).lazy_cmd@ == old(self).lazy_cmd@.push(lifted(cmd)),
            final(self).is_updated,
            final(self).kind == old(self).kind,
            final(self).index_id == old(self).index_id,
            final(self).data == old(self).data,
            final(self).props == old(self).props,
            final(self).sub_mapper == old(self).sub_mapper,
            final(self).demiroot == old(self).demiroot,
            final(self).children == old(self).children,
    {
        self.is_updated = true;
        self.lazy_cmd.push(AssembledCmd::from_cmd(cmd));
    }

    /// Runs the assembly hook and queues its command.
    pub fn on_assemble(&mut self)
        ensures
            exists|c: Cmd<C::Sub, C::Task>| final(self).lazy_cmd@ == old(self).lazy_cmd@.push(#[trigger] lifted(c)),
            final(self).is_updated,
            final(self).kind == old(self).kind,
            final(self).index_id == old(self).index_id,
            final(self).props == old(self).props,
            final(self).sub_mapper == old(self).sub_mapper,
            final(self).demiroot == old(self).demiroot,
            final(self).children == old(self).children,
    {
        let cmd = self.data.on_assemble(&self.props);
        self.push_lazy(cmd);
    }

    /// Runs the load hook and queues its command.
    pub fn on_load(&mut self)
        ensures
            exists|c: Cmd<C::Sub, C::Task>| final(self).lazy_cmd@ == old(self).lazy_cmd@.push(#[trigger] lifted(c)),
            final(self).is_updated,
            final(self).kind == old(self).kind,
            final(self).index_id == old(self).index_id,
            final(self).props == old(self).props,
            final(self).sub_mapper == old(self).sub_mapper,
            final(self).demiroot == old(self).demiroot,
            final(self).children == old(self).children,
    {
        let cmd = self.data.on_load(&self.props);
        self.push_lazy(cmd);
    }

    /// Resolves a command at once: its deferred work is appended to
    /// `scheduled`, and its outbound events, mapped for the parent, are
    /// returned to be posted there; with no parent they are dropped.
    pub fn resolve(&self, cmd: Cmd<C::Sub, C::Task>, scheduled: &mut Vec<Scheduled<C::Task>>) -> (posts: Vec<M>)
        ensures
            final(scheduled)@ == old(scheduled)@ + tasks_of(leaves(cmd)),
            posts@ == (if self.demiroot is Some {
                mapped_all(self.sub_mapper, subs_of(leaves(cmd)))
            } else {
                Seq::empty()
            }),
    {
        let ghost all = subs_of(leaves(cmd));
        let mut subs = load_cmd(cmd, scheduled);
        let mut posts: Vec<M> = Vec::new();
        if self.demiroot.is_none() {
            return posts;
        }
        let n = subs.len();
        let mut i: usize = 0;
        while subs.len() > 0
            invariant
                n == all.len(),
                0 <= i <= n,
                subs@ == all.subrange(i as int, n as int),
                posts@ == mapped_all(self.sub_mapper, all.subrange(0, i as int)),
            decreases subs@.len(),
        {
            let s = subs.remove(0);
            assert(all.subrange(0, i + 1).drop_last() =~= all.subrange(0, i as int));
            assert(all.subrange(0, i + 1).last() == s);
            match self.sub_mapper.try_map(s) {
                Some(m) => posts.push(m),
                None => {},
            }
            i = i + 1;
            assert(subs@ =~= all.subrange(i as int, n as int));
        }
        assert(all.subrange(0, i as int) =~= all);
        posts
    }

    /// Takes a message: runs the update hook with the current props, marks the
    /// instance updated, and resolves the command at once (see `resolve`).
    pub fn update(&mut self, msg: C::Msg, scheduled: &mut Vec<Scheduled<C::Task>>) -> (posts: Vec<M>)
        ensures
            exists|c: Cmd<C::Sub, C::Task>| {
                &&& final(scheduled)@ == old(scheduled)@ + tasks_of(leaves(c))
                &&& posts@ == (if old(self).demiroot is Some {
                    mapped_all(old(self).sub_mapper, subs_of(#[trigger] leaves(c)))
                } else {
                    Seq::empty()
                })
            },
            final(self).is_updated,
            final(self).lazy_cmd == old(self).lazy_cmd,
            final(self).props == old(self).props,
            final(self).kind == old(self).kind,
            final(self).index_id == old(self).index_id,
            final(self).sub_mapper == old(self).sub_mapper,
            final(self).demiroot == old(self).demiroot,
            final(self).children == old(self).children,
    {
        let cmd = self.data.update(&self.props, msg);
        self.is_updated = true;
        let ghost c = cmd;
        let posts = self.resolve(cmd, scheduled);
        assert(final(scheduled)@ == old(scheduled)@ + tasks_of(leaves(c)));
        posts
    }

    /// Takes a message as `update` does, but queues the resulting command as a
    /// lifecycle command instead of resolving it.
    pub fn lazy_update(&mut self, msg: C::Msg)
        ensures
            exists|c: Cmd<C::Sub, C::Task>| final(self).lazy_cmd@ == old(self).lazy_cmd@.push(#[trigger] lifted(c)),
            final(self).is_updated,
            final(self).kind == old(self).kind,
            final(self).index_id == old(self).index_id,
            final(self).props == old(self).props,
            final(self).sub_mapper == old(self).sub_mapper,
            final(self).demiroot == old(self).demiroot,
            final(self).children == old(self).children,
    {
        let cmd = self.data.update(&self.props, msg);
        self.push_lazy(cmd);
    }

    /// The instance that receives what this one posts upward.
    pub fn demiroot(&self) -> (r: Option<InstanceRef>)
        ensures
            r == self.demiroot,
    {
        self.demiroot
    }

    /// Same as `update`: a message posted by a child.
    pub fn post(&mut self, msg: C::Msg, scheduled: &mut Vec<Scheduled<C::Task>>) -> (posts: Vec<M>)
        ensures
            exists|c: Cmd<C::Sub, C::Task>| {
                &&& final(scheduled)@ == old(scheduled)@ + tasks_of(leaves(c))
                &&& posts@ == (if old(self).demiroot is Some {
                    mapped_all(old(self).sub_mapper, subs_of(#[trigger] leaves(c)))
                } else {
                    Seq::empty()
                })
            },
            final(self).is_updated,
            final(self).lazy_cmd == old(self).lazy_cmd,
            final(self).props == old(self).props,
            final(self).kind == old(self).kind,
            final(self).index_id == old(self).index_id,
            final(self).sub_mapper == old(self).sub_mapper,
            final(self).demiroot == old(self).demiroot,
            final(self).children == old(self).children,
    {
        self.update(msg, scheduled)
    }

    /// Drains the lifecycle queue from the front. Each command's deferred work
    /// is scheduled; a resolved message, or the first outbound event that the
    /// mapper maps, stops the draining and is returned. An empty queue gives
    /// nothing.
    pub fn load_lazy_cmd(&mut self, scheduled: &mut Vec<Scheduled<C::Task>>) -> (r: Option<M>)
        ensures
            r == drain(old(self).sub_mapper, old(self).lazy_cmd@).0,
            final(self).lazy_cmd@ == old(self).lazy_cmd@.subrange(
                drain(old(self).sub_mapper, old(self).lazy_cmd@).1 as int,
                old(self).lazy_cmd@.len() as int,
            ),
            final(scheduled)@ == old(scheduled)@ + drained_tasks(
                old(self).lazy_cmd@,
                drain(old(self).sub_mapper, old(self).lazy_cmd@).1 as int,
            ),
            final(self).data == old(self).data,
            final(self).props == old(self).props,
            final(self).kind == old(self).kind,
            final(self).index_id == old(self).index_id,
            final(self).sub_mapper == old(self).sub_mapper,
            final(self).demiroot == old(self).demiroot,
            final(self).children == old(self).children,
            final(self).is_updated == old(self).is_updated,
    {
        let ghost q0 = self.lazy_cmd@;
        let ghost mp = self.sub_mapper;
        let n0 = self.lazy_cmd.len();
        let mut i: usize = 0;
        assert(drained_tasks(q0, 0) =~= Seq::<Scheduled<C::Task>>::empty());
        assert(scheduled@ =~= old(scheduled)@ + drained_tasks(q0, 0));
        assert(q0.subrange(0, q0.len() as int) =~= q0);
        while self.lazy_cmd.len() > 0
            invariant
                mp == self.sub_mapper,
                mp == old(self).sub_mapper,
                q0 == old(self).lazy_cmd@,
                n0 == q0.len(),
                0 <= i <= q0.len(),
                self.lazy_cmd@ == q0.subrange(i as int, q0.len() as int),
                drain(mp, q0).0 == drain(mp, self.lazy_cmd@).0,
                drain(mp, q0).1 == drain(mp, self.lazy_cmd@).1 + i,
                scheduled@ == old(scheduled)@ + drained_tasks(q0, i as int),
                self.data == old(self).data,
                self.props == old(self).props,
                self.kind == old(self).kind,
                self.index_id == old(self).index_id,
                self.demiroot == old(self).demiroot,
                self.children == old(self).children,
                self.is_updated == old(self).is_updated,
            decreases self.lazy_cmd@.len(),
        {
            let ghost q = self.lazy_cmd@;
            proof {
                lemma_drained_tasks_shift(q0.subrange(i as int, q0.len() as int), 0);
                assert(q0.subrange(i as int, q0.len() as int)[0] == q0[i as int]);
                assert(drained_tasks(q0, i + 1) == drained_tasks(q0, i as int) + tasks_of(leaves(lowered(q0[i as int]))));
            }
            let cmd = self.lazy_cmd.remove(0);
            assert(cmd == q[0]);
            assert(self.lazy_cmd@ =~= q.subrange(1, q.len() as int));
            assert(self.lazy_cmd@ =~= q0.subrange(i + 1, q0.len() as int));
            match cmd {
                AssembledCmd::Msg(m) => {
                    assert(drained_tasks(q0, i + 1) =~= drained_tasks(q0, i as int)) by {
                        assert(tasks_of(leaves(lowered(q0[i as int]))) =~= Seq::<Scheduled<C::Task>>::empty());
                    }
                    assert(scheduled@ =~= old(scheduled)@ + drained_tasks(q0, i + 1));
                    assert(q[0] == AssembledCmd::<C::Sub, C::Task, M>::Msg(m));
                    assert(drain(mp, q) == (Some(m), 1nat));
                    return Some(m);
                },
                other => {
                    let ghost lc = lowered(other);
                    assert(!(q[0] is Msg));
                    let c = other.into_cmd();
                    let ghost pre = scheduled@;
                    let mut subs = load_cmd(c, scheduled);
                    assert(scheduled@ =~= old(scheduled)@ + drained_tasks(q0, i + 1));
                    let ghost all = subs@;
                    let n = subs.len();
                    let mut j: usize = 0;
                    assert(all.subrange(0, all.len() as int) =~= all);
                    while subs.len() > 0
                        invariant
                            n == all.len(),
                            0 <= j <= n,
                            subs@ == all.subrange(j as int, n as int),
                            first_mapped(mp, all) == first_mapped(mp, subs@),
                            mp == self.sub_mapper,
                            mp == old(self).sub_mapper,
                            q0 == old(self).lazy_cmd@,
                            n0 == q0.len(),
                            0 <= i < q0.len(),
                            q == q0.subrange(i as int, q0.len() as int),
                            q.len() > 0,
                            !(q[0] is Msg),
                            all == subs_of(leaves(lowered(q[0]))),
                            self.lazy_cmd@ == q0.subrange(i + 1, q0.len() as int),
                            self.lazy_cmd@ == q.subrange(1, q.len() as int),
                            drain(mp, q0).0 == drain(mp, q).0,
                            drain(mp, q0).1 == drain(mp, q).1 + i,
                            scheduled@ == old(scheduled)@ + drained_tasks(q0, i + 1),
                            self.data == old(self).data,
                            self.props == old(self).props,
                            self.kind == old(self).kind,
                            self.index_id == old(self).index_id,
                            self.demiroot == old(self).demiroot,
                            self.children == old(self).children,
                            self.is_updated == old(self).is_updated,
                        decreases subs@.len(),
                    {
                        let ghost sv = subs@;
                        let s = subs.remove(0);
                        assert(s == sv[0]);
                        assert(subs@ =~= sv.subrange(1, sv.len() as int));
                        match self.sub_mapper.try_map(s) {
                            Some(m) => {
                                assert(first_mapped(mp, sv) == Some(m));
                                assert(first_mapped(mp, subs_of(leaves(lowered(q[0])))) == Some(m));
                                assert(drain(mp, q) == (Some(m), 1nat));
                                return Some(m);
                            },
                            None => {},
                        }
                        j = j + 1;
                        assert(subs@ =~= all.subrange(j as int, n as int));
                    }
                    assert(subs@.len() == 0);
                    assert(first_mapped(mp, all) is None);
                    assert(drain(mp, q).0 == drain(mp, q.subrange(1, q.len() as int)).0);
                    assert(drain(mp, q).1 == drain(mp, q.subrange(1, q.len() as int)).1 + 1);
                },
            }
            i = i + 1;
        }
        assert(drain(mp, self.lazy_cmd@) == (None::<M>, 0nat));
        None
    }

    /// What the component renders now, with the children handed to it.
    pub fn render(&self, children: Vec<Node>) -> Vec<Node> {
        self.data.render(&self.props, children)
    }
}

/// Hands `msg` to the instance that `to` names, as a scheduled task's resolver
/// or a child's upward post does: the instance is taken out of its slot,
/// updated with its current props (see `AssembledComponentInstance::update`),
/// and put back, and the messages it posts to its own parent are returned. A
/// reference whose instance was replaced or removed reaches nothing: nothing
/// changes and nothing is returned.
pub fn deliver<C: Component, M, Mp: SubMapper<C::Sub, M>>(
    arena: &mut Arena<AssembledComponentInstance<C, M, Mp>>,
    to: InstanceRef,
    msg: C::Msg,
    scheduled: &mut Vec<Scheduled<C::Task>>,
) -> (r: Option<Vec<M>>)
    ensures
        r is Some <==> old(arena).live(to),
        r is None ==> *final(arena) == *old(arena) && final(scheduled)@ == old(scheduled)@,
        r is Some ==> {
            let i0 = old(arena).value(to);
            let i1 = final(arena).value(to);
            &&& final(arena).live(to)
            &&& final(arena).same_elsewhere(old(arena), to.slot as int)
            &&& i1.is_updated
            &&& i1.lazy_cmd == i0.lazy_cmd
            &&& i1.props == i0.props
            &&& i1.kind == i0.kind
            &&& i1.index_id == i0.index_id
            &&& i1.sub_mapper == i0.sub_mapper
            &&& i1.demiroot == i0.demiroot
            &&& i1.children == i0.children
            &&& exists|c: Cmd<C::Sub, C::Task>| {
                &&& final(scheduled)@ == old(scheduled)@ + tasks_of(leaves(c))
                &&& r->0@ == (if i0.demiroot is Some {
                    mapped_all(i0.sub_mapper, subs_of(#[trigger] leaves(c)))
                } else {
                    Seq::empty()
                })
            }
        },
{
    match arena.take(to) {
        Some(inst) => {
            let ghost mid = *arena;
            let mut inst = inst;
            let posts = inst.update(msg, scheduled);
            arena.restore(to, inst);
            assert(final(arena).same_elsewhere(old(arena), to.slot as int)) by {
                assert forall|i: int| 0 <= i < arena.slots@.len() && i != to.slot as int implies #[trigger] arena.slots@[i] == old(arena).slots@[i] by {
                    assert(arena.slots@[i] == mid.slots@[i]);
                }
            }
            Some(posts)
        },
        None => None,
    }
}

/// The deferred work of the commands `cs`, one after another.
pub open spec fn tasks_all<S, T>(cs: Seq<Cmd<S, T>>) -> Seq<Scheduled<T>>
    decreases cs.len(),
{
    if cs.len() == 0 {
        Seq::empty()
    } else {
        tasks_all(cs.drop_last()) + tasks_of(leaves(cs.last()))
    }
}

/// The messages that resolving the commands `cs` at once posts upward, one
/// command after another; none where there is no parent.
pub open spec fn posts_all<S, T, M, Mp: SubMapper<S, M>>(mp: Mp, has_parent: bool, cs: Seq<Cmd<S, T>>) -> Seq<M>
    decreases cs.len(),
{
    if cs.len() == 0 {
        Seq::empty()
    } else {
        posts_all(mp, has_parent, cs.drop_last()) + (if has_parent {
            mapped_all(mp, subs_of(leaves(cs.last())))
        } else {
            Seq::empty()
        })
    }
}

/// Posts a child's upward messages to its parent, in order, each through
/// `deliver`: one update of the parent per message, whose deferred work is
/// appended to `scheduled` and whose own upward messages are appended to
/// `upward`, message by message. With no parent, or a parent that is no
/// longer live, every message is dropped and nothing changes. Returns how
/// many were delivered.
pub fn post_upward<C: Component, M, Mp: SubMapper<C::Sub, M>>(
    parents: &mut Arena<AssembledComponentInstance<C, M, Mp>>,
    demiroot: Option<InstanceRef>,
    msgs: Vec<C::Msg>,
    scheduled: &mut Vec<Scheduled<C::Task>>,
    upward: &mut Vec<M>,
) -> (n: usize)
    ensures
        demiroot is Some && old(parents).live(demiroot->0) ==> {
            let to = demiroot->0;
            let p0 = old(parents).value(to);
            let p1 = final(parents).value(to);
            &&& n == msgs@.len()
            &&& final(parents).live(to)
            &&& final(parents).same_elsewhere(old(parents), to.slot as int)
            &&& p1.props == p0.props
            &&& p1.lazy_cmd == p0.lazy_cmd
            &&& p1.kind == p0.kind
            &&& p1.index_id == p0.index_id
            &&& p1.sub_mapper == p0.sub_mapper
            &&& p1.demiroot == p0.demiroot
            &&& p1.children == p0.children
            &&& (msgs@.len() > 0 ==> p1.is_updated)
            &&& exists|cs: Seq<Cmd<C::Sub, C::Task>>| {
                &&& cs.len() == msgs@.len()
                &&& final(scheduled)@ == old(scheduled)@ + #[trigger] tasks_all(cs)
                &&& final(upward)@ == old(upward)@ + posts_all(p0.sub_mapper, p0.demiroot is Some, cs)
            }
        },
        !(demiroot is Some && old(parents).live(demiroot->0)) ==> n == 0 && *final(parents) == *old(parents)
            && final(scheduled)@ == old(scheduled)@ && final(upward)@ == old(upward)@,
{
    let to = match demiroot {
        Some(to) => to,
        None => {
            return 0;
        },
    };
    if !parents.is_live(to) {
        return 0;
    }
    let ghost p0 = parents.value(to);
    let mut rest = msgs;
    let len0 = rest.len();
    let ghost total = rest@.len();
    let ghost cs: Seq<Cmd<C::Sub, C::Task>> = Seq::empty();
    let mut n: usize = 0;
    assert(scheduled@ =~= old(scheduled)@ + tasks_all(cs));
    assert(upward@ =~= old(upward)@ + posts_all(p0.sub_mapper, p0.demiroot is Some, cs));
    while rest.len() > 0
        invariant
            parents.live(to),
            n + rest@.len() == total,
            total == msgs@.len(),
            total == len0,
            cs.len() == n,
            p0 == old(parents).value(to),
            parents.same_elsewhere(old(parents), to.slot as int),
            parents.value(to).props == p0.props,
            parents.value(to).lazy_cmd == p0.lazy_cmd,
            parents.value(to).kind == p0.kind,
            parents.value(to).index_id == p0.index_id,
            parents.value(to).sub_mapper == p0.sub_mapper,
            parents.value(to).demiroot == p0.demiroot,
            parents.value(to).children == p0.children,
            n > 0 ==> parents.value(to).is_updated,
            scheduled@ == old(scheduled)@ + tasks_all(cs),
            upward@ == old(upward)@ + posts_all(p0.sub_mapper, p0.demiroot is Some, cs),
        decreases rest@.len(),
    {
        let m = rest.remove(0);
        let ghost sch0 = scheduled@;
        let ghost up0 = upward@;
        let ghost ar0 = *parents;
        let r = deliver(parents, to, m, scheduled);
        let mut posted = r.unwrap();
        let ghost c = choose|c: Cmd<C::Sub, C::Task>| {
            &&& scheduled@ == sch0 + tasks_of(leaves(c))
            &&& posted@ == (if ar0.value(to).demiroot is Some {
                mapped_all(ar0.value(to).sub_mapper, subs_of(#[trigger] leaves(c)))
            } else {
                Seq::empty()
            })
        };
        upward.append(&mut posted);
        proof {
            let cs2 = cs.push(c);
            assert(cs2.drop_last() =~= cs);
            assert(scheduled@ =~= old(scheduled)@ + tasks_all(cs2));
            assert(upward@ =~= old(upward)@ + posts_all(p0.sub_mapper, p0.demiroot is Some, cs2));
            assert forall|i: int| 0 <= i < parents.slots@.len() && i != to.slot as int implies #[trigger] parents.slots@[i] == old(parents).slots@[i] by {
                assert(parents.slots@[i] == ar0.slots@[i]);
            }
            cs = cs2;
        }
        n = n + 1;
    }
    n
}

} // verus!
