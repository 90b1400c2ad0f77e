//! The command algebra that component hooks return, and what resolving a
//! command asks of the outside: tasks to schedule and messages to post.
use vstd::prelude::*;

verus! {

/// An effect asked for by a component. `S` is the component's outbound event
/// type; `T` describes a unit of deferred work, run by the task scheduler and
/// resolved back into the component once (`Task`) or any number of times
/// (`Batch`).
#[derive(Debug)]
pub enum Cmd<S, T> {
    NoOp,
    Sub(S),
    Task(T),
    Batch(T),
    List(Vec<Cmd<S, T>>),
}

/// A command as it waits in the lifecycle queue; `Msg` marks one that has
/// already resolved into a message of the parent.
#[derive(Debug)]
pub enum AssembledCmd<S, T, M> {
    NoOp,
    Sub(S),
    Task(T),
    Batch(T),
    List(Vec<Cmd<S, T>>),
    Msg(M),
}

/// Deferred work handed to the scheduler; `batch` says that its resolver may
/// be called more than once.
#[derive(Debug)]
pub struct Scheduled<T> {
    pub task: T,
    pub batch: bool,
}

/// One leaf of a command, in the order resolution meets it.
pub enum Leaf<S, T> {
    Sub(S),
    Task(T, bool),
}

/// The leaves of a command, left to right.
pub open spec fn leaves<S, T>(c: Cmd<S, T>) -> Seq<Leaf<S, T>>
    decreases c,
{
    match c {
        Cmd::NoOp => Seq::empty(),
        Cmd::Sub(s) => seq![Leaf::Sub(s)],
        Cmd::Task(t) => seq![Leaf::Task(t, false)],
        Cmd::Batch(t) => seq![Leaf::Task(t, true)],
        Cmd::List(cs) => leaves_list(cs@),
    }
}

pub open spec fn leaves_list<S, T>(cs: Seq<Cmd<S, T>>) -> Seq<Leaf<S, T>>
    decreases cs,
{
    if cs.len() == 0 {
        Seq::empty()
    } else {
        leaves_list(cs.drop_last()) + leaves(cs.last())
    }
}

/// The number of commands in a command, itself included.
pub open spec fn cmd_size<S, T>(c: Cmd<S, T>) -> nat
    decreases c,
{
    match c {
        Cmd::List(cs) => 1 + cmd_size_list(cs@),
        _ => 1,
    }
}

pub open spec fn cmd_size_list<S, T>(cs: Seq<Cmd<S, T>>) -> nat
    decreases cs,
{
    if cs.len() == 0 {
        0
    } else {
        cmd_size_list(cs.drop_last()) + cmd_size(cs.last())
    }
}

proof fn lemma_cmd_size_prefix<S, T>(cs: Seq<Cmd<S, T>>, n: int)
    requires
        0 <= n <= cs.len(),
    ensures
        cmd_size_list(cs.subrange(0, n)) <= cmd_size_list(cs),
    decreases cs.len() - n,
{
    if n < cs.len() {
        assert(cs.subrange(0, n + 1).drop_last() =~= cs.subrange(0, n));
        lemma_cmd_size_prefix(cs, n + 1);
    } else {
        assert(cs.subrange(0, n) =~= cs);
    }
}

/// The outbound events among the leaves, in order.
pub open spec fn subs_of<S, T>(ls: Seq<Leaf<S, T>>) -> Seq<S>
    decreases ls.len(),
{
    if ls.len() == 0 {
        Seq::empty()
    } else {
        let r = subs_of(ls.drop_last());
        match ls.last() {
            Leaf::Sub(s) => r.push(s),
            Leaf::Task(..) => r,
        }
    }
}

/// The deferred work among the leaves, in order.
pub open spec fn tasks_of<S, T>(ls: Seq<Leaf<S, T>>) -> Seq<Scheduled<T>>
    decreases ls.len(),
{
    if ls.len() == 0 {
        Seq::empty()
    } else {
        let r = tasks_of(ls.drop_last());
        match ls.last() {
            Leaf::Sub(_) => r,
            Leaf::Task(t, b) => r.push(Scheduled { task: t, batch: b }),
        }
    }
}

/// The command that a queued command stands for (a resolved message stands
/// for nothing more to do).
pub open spec fn lowered<S, T, M>(c: AssembledCmd<S, T, M>) -> Cmd<S, T> {
    match c {
        AssembledCmd::NoOp => Cmd::NoOp,
        AssembledCmd::Sub(s) => Cmd::Sub(s),
        AssembledCmd::Task(t) => Cmd::Task(t),
        AssembledCmd::Batch(t) => Cmd::Batch(t),
        AssembledCmd::List(cs) => Cmd::List(cs),
        AssembledCmd::Msg(_) => Cmd::NoOp,
    }
}

pub open spec fn lifted<S, T, M>(c: Cmd<S, T>) -> AssembledCmd<S, T, M> {
    match c {
        Cmd::NoOp => AssembledCmd::NoOp,
        Cmd::Sub(s) => AssembledCmd::Sub(s),
        Cmd::Task(t) => AssembledCmd::Task(t),
        Cmd::Batch(t) => AssembledCmd::Batch(t),
        Cmd::List(cs) => AssembledCmd::List(cs),
    }
}

impl<S, T, M> AssembledCmd<S, T, M> {
    /// Puts a command into the form the lifecycle queue holds.
    pub fn from_cmd(c: Cmd<S, T>) -> (r: Self)
        ensures
            r == lifted::<S, T, M>(c),
    {
        match c {
            Cmd::NoOp => AssembledCmd::NoOp,
            Cmd::Sub(s) => AssembledCmd::Sub(s),
            Cmd::Task(t) => AssembledCmd::Task(t),
            Cmd::Batch(t) => AssembledCmd::Batch(t),
            Cmd::List(cs) => AssembledCmd::List(cs),
        }
    }

    /// The command a queued command stands for.
    pub fn into_cmd(self) -> (r: Cmd<S, T>)
        ensures
            r == lowered(self),
    {
        match self {
            AssembledCmd::NoOp => Cmd::NoOp,
            AssembledCmd::Sub(s) => Cmd::Sub(s),
            AssembledCmd::Task(t) => Cmd::Task(t),
            AssembledCmd::Batch(t) => Cmd::Batch(t),
            AssembledCmd::List(cs) => Cmd::List(cs),
            AssembledCmd::Msg(_) => Cmd::NoOp,
        }
    }
}

proof fn lemma_subs_tasks_append<S, T>(a: Seq<Leaf<S, T>>, b: Seq<Leaf<S, T>>)
    ensures
        subs_of(a + b) == subs_of(a) + subs_of(b),
        tasks_of(a + b) == tasks_of(a) + tasks_of(b),
    decreases b.len(),
{
    if b.len() == 0 {
        assert(a + b =~= a);
        assert(subs_of(a) + subs_of(b) =~= subs_of(a));
        assert(tasks_of(a) + tasks_of(b) =~= tasks_of(a));
    } else {
        lemma_subs_tasks_append(a, b.drop_last());
        assert((a + b).drop_last() =~= a + b.drop_last());
        assert((a + b).last() == b.last());
        match b.last() {
            Leaf::Sub(s) => {
                assert(subs_of(a) + subs_of(b) =~= (subs_of(a) + subs_of(b.drop_last())).push(s));
                assert(tasks_of(a) + tasks_of(b) =~= tasks_of(a) + tasks_of(b.drop_last()));
            },
            Leaf::Task(t, bt) => {
                assert(subs_of(a) + subs_of(b) =~= subs_of(a) + subs_of(b.drop_last()));
                assert(tasks_of(a) + tasks_of(b) =~= (tasks_of(a) + tasks_of(b.drop_last())).push(
                    Scheduled { task: t, batch: bt },
                ));
            },
        }
    }
}

/// Resolves a command lazily: its deferred work is appended to `scheduled`
/// and its outbound events are returned, both in the order of the command.
pub fn load_cmd<S, T>(c: Cmd<S, T>, scheduled: &mut Vec<Scheduled<T>>) -> (subs: Vec<S>)
    ensures
        subs@ == subs_of(leaves(c)),
        final(scheduled)@ == old(scheduled)@ + tasks_of(leaves(c)),
    decreases cmd_size(c),
{
    let ghost c0 = c;
    assert(subs_of(Seq::<Leaf<S, T>>::empty()) =~= Seq::<S>::empty());
    assert(tasks_of(Seq::<Leaf<S, T>>::empty()) =~= Seq::<Scheduled<T>>::empty());
    match c {
        Cmd::NoOp => {
            assert(old(scheduled)@ + tasks_of(leaves(c0)) =~= old(scheduled)@);
            Vec::new()
        },
        Cmd::Sub(s) => {
            let ghost l = leaves(c0);
            assert(l.drop_last() =~= Seq::<Leaf<S, T>>::empty());
            assert(old(scheduled)@ + tasks_of(l) =~= old(scheduled)@);
            let mut v = Vec::new();
            v.push(s);
            assert(v@ =~= subs_of(l));
            v
        },
        Cmd::Task(t) => {
            let ghost l = leaves(c0);
            assert(l.drop_last() =~= Seq::<Leaf<S, T>>::empty());
            scheduled.push(Scheduled { task: t, batch: false });
            assert(scheduled@ =~= old(scheduled)@ + tasks_of(l));
            Vec::new()
        },
        Cmd::Batch(t) => {
            let ghost l = leaves(c0);
            assert(l.drop_last() =~= Seq::<Leaf<S, T>>::empty());
            scheduled.push(Scheduled { task: t, batch: true });
            assert(scheduled@ =~= old(scheduled)@ + tasks_of(l));
            Vec::new()
        },
        Cmd::List(cs) => {
            let ghost all = cs@;
            let mut rest = cs;
            let mut subs: Vec<S> = Vec::new();
            let mut i: usize = 0;
            let n = rest.len();
            while rest.len() > 0
                invariant
                    n == all.len(),
                    0 <= i <= n,
                    rest@ == all.subrange(i as int, n as int),
                    c0 == Cmd::<S, T>::List(cs),
                    c == c0,
                    all == cs@,
                    subs@ == subs_of(leaves_list(all.subrange(0, i as int))),
                    scheduled@ == old(scheduled)@ + tasks_of(leaves_list(all.subrange(0, i as int))),
                decreases rest@.len(),
            {
                let x = rest.remove(0);
                assert(x == all[i as int]);
                proof {
                    assert(all.subrange(0, i + 1).drop_last() =~= all.subrange(0, i as int));
                    lemma_cmd_size_prefix(all, i + 1);
                    assert(all.subrange(0, i + 1).last() == x);
                    assert(cmd_size(x) <= cmd_size_list(all));
                    assert(cmd_size(c0) == 1 + cmd_size_list(all));
                }
                let ghost pre = leaves_list(all.subrange(0, i as int));
                let mut more = load_cmd(x, scheduled);
                subs.append(&mut more);
                assert(all.subrange(0, i + 1).drop_last() =~= all.subrange(0, i as int));
                proof {
                    lemma_subs_tasks_append(pre, leaves(x));
                }
                i = i + 1;
                assert(rest@ =~= all.subrange(i as int, n as int));
                assert(subs@ =~= subs_of(leaves_list(all.subrange(0, i as int))));
                assert(scheduled@ =~= old(scheduled)@ + tasks_of(leaves_list(all.subrange(0, i as int))));
            }
            assert(all.subrange(0, i as int) =~= all);
            subs
        },
    }
}

} // verus!
