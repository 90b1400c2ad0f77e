use kagura::cmd::{load_cmd, AssembledCmd, Cmd, Scheduled};
use kagura::arena::Arena;
use kagura::instance::{deliver, post_upward, AssembledComponentInstance, Component, Forward, Ignore, InstanceRef};
use kagura::prefab::{assemble, compare_node_and_prefab, BasicHtmlNode, BasicHtmlPrefab, PackedComponentNodeInstance, WrappedPackedComponentNodeInstance};
use kagura::vnode::Node;

struct Counter {
    count: u32,
}

impl Component for Counter {
    type Props = u32;
    type Msg = u32;
    type Sub = u32;
    type Task = u32;

    fn constructed(props: u32) -> Self {
        Counter { count: props }
    }

    fn constructor(props: &u32) -> Self {
        Counter { count: *props }
    }

    fn on_assemble(&mut self, _props: &u32) -> Cmd<u32, u32> {
        Cmd::Sub(1)
    }

    fn on_load(&mut self, _props: &u32) -> Cmd<u32, u32> {
        Cmd::Sub(2)
    }

    fn update(&mut self, props: &u32, msg: u32) -> Cmd<u32, u32> {
        self.count += msg;
        Cmd::List(vec![Cmd::Sub(self.count + props), Cmd::Task(7), Cmd::Batch(8)])
    }

    fn render(&self, _props: &u32, children: Vec<Node>) -> Vec<Node> {
        children
    }
}

fn prefab(kind: u64, id: Option<&str>, props: u32) -> BasicHtmlPrefab<u32, Forward, ()> {
    BasicHtmlPrefab::new(kind, id.map(|s| s.to_string()), props, Forward, ())
}

#[test]
fn lazy_commands_drain_in_enqueue_order() {
    let first = assemble::<Counter, u32, Forward, ()>(prefab(1, None, 0), None);
    let mut inst = first.data;
    inst.on_assemble();
    let second = assemble::<Counter, u32, Forward, ()>(prefab(1, None, 5), Some(inst));
    let mut inst = second.data;
    inst.on_load();
    assert_eq!(inst.lazy_cmd.len(), 2);
    let mut scheduled = vec![];
    assert_eq!(inst.load_lazy_cmd(&mut scheduled), Some(1));
    assert_eq!(inst.lazy_cmd.len(), 1);
    assert_eq!(inst.load_lazy_cmd(&mut scheduled), Some(2));
    assert_eq!(inst.load_lazy_cmd(&mut scheduled), None);
    assert!(scheduled.is_empty());
}

#[test]
fn unmapped_events_are_skipped_while_draining() {
    let mut inst: AssembledComponentInstance<Counter, u32, Ignore> =
        AssembledComponentInstance::new_ref(1, None, Counter { count: 0 }, 0, Ignore);
    inst.push_lazy(Cmd::List(vec![Cmd::Sub(3), Cmd::Task(4)]));
    inst.lazy_cmd.push(AssembledCmd::Msg(9));
    inst.push_lazy(Cmd::Batch(5));
    let mut scheduled = vec![];
    assert_eq!(inst.load_lazy_cmd(&mut scheduled), Some(9));
    assert_eq!(scheduled.len(), 1);
    assert_eq!(scheduled[0].task, 4);
    assert!(!scheduled[0].batch);
    assert_eq!(inst.lazy_cmd.len(), 1);
    assert_eq!(inst.load_lazy_cmd(&mut scheduled), None);
    assert_eq!(scheduled.len(), 2);
    assert!(scheduled[1].batch);
}

#[test]
fn update_posts_mapped_events_when_parent_exists() {
    let mut inst: AssembledComponentInstance<Counter, u32, Forward> =
        AssembledComponentInstance::new_ref(1, None, Counter { count: 0 }, 10, Forward);
    let mut scheduled: Vec<Scheduled<u32>> = vec![];
    assert!(inst.update(1, &mut scheduled).is_empty());
    assert_eq!(scheduled.len(), 2);
    inst.set_demiroot(Some(InstanceRef { slot: 0, generation: 0 }));
    assert_eq!(inst.post(2, &mut scheduled), vec![13]);
    assert_eq!(inst.data.count, 3);
    assert_eq!(scheduled.iter().map(|s| (s.task, s.batch)).collect::<Vec<_>>(), vec![(7, false), (8, true), (7, false), (8, true)]);
    assert!(inst.lazy_cmd.is_empty());
}

#[test]
fn same_key_reuses_instance() {
    let n = assemble::<Counter, u32, Forward, ()>(prefab(1, Some("k"), 3), None);
    let mut inst = n.data;
    inst.data.count = 42;
    inst.on_assemble();
    let n = assemble::<Counter, u32, Forward, ()>(prefab(1, Some("k"), 4), Some(inst));
    assert_eq!(n.data.data.count, 42);
    assert_eq!(n.data.props, 4);
    assert_eq!(n.data.lazy_cmd.len(), 1);
}

#[test]
fn different_key_replaces_instance() {
    let n = assemble::<Counter, u32, Forward, ()>(prefab(1, Some("k"), 3), None);
    let mut inst = n.data;
    inst.data.count = 42;
    inst.on_assemble();
    let n = assemble::<Counter, u32, Forward, ()>(prefab(1, Some("j"), 4), Some(inst));
    assert_eq!(n.data.data.count, 4);
    assert!(n.data.lazy_cmd.is_empty());
    let inst = n.data;
    let n = assemble::<Counter, u32, Forward, ()>(prefab(2, Some("j"), 5), Some(inst));
    assert_eq!(n.data.data.count, 5);
    assert_eq!(n.data.kind, 2);
}

#[test]
fn node_prefab_comparison() {
    let a = Some("x".to_string());
    let b = Some("y".to_string());
    assert!(compare_node_and_prefab(1, &a, 1, &a.clone()));
    assert!(!compare_node_and_prefab(1, &a, 1, &b));
    assert!(!compare_node_and_prefab(1, &a, 2, &a));
    assert!(compare_node_and_prefab(3, &None, 3, &None));
    assert!(!compare_node_and_prefab(3, &None, 3, &a));
    let node: BasicHtmlNode<Counter, Forward, ()> = BasicHtmlNode::new(1, a.clone(), None, Counter { count: 0 });
    assert!(node.is(&prefab(1, Some("x"), 0)));
    assert!(!node.is(&prefab(1, None, 0)));
}

#[test]
fn prefab_data_round_trip() {
    let (props, id, _mapper, children) = BasicHtmlPrefab::new(4, Some("i".to_string()), 8u32, Forward, 5u8).into_data();
    assert_eq!((props, id, children), (8, Some("i".to_string()), 5));
}

#[test]
fn wrapped_nodes_are_taken_once() {
    let n = assemble::<Counter, u32, Forward, ()>(prefab(1, None, 6), None);
    let mut w = n.wrap();
    let n = w.take();
    assert_eq!(n.data.props, 6);
    assert!(w.data.is_none());
}

#[test]
fn packed_prefab_assembles() {
    let mut w = WrappedPackedComponentNodeInstance { data: PackedComponentNodeInstance::new(1, None, 2u32, Forward, ()) };
    let n = w.assemble::<Counter, u32>(None);
    assert_eq!(n.data.data.count, 2);
    assert!(w.data.data.is_none());
}

#[test]
fn commands_flatten_in_order() {
    let mut scheduled = vec![];
    let c: Cmd<u32, u32> = Cmd::List(vec![Cmd::Sub(1), Cmd::List(vec![Cmd::Task(2), Cmd::Sub(3)]), Cmd::NoOp, Cmd::Batch(4)]);
    assert_eq!(load_cmd(c, &mut scheduled), vec![1, 3]);
    assert_eq!(scheduled.iter().map(|s| (s.task, s.batch)).collect::<Vec<_>>(), vec![(2, false), (4, true)]);
    let a: AssembledCmd<u32, u32, u8> = AssembledCmd::from_cmd(Cmd::Sub(5));
    assert!(matches!(a.into_cmd(), Cmd::Sub(5)));
    let m: AssembledCmd<u32, u32, u8> = AssembledCmd::Msg(1);
    assert!(matches!(m.into_cmd(), Cmd::NoOp));
}

#[test]
fn lazy_update_queues_instead_of_resolving() {
    let mut inst: AssembledComponentInstance<Counter, u32, Forward> =
        AssembledComponentInstance::new_ref(1, None, Counter { count: 1 }, 0, Forward);
    inst.set_demiroot(Some(InstanceRef { slot: 2, generation: 3 }));
    assert_eq!(inst.demiroot(), Some(InstanceRef { slot: 2, generation: 3 }));
    inst.lazy_update(4);
    assert_eq!(inst.data.count, 5);
    assert_eq!(inst.lazy_cmd.len(), 1);
    let mut scheduled = vec![];
    assert_eq!(inst.load_lazy_cmd(&mut scheduled), Some(5));
    assert_eq!(scheduled.len(), 2);
}

#[test]
fn basic_node_from_prefab_and_reload() {
    let mut node: BasicHtmlNode<Counter, Forward, ()> = prefab(3, Some("a"), 9).into_node();
    assert_eq!(node.state.count, 9);
    assert_eq!(node.kind, 3);
    assert!(node.update_by_prefab(prefab(4, Some("a"), 1)).is_none());
    assert_eq!(node.kind, 3);
    let cmd = node.update_by_prefab(prefab(3, Some("a"), 1));
    assert!(matches!(cmd, Some(Cmd::Sub(2))));
    assert!(node.sub_handler.is_some());
}

#[test]
fn packed_prefab_wraps_once() {
    let mut p = PackedComponentNodeInstance::new(1, None, 2u32, Forward, ());
    let mut w = p.wrap();
    assert!(p.data.is_none());
    let n = w.assemble::<Counter, u32>(None);
    assert_eq!(n.data.props, 2);
}

#[test]
fn delivery_reaches_only_live_instances() {
    let mut arena: Arena<AssembledComponentInstance<Counter, u32, Forward>> = Arena::new();
    let r = arena.insert(AssembledComponentInstance::new_ref(1, None, Counter { count: 0 }, 0, Forward));
    let mut scheduled = vec![];
    assert_eq!(deliver(&mut arena, r, 3, &mut scheduled), Some(vec![]));
    assert_eq!(arena.get(r).unwrap().data.count, 3);
    assert_eq!(scheduled.len(), 2);
    let fresh = AssembledComponentInstance::new_ref(1, None, Counter { count: 10 }, 0, Forward);
    let m = arena.replace(r, fresh).unwrap();
    assert_eq!(deliver(&mut arena, r, 5, &mut scheduled), None);
    assert_eq!(arena.get(m).unwrap().data.count, 10);
    assert_eq!(scheduled.len(), 2);
}

#[test]
fn upward_posts_need_a_live_parent() {
    let mut parents: Arena<AssembledComponentInstance<Counter, u32, Forward>> = Arena::new();
    let p = parents.insert(AssembledComponentInstance::new_ref(1, None, Counter { count: 0 }, 0, Forward));
    let mut scheduled = vec![];
    let mut up = vec![];
    assert_eq!(post_upward(&mut parents, Some(p), vec![1, 2], &mut scheduled, &mut up), 2);
    assert_eq!(parents.get(p).unwrap().data.count, 3);
    assert_eq!(post_upward(&mut parents, None, vec![1], &mut scheduled, &mut up), 0);
    let q = parents.replace(p, AssembledComponentInstance::new_ref(1, None, Counter { count: 0 }, 0, Forward)).unwrap();
    assert_eq!(post_upward(&mut parents, Some(p), vec![4], &mut scheduled, &mut up), 0);
    assert_eq!(parents.get(q).unwrap().data.count, 0);
}

#[test]
fn node_keeps_children_of_matching_prefab() {
    let mut node: BasicHtmlNode<Counter, Forward, u8> = BasicHtmlPrefab::new(3, None, 1u32, Forward, 7u8).into_node();
    assert_eq!(node.children, Some(7));
    assert!(node.update_by_prefab(BasicHtmlPrefab::new(3, None, 1u32, Forward, 9u8)).is_some());
    assert_eq!(node.children, Some(9));
}
