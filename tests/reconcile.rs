use kagura::patch::Op;
use kagura::registry::Registry;
use kagura::renderer::{compare_element_attribute, list_weight, render_events, Renderer};
use kagura::vnode::{Attribute, ElementNode, EventList, Node, Slot, TextNode};

fn attr(name: &str, values: &[&str], delimiter: &str) -> Attribute {
    Attribute {
        name: name.to_string(),
        values: values.iter().map(|v| v.to_string()).collect(),
        delimiter: delimiter.to_string(),
    }
}

fn element(tag: &str, attributes: Vec<Attribute>, events: Vec<EventList>, children: Vec<Node>) -> Node {
    Node::Element(ElementNode { tag: tag.to_string(), attributes, events, children, handle: None })
}

fn text(t: &str) -> Node {
    Node::Text(TextNode { text: t.to_string(), events: vec![], handle: None })
}

fn click(token: u64) -> Vec<EventList> {
    vec![EventList { name: "click".to_string(), slots: vec![Slot::Pending(token)] }]
}

fn handle_of(n: &Node) -> Option<u64> {
    match n {
        Node::Element(e) => e.handle,
        Node::Text(t) => t.handle,
    }
}

fn page() -> Vec<Node> {
    vec![
        element(
            "div",
            vec![attr("class", &["a", "b"], " "), attr("id", &["main"], "")],
            click(1),
            vec![text("hello"), element("span", vec![], vec![], vec![text("x")])],
        ),
        text("tail"),
    ]
}

#[test]
fn first_render_creates_everything() {
    let mut r = Renderer::new();
    let ops = r.render(page(), 100);
    let creates = ops
        .iter()
        .filter(|o| matches!(o, Op::CreateElement { .. } | Op::CreateText { .. }))
        .count();
    assert_eq!(creates, 5);
    assert_eq!(r.befores.len(), 2);
    assert!(r.befores.iter().all(|n| handle_of(n).is_some()));
    assert!(ops.contains(&Op::Append { parent: 100, child: handle_of(&r.befores[0]).unwrap() }));
    assert!(ops.contains(&Op::Append { parent: 100, child: handle_of(&r.befores[1]).unwrap() }));
}

#[test]
fn attribute_values_are_joined_by_delimiter() {
    let mut r = Renderer::new();
    let ops = r.render(page(), 100);
    let h = handle_of(&r.befores[0]).unwrap();
    assert!(ops.contains(&Op::SetAttribute { handle: h, name: "class".to_string(), value: "a b".to_string() }));
    assert!(ops.contains(&Op::SetAttribute { handle: h, name: "id".to_string(), value: "main".to_string() }));
}

#[test]
fn rendering_same_list_twice_is_idempotent() {
    let mut r = Renderer::new();
    let first = r.render(page(), 100);
    assert!(!first.is_empty());
    let second = r.render(page(), 100);
    assert!(second.is_empty());
}

#[test]
fn changing_only_id_rewrites_only_id() {
    let mut r = Renderer::new();
    r.render(vec![element("div", vec![attr("id", &["a"], "")], vec![], vec![])], 1001);
    let h = handle_of(&r.befores[0]).unwrap();
    let ops = r.render(vec![element("div", vec![attr("id", &["b"], "")], vec![], vec![])], 1001);
    assert_eq!(ops, vec![Op::SetAttribute { handle: h, name: "id".to_string(), value: "b".to_string() }]);
    assert_eq!(handle_of(&r.befores[0]), Some(h));
}

#[test]
fn changing_tag_recreates_resource() {
    let mut r = Renderer::new();
    r.render(vec![element("span", vec![], vec![], vec![])], 1001);
    let old = handle_of(&r.befores[0]).unwrap();
    let ops = r.render(vec![element("div", vec![], vec![], vec![])], 1001);
    let new = handle_of(&r.befores[0]).unwrap();
    assert_ne!(old, new);
    assert_eq!(
        ops,
        vec![
            Op::CreateElement { handle: new, tag: "div".to_string() },
            Op::Replace { parent: 1001, child: new, old },
        ]
    );
}

#[test]
fn one_differing_attribute_costs_one_operation() {
    let mut r = Renderer::new();
    let before = vec![attr("a", &["1"], ""), attr("b", &["2"], ""), attr("c", &["3"], "")];
    r.render(vec![element("p", before, vec![], vec![])], 1001);
    let after = vec![attr("a", &["1"], ""), attr("c", &["3"], "")];
    let ops = r.render(vec![element("p", after, vec![], vec![])], 1001);
    assert_eq!(ops.len(), 1);
    assert!(matches!(&ops[0], Op::RemoveAttribute { name, .. } if name == "b"));
    let ops = r.render(vec![element("p", vec![attr("a", &["1"], ""), attr("c", &["3", "4"], ",")], vec![], vec![])], 1001);
    assert_eq!(ops.len(), 1);
    assert!(matches!(&ops[0], Op::SetAttribute { name, value, .. } if name == "c" && value == "3,4"));
}

#[test]
fn swapped_children_are_replaced_not_moved() {
    let mut r = Renderer::new();
    r.render(vec![element("div", vec![], vec![], vec![]), element("span", vec![], vec![], vec![])], 1007);
    let h0 = handle_of(&r.befores[0]).unwrap();
    let h1 = handle_of(&r.befores[1]).unwrap();
    let ops = r.render(vec![element("span", vec![], vec![], vec![]), element("div", vec![], vec![], vec![])], 1007);
    let n0 = handle_of(&r.befores[0]).unwrap();
    let n1 = handle_of(&r.befores[1]).unwrap();
    assert!(n0 != h0 && n0 != h1 && n1 != h0 && n1 != h1);
    assert_eq!(
        ops,
        vec![
            Op::CreateElement { handle: n0, tag: "span".to_string() },
            Op::Replace { parent: 1007, child: n0, old: h0 },
            Op::CreateElement { handle: n1, tag: "div".to_string() },
            Op::Replace { parent: 1007, child: n1, old: h1 },
        ]
    );
}

#[test]
fn trailing_entries_are_removed_in_order() {
    let mut r = Renderer::new();
    r.render(vec![text("a"), text("b"), text("c"), text("d")], 1003);
    let hs: Vec<u64> = r.befores.iter().map(|n| handle_of(n).unwrap()).collect();
    let ops = r.render(vec![text("a")], 1003);
    assert_eq!(
        ops,
        vec![
            Op::Remove { parent: 1003, child: hs[1] },
            Op::Remove { parent: 1003, child: hs[2] },
            Op::Remove { parent: 1003, child: hs[3] },
        ]
    );
    assert_eq!(r.befores.len(), 1);
}

#[test]
fn handler_id_survives_rerender() {
    let mut r = Renderer::new();
    let ops = r.render(vec![element("button", vec![], click(10), vec![])], 1001);
    let h = handle_of(&r.befores[0]).unwrap();
    let id = match &r.befores[0] {
        Node::Element(e) => match e.events[0].slots[0] {
            Slot::Bound(id) => id,
            Slot::Pending(_) => panic!("slot left unbound"),
        },
        _ => unreachable!(),
    };
    assert!(ops.contains(&Op::Listen { handle: h, event: "click".to_string(), id }));
    assert_eq!(r.registry.lookup(id), Some(10));
    let ops = r.render(vec![element("button", vec![], click(11), vec![])], 1001);
    assert!(ops.is_empty());
    match &r.befores[0] {
        Node::Element(e) => assert_eq!(e.events[0].slots[0], Slot::Bound(id)),
        _ => unreachable!(),
    }
    assert_eq!(r.registry.lookup(id), Some(11));
}

#[test]
fn dropped_handler_is_unbound() {
    let mut r = Renderer::new();
    r.render(vec![element("button", vec![], click(10), vec![])], 1001);
    let id = r.registry.next_id - 1;
    r.render(vec![element("button", vec![], vec![], vec![])], 1001);
    assert_eq!(r.registry.lookup(id), None);
}

#[test]
fn input_value_goes_through_live_property() {
    let mut r = Renderer::new();
    let ops = r.render(vec![element("input", vec![attr("value", &["hi"], "")], vec![], vec![])], 1001);
    let h = handle_of(&r.befores[0]).unwrap();
    assert!(ops.contains(&Op::SetInputValue { handle: h, value: "hi".to_string() }));
    let ops = r.render(vec![element("div", vec![attr("value", &["hi"], "")], vec![], vec![])], 1001);
    let h = handle_of(&r.befores[0]).unwrap();
    assert!(ops.contains(&Op::SetAttribute { handle: h, name: "value".to_string(), value: "hi".to_string() }));
}

#[test]
fn text_change_recreates_text() {
    let mut r = Renderer::new();
    r.render(vec![text("one")], 1001);
    let old = handle_of(&r.befores[0]).unwrap();
    let ops = r.render(vec![text("two")], 1001);
    let new = handle_of(&r.befores[0]).unwrap();
    assert_eq!(ops, vec![Op::CreateText { handle: new, text: "two".to_string() }, Op::Replace { parent: 1001, child: new, old }]);
}

#[test]
fn empty_lists() {
    let mut r = Renderer::new();
    assert!(r.render(vec![], 1001).is_empty());
    r.render(vec![text("a")], 1001);
    let h = handle_of(&r.befores[0]).unwrap();
    assert_eq!(r.render(vec![], 1001), vec![Op::Remove { parent: 1001, child: h }]);
}

#[test]
fn nested_children_diff_in_place() {
    let mut r = Renderer::new();
    r.render(vec![element("ul", vec![], vec![], vec![text("a"), text("b")])], 1001);
    let ul = handle_of(&r.befores[0]).unwrap();
    let ops = r.render(vec![element("ul", vec![], vec![], vec![text("a"), text("c"), text("d")])], 1001);
    assert_eq!(ops.len(), 4);
    assert!(matches!(ops[1], Op::Replace { parent, .. } if parent == ul));
    assert!(matches!(ops[3], Op::Append { parent, .. } if parent == ul));
}

#[test]
fn events_direct() {
    let mut reg = Registry::new();
    let mut ops = vec![];
    let before = vec![EventList { name: "input".to_string(), slots: vec![Slot::Bound(5)] }];
    let after = vec![EventList { name: "input".to_string(), slots: vec![Slot::Pending(1), Slot::Pending(2)] }];
    reg.next_id = 6;
    let r = render_events(&before, &after, 9, &mut reg, &mut ops);
    assert_eq!(r[0].slots, vec![Slot::Bound(5), Slot::Bound(6)]);
    assert_eq!(ops, vec![Op::Listen { handle: 9, event: "input".to_string(), id: 6 }]);
    assert_eq!(reg.lookup(5), Some(1));
    assert_eq!(reg.lookup(6), Some(2));
}

#[test]
fn attribute_comparison() {
    let before = vec![attr("class", &["a", "b"], " ")];
    assert!(compare_element_attribute(&before, &attr("class", &["a", "b"], " ")));
    assert!(!compare_element_attribute(&before, &attr("class", &["a", "b"], ",")));
    assert!(!compare_element_attribute(&before, &attr("class", &["a"], " ")));
    assert!(!compare_element_attribute(&before, &attr("id", &["a", "b"], " ")));
}

#[test]
fn registry_ids_are_fresh() {
    let mut reg = Registry::new();
    let a = reg.gen_id();
    let b = reg.gen_id();
    assert_ne!(a, b);
    reg.add_event_handler(a, 40);
    assert_eq!(reg.lookup(a), Some(40));
    reg.remove_event_handler(a);
    assert_eq!(reg.lookup(a), None);
}

#[test]
fn weight_counts_nodes_and_slots() {
    assert_eq!(list_weight(&page()), 6);
    assert_eq!(list_weight(&vec![]), 0);
}

#[test]
fn checked_render_refuses_without_room() {
    let mut r = Renderer::new();
    r.next_handle = u64::MAX - 1;
    assert!(r.try_render(page(), 1001).is_none());
    assert_eq!(r.befores.len(), 0);
    let mut r = Renderer::new();
    assert!(r.try_render(page(), 2).is_none());
    let ops = r.try_render(page(), 1001).unwrap();
    assert!(!ops.is_empty());
    assert_eq!(r.try_render(page(), 1001), Some(vec![]));
}

#[test]
fn new_element_children_go_into_it() {
    let mut r = Renderer::new();
    let ops = r.render(vec![element("ul", vec![], vec![], vec![text("a"), text("b")])], 1009);
    let (ul, a, b) = match &r.befores[0] {
        Node::Element(e) => (e.handle.unwrap(), handle_of(&e.children[0]).unwrap(), handle_of(&e.children[1]).unwrap()),
        _ => unreachable!(),
    };
    assert_eq!(
        ops,
        vec![
            Op::CreateElement { handle: ul, tag: "ul".to_string() },
            Op::CreateText { handle: a, text: "a".to_string() },
            Op::Append { parent: ul, child: a },
            Op::CreateText { handle: b, text: "b".to_string() },
            Op::Append { parent: ul, child: b },
            Op::Append { parent: 1009, child: ul },
        ]
    );
}

#[test]
fn surplus_nested_children_are_removed_from_their_element() {
    let mut r = Renderer::new();
    r.render(vec![element("ul", vec![], vec![], vec![text("a"), text("b")])], 1009);
    let (ul, b) = match &r.befores[0] {
        Node::Element(e) => (e.handle.unwrap(), handle_of(&e.children[1]).unwrap()),
        _ => unreachable!(),
    };
    let ops = r.render(vec![element("ul", vec![], vec![], vec![text("a")])], 1009);
    assert_eq!(ops, vec![Op::Remove { parent: ul, child: b }]);
}

#[test]
fn fresh_handler_ids_are_distinct_and_registered() {
    let mut reg = Registry::new();
    let mut ops = vec![];
    let after = vec![
        EventList { name: "click".to_string(), slots: vec![Slot::Pending(1), Slot::Pending(2)] },
        EventList { name: "input".to_string(), slots: vec![Slot::Pending(3)] },
    ];
    let r = render_events(&vec![], &after, 4, &mut reg, &mut ops);
    let ids: Vec<u64> = r.iter().flat_map(|l| l.slots.iter()).map(|s| match s {
        Slot::Bound(id) => *id,
        Slot::Pending(_) => panic!("unbound"),
    }).collect();
    assert_eq!(ids, vec![0, 1, 2]);
    assert_eq!(reg.next_id, 3);
    assert_eq!((reg.lookup(0), reg.lookup(1), reg.lookup(2)), (Some(1), Some(2), Some(3)));
    assert_eq!(ops.len(), 3);
}
