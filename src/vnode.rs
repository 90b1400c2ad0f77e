//! The node model: what one render pass declares for the live output.
use vstd::prelude::*;

verus! {

/// One handler position under an event name: a closure that still waits for
/// its id (known here by the token the caller keeps it under), or a bound id.
#[derive(Clone, Copy, PartialEq, Eq, Structural, Debug)]
pub enum Slot {
    Pending(u64),
    Bound(u64),
}

/// The handlers of one event name, in order.
#[derive(Debug)]
pub struct EventList {
    pub name: String,
    pub slots: Vec<Slot>,
}

/// One attribute: its values in order and the delimiter that joins them.
#[derive(Debug)]
pub struct Attribute {
    pub name: String,
    pub values: Vec<String>,
    pub delimiter: String,
}

#[derive(Debug)]
pub struct ElementNode {
    pub tag: String,
    pub attributes: Vec<Attribute>,
    pub events: Vec<EventList>,
    pub children: Vec<Node>,
    /// The live resource this node is drawn on, once it has been rendered.
    pub handle: Option<u64>,
}

#[derive(Debug)]
pub struct TextNode {
    pub text: String,
    pub events: Vec<EventList>,
    pub handle: Option<u64>,
}

#[derive(Debug)]
pub enum Node {
    Element(ElementNode),
    Text(TextNode),
}

/// The views of a sequence of strings.
pub open spec fn strs(s: Seq<String>) -> Seq<Seq<char>> {
    s.map_values(|x: String| x@)
}

/// The values joined by the delimiter: the serialized form of an attribute.
pub open spec fn joined(values: Seq<Seq<char>>, d: Seq<char>) -> Seq<char>
    decreases values.len(),
{
    if values.len() == 0 {
        Seq::<char>::empty()
    } else if values.len() == 1 {
        values[0]
    } else {
        joined(values.drop_last(), d) + d + values.last()
    }
}

/// The first position of an event list named `name`, or the length if none is.
pub open spec fn find_event(evs: Seq<EventList>, name: Seq<char>) -> int
    decreases evs.len(),
{
    if evs.len() == 0 {
        0
    } else {
        let k = find_event(evs.drop_last(), name);
        if k < evs.len() - 1 {
            k
        } else if evs.last().name@ == name {
            evs.len() - 1
        } else {
            evs.len() as int
        }
    }
}

/// The first position of an attribute named `name`, or the length if none is.
pub open spec fn find_attribute(attrs: Seq<Attribute>, name: Seq<char>) -> int
    decreases attrs.len(),
{
    if attrs.len() == 0 {
        0
    } else {
        let k = find_attribute(attrs.drop_last(), name);
        if k < attrs.len() - 1 {
            k
        } else if attrs.last().name@ == name {
            attrs.len() - 1
        } else {
            attrs.len() as int
        }
    }
}

pub open spec fn node_handle(n: Node) -> Option<u64> {
    match n {
        Node::Element(e) => e.handle,
        Node::Text(t) => t.handle,
    }
}

pub open spec fn node_events(n: Node) -> Seq<EventList> {
    match n {
        Node::Element(e) => e.events@,
        Node::Text(t) => t.events@,
    }
}

/// Whether the live resource of `b` can stay in place for `a`: two elements
/// with one tag, or two texts with one content.
pub open spec fn reusable(b: Node, a: Node) -> bool {
    match (b, a) {
        (Node::Element(be), Node::Element(ae)) => be.tag@ == ae.tag@,
        (Node::Text(bt), Node::Text(at)) => bt.text@ == at.text@,
        _ => false,
    }
}

/// The number of slots over all event lists.
pub open spec fn slot_count(evs: Seq<EventList>) -> nat
    decreases evs.len(),
{
    if evs.len() == 0 {
        0
    } else {
        slot_count(evs.drop_last()) + evs.last().slots@.len()
    }
}

/// An upper bound on the ids and handles that rendering a node can take:
/// one per node and one per handler slot.
pub open spec fn weight(n: Node) -> nat
    decreases n,
{
    match n {
        Node::Element(e) => 1 + slot_count(e.events@) + weight_list(e.children@),
        Node::Text(t) => 1 + slot_count(t.events@),
    }
}

pub open spec fn weight_list(s: Seq<Node>) -> nat
    decreases s,
{
    if s.len() == 0 {
        0
    } else {
        weight_list(s.drop_last()) + weight(s.last())
    }
}

} // verus!
