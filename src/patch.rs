//! The mutations that a render pass asks of the live output. Handles name live
//! resources; the caller that owns the output medium applies the list in order.
use vstd::prelude::*;

verus! {

#[derive(Debug, PartialEq, Eq)]
pub enum Op {
    /// Create an element with this tag and know it by `handle`.
    CreateElement { handle: u64, tag: String },
    /// Create a text resource with this content and know it by `handle`.
    CreateText { handle: u64, text: String },
    SetAttribute { handle: u64, name: String, value: String },
    /// Set the `value` attribute of an input-like element together with its
    /// live value property.
    SetInputValue { handle: u64, value: String },
    RemoveAttribute { handle: u64, name: String },
    /// Attach the one dispatcher for `event` that forwards to handler `id`.
    Listen { handle: u64, event: String, id: u64 },
    Append { parent: u64, child: u64 },
    Replace { parent: u64, child: u64, old: u64 },
    Remove { parent: u64, child: u64 },
}

/// An operation as the contracts see it: strings by their characters.
pub enum OpView {
    CreateElement { handle: u64, tag: Seq<char> },
    CreateText { handle: u64, text: Seq<char> },
    SetAttribute { handle: u64, name: Seq<char>, value: Seq<char> },
    SetInputValue { handle: u64, value: Seq<char> },
    RemoveAttribute { handle: u64, name: Seq<char> },
    Listen { handle: u64, event: Seq<char>, id: u64 },
    Append { parent: u64, child: u64 },
    Replace { parent: u64, child: u64, old: u64 },
    Remove { parent: u64, child: u64 },
}

impl View for Op {
    type V = OpView;

    open spec fn view(&self) -> OpView {
        match *self {
            Op::CreateElement { handle, tag } => OpView::CreateElement { handle, tag: tag@ },
            Op::CreateText { handle, text } => OpView::CreateText { handle, text: text@ },
            Op::SetAttribute { handle, name, value } => OpView::SetAttribute { handle, name: name@, value: value@ },
            Op::SetInputValue { handle, value } => OpView::SetInputValue { handle, value: value@ },
            Op::RemoveAttribute { handle, name } => OpView::RemoveAttribute { handle, name: name@ },
            Op::Listen { handle, event, id } => OpView::Listen { handle, event: event@, id },
            Op::Append { parent, child } => OpView::Append { parent, child },
            Op::Replace { parent, child, old } => OpView::Replace { parent, child, old },
            Op::Remove { parent, child } => OpView::Remove { parent, child },
        }
    }
}

/// The views of a list of operations.
pub open spec fn ops_view(s: Seq<Op>) -> Seq<OpView> {
    s.map_values(|o: Op| o@)
}

pub proof fn lemma_ops_view_push(s: Seq<Op>, o: Op)
    ensures
        ops_view(s.push(o)) == ops_view(s).push(o@),
{
    assert(ops_view(s.push(o)) =~= ops_view(s).push(o@));
}

pub proof fn lemma_ops_view_add(s: Seq<Op>, t: Seq<Op>)
    ensures
        ops_view(s + t) == ops_view(s) + ops_view(t),
{
    assert(ops_view(s + t) =~= ops_view(s) + ops_view(t));
}

} // verus!
