//! Prefabs: one-shot descriptors of a component at a tree position, and the
//! reuse-or-replace decision that assembling one against the instance that
//! stood there makes.
use crate::cmd::Cmd;
use crate::instance::{AssembledComponentInstance, Component, SubMapper};
use crate::renderer::Renderer;
use vstd::prelude::*;

verus! {

/// The view of an optional index identifier.
pub open spec fn index_view(o: Option<String>) -> Option<Seq<char>> {
    match o {
        Some(s) => Some(s@),
        None => None,
    }
}

/// The reuse key: a live node of kind `this_kind` and identifier
/// `this_index_id` can take a prefab of kind `kind` and identifier `index_id`
/// exactly when both parts are equal.
pub fn compare_node_and_prefab(
    this_kind: u64,
    this_index_id: &Option<String>,
    kind: u64,
    index_id: &Option<String>,
) -> (r: bool)
    ensures
        r == (this_kind == kind && index_view(*this_index_id) == index_view(*index_id)),
{
    if this_kind == kind {
        match (this_index_id, index_id) {
            (Some(a), Some(b)) => *a == *b,
            (None, None) => true,
            _ => false,
        }
    } else {
        false
    }
}

/// A one-shot description of a component: its kind, identifier, props,
/// mapper and children.
pub struct BasicHtmlPrefab<P, Mp, Ch> {
    pub kind: u64,
    pub index_id: Option<String>,
    pub props: P,
    pub sub_handler: Mp,
    pub children: Ch,
}

impl<P, Mp, Ch> BasicHtmlPrefab<P, Mp, Ch> {
    pub fn new(kind: u64, index_id: Option<String>, props: P, sub_handler: Mp, children: Ch) -> (r: Self)
        ensures
            r == (BasicHtmlPrefab { kind, index_id, props, sub_handler, children }),
    {
        BasicHtmlPrefab { kind, index_id, props, sub_handler, children }
    }

    pub fn into_data(self) -> (r: (P, Option<String>, Mp, Ch))
        ensures
            r == (self.props, self.index_id, self.sub_handler, self.children),
    {
        (self.props, self.index_id, self.sub_handler, self.children)
    }

    /// Builds a fresh node from the prefab with the component's constructor.
    pub fn into_node<C: Component<Props = P>>(self) -> (r: BasicHtmlNode<C, Mp, Ch>)
        ensures
            r.kind == self.kind,
            r.index_id == self.index_id,
            r.sub_handler == Some(self.sub_handler),
            r.children == Some(self.children),
            r.state == C::constructed(self.props),
            r.html_renderer.befores@.len() == 0,
    {
        let state = C::constructor(&self.props);
        let mut node = BasicHtmlNode::new(self.kind, self.index_id, Some(self.sub_handler), state);
        node.children = Some(self.children);
        node
    }
}

/// A component's state with the reuse key it was built under, the children
/// its parent last handed it, and the reconciler of what it renders.
pub struct BasicHtmlNode<C, Mp, Ch> {
    pub kind: u64,
    pub index_id: Option<String>,
    pub state: C,
    pub sub_handler: Option<Mp>,
    pub children: Option<Ch>,
    pub html_renderer: Renderer,
}

impl<C, Mp, Ch> BasicHtmlNode<C, Mp, Ch> {
    pub fn new(kind: u64, index_id: Option<String>, sub_handler: Option<Mp>, state: C) -> (r: Self)
        ensures
            r.kind == kind,
            r.index_id == index_id,
            r.sub_handler == sub_handler,
            r.state == state,
            r.children is None,
            r.html_renderer.befores@.len() == 0,
    {
        BasicHtmlNode { kind, index_id, state, sub_handler, children: None, html_renderer: Renderer::new() }
    }

    /// Whether this node can take `prefab`.
    pub fn is<P>(&self, prefab: &BasicHtmlPrefab<P, Mp, Ch>) -> (r: bool)
        ensures
            r == (self.kind == prefab.kind && index_view(self.index_id) == index_view(prefab.index_id)),
    {
        compare_node_and_prefab(self.kind, &self.index_id, prefab.kind, &prefab.index_id)
    }
}

impl<C: Component, Mp, Ch> BasicHtmlNode<C, Mp, Ch> {
    /// Takes a prefab of the same key: the node takes its identifier, mapper
    /// and children, and runs its load hook with the new props, whose command
    /// is returned. A prefab of another key changes nothing.
    pub fn update_by_prefab(&mut self, prefab: BasicHtmlPrefab<C::Props, Mp, Ch>) -> (r: Option<
        Cmd<C::Sub, C::Task>,
    >)
        ensures
            r is Some <==> (old(self).kind == prefab.kind && index_view(old(self).index_id) == index_view(
                prefab.index_id,
            )),
            r is Some ==> final(self).index_id == prefab.index_id && final(self).sub_handler == Some(
                prefab.sub_handler,
            ) && final(self).children == Some(prefab.children),
            r is None ==> *final(self) == *old(self),
            final(self).kind == old(self).kind,
    {
        if self.is(&prefab) {
            let BasicHtmlPrefab { kind: _, index_id, props, sub_handler, children } = prefab;
            self.index_id = index_id;
            self.sub_handler = Some(sub_handler);
            self.children = Some(children);
            Some(self.state.on_load(&props))
        } else {
            None
        }
    }
}

/// The outcome of assembling a prefab: the instance at this position (the old
/// one or a new one) and the children to render it with.
pub struct AssembledComponentNode<C: Component, M, Mp, Ch> {
    pub data: AssembledComponentInstance<C, M, Mp>,
    pub children: Ch,
}

/// An assembled node parked until its parent takes it.
pub struct WrappedAssembledComponentNodeInstance<C: Component, M, Mp, Ch> {
    pub data: Option<AssembledComponentNode<C, M, Mp, Ch>>,
}

impl<C: Component, M, Mp, Ch> AssembledComponentNode<C, M, Mp, Ch> {
    pub fn new(data: AssembledComponentInstance<C, M, Mp>, children: Ch) -> (r: Self)
        ensures
            r.data == data,
            r.children == children,
    {
        AssembledComponentNode { data, children }
    }

    pub fn wrap(self) -> (r: WrappedAssembledComponentNodeInstance<C, M, Mp, Ch>)
        ensures
            r.data == Some(self),
    {
        WrappedAssembledComponentNodeInstance { data: Some(self) }
    }
}

impl<C: Component, M, Mp, Ch> WrappedAssembledComponentNodeInstance<C, M, Mp, Ch> {
    /// Takes the parked node out; it can be taken once.
    pub fn take(&mut self) -> (r: AssembledComponentNode<C, M, Mp, Ch>)
        requires
            old(self).data is Some,
        ensures
            r == old(self).data->0,
            final(self).data is None,
    {
        self.data.take().unwrap()
    }
}

/// Whether the instance `i` can take the prefab `p`.
pub open spec fn same_key<C: Component, M, Mp, Ch>(
    i: AssembledComponentInstance<C, M, Mp>,
    p: BasicHtmlPrefab<C::Props, Mp, Ch>,
) -> bool {
    i.kind == p.kind && index_view(i.index_id) == index_view(p.index_id)
}

/// What assembling `prefab` over `before` gives: an instance with the
/// prefab's props, mapper, kind and identifier, and its children. Where
/// `before` had the same key, the instance is `before` itself: same state,
/// same queue, same parent. Otherwise it is a new one with nothing queued and
/// no parent yet.
pub open spec fn assembled<C: Component, M, Mp, Ch>(
    prefab: BasicHtmlPrefab<C::Props, Mp, Ch>,
    before: Option<AssembledComponentInstance<C, M, Mp>>,
    r: AssembledComponentNode<C, M, Mp, Ch>,
) -> bool {
    &&& r.children == prefab.children
    &&& r.data.props == prefab.props
    &&& r.data.sub_mapper == prefab.sub_handler
    &&& r.data.kind == prefab.kind
    &&& index_view(r.data.index_id) == index_view(prefab.index_id)
    &&& before is Some && same_key(before->0, prefab) ==> {
        let b = before->0;
        &&& r.data.data == b.data
        &&& r.data.lazy_cmd == b.lazy_cmd
        &&& r.data.demiroot == b.demiroot
        &&& r.data.index_id == b.index_id
        &&& r.data.is_updated == b.is_updated
        &&& r.data.children == b.children
    }
    &&& !(before is Some && same_key(before->0, prefab)) ==> {
        &&& r.data.data == C::constructed(prefab.props)
        &&& r.data.lazy_cmd@.len() == 0
        &&& r.data.children@.len() == 0
        &&& r.data.demiroot is None
        &&& r.data.index_id == prefab.index_id
    }
}

/// Assembles `prefab` against the instance that stood at its position. Where
/// that instance has the prefab's kind and identifier it is kept: it takes the
/// new props and mapper, and keeps its state, its queue and its parent.
/// Otherwise a new instance is built from the props with the component's
/// constructor, and the old one is dropped.
pub fn assemble<C: Component, M, Mp: SubMapper<C::Sub, M>, Ch>(
    prefab: BasicHtmlPrefab<C::Props, Mp, Ch>,
    before: Option<AssembledComponentInstance<C, M, Mp>>,
) -> (r: AssembledComponentNode<C, M, Mp, Ch>)
    ensures
        assembled(prefab, before, r),
{
    let BasicHtmlPrefab { kind, index_id, props, sub_handler, children } = prefab;
    match before {
        Some(b) => {
            if compare_node_and_prefab(b.kind, &b.index_id, kind, &index_id) {
                let mut b = b;
                b.set_props(props);
                b.set_sub_mapper(sub_handler);
                return AssembledComponentNode::new(b, children);
            }
        },
        None => {},
    }
    let data = C::constructor(&props);
    let inst = AssembledComponentInstance::new_ref(kind, index_id, data, props, sub_handler);
    AssembledComponentNode::new(inst, children)
}

/// Reuse is keyed on kind and identifier alone: an instance assembled from one
/// prefab is kept by the next prefab exactly when that prefab has the same
/// kind and identifier, and replaced otherwise.
pub proof fn lemma_reuse_key<C: Component, M, Mp, Ch>(
    n: AssembledComponentNode<C, M, Mp, Ch>,
    first: BasicHtmlPrefab<C::Props, Mp, Ch>,
    next: BasicHtmlPrefab<C::Props, Mp, Ch>,
)
    requires
        n.data.kind == first.kind,
        index_view(n.data.index_id) == index_view(first.index_id),
    ensures
        same_key(n.data, next) <==> (first.kind == next.kind && index_view(first.index_id) == index_view(next.index_id)),
{
}

/// A prefab waiting to be assembled; it can be assembled once.
pub struct PackedComponentNodeInstance<P, Mp, Ch> {
    pub data: Option<BasicHtmlPrefab<P, Mp, Ch>>,
}

impl<P, Mp, Ch> PackedComponentNodeInstance<P, Mp, Ch> {
    pub fn new(kind: u64, index_id: Option<String>, props: P, sub_mapper: Mp, children: Ch) -> (r: Self)
        ensures
            r.data == Some(BasicHtmlPrefab { kind, index_id, props, sub_handler: sub_mapper, children }),
    {
        PackedComponentNodeInstance { data: Some(BasicHtmlPrefab::new(kind, index_id, props, sub_mapper, children)) }
    }
}

impl<P, Mp, Ch> PackedComponentNodeInstance<P, Mp, Ch> {
    /// Moves the prefab into a wrapper, leaving this one empty.
    pub fn wrap(&mut self) -> (r: WrappedPackedComponentNodeInstance<P, Mp, Ch>)
        ensures
            r.data.data == old(self).data,
            final(self).data is None,
    {
        let data = self.data.take();
        WrappedPackedComponentNodeInstance { data: PackedComponentNodeInstance { data } }
    }
}

/// A packed prefab behind one more indirection, as parents hold them.
pub struct WrappedPackedComponentNodeInstance<P, Mp, Ch> {
    pub data: PackedComponentNodeInstance<P, Mp, Ch>,
}

impl<P, Mp, Ch> WrappedPackedComponentNodeInstance<P, Mp, Ch> {
    /// Assembles the packed prefab against `before` (see `assemble`); the
    /// prefab is used up.
    pub fn assemble<C: Component<Props = P>, M>(
        &mut self,
        before: Option<AssembledComponentInstance<C, M, Mp>>,
    ) -> (r: AssembledComponentNode<C, M, Mp, Ch>) where Mp: SubMapper<C::Sub, M>
        requires
            old(self).data.data is Some,
        ensures
            assembled(old(self).data.data->0, before, r),
            final(self).data.data is None,
    {
        let prefab = self.data.data.take().unwrap();
        assemble(prefab, before)
    }
}

} // verus!
