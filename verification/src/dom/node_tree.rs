use vstd::prelude::*;

use super::dom_node::{clone_node_id, NodeId};
use super::node_properties::{clone_block, NodeProperties, NodeType};

use ratatui::widgets::Block;
use super::rect::{Position, Rect};
use super::render::{plan_fits, plan_of, render_plan, NodeLayout, RenderPlan};
use super::slots::{
    canonical_key, key_index, node_slots, NodeSlots, slots_contains, slots_get, slots_get_mut, slots_insert,
    slots_keys, slots_len, slots_new, slots_remove,
};

verus! {

/// The key of a node in a [`NodeTree`]. Only a tree hands keys out.
#[derive(Debug, Clone, Copy, PartialEq, Eq, Structural, Hash)]
pub struct DomNodeKey {
    raw: u64,
}

impl View for DomNodeKey {
    type V = u64;

    closed spec fn view(&self) -> u64 {
        self.raw
    }
}

impl DomNodeKey {
    /// A key always holds the raw form of a slot-map key.
    #[verifier::type_invariant]
    closed spec fn inv(self) -> bool {
        canonical_key(self.raw)
    }

    /// The raw form of the key.
    fn raw(&self) -> (r: u64)
        ensures
            r == self@,
            canonical_key(r),
    {
        proof {
            use_type_invariant(self);
        }
        self.raw
    }

    /// The key whose raw form is `raw`.
    fn from_raw(raw: u64) -> (r: DomNodeKey)
        requires
            canonical_key(raw),
        ensures
            r@ == raw,
    {
        DomNodeKey { raw }
    }
}

/// When every node of `a` is a node of `b`, the keys of `a` are keys of `b`.
pub proof fn lemma_has_subset(a: NodeTree, b: NodeTree)
    requires
        forall|k: DomNodeKey| #[trigger] a.has(k) ==> b.has(k),
    ensures
        a.nodes().dom().subset_of(b.nodes().dom()),
{
    assert forall|x: u64| a.nodes().dom().contains(x) implies b.nodes().dom().contains(x) by {
        assert(a.has(DomNodeKey { raw: x }));
    }
}

/// Two keys are equal exactly when their raw forms are.
pub proof fn lemma_key_view_injective(a: DomNodeKey, b: DomNodeKey)
    ensures
        a@ == b@ <==> a == b,
{
}

/// Something the tree asks its owner to do: run a node's handler, tell listeners, redraw.
#[derive(Debug)]
pub enum TreeEvent {
    /// Run the blur handler of `key`, which lost focus to `new_target`.
    Blur { key: DomNodeKey, new_target: Option<NodeId>, rect: Rect },
    /// Run the focus handler of `key`, which took focus from `previous_target`.
    Focus { key: DomNodeKey, previous_target: Option<NodeId>, rect: Rect },
    /// Tell the focus listener that the focused id is now this one.
    FocusChange(Option<NodeId>),
    /// Tell the window size listener about the new size.
    WindowSizeChange(Rect),
    /// The document changed and should be drawn again.
    Refresh,
}

/// The place of a root among the roots: by z-index, then by the order they were added in.
#[derive(Debug, Clone, Copy, PartialEq, Eq, Structural)]
pub struct RootId {
    pub z_index: i32,
    pub id: u32,
}

impl RootId {
    /// The root id with `z_index` and the next number from `counter` (which wraps around).
    pub fn new(z_index: i32, counter: &mut u32) -> (r: RootId)
        ensures
            r == (RootId { z_index, id: *old(counter) }),
            *final(counter) == old(counter).wrapping_add(1),
    {
        let id = *counter;
        *counter = counter.wrapping_add(1);
        RootId { z_index, id }
    }
}

/// Whether `a` sorts before `b`: lower z-index first, then lower number.
pub open spec fn root_id_lt(a: RootId, b: RootId) -> bool {
    a.z_index < b.z_index || (a.z_index == b.z_index && a.id < b.id)
}

/// A root of the document with its place among the roots.
#[derive(Debug, Clone, Copy, PartialEq, Eq, Structural)]
pub struct RootEntry {
    pub root_id: RootId,
    pub key: DomNodeKey,
}

/// The size of the terminal window and the most of it that the document may use.
#[derive(Debug, Clone, Copy, PartialEq, Eq, Structural)]
pub struct ViewportSize {
    pub window_size: Rect,
    pub max_width: Option<u16>,
    pub max_height: Option<u16>,
}

/// How a traversal goes on once a node matches.
#[derive(Debug, Clone, Copy, PartialEq, Eq, Structural)]
pub enum MatchBehavior {
    /// A matching node's children are not searched.
    StopOnFistMatch,
    /// Matching nodes are collected and the search goes on everywhere.
    ContinueOnMatch,
    /// Once a child's subtree yields a match, its later siblings are not searched.
    SearchChildrenOnMatch,
}

/// The document: its nodes, roots, and focus and hover state.
pub struct NodeTree {
    dom_nodes: NodeSlots,
    roots: Vec<RootEntry>,
    next_root_id: u32,
    viewport: ViewportSize,
    focused: Option<NodeId>,
    focused_key: Option<DomNodeKey>,
    hovered_key: Option<DomNodeKey>,
    focusable_nodes: Vec<DomNodeKey>,
    events: Vec<TreeEvent>,
}

impl NodeTree {
    /// The nodes of the tree, each under the raw form of its key.
    pub closed spec fn nodes(&self) -> Map<u64, NodeProperties> {
        node_slots(self.dom_nodes)
    }

    /// Whether `k` names a node of the tree.
    pub open spec fn has(&self, k: DomNodeKey) -> bool {
        self.nodes().dom().contains(k@)
    }

    /// The node under `k`.
    pub open spec fn node(&self, k: DomNodeKey) -> NodeProperties {
        self.nodes()[k@]
    }

    /// The roots of the document, lowest z-index first.
    pub closed spec fn spec_roots(&self) -> Seq<RootEntry> {
        self.roots@
    }

    /// The number the next root that is set will carry.
    pub closed spec fn spec_next_root_id(&self) -> u32 {
        self.next_root_id
    }

    /// The size of the window and the limits on the space the document may use.
    pub closed spec fn spec_viewport(&self) -> ViewportSize {
        self.viewport
    }

    /// The id of the focused node, as last announced.
    pub closed spec fn spec_focused(&self) -> Option<NodeId> {
        self.focused
    }

    /// The key of the focused node.
    pub closed spec fn spec_focused_key(&self) -> Option<DomNodeKey> {
        self.focused_key
    }

    /// The key of the node under the mouse.
    pub closed spec fn spec_hovered_key(&self) -> Option<DomNodeKey> {
        self.hovered_key
    }

    /// The nodes that take focus, in the order focus moves through them.
    pub closed spec fn focusables(&self) -> Seq<DomNodeKey> {
        self.focusable_nodes@
    }

    /// What the tree has asked its owner to do and the owner has not yet taken.
    pub closed spec fn spec_events(&self) -> Seq<TreeEvent> {
        self.events@
    }

    /// The links around the node `k` agree: its children are distinct nodes of the
    /// tree whose parent is `k`, and its parent is a node of the tree that lists `k`.
    pub open spec fn links_ok(&self, k: DomNodeKey) -> bool {
        let n = self.node(k);
        &&& n.children@.no_duplicates()
        &&& forall|i: int|
            0 <= i < n.children@.len() ==> #[trigger] self.has(n.children@[i]) && self.node(
                n.children@[i],
            ).parent == Some(k)
        &&& n.parent matches Some(p) ==> self.has(p) && self.node(p).children@.contains(k)
        &&& n.parent != Some(k)
    }

    /// The tree is well formed: finitely many nodes with slot-map keys, no two of them in
    /// one slot, consistent parent and child links, and focus and hover state that names
    /// nodes of the tree.
    #[verifier::opaque]
    pub open spec fn wf(&self) -> bool {
        &&& self.nodes().dom().finite()
        &&& forall|r: u64| #[trigger] self.nodes().dom().contains(r) ==> canonical_key(r)
        &&& forall|a: u64, b: u64|
            #![trigger key_index(a), key_index(b)]
            self.nodes().dom().contains(a) && self.nodes().dom().contains(b) && key_index(a) == key_index(b) ==> a == b
        &&& forall|k: DomNodeKey| #[trigger] self.has(k) ==> self.links_ok(k)
        &&& self.spec_focused_key() matches Some(k) ==> self.has(k)
        &&& self.spec_hovered_key() matches Some(k) ==> self.has(k)
        &&& forall|i: int| 0 <= i < self.focusables().len() ==> #[trigger] self.has(self.focusables()[i])
        &&& roots_sorted(self.spec_roots())
    }

    /// Adding a detached node with no children keeps the tree well formed.
    proof fn lemma_insert_keeps_wf(old: NodeTree, new: NodeTree, key: DomNodeKey)
        requires
            old.wf(),
            !old.has(key),
            canonical_key(key@),
            forall|j: u64| #[trigger] old.nodes().dom().contains(j) ==> key_index(j) != key_index(key@),
            new.nodes() == old.nodes().insert(key@, new.node(key)),
            new.node(key).children@.len() == 0,
            new.node(key).parent is None,
            new.spec_focused_key() == old.spec_focused_key(),
            new.spec_hovered_key() == old.spec_hovered_key(),
            new.focusables() == old.focusables(),
            new.spec_roots() == old.spec_roots() || roots_sorted(new.spec_roots()),
        ensures
            new.wf(),
    {
        reveal(NodeTree::wf);
        assert forall|k: DomNodeKey| #[trigger] new.has(k) implies new.links_ok(k) by {
            if k != key {
                assert(old.has(k));
                assert(old.links_ok(k));
                let n = new.node(k);
                assert(n == old.node(k));
                assert forall|i: int| 0 <= i < n.children@.len() implies #[trigger] new.has(
                    n.children@[i],
                ) && new.node(n.children@[i]).parent == Some(k) by {
                    assert(old.has(n.children@[i]));
                }
                if let Some(p) = n.parent {
                    assert(old.has(p));
                }
            }
        }
        assert forall|i: int| 0 <= i < new.focusables().len() implies #[trigger] new.has(new.focusables()[i]) by {
            assert(old.has(old.focusables()[i]));
        }
    }

    /// An empty tree.
    pub fn new() -> (r: NodeTree)
        ensures
            r.wf(),
            r.nodes() == Map::<u64, NodeProperties>::empty(),
            r.spec_roots().len() == 0,
            r.spec_next_root_id() == 1,
            r.spec_viewport() == (ViewportSize { window_size: Rect { x: 0, y: 0, width: 0, height: 0 }, max_width: None, max_height: None }),
            r.spec_focused() is None,
            r.spec_focused_key() is None,
            r.spec_hovered_key() is None,
            r.focusables().len() == 0,
            r.spec_events().len() == 0,
    {
        let r = NodeTree {
            dom_nodes: slots_new(),
            roots: Vec::new(),
            next_root_id: 1,
            viewport: ViewportSize { window_size: Rect::zero(), max_width: None, max_height: None },
            focused: None,
            focused_key: None,
            hovered_key: None,
            focusable_nodes: Vec::new(),
            events: Vec::new(),
        };
        proof {
            reveal(NodeTree::wf);
        }
        r
    }

    /// How many nodes the tree holds.
    pub fn len(&self) -> (r: usize)
        ensures
            r == self.nodes().dom().len(),
    {
        slots_len(&self.dom_nodes)
    }

    /// Whether `key` names a node of the tree.
    pub fn contains_key(&self, key: DomNodeKey) -> (r: bool)
        ensures
            r == self.has(key),
    {
        slots_contains(&self.dom_nodes, key.raw())
    }

    /// The node under `key`.
    pub fn get(&self, key: DomNodeKey) -> (r: &NodeProperties)
        requires
            self.has(key),
        ensures
            *r == self.node(key),
    {
        slots_get(&self.dom_nodes, key.raw())
    }

    /// Adds a detached node and returns its new key.
    pub fn insert(&mut self, val: NodeProperties) -> (key: DomNodeKey)
        requires
            old(self).wf(),
            old(self).nodes().dom().len() < u32::MAX - 1,
            val.children@.len() == 0,
            val.parent is None,
        ensures
            final(self).wf(),
            !old(self).has(key),
            final(self).nodes() == old(self).nodes().insert(key@, val),
            final(self).spec_roots() == old(self).spec_roots(),
            final(self).spec_next_root_id() == old(self).spec_next_root_id(),
            final(self).spec_viewport() == old(self).spec_viewport(),
            final(self).spec_focused() == old(self).spec_focused(),
            final(self).spec_focused_key() == old(self).spec_focused_key(),
            final(self).spec_hovered_key() == old(self).spec_hovered_key(),
            final(self).focusables() == old(self).focusables(),
            final(self).spec_events() == old(self).spec_events(),
    {
        proof {
            reveal(NodeTree::wf);
        }
        let raw = slots_insert(&mut self.dom_nodes, val);
        let key = DomNodeKey::from_raw(raw);
        proof {
            Self::lemma_insert_keeps_wf(*old(self), *self, key);
        }
        key
    }
}


/// Whether the node carries the id `id`.
pub open spec fn has_id(n: NodeProperties, id: NodeId) -> bool {
    n.id matches Some(i) && super::dom_node::node_id_eq(i, id)
}

/// Whether the node can take focus and carries the id `id`.
pub open spec fn focus_target(n: NodeProperties, id: NodeId) -> bool {
    n.spec_focusable() && has_id(n, id)
}

/// Whether two optional ids name the same node, or are both absent.
pub open spec fn opt_id_eq(a: Option<NodeId>, b: Option<NodeId>) -> bool {
    match (a, b) {
        (Some(x), Some(y)) => super::dom_node::node_id_eq(x, y),
        (None, None) => true,
        _ => false,
    }
}

impl NodeTree {
    /// Everything but the nodes and the pending events is as in `old`.
    pub open spec fn same_state(&self, old: NodeTree) -> bool {
        &&& self.spec_roots() == old.spec_roots()
        &&& self.spec_next_root_id() == old.spec_next_root_id()
        &&& self.spec_viewport() == old.spec_viewport()
        &&& self.spec_focused() == old.spec_focused()
        &&& self.spec_focused_key() == old.spec_focused_key()
        &&& self.spec_hovered_key() == old.spec_hovered_key()
        &&& self.focusables() == old.focusables()
    }

    /// Changing the fields of one node other than its links keeps the tree well formed.
    proof fn lemma_update_keeps_wf(old: NodeTree, new: NodeTree, k: DomNodeKey)
        requires
            old.wf(),
            old.has(k),
            new.nodes() == old.nodes().insert(k@, new.node(k)),
            new.node(k).children@ == old.node(k).children@,
            new.node(k).parent == old.node(k).parent,
            new.spec_focused_key() == old.spec_focused_key(),
            new.spec_hovered_key() == old.spec_hovered_key(),
            new.focusables() == old.focusables(),
            new.spec_roots() == old.spec_roots() || roots_sorted(new.spec_roots()),
        ensures
            new.wf(),
    {
        reveal(NodeTree::wf);
        assert(new.nodes().dom() == old.nodes().dom());
        assert forall|j: DomNodeKey| #[trigger] new.has(j) implies new.links_ok(j) by {
            assert(old.has(j));
            assert(old.links_ok(j));
            let n = new.node(j);
            assert(n.children@ == old.node(j).children@);
            assert forall|i: int| 0 <= i < n.children@.len() implies #[trigger] new.has(
                n.children@[i],
            ) && new.node(n.children@[i]).parent == Some(j) by {
                assert(old.has(n.children@[i]));
            }
            if let Some(p) = n.parent {
                assert(old.has(p));
            }
        }
        assert forall|i: int| 0 <= i < new.focusables().len() implies #[trigger] new.has(
            new.focusables()[i],
        ) by {
            assert(old.has(old.focusables()[i]));
        }
    }

    /// A tree with the same nodes whose focus and hover state names nodes of it is well formed.
    proof fn lemma_same_nodes_keeps_wf(old: NodeTree, new: NodeTree)
        requires
            old.wf(),
            new.nodes() == old.nodes(),
            new.spec_focused_key() == old.spec_focused_key() || (new.spec_focused_key() matches Some(k) ==> new.has(k)),
            new.spec_hovered_key() == old.spec_hovered_key() || (new.spec_hovered_key() matches Some(k) ==> new.has(k)),
            new.focusables() == old.focusables() || forall|i: int| 0 <= i < new.focusables().len() ==> #[trigger] new.has(new.focusables()[i]),
            new.spec_roots() == old.spec_roots() || roots_sorted(new.spec_roots()),
        ensures
            new.wf(),
    {
        reveal(NodeTree::wf);
        if new.focusables() == old.focusables() {
            assert forall|i: int| 0 <= i < new.focusables().len() implies #[trigger] new.has(new.focusables()[i]) by {
                assert(old.has(old.focusables()[i]));
            }
        }
        assert forall|j: DomNodeKey| #[trigger] new.has(j) implies new.links_ok(j) by {
            assert(old.has(j));
            assert(old.links_ok(j));
            let n = new.node(j);
            assert forall|i: int| 0 <= i < n.children@.len() implies #[trigger] new.has(
                n.children@[i],
            ) && new.node(n.children@[i]).parent == Some(j) by {
                assert(old.has(n.children@[i]));
            }
        }
    }

    /// What a well-formed tree promises about a node, its links and its focus state.
    pub(crate) proof fn lemma_wf_links(t: NodeTree, k: DomNodeKey)
        requires
            t.wf(),
            t.has(k),
        ensures
            t.links_ok(k),
    {
        reveal(NodeTree::wf);
    }

    /// What a well-formed tree promises about its keys and its focus state.
    pub(crate) proof fn lemma_wf_facts(t: NodeTree)
        requires
            t.wf(),
        ensures
            t.nodes().dom().finite(),
            t.spec_focused_key() matches Some(f) ==> t.has(f),
            t.spec_hovered_key() matches Some(h) ==> t.has(h),
            forall|i: int| 0 <= i < t.focusables().len() ==> #[trigger] t.has(t.focusables()[i]),
            forall|r: u64| #[trigger] t.nodes().dom().contains(r) ==> canonical_key(r),
            roots_sorted(t.spec_roots()),
            forall|a: DomNodeKey, b: DomNodeKey|
                #![trigger key_index(a@), key_index(b@)]
                t.has(a) && t.has(b) && key_index(a@) == key_index(b@) ==> a == b,
    {
        reveal(NodeTree::wf);
        assert forall|a: DomNodeKey, b: DomNodeKey|
            #![trigger key_index(a@), key_index(b@)]
            t.has(a) && t.has(b) && key_index(a@) == key_index(b@) implies a == b by {
            assert(a@ == b@);
        }
    }

    /// The node under `key`, to change in place.
    fn node_mut(&mut self, key: DomNodeKey) -> (r: &mut NodeProperties)
        requires
            old(self).has(key),
        ensures
            *r == old(self).node(key),
            final(self).nodes() == old(self).nodes().insert(key@, *final(r)),
            final(self).same_state(*old(self)),
            final(self).spec_events() == old(self).spec_events(),
    {
        slots_get_mut(&mut self.dom_nodes, key.raw())
    }

    /// Asks for the document to be drawn again.
    pub(crate) fn refresh(&mut self)
        requires
            old(self).wf(),
        ensures
            final(self).wf(),
            final(self).nodes() == old(self).nodes(),
            final(self).same_state(*old(self)),
            final(self).spec_events() == old(self).spec_events().push(TreeEvent::Refresh),
    {
        self.events.push(TreeEvent::Refresh);
        proof { Self::lemma_same_nodes_keeps_wf(*old(self), *self); }
    }

    /// Takes the events the tree has asked for, oldest first.
    pub fn take_events(&mut self) -> (r: Vec<TreeEvent>)
        requires
            old(self).wf(),
        ensures
            final(self).wf(),
            r@ == old(self).spec_events(),
            final(self).spec_events().len() == 0,
            final(self).nodes() == old(self).nodes(),
            final(self).same_state(*old(self)),
    {
        let mut out = Vec::new();
        std::mem::swap(&mut out, &mut self.events);
        proof { Self::lemma_same_nodes_keeps_wf(*old(self), *self); }
        out
    }

    /// Marks whether `key` has been taken out of the document without being removed.
    pub fn set_unmounted(&mut self, key: DomNodeKey, unmounted: bool)
        requires
            old(self).wf(),
            old(self).has(key),
        ensures
            final(self).wf(),
            final(self).nodes() == old(self).nodes().insert(key@, NodeProperties { unmounted, ..old(self).node(key) }),
            final(self).same_state(*old(self)),
            final(self).spec_events() == old(self).spec_events(),
    {
        let n = self.node_mut(key);
        n.unmounted = unmounted;
        proof { Self::lemma_update_keeps_wf(*old(self), *self, key); }
    }

    /// Sets whether `node` can take focus.
    pub fn set_focusable(&mut self, node: DomNodeKey, focusable: bool)
        requires
            old(self).wf(),
            old(self).has(node),
        ensures
            final(self).wf(),
            final(self).nodes() == old(self).nodes().insert(node@, NodeProperties { focusable, ..old(self).node(node) }),
            final(self).same_state(*old(self)),
            final(self).spec_events() == old(self).spec_events().push(TreeEvent::Refresh),
    {
        let n = self.node_mut(node);
        n.focusable = focusable;
        proof { Self::lemma_update_keeps_wf(*old(self), *self, node); }
        self.refresh();
    }

    /// Sets the block drawn around `node` (or none).
    pub fn set_block(&mut self, node: DomNodeKey, block: Option<Block<'static>>)
        requires
            old(self).wf(),
            old(self).has(node),
        ensures
            final(self).wf(),
            final(self).nodes() == old(self).nodes().insert(node@, NodeProperties { block, ..old(self).node(node) }),
            final(self).same_state(*old(self)),
            final(self).spec_events() == old(self).spec_events().push(TreeEvent::Refresh),
    {
        let n = self.node_mut(node);
        n.block = block;
        proof { Self::lemma_update_keeps_wf(*old(self), *self, node); }
        self.refresh();
    }

    /// Sets the id of `node`.
    pub fn set_id(&mut self, node: DomNodeKey, id: NodeId)
        requires
            old(self).wf(),
            old(self).has(node),
        ensures
            final(self).wf(),
            final(self).nodes() == old(self).nodes().insert(node@, NodeProperties { id: Some(id), ..old(self).node(node) }),
            final(self).same_state(*old(self)),
            final(self).spec_events() == old(self).spec_events(),
    {
        let n = self.node_mut(node);
        n.id = Some(id);
        proof { Self::lemma_update_keeps_wf(*old(self), *self, node); }
    }

    /// Sets the class of `node`.
    pub fn set_class(&mut self, node: DomNodeKey, class: String)
        requires
            old(self).wf(),
            old(self).has(node),
        ensures
            final(self).wf(),
            final(self).nodes() == old(self).nodes().insert(node@, NodeProperties { class: Some(class), ..old(self).node(node) }),
            final(self).same_state(*old(self)),
            final(self).spec_events() == old(self).spec_events(),
    {
        let n = self.node_mut(node);
        n.class = Some(class);
        proof { Self::lemma_update_keeps_wf(*old(self), *self, node); }
    }

    /// Sets the name of `node`.
    pub fn set_name(&mut self, node: DomNodeKey, name: String)
        requires
            old(self).wf(),
            old(self).has(node),
        ensures
            final(self).wf(),
            final(self).nodes() == old(self).nodes().insert(node@, NodeProperties { name, ..old(self).node(node) }),
            final(self).same_state(*old(self)),
            final(self).spec_events() == old(self).spec_events(),
    {
        let n = self.node_mut(node);
        n.name = name;
        proof { Self::lemma_update_keeps_wf(*old(self), *self, node); }
    }

    /// Sets whether the area of `key` is cleared before it is drawn.
    pub fn set_clear(&mut self, key: DomNodeKey, clear: bool)
        requires
            old(self).wf(),
            old(self).has(key),
        ensures
            final(self).wf(),
            final(self).nodes() == old(self).nodes().insert(key@, NodeProperties { clear, ..old(self).node(key) }),
            final(self).same_state(*old(self)),
            final(self).spec_events() == old(self).spec_events(),
    {
        let n = self.node_mut(key);
        n.clear = clear;
        proof { Self::lemma_update_keeps_wf(*old(self), *self, key); }
    }

    /// Records where `key` was drawn.
    pub fn set_rect(&mut self, key: DomNodeKey, rect: Rect)
        requires
            old(self).wf(),
            old(self).has(key),
        ensures
            final(self).wf(),
            final(self).nodes() == old(self).nodes().insert(key@, NodeProperties { rect, ..old(self).node(key) }),
            final(self).same_state(*old(self)),
            final(self).spec_events() == old(self).spec_events(),
    {
        let n = self.node_mut(key);
        n.rect = rect;
        proof { Self::lemma_update_keeps_wf(*old(self), *self, key); }
    }

    /// Records whether `key` was visible when last drawn.
    pub fn set_visible(&mut self, key: DomNodeKey, visible: bool)
        requires
            old(self).wf(),
            old(self).has(key),
        ensures
            final(self).wf(),
            final(self).nodes() == old(self).nodes().insert(key@, NodeProperties { visible, ..old(self).node(key) }),
            final(self).same_state(*old(self)),
            final(self).spec_events() == old(self).spec_events(),
    {
        let n = self.node_mut(key);
        n.visible = visible;
        proof { Self::lemma_update_keeps_wf(*old(self), *self, key); }
    }

    /// Records which click handlers `key` has.
    pub fn set_click_handlers(&mut self, key: DomNodeKey, handlers: super::node_properties::ClickHandlers)
        requires
            old(self).wf(),
            old(self).has(key),
        ensures
            final(self).wf(),
            final(self).nodes() == old(self).nodes().insert(key@, NodeProperties { click_handlers: handlers, ..old(self).node(key) }),
            final(self).same_state(*old(self)),
            final(self).spec_events() == old(self).spec_events(),
    {
        let n = self.node_mut(key);
        n.click_handlers = handlers;
        proof { Self::lemma_update_keeps_wf(*old(self), *self, key); }
    }

    /// The kind of the node under `key`.
    pub fn node_type(&self, key: DomNodeKey) -> (r: &super::node_properties::NodeType)
        requires
            self.has(key),
        ensures
            *r == self.node(key).node_type,
    {
        &self.get(key).node_type
    }

    /// Scrolls the content of the node under `key` by a turn of the wheel, and gives how
    /// far its scroll offset moved.
    pub fn scroll(&mut self, key: DomNodeKey, direction: super::node_properties::ScrollDirection) -> (r: (i32, i32))
        requires
            old(self).wf(),
            old(self).has(key),
        ensures
            final(self).wf(),
            final(self).same_state(*old(self)),
            final(self).spec_events() == old(self).spec_events(),
            final(self).nodes() == old(self).nodes().insert(key@, final(self).node(key)),
            final(self).node(key) == (NodeProperties { scroll_offset: final(self).node(key).scroll_offset, ..old(self).node(key) }),
            final(self).node(key).scroll_offset.x == super::node_properties::clamp_offset(old(self).node(key).scroll_offset.x
                - super::node_properties::scroll_delta(direction).0, old(self).node(key).max_scroll_offset.x),
            final(self).node(key).scroll_offset.y == super::node_properties::clamp_offset(old(self).node(key).scroll_offset.y
                - super::node_properties::scroll_delta(direction).1, old(self).node(key).max_scroll_offset.y),
            r.0 == final(self).node(key).scroll_offset.x - old(self).node(key).scroll_offset.x,
            r.1 == final(self).node(key).scroll_offset.y - old(self).node(key).scroll_offset.y,
    {
        let n = self.node_mut(key);
        let r = n.scroll(direction);
        proof {
            Self::lemma_update_keeps_wf(*old(self), *self, key);
        }
        r
    }

    /// How the node under `key` was laid out when it was made.
    pub fn original_display(&self, key: DomNodeKey) -> (r: super::node_properties::Display)
        requires
            self.has(key),
        ensures
            r == self.node(key).original_display,
    {
        self.get(key).original_display
    }

    /// Replaces the properties of the node under `key` by `inner`, which keeps its links.
    pub fn replace_inner(&mut self, key: DomNodeKey, inner: NodeProperties)
        requires
            old(self).wf(),
            old(self).has(key),
            inner.parent == old(self).node(key).parent,
            inner.children@ == old(self).node(key).children@,
        ensures
            final(self).wf(),
            final(self).nodes() == old(self).nodes().insert(key@, inner),
            final(self).same_state(*old(self)),
            final(self).spec_events() == old(self).spec_events(),
    {
        let n = self.node_mut(key);
        *n = inner;
        proof {
            Self::lemma_update_keeps_wf(*old(self), *self, key);
        }
    }

    /// The id of the focused node.
    pub fn focused(&self) -> (r: &Option<NodeId>)
        ensures
            *r == self.spec_focused(),
    {
        &self.focused
    }

    /// The key of the focused node.
    pub fn focused_key(&self) -> (r: Option<DomNodeKey>)
        ensures
            r == self.spec_focused_key(),
    {
        self.focused_key
    }

    /// The key of the node under the mouse.
    pub fn hovered_key(&self) -> (r: Option<DomNodeKey>)
        ensures
            r == self.spec_hovered_key(),
    {
        self.hovered_key
    }

    /// The size of the terminal window.
    pub fn window_size(&self) -> (r: Rect)
        ensures
            r == self.spec_viewport().window_size,
    {
        self.viewport.window_size
    }

    /// The size of the window and the limits on the document's size.
    pub fn viewport_size(&self) -> (r: ViewportSize)
        ensures
            r == self.spec_viewport(),
    {
        self.viewport
    }

    /// Replaces the size of the window and the limits on the document's size.
    pub fn set_viewport_size(&mut self, viewport: ViewportSize)
        requires
            old(self).wf(),
        ensures
            final(self).wf(),
            final(self).nodes() == old(self).nodes(),
            final(self).spec_viewport() == viewport,
            final(self).spec_roots() == old(self).spec_roots(),
            final(self).spec_next_root_id() == old(self).spec_next_root_id(),
            final(self).spec_focused() == old(self).spec_focused(),
            final(self).spec_focused_key() == old(self).spec_focused_key(),
            final(self).spec_hovered_key() == old(self).spec_hovered_key(),
            final(self).focusables() == old(self).focusables(),
            final(self).spec_events() == old(self).spec_events(),
    {
        self.viewport = viewport;
        proof { Self::lemma_same_nodes_keeps_wf(*old(self), *self); }
    }

    /// Records a new window size; listeners hear of it only when it changed.
    pub fn set_window_size(&mut self, size: Rect)
        requires
            old(self).wf(),
        ensures
            final(self).wf(),
            final(self).nodes() == old(self).nodes(),
            final(self).spec_viewport() == (ViewportSize { window_size: size, ..old(self).spec_viewport() }),
            final(self).spec_roots() == old(self).spec_roots(),
            final(self).spec_next_root_id() == old(self).spec_next_root_id(),
            final(self).spec_focused() == old(self).spec_focused(),
            final(self).spec_focused_key() == old(self).spec_focused_key(),
            final(self).spec_hovered_key() == old(self).spec_hovered_key(),
            final(self).focusables() == old(self).focusables(),
            final(self).spec_events() == if size == old(self).spec_viewport().window_size {
                old(self).spec_events()
            } else {
                old(self).spec_events().push(TreeEvent::WindowSizeChange(size))
            },
    {
        if size != self.viewport.window_size {
            self.viewport.window_size = size;
            self.events.push(TreeEvent::WindowSizeChange(size));
        }
        proof { Self::lemma_same_nodes_keeps_wf(*old(self), *self); }
    }

    /// Forgets every focusable node recorded while drawing.
    pub fn clear_focusables(&mut self)
        requires
            old(self).wf(),
        ensures
            final(self).wf(),
            final(self).nodes() == old(self).nodes(),
            final(self).focusables().len() == 0,
            final(self).spec_roots() == old(self).spec_roots(),
            final(self).spec_next_root_id() == old(self).spec_next_root_id(),
            final(self).spec_viewport() == old(self).spec_viewport(),
            final(self).spec_focused() == old(self).spec_focused(),
            final(self).spec_focused_key() == old(self).spec_focused_key(),
            final(self).spec_hovered_key() == old(self).spec_hovered_key(),
            final(self).spec_events() == old(self).spec_events(),
    {
        self.focusable_nodes.clear();
        proof { Self::lemma_same_nodes_keeps_wf(*old(self), *self); }
    }

    /// Records that `key` was drawn and can take focus, unless it was disabled. A key drawn
    /// twice in one pass is recorded twice.
    pub fn add_focusable(&mut self, key: DomNodeKey)
        requires
            old(self).wf(),
            old(self).has(key),
        ensures
            final(self).wf(),
            final(self).nodes() == old(self).nodes(),
            final(self).focusables() == if old(self).node(key).enabled {
                old(self).focusables().push(key)
            } else {
                old(self).focusables()
            },
            final(self).spec_roots() == old(self).spec_roots(),
            final(self).spec_next_root_id() == old(self).spec_next_root_id(),
            final(self).spec_viewport() == old(self).spec_viewport(),
            final(self).spec_focused() == old(self).spec_focused(),
            final(self).spec_focused_key() == old(self).spec_focused_key(),
            final(self).spec_hovered_key() == old(self).spec_hovered_key(),
            final(self).spec_events() == old(self).spec_events(),
    {
        proof {
            Self::lemma_wf_facts(*old(self));
        }
        if !self.get(key).enabled {
            return;
        }
        self.focusable_nodes.push(key);
        proof {
            assert forall|i: int| 0 <= i < self.focusables().len() implies #[trigger] self.has(self.focusables()[i]) by {
                if i < old(self).focusables().len() {
                    assert(old(self).has(old(self).focusables()[i]));
                }
            }
        }
        proof { Self::lemma_same_nodes_keeps_wf(*old(self), *self); }
    }

    /// One node's step of a render pass, with `layout` from the layout and the visible
    /// area `parent_bounds` (scrolled by `parent_scroll_offset`) of its parent: decides
    /// the plan from the node's rectangle of the last pass, records the node as focusable
    /// when it takes focus, marks it shown exactly when it is drawn, and stores its
    /// new rectangle. The plan says whether the size-change handlers are to run; the flag
    /// beside it says whether the pass goes on into the node's children, which it does for
    /// a layout node that is drawn.
    pub fn render_step(&mut self, key: DomNodeKey, layout: NodeLayout, parent_bounds: Rect, parent_scroll_offset: Position) -> (r: (RenderPlan, bool))
        requires
            old(self).wf(),
            old(self).has(key),
            plan_fits(layout, parent_bounds, parent_scroll_offset),
        ensures
            final(self).wf(),
            r.0 == plan_of(layout.render_bounds, layout.visible_bounds, parent_bounds, parent_scroll_offset, layout.can_scroll,
                old(self).node(key).rect),
            r.1 == (r.0.needs_render && old(self).node(key).node_type is Layout),
            final(self).nodes() == old(self).nodes().insert(key@, NodeProperties {
                rect: layout.render_bounds,
                visible: r.0.needs_render,
                ..old(self).node(key)
            }),
            final(self).focusables() == if old(self).node(key).spec_focusable() {
                old(self).focusables().push(key)
            } else {
                old(self).focusables()
            },
            final(self).spec_roots() == old(self).spec_roots(),
            final(self).spec_next_root_id() == old(self).spec_next_root_id(),
            final(self).spec_viewport() == old(self).spec_viewport(),
            final(self).spec_focused() == old(self).spec_focused(),
            final(self).spec_focused_key() == old(self).spec_focused_key(),
            final(self).spec_hovered_key() == old(self).spec_hovered_key(),
            final(self).spec_events() == old(self).spec_events(),
    {
        if self.get(key).is_focusable() {
            self.add_focusable(key);
        }
        let prev = self.get(key).rect;
        let plan = render_plan(layout.render_bounds, layout.visible_bounds, parent_bounds, parent_scroll_offset, layout.can_scroll, prev);
        let is_layout = match self.get(key).node_type {
            NodeType::Layout => true,
            _ => false,
        };
        let ghost mid = *self;
        let n = self.node_mut(key);
        n.visible = plan.needs_render;
        n.rect = layout.render_bounds;
        proof {
            Self::lemma_update_keeps_wf(mid, *self, key);
        }
        (plan, plan.needs_render && is_layout)
    }

    /// Whether `key` is among the focusable nodes recorded while drawing.
    pub fn has_focusable(&self, key: DomNodeKey) -> (r: bool)
        ensures
            r == self.focusables().contains(key),
    {
        let mut i: usize = 0;
        while i < self.focusable_nodes.len()
            invariant
                i <= self.focusables().len(),
                forall|j: int| 0 <= j < i ==> self.focusables()[j] != key,
            decreases self.focusables().len() - i,
        {
            if self.focusable_nodes[i] == key {
                proof {
                    assert(self.focusables()[i as int] == key);
                }
                return true;
            }
            i = i + 1;
        }
        false
    }

    /// Records that `key` is under the mouse.
    pub fn set_hovered(&mut self, key: DomNodeKey)
        requires
            old(self).wf(),
            old(self).has(key),
        ensures
            final(self).wf(),
            final(self).nodes() == old(self).nodes(),
            final(self).spec_hovered_key() == Some(key),
            final(self).spec_roots() == old(self).spec_roots(),
            final(self).spec_next_root_id() == old(self).spec_next_root_id(),
            final(self).spec_viewport() == old(self).spec_viewport(),
            final(self).spec_focused() == old(self).spec_focused(),
            final(self).spec_focused_key() == old(self).spec_focused_key(),
            final(self).focusables() == old(self).focusables(),
            final(self).spec_events() == old(self).spec_events(),
    {
        self.hovered_key = Some(key);
        proof { Self::lemma_same_nodes_keeps_wf(*old(self), *self); }
    }

    /// Records that no node is under the mouse.
    pub fn remove_hovered(&mut self)
        requires
            old(self).wf(),
        ensures
            final(self).wf(),
            final(self).nodes() == old(self).nodes(),
            final(self).spec_hovered_key() is None,
            final(self).spec_roots() == old(self).spec_roots(),
            final(self).spec_next_root_id() == old(self).spec_next_root_id(),
            final(self).spec_viewport() == old(self).spec_viewport(),
            final(self).spec_focused() == old(self).spec_focused(),
            final(self).spec_focused_key() == old(self).spec_focused_key(),
            final(self).focusables() == old(self).focusables(),
            final(self).spec_events() == old(self).spec_events(),
    {
        self.hovered_key = None;
        proof { Self::lemma_same_nodes_keeps_wf(*old(self), *self); }
    }

    /// The first node, in slot order, whose id is `id`.
    pub fn get_key(&self, id: &NodeId) -> (r: Option<DomNodeKey>)
        requires
            self.wf(),
        ensures
            r matches Some(k) ==> self.has(k) && has_id(self.node(k), *id),
            r matches Some(k) ==> forall|j: DomNodeKey| #![trigger self.has(j)] self.has(j) && key_index(j@) < key_index(k@)
                ==> !has_id(self.node(j), *id),
            r is None ==> forall|j: DomNodeKey| #![trigger self.has(j)] self.has(j)
                ==> !has_id(self.node(j), *id),
    {
        proof {
            Self::lemma_wf_facts(*self);
        }
        let keys = slots_keys(&self.dom_nodes);
        let mut i: usize = 0;
        while i < keys.len()
            invariant
                self.wf(),
                keys@.to_set() == self.nodes().dom(),
                keys@.no_duplicates(),
                forall|a: int, b: int| 0 <= a < b < keys@.len() ==> key_index(keys@[a]) < key_index(keys@[b]),
                i <= keys.len(),
                forall|a: int| 0 <= a < i ==> !has_id(#[trigger] self.nodes()[keys@[a]], *id),
            decreases keys.len() - i,
        {
            let raw = keys[i];
            assert(keys@.to_set().contains(raw));
            proof {
                Self::lemma_wf_facts(*self);
            }
            let node = slots_get(&self.dom_nodes, raw);
            let found = match &node.id {
                Some(current) => current.eq(id),
                None => false,
            };
            if found {
                let k = DomNodeKey::from_raw(raw);
                proof {
                    assert forall|j: DomNodeKey| #![trigger self.has(j)] self.has(j) && key_index(j@) < key_index(k@)
                        implies !has_id(self.node(j), *id) by {
                        assert(keys@.to_set().contains(j@));
                        let a = keys@.index_of(j@);
                        if a >= i {
                            if a > i {
                                assert(key_index(keys@[i as int]) < key_index(keys@[a]));
                            }
                        }
                    }
                }
                return Some(k);
            }
            i = i + 1;
        }
        proof {
            assert forall|j: DomNodeKey| #![trigger self.has(j)] self.has(j)
                implies !has_id(self.node(j), *id) by {
                assert(keys@.to_set().contains(j@));
                let a = keys@.index_of(j@);
                assert(self.nodes()[keys@[a]].id == self.node(j).id);
            }
        }
        None
    }

    /// The first node, in slot order, that can take focus and whose id is `id`.
    pub fn find_focusable(&self, id: &NodeId) -> (r: Option<DomNodeKey>)
        requires
            self.wf(),
        ensures
            r matches Some(k) ==> self.has(k) && focus_target(self.node(k), *id),
            r matches Some(k) ==> forall|j: DomNodeKey| #![trigger self.has(j)] self.has(j) && key_index(j@) < key_index(k@)
                ==> !focus_target(self.node(j), *id),
            r is None ==> forall|j: DomNodeKey| #![trigger self.has(j)] self.has(j)
                ==> !focus_target(self.node(j), *id),
    {
        proof {
            Self::lemma_wf_facts(*self);
        }
        let keys = slots_keys(&self.dom_nodes);
        let mut i: usize = 0;
        while i < keys.len()
            invariant
                self.wf(),
                keys@.to_set() == self.nodes().dom(),
                keys@.no_duplicates(),
                forall|a: int, b: int| 0 <= a < b < keys@.len() ==> key_index(keys@[a]) < key_index(keys@[b]),
                i <= keys.len(),
                forall|a: int| 0 <= a < i ==> !focus_target(#[trigger] self.nodes()[keys@[a]], *id),
            decreases keys.len() - i,
        {
            let raw = keys[i];
            assert(keys@.to_set().contains(raw));
            proof {
                Self::lemma_wf_facts(*self);
            }
            let node = slots_get(&self.dom_nodes, raw);
            let found = node.is_focusable() && match &node.id {
                Some(current) => current.eq(id),
                None => false,
            };
            if found {
                let k = DomNodeKey::from_raw(raw);
                proof {
                    assert forall|j: DomNodeKey| #![trigger self.has(j)] self.has(j) && key_index(j@) < key_index(k@)
                        implies !focus_target(self.node(j), *id) by {
                        assert(keys@.to_set().contains(j@));
                        let a = keys@.index_of(j@);
                        if a >= i {
                            if a > i {
                                assert(key_index(keys@[i as int]) < key_index(keys@[a]));
                            }
                        }
                    }
                }
                return Some(k);
            }
            i = i + 1;
        }
        proof {
            assert forall|j: DomNodeKey| #![trigger self.has(j)] self.has(j)
                implies !focus_target(self.node(j), *id) by {
                assert(keys@.to_set().contains(j@));
                let a = keys@.index_of(j@);
                assert(self.nodes()[keys@[a]].id == self.node(j).id);
            }
        }
        None
    }
}

impl NodeTree {
    /// A detached node is listed as a child by no node.
    proof fn lemma_detached_unlisted(t: NodeTree, c: DomNodeKey, j: DomNodeKey)
        requires
            t.wf(),
            t.has(c),
            t.node(c).parent is None,
            t.has(j),
        ensures
            !t.node(j).children@.contains(c),
    {
        reveal(NodeTree::wf);
        assert(t.links_ok(j));
        if t.node(j).children@.contains(c) {
            let i = t.node(j).children@.index_of(c);
            assert(t.has(t.node(j).children@[i]));
        }
    }

    /// Attaching the detached node `c` to the children of `p` keeps the tree well formed.
    #[verifier::spinoff_prover]
    proof fn lemma_attach_keeps_wf(old: NodeTree, new: NodeTree, p: DomNodeKey, c: DomNodeKey, pos: int)
        requires
            old.wf(),
            old.has(p),
            old.has(c),
            p != c,
            old.node(c).parent is None,
            0 <= pos <= old.node(p).children@.len(),
            new.nodes().dom() == old.nodes().dom(),
            forall|j: DomNodeKey| #![trigger new.node(j)] new.has(j) && j != p && j != c ==> new.node(j) == old.node(j),
            new.node(p).children@ == old.node(p).children@.insert(pos, c),
            new.node(p).parent == old.node(p).parent,
            new.node(c).children@ == old.node(c).children@,
            new.node(c).parent == Some(p),
            new.spec_focused_key() == old.spec_focused_key(),
            new.spec_hovered_key() == old.spec_hovered_key(),
            new.focusables() == old.focusables(),
            new.spec_roots() == old.spec_roots() || roots_sorted(new.spec_roots()),
        ensures
            new.wf(),
    {
        reveal(NodeTree::wf);
        assert forall|j: DomNodeKey| #[trigger] new.has(j) implies new.links_ok(j) by {
            assert(old.has(j));
            assert(old.links_ok(j));
            let n = new.node(j);
            let on = old.node(j);
            if j == p {
                Self::lemma_detached_unlisted(old, c, p);
                assert forall|i: int| 0 <= i < n.children@.len() implies #[trigger] new.has(
                    n.children@[i],
                ) && new.node(n.children@[i]).parent == Some(j) by {
                    if i < pos {
                        assert(n.children@[i] == on.children@[i]);
                        assert(old.has(on.children@[i]));
                    } else if i > pos {
                        assert(n.children@[i] == on.children@[i - 1]);
                        assert(old.has(on.children@[i - 1]));
                    }
                }
                assert forall|a: int, b: int| 0 <= a < n.children@.len() && 0 <= b < n.children@.len() && a != b implies n.children@[a] != n.children@[b] by {
                    if a != pos && b != pos {
                        let oa = if a < pos { a } else { a - 1 };
                        let ob = if b < pos { b } else { b - 1 };
                        assert(n.children@[a] == on.children@[oa]);
                        assert(n.children@[b] == on.children@[ob]);
                    } else if a == pos {
                        let ob = if b < pos { b } else { b - 1 };
                        assert(n.children@[b] == on.children@[ob]);
                        assert(on.children@.contains(on.children@[ob]));
                    } else {
                        let oa = if a < pos { a } else { a - 1 };
                        assert(n.children@[a] == on.children@[oa]);
                        assert(on.children@.contains(on.children@[oa]));
                    }
                }
                if let Some(g) = n.parent {
                    assert(old.has(g));
                    if g == c {
                        assert(new.node(c).children@.contains(p));
                    } else if g == p {
                        let k = old.node(p).children@.index_of(p);
                        if k < pos {
                            assert(new.node(p).children@[k] == p);
                        } else {
                            assert(new.node(p).children@[k + 1] == p);
                        }
                    } else {
                        assert(new.node(g) == old.node(g));
                    }
                }
            } else if j == c {
                assert forall|i: int| 0 <= i < n.children@.len() implies #[trigger] new.has(
                    n.children@[i],
                ) && new.node(n.children@[i]).parent == Some(j) by {
                    let d = on.children@[i];
                    assert(old.has(d));
                    if d == c {
                        assert(old.node(c).parent == Some(c));
                    }
                }
                assert(new.node(p).children@[pos] == c);
            } else {
                assert(n == on);
                assert forall|i: int| 0 <= i < n.children@.len() implies #[trigger] new.has(
                    n.children@[i],
                ) && new.node(n.children@[i]).parent == Some(j) by {
                    let d = on.children@[i];
                    assert(old.has(d));
                    if d == c {
                        assert(old.node(c).parent == Some(j));
                    }
                }
                if let Some(g) = n.parent {
                    assert(old.has(g));
                    if g == p {
                        let k = old.node(p).children@.index_of(j);
                        if k < pos {
                            assert(new.node(p).children@[k] == j);
                        } else {
                            assert(new.node(p).children@[k + 1] == j);
                        }
                    } else if g == c {
                        assert(new.node(c).children@ == old.node(c).children@);
                    } else {
                        assert(new.node(g) == old.node(g));
                    }
                }
            }
        }
        assert forall|i: int| 0 <= i < new.focusables().len() implies #[trigger] new.has(new.focusables()[i]) by {
            assert(old.has(old.focusables()[i]));
        }
    }

    /// Taking `c` out of the children of its parent `p` keeps the tree well formed.
    proof fn lemma_detach_keeps_wf(old: NodeTree, new: NodeTree, p: DomNodeKey, c: DomNodeKey, pos: int)
        requires
            old.wf(),
            old.has(c),
            old.node(c).parent == Some(p),
            0 <= pos < old.node(p).children@.len(),
            old.node(p).children@[pos] == c,
            new.nodes().dom() == old.nodes().dom(),
            forall|j: DomNodeKey| #![trigger new.node(j)] new.has(j) && j != p && j != c ==> new.node(j) == old.node(j),
            new.node(p).children@ == old.node(p).children@.remove(pos),
            new.node(p).parent == old.node(p).parent,
            new.node(c).children@ == old.node(c).children@,
            new.node(c).parent is None,
            new.spec_focused_key() == old.spec_focused_key(),
            new.spec_hovered_key() == old.spec_hovered_key(),
            new.focusables() == old.focusables(),
            new.spec_roots() == old.spec_roots() || roots_sorted(new.spec_roots()),
        ensures
            new.wf(),
    {
        reveal(NodeTree::wf);
        assert(old.links_ok(c));
        assert(old.has(p));
        assert(old.links_ok(p));
        assert(p != c);
        assert forall|j: DomNodeKey| #[trigger] new.has(j) implies new.links_ok(j) by {
            assert(old.has(j));
            assert(old.links_ok(j));
            let n = new.node(j);
            let on = old.node(j);
            if j == p {
                assert forall|i: int| 0 <= i < n.children@.len() implies #[trigger] new.has(
                    n.children@[i],
                ) && new.node(n.children@[i]).parent == Some(j) by {
                    let oi = if i < pos { i } else { i + 1 };
                    assert(n.children@[i] == on.children@[oi]);
                    assert(old.has(on.children@[oi]));
                }
                assert forall|a: int, b: int| 0 <= a < n.children@.len() && 0 <= b < n.children@.len() && a != b implies n.children@[a] != n.children@[b] by {
                    let oa = if a < pos { a } else { a + 1 };
                    let ob = if b < pos { b } else { b + 1 };
                    assert(n.children@[a] == on.children@[oa]);
                    assert(n.children@[b] == on.children@[ob]);
                }
                if let Some(g) = n.parent {
                    assert(old.has(g));
                    if g == c {
                        assert(new.node(c).children@.contains(p));
                    } else if g == p {
                        let k = old.node(p).children@.index_of(p);
                        assert(k != pos);
                        if k < pos {
                            assert(new.node(p).children@[k] == p);
                        } else {
                            assert(new.node(p).children@[k - 1] == p);
                        }
                    } else {
                        assert(new.node(g) == old.node(g));
                    }
                }
            } else if j == c {
                assert forall|i: int| 0 <= i < n.children@.len() implies #[trigger] new.has(
                    n.children@[i],
                ) && new.node(n.children@[i]).parent == Some(j) by {
                    let d = on.children@[i];
                    assert(old.has(d));
                    if d == p {
                        assert(old.node(p).parent == Some(c));
                    }
                }
            } else {
                assert(n == on);
                assert forall|i: int| 0 <= i < n.children@.len() implies #[trigger] new.has(
                    n.children@[i],
                ) && new.node(n.children@[i]).parent == Some(j) by {
                    let d = on.children@[i];
                    assert(old.has(d));
                }
                if let Some(g) = n.parent {
                    assert(old.has(g));
                    if g == p {
                        let k = old.node(p).children@.index_of(j);
                        assert(k != pos);
                        if k < pos {
                            assert(new.node(p).children@[k] == j);
                        } else {
                            assert(new.node(p).children@[k - 1] == j);
                        }
                    } else if g == c {
                        assert(new.node(c).children@ == old.node(c).children@);
                    } else {
                        assert(new.node(g) == old.node(g));
                    }
                }
            }
        }
        assert forall|i: int| 0 <= i < new.focusables().len() implies #[trigger] new.has(new.focusables()[i]) by {
            assert(old.has(old.focusables()[i]));
        }
    }

    /// Position of `key` in `v`, if it is there.
    fn position_of(v: &Vec<DomNodeKey>, key: DomNodeKey) -> (r: Option<usize>)
        ensures
            r matches Some(i) ==> i < v@.len() && v@[i as int] == key && forall|j: int| 0 <= j < i ==> v@[j] != key,
            r is None ==> !v@.contains(key),
    {
        let mut i: usize = 0;
        while i < v.len()
            invariant
                i <= v.len(),
                forall|j: int| 0 <= j < i ==> v@[j] != key,
            decreases v.len() - i,
        {
            if v[i] == key {
                return Some(i);
            }
            i = i + 1;
        }
        None
    }

    /// Whether a child with a z-index of its own other than its parent's stays out of the parent.
    pub open spec fn insert_blocked(&self, p: NodeProperties, c: NodeProperties) -> bool {
        c.z_index is Some && p.z_index != c.z_index
    }

    /// Puts the detached node `child_key` at position `pos` among the children of `parent_key`.
    fn attach_at(&mut self, parent_key: DomNodeKey, child_key: DomNodeKey, pos: usize)
        requires
            old(self).wf(),
            old(self).has(parent_key),
            old(self).has(child_key),
            parent_key != child_key,
            old(self).node(child_key).parent is None,
            pos <= old(self).node(parent_key).children@.len(),
        ensures
            final(self).wf(),
            final(self).same_state(*old(self)),
            final(self).spec_events() == old(self).spec_events(),
            attached(*old(self), *final(self), parent_key, child_key, pos as int),
    {
        let ghost before = *self;
        let pn = self.node_mut(parent_key);
        pn.children.insert(pos, child_key);
        let cn = self.node_mut(child_key);
        cn.parent = Some(parent_key);
        cn.unmounted = false;
        proof {
            assert(self.nodes().dom() =~= before.nodes().dom());
            Self::lemma_attach_keeps_wf(before, *self, parent_key, child_key, pos as int);
        }
    }

    /// Places `child` among the children of `parent`: just before `reference` when that is
    /// a child of `parent`, last when there is no reference. A child that has a parent
    /// (`parent` itself too) is taken out of its place first, so that no node is listed
    /// twice. A child with a z-index other than its parent's is not placed at all.
    pub fn insert_before(&mut self, parent_key: DomNodeKey, child_key: DomNodeKey, reference: Option<DomNodeKey>)
        requires
            old(self).wf(),
            old(self).has(parent_key),
            old(self).has(child_key),
            parent_key != child_key,
        ensures
            final(self).wf(),
            moved_before(*old(self), *final(self), parent_key, child_key, reference),
    {
        if self.get(child_key).parent.is_none() {
            self.insert_detached(parent_key, child_key, reference);
            return;
        }
        let blocked = {
            let parent = self.get(parent_key);
            let child = self.get(child_key);
            child.z_index.is_some() && parent.z_index != child.z_index
        };
        if blocked {
            return;
        }
        let keep_place = match reference {
            Some(r) => r == child_key || Self::position_of(&self.get(parent_key).children, r).is_none(),
            None => false,
        };
        if keep_place {
            proof {
                match reference {
                    Some(r) => {
                        if r != child_key && self.node(parent_key).children@.contains(r) {
                            let q = self.node(parent_key).children@.index_of(r);
                            assert(self.node(parent_key).children@[q] == r);
                        }
                    },
                    None => {},
                }
            }
            self.set_unmounted(child_key, false);
            self.refresh();
            return;
        }
        let ghost before = *self;
        self.detach(child_key);
        let ghost mid = *self;
        proof {
            Self::lemma_wf_links(before, parent_key);
            match reference {
                Some(r) => {
                    let q = before.node(parent_key).children@.index_of(r);
                    assert(before.node(parent_key).children@[q] == r);
                    // `r` is still a child of `parent_key` once `child_key` has left it.
                    if before.node(child_key).parent == Some(parent_key) {
                        let cs = before.node(parent_key).children@;
                        Self::lemma_wf_links(before, child_key);
                        let i = cs.index_of(child_key);
                        assert(cs[i] == child_key);
                        assert forall|j: int| 0 <= j < i implies cs[j] != child_key by {
                            assert(cs.no_duplicates());
                        }
                        lemma_first_index_of(cs, child_key, i);
                        assert(q != i);
                        if q < i {
                            assert(cs.remove(i)[q] == r);
                        } else {
                            assert(cs.remove(i)[q - 1] == r);
                        }
                    }
                },
                None => {},
            }
            assert(mid.node(child_key).parent is None);
        }
        self.insert_detached(parent_key, child_key, reference);
        proof {
            assert(detached_from_parent(before, mid, child_key));
        }
    }

    /// Puts the detached node `child_key` before `reference` among the children of
    /// `parent_key`, as `inserted_before` lays out.
    fn insert_detached(&mut self, parent_key: DomNodeKey, child_key: DomNodeKey, reference: Option<DomNodeKey>)
        requires
            old(self).wf(),
            old(self).has(parent_key),
            old(self).has(child_key),
            parent_key != child_key,
            old(self).node(child_key).parent is None,
        ensures
            final(self).wf(),
            inserted_before(*old(self), *final(self), parent_key, child_key, reference),
    {
        let blocked = {
            let parent = self.get(parent_key);
            let child = self.get(child_key);
            child.z_index.is_some() && parent.z_index != child.z_index
        };
        if blocked {
            return;
        }
        match reference {
            Some(r) => {
                let pos = Self::position_of(&self.get(parent_key).children, r);
                match pos {
                    Some(pos) => {
                        proof {
                            Self::lemma_wf_links(*self, parent_key);
                            let q = self.node(parent_key).children@.index_of(r);
                            assert(self.node(parent_key).children@.contains(r));
                            if q != pos as int {
                                assert(self.node(parent_key).children@[q] == r);
                            }
                        }
                        self.attach_at(parent_key, child_key, pos);
                    },
                    None => {
                        self.set_unmounted(child_key, false);
                    },
                }
            },
            None => {
                let len = self.get(parent_key).children.len();
                self.attach_at(parent_key, child_key, len);
            },
        }
        self.refresh();
    }
}
/// `new` is `old` with the detached node `c` placed at position `pos` among the children of `p`.
/// `new` is `old` after `insert_before(parent, child, reference)`: unless the z-index of
/// `child` keeps it out, `child` is placed before `reference` when that is a child of
/// `parent` (and only marked as mounted when it is not), or last without a reference,
/// and a redraw is asked for.
pub open spec fn inserted_before(old: NodeTree, new: NodeTree, parent: DomNodeKey, child: DomNodeKey,
    reference: Option<DomNodeKey>) -> bool {
    &&& new.same_state(old)
    &&& if old.insert_blocked(old.node(parent), old.node(child)) {
        new.nodes() == old.nodes() && new.spec_events() == old.spec_events()
    } else {
        &&& new.spec_events() == old.spec_events().push(TreeEvent::Refresh)
        &&& match reference {
            Some(r) => if old.node(parent).children@.contains(r) {
                attached(old, new, parent, child, old.node(parent).children@.index_of(r))
            } else {
                new.nodes() == old.nodes().insert(child@, NodeProperties { unmounted: false, ..old.node(child) })
            },
            None => attached(old, new, parent, child, old.node(parent).children@.len() as int),
        }
    }
}

/// `new` is `old` after `insert_before(parent, child, reference)` for any `child`: a
/// detached child is placed as `inserted_before` says. A child that has a parent stays
/// where it is when its z-index keeps it out; it is only marked mounted (and a redraw
/// asked for) when `reference` is not a child of `parent` or is `child` itself; else it
/// is first taken out of its parent's children and then placed as a detached child is.
pub open spec fn moved_before(old: NodeTree, new: NodeTree, parent: DomNodeKey, child: DomNodeKey,
    reference: Option<DomNodeKey>) -> bool {
    if old.node(child).parent is None {
        inserted_before(old, new, parent, child, reference)
    } else if old.insert_blocked(old.node(parent), old.node(child)) {
        &&& new.same_state(old)
        &&& new.nodes() == old.nodes()
        &&& new.spec_events() == old.spec_events()
    } else if reference matches Some(r) && (r == child || !old.node(parent).children@.contains(r)) {
        &&& new.same_state(old)
        &&& new.nodes() == old.nodes().insert(child@, NodeProperties { unmounted: false, ..old.node(child) })
        &&& new.spec_events() == old.spec_events().push(TreeEvent::Refresh)
    } else {
        exists|mid: NodeTree|
            #![trigger detached_from_parent(old, mid, child)]
            {
                &&& detached_from_parent(old, mid, child)
                &&& mid.same_state(old)
                &&& mid.spec_events() == old.spec_events()
                &&& inserted_before(mid, new, parent, child, reference)
            }
    }
}

/// Moving a node among the children of another keeps the set of nodes.
pub(crate) proof fn lemma_moved_keeps_dom(old: NodeTree, new: NodeTree, p: DomNodeKey, c: DomNodeKey, reference: Option<DomNodeKey>)
    requires
        old.wf(),
        old.has(p),
        old.has(c),
        moved_before(old, new, p, c, reference),
    ensures
        new.nodes().dom() == old.nodes().dom(),
{
    if old.node(c).parent is None {
        assert(new.nodes().dom() =~= old.nodes().dom());
    } else if old.insert_blocked(old.node(p), old.node(c)) {
    } else if reference matches Some(r) && (r == c || !old.node(p).children@.contains(r)) {
        assert(new.nodes().dom() =~= old.nodes().dom());
    } else {
        let mid = choose|mid: NodeTree|
            #![trigger detached_from_parent(old, mid, c)]
            {
                &&& detached_from_parent(old, mid, c)
                &&& mid.same_state(old)
                &&& mid.spec_events() == old.spec_events()
                &&& inserted_before(mid, new, p, c, reference)
            };
        NodeTree::lemma_wf_links(old, c);
        assert(mid.nodes().dom() =~= old.nodes().dom());
        assert(new.nodes().dom() =~= mid.nodes().dom());
    }
}

/// `new` is `old` with `c` put among the children of `p` at position `pos`, with `p` as
/// its parent, and marked mounted.
pub open spec fn attached(old: NodeTree, new: NodeTree, p: DomNodeKey, c: DomNodeKey, pos: int) -> bool {
    let op = old.node(p);
    let np = new.node(p);
    &&& np == NodeProperties { children: np.children, ..op }
    &&& np.children@ == op.children@.insert(pos, c)
    &&& new.nodes() == old.nodes().insert(p@, np).insert(c@, NodeProperties { parent: Some(p), unmounted: false, ..old.node(c) })
}

/// Index of the first occurrence of `x` in `s`.
pub open spec fn first_index_of(s: Seq<DomNodeKey>, x: DomNodeKey) -> int
    recommends
        s.contains(x),
{
    choose|i: int| 0 <= i < s.len() && s[i] == x && forall|j: int| 0 <= j < i ==> s[j] != x
}

/// The first occurrence named by `first_index_of` is the first index holding `x`.
pub(crate) proof fn lemma_first_index_of(s: Seq<DomNodeKey>, x: DomNodeKey, i: int)
    requires
        0 <= i < s.len(),
        s[i] == x,
        forall|j: int| 0 <= j < i ==> s[j] != x,
    ensures
        first_index_of(s, x) == i,
{
    let c = first_index_of(s, x);
    assert(0 <= c < s.len() && s[c] == x && forall|j: int| 0 <= j < c ==> s[j] != x);
    if c < i {
        assert(s[c] != x);
    } else if c > i {
        assert(s[i] != x);
    }
}

/// The focus and focused id after focusing `target` without telling anyone: nothing
/// when there is no target or it is not a node of the tree.
pub open spec fn untracked_focus(t: NodeTree, target: Option<DomNodeKey>) -> (Option<DomNodeKey>, Option<NodeId>) {
    match target {
        Some(k) => if t.has(k) {
            (Some(k), t.node(k).id)
        } else {
            (None, None)
        },
        None => (None, None),
    }
}

/// The id of the focused node, if there is one.
pub open spec fn prev_focused_id(t: NodeTree) -> Option<NodeId> {
    match t.spec_focused_key() {
        Some(f) => t.node(f).id,
        None => None,
    }
}

/// What focusing `target` asks for: blur the focused node, tell the focus listener when
/// the focused id changed, focus the new node, and redraw.
pub open spec fn set_focused_events(t: NodeTree, target: Option<DomNodeKey>) -> Seq<TreeEvent> {
    let (nk, nid) = untracked_focus(t, target);
    let prev = prev_focused_id(t);
    let blur = match t.spec_focused_key() {
        Some(f) => seq![TreeEvent::Blur { key: f, new_target: match target {
            Some(k) => t.node(k).id,
            None => None,
        }, rect: t.node(f).rect }],
        None => Seq::<TreeEvent>::empty(),
    };
    let change = if opt_id_eq(prev, nid) {
        Seq::<TreeEvent>::empty()
    } else {
        seq![TreeEvent::FocusChange(nid)]
    };
    let tail = match nk {
        Some(k) => seq![TreeEvent::Focus { key: k, previous_target: prev, rect: t.node(k).rect }, TreeEvent::Refresh],
        None => seq![TreeEvent::Refresh],
    };
    blur + change + tail
}

/// `new` is `old` after focusing `target` and asking for what that entails.
pub open spec fn focus_moved(old: NodeTree, new: NodeTree, target: Option<DomNodeKey>) -> bool {
    &&& new.nodes() == old.nodes()
    &&& new.spec_roots() == old.spec_roots()
    &&& new.spec_next_root_id() == old.spec_next_root_id()
    &&& new.spec_viewport() == old.spec_viewport()
    &&& new.spec_hovered_key() == old.spec_hovered_key()
    &&& new.focusables() == old.focusables()
    &&& (new.spec_focused_key(), new.spec_focused()) == untracked_focus(old, target)
    &&& new.spec_events() == old.spec_events() + set_focused_events(old, target)
}

/// The node focus moves to from the focused one: the next focusable node, or the first
/// one when nothing is focused or the last one is.
pub open spec fn focus_next_target(fs: Seq<DomNodeKey>, focused: Option<DomNodeKey>) -> Option<DomNodeKey> {
    let first = if fs.len() > 0 { Some(fs[0]) } else { None };
    match focused {
        Some(f) => {
            let c = first_index_of(fs, f);
            if c < fs.len() - 1 {
                Some(fs[c + 1])
            } else {
                first
            }
        },
        None => first,
    }
}

/// The node focus moves to backwards: the previous focusable node, or the last one when
/// nothing is focused or the first one is.
pub open spec fn focus_prev_target(fs: Seq<DomNodeKey>, focused: Option<DomNodeKey>) -> Option<DomNodeKey> {
    let last = if fs.len() > 0 { Some(fs[fs.len() - 1]) } else { None };
    match focused {
        Some(f) => {
            let c = first_index_of(fs, f);
            if c > 0 {
                Some(fs[c - 1])
            } else {
                last
            }
        },
        None => last,
    }
}

impl NodeTree {
    /// Focuses `node_key` (or nothing) without telling anyone; a key that is not in the
    /// tree clears the focus.
    pub fn set_focused_untracked(&mut self, node_key: Option<DomNodeKey>)
        requires
            old(self).wf(),
        ensures
            final(self).wf(),
            final(self).nodes() == old(self).nodes(),
            (final(self).spec_focused_key(), final(self).spec_focused()) == untracked_focus(*old(self), node_key),
            final(self).spec_roots() == old(self).spec_roots(),
            final(self).spec_next_root_id() == old(self).spec_next_root_id(),
            final(self).spec_viewport() == old(self).spec_viewport(),
            final(self).spec_hovered_key() == old(self).spec_hovered_key(),
            final(self).focusables() == old(self).focusables(),
            final(self).spec_events() == old(self).spec_events(),
    {
        match node_key {
            None => {
                self.focused = None;
                self.focused_key = None;
            },
            Some(k) => {
                if !self.contains_key(k) {
                    self.focused = None;
                    self.focused_key = None;
                } else {
                    self.focused_key = Some(k);
                    self.focused = clone_node_id(&self.get(k).id);
                }
            },
        }
        proof { Self::lemma_same_nodes_keeps_wf(*old(self), *self); }
    }

    /// Focuses `node_key` (or nothing): the focused node hears that it lost focus, the
    /// focus listener hears of a new focused id, and the new node hears that it took focus.
    pub fn set_focused(&mut self, node_key: Option<DomNodeKey>)
        requires
            old(self).wf(),
            old(self).spec_focused_key() is Some && node_key is Some ==> old(self).has(node_key.unwrap()),
        ensures
            final(self).wf(),
            focus_moved(*old(self), *final(self), node_key),
    {
        proof { Self::lemma_wf_facts(*self); }
        let prev_focused_id = match self.focused_key {
            Some(focused_key) => {
                let node_id = clone_node_id(&self.get(focused_key).id);
                let focus_id = match node_key {
                    Some(k) => clone_node_id(&self.get(k).id),
                    None => None,
                };
                let rect = self.get(focused_key).rect;
                self.events.push(TreeEvent::Blur { key: focused_key, new_target: focus_id, rect });
                proof { Self::lemma_same_nodes_keeps_wf(*old(self), *self); }
                node_id
            },
            None => None,
        };
        let ghost mid = self.spec_events();
        self.set_focused_untracked(node_key);
        let changed = !(prev_focused_id == self.focused);
        if changed {
            let f = clone_node_id(&self.focused);
            self.events.push(TreeEvent::FocusChange(f));
        }
        let ghost mid2 = self.spec_events();
        match self.focused_key {
            Some(k) => {
                let rect = self.get(k).rect;
                self.events.push(TreeEvent::Focus { key: k, previous_target: prev_focused_id, rect });
            },
            None => {},
        }
        self.events.push(TreeEvent::Refresh);
        proof {
            Self::lemma_same_nodes_keeps_wf(*old(self), *self);
            assert(self.spec_events() =~= old(self).spec_events() + set_focused_events(*old(self), node_key));
        }
    }
}

impl NodeTree {
    /// Moves focus to the next focusable node, wrapping around to the first.
    pub fn focus_next(&mut self)
        requires
            old(self).wf(),
            old(self).spec_focused_key() matches Some(f) ==> old(self).focusables().contains(f),
        ensures
            final(self).wf(),
            match focus_next_target(old(self).focusables(), old(self).spec_focused_key()) {
                Some(t) => focus_moved(*old(self), *final(self), Some(t)),
                None => *final(self) == *old(self),
            },
    {
        proof { Self::lemma_wf_facts(*self); }
        if let Some(focused) = self.focused_key {
            let current = Self::position_of(&self.focusable_nodes, focused);
            let current = match current {
                Some(c) => c,
                None => {
                    return;
                },
            };
            proof { lemma_first_index_of(self.focusables(), focused, current as int); }
            let last = self.focusable_nodes.len() - 1;
            if current < last {
                let next = self.focusable_nodes[current + 1];
                self.set_focused(Some(next));
                return;
            }
        }
        if self.focusable_nodes.len() > 0 {
            let next = self.focusable_nodes[0];
            self.set_focused(Some(next));
        }
    }

    /// Moves focus to the previous focusable node, wrapping around to the last.
    pub fn focus_prev(&mut self)
        requires
            old(self).wf(),
            old(self).spec_focused_key() matches Some(f) ==> old(self).focusables().contains(f),
        ensures
            final(self).wf(),
            match focus_prev_target(old(self).focusables(), old(self).spec_focused_key()) {
                Some(t) => focus_moved(*old(self), *final(self), Some(t)),
                None => *final(self) == *old(self),
            },
    {
        proof { Self::lemma_wf_facts(*self); }
        if let Some(focused) = self.focused_key {
            let current = Self::position_of(&self.focusable_nodes, focused);
            let current = match current {
                Some(c) => c,
                None => {
                    return;
                },
            };
            proof { lemma_first_index_of(self.focusables(), focused, current as int); }
            if current > 0 {
                let prev = self.focusable_nodes[current - 1];
                self.set_focused(Some(prev));
                return;
            }
        }
        if self.focusable_nodes.len() > 0 {
            let prev = self.focusable_nodes[self.focusable_nodes.len() - 1];
            self.set_focused(Some(prev));
        }
    }

    /// Forgets every record of `key` among the focusable nodes, so that none is left
    /// naming it.
    fn remove_focusable(&mut self, key: DomNodeKey)
        requires
            old(self).wf(),
        ensures
            final(self).wf(),
            final(self).nodes() == old(self).nodes(),
            final(self).focusables() == keep(old(self).focusables(), other_than(key)),
            final(self).spec_roots() == old(self).spec_roots(),
            final(self).spec_next_root_id() == old(self).spec_next_root_id(),
            final(self).spec_viewport() == old(self).spec_viewport(),
            final(self).spec_focused() == old(self).spec_focused(),
            final(self).spec_focused_key() == old(self).spec_focused_key(),
            final(self).spec_hovered_key() == old(self).spec_hovered_key(),
            final(self).spec_events() == old(self).spec_events(),
    {
        proof { Self::lemma_wf_facts(*self); }
        let ghost p = other_than(key);
        let ghost fs = self.focusables();
        let mut kept: Vec<DomNodeKey> = Vec::new();
        let mut i: usize = 0;
        proof {
            assert(fs.take(0) =~= Seq::<DomNodeKey>::empty());
        }
        while i < self.focusable_nodes.len()
            invariant
                fs == self.focusables(),
                *self == *old(self),
                i <= fs.len(),
                kept@ == keep(fs.take(i as int), p),
                p == other_than(key),
            decreases fs.len() - i,
        {
            let k = self.focusable_nodes[i];
            proof {
                lemma_keep_push(fs.take(i as int), k, p);
                assert(fs.take(i as int + 1) =~= fs.take(i as int).push(k));
            }
            if k != key {
                kept.push(k);
            }
            i = i + 1;
        }
        proof {
            assert(fs.take(i as int) =~= fs);
            lemma_keep_props(fs, p);
        }
        assert(kept@ == keep(fs, p));
        self.focusable_nodes = kept;
        proof {
            assert(self.focusables() == keep(fs, p));
            assert forall|j: int| 0 <= j < self.focusables().len() implies #[trigger] self.has(self.focusables()[j]) by {
                assert(keep(fs, p)[j] == self.focusables()[j]);
                assert(keep(fs, p).contains(self.focusables()[j]));
                let x = self.focusables()[j];
                assert(fs.contains(x));
                let q = choose|q: int| 0 <= q < fs.len() && fs[q] == x;
                assert(old(self).focusables()[q] == fs[q]);
                assert(old(self).has(old(self).focusables()[q]));
            }
            Self::lemma_same_nodes_keeps_wf(*old(self), *self);
        }
    }

    /// Takes the focus away: the focused node hears twice that it lost focus, as the
    /// blur is sent once here and once when the focus is cleared.
    fn remove_focused(&mut self)
        requires
            old(self).wf(),
        ensures
            final(self).wf(),
            final(self).nodes() == old(self).nodes(),
            final(self).spec_roots() == old(self).spec_roots(),
            final(self).spec_next_root_id() == old(self).spec_next_root_id(),
            final(self).spec_viewport() == old(self).spec_viewport(),
            final(self).spec_hovered_key() == old(self).spec_hovered_key(),
            final(self).focusables() == old(self).focusables(),
            final(self).spec_focused_key() is None,
            final(self).spec_focused() is None,
            final(self).spec_events() == old(self).spec_events() + match old(self).spec_focused_key() {
                Some(f) => seq![TreeEvent::Blur { key: f, new_target: None, rect: old(self).node(f).rect }],
                None => Seq::<TreeEvent>::empty(),
            } + set_focused_events(*old(self), None),
    {
        proof { Self::lemma_wf_facts(*self); }
        if let Some(focused_key) = self.focused_key {
            let rect = self.get(focused_key).rect;
            self.events.push(TreeEvent::Blur { key: focused_key, new_target: None, rect });
            proof { Self::lemma_same_nodes_keeps_wf(*old(self), *self); }
        }
        let ghost mid = *self;
        self.set_focused(None);
        self.focused_key = None;
        proof {
            Self::lemma_same_nodes_keeps_wf(*old(self), *self);
            assert(set_focused_events(mid, None) == set_focused_events(*old(self), None));
            assert(self.spec_events() =~= old(self).spec_events() + match old(self).spec_focused_key() {
                Some(f) => seq![TreeEvent::Blur { key: f, new_target: None, rect: old(self).node(f).rect }],
                None => Seq::<TreeEvent>::empty(),
            } + set_focused_events(*old(self), None));
        }
    }
}

/// Whether a key is any key but `key`.
pub open spec fn other_than(key: DomNodeKey) -> spec_fn(DomNodeKey) -> bool {
    |x: DomNodeKey| x != key
}

/// `new` is `old` with the focus, hover and focusable record of `key` dropped: its
/// focus is taken away as `remove_focused` does, and nothing but that state and the
/// pending events changes (the nodes are not compared here).
pub open spec fn unset_effects(old: NodeTree, new: NodeTree, key: DomNodeKey) -> bool {
    let focused_here = old.spec_focused_key() == Some(key);
    &&& new.spec_roots() == old.spec_roots()
    &&& new.spec_next_root_id() == old.spec_next_root_id()
    &&& new.spec_viewport() == old.spec_viewport()
    &&& new.spec_focused_key() == if focused_here { None } else { old.spec_focused_key() }
    &&& new.spec_focused() == if focused_here { None } else { old.spec_focused() }
    &&& new.spec_hovered_key() == if old.spec_hovered_key() == Some(key) { None } else { old.spec_hovered_key() }
    &&& new.focusables() == keep(old.focusables(), other_than(key))
    &&& new.spec_events() == if focused_here {
        old.spec_events() + seq![TreeEvent::Blur { key, new_target: None, rect: old.node(key).rect }]
            + set_focused_events(old, None)
    } else {
        old.spec_events()
    }
}

impl NodeTree {
    /// Drops the focus, hover and focusable record of `key`.
    pub fn unset_state(&mut self, key: DomNodeKey)
        requires
            old(self).wf(),
        ensures
            final(self).wf(),
            final(self).nodes() == old(self).nodes(),
            unset_effects(*old(self), *final(self), key),
    {
        let ghost o = *self;
        if self.focused_key == Some(key) {
            self.remove_focused();
        }
        let ghost m1 = *self;
        if self.hovered_key == Some(key) {
            self.remove_hovered();
        }
        self.remove_focusable(key);
        proof {
            if o.spec_focused_key() == Some(key) {
                assert(self.spec_events() =~= o.spec_events() + seq![TreeEvent::Blur { key, new_target: None, rect: o.node(key).rect }]
                    + set_focused_events(o, None));
            }
        }
    }

    /// Enables or disables `key`; a disabled node loses its focus, hover and focusable record.
    pub fn set_enabled(&mut self, key: DomNodeKey, enabled: bool)
        requires
            old(self).wf(),
            old(self).has(key),
        ensures
            final(self).wf(),
            final(self).nodes() == old(self).nodes().insert(key@, NodeProperties { enabled, ..old(self).node(key) }),
            enabled ==> final(self).same_state(*old(self)) && final(self).spec_events() == old(self).spec_events().push(TreeEvent::Refresh),
            !enabled ==> exists|mid: NodeTree| #![trigger unset_effects(*old(self), mid, key)]
                unset_effects(*old(self), mid, key) && final(self).same_state(mid)
                && final(self).spec_events() == mid.spec_events().push(TreeEvent::Refresh),
    {
        let n = self.node_mut(key);
        n.enabled = enabled;
        proof { Self::lemma_update_keeps_wf(*old(self), *self, key); }
        let ghost m0 = *self;
        if !enabled {
            self.unset_state(key);
            proof {
                assert(set_focused_events(m0, None) == set_focused_events(*old(self), None));
                assert(unset_effects(*old(self), *self, key));
            }
        }
        let ghost mid = *self;
        self.refresh();
    }

    /// Takes `child` out of its parent's children, if it has a parent, without asking for a redraw.
    fn detach(&mut self, child: DomNodeKey)
        requires
            old(self).wf(),
            old(self).has(child),
        ensures
            final(self).wf(),
            final(self).same_state(*old(self)),
            final(self).spec_events() == old(self).spec_events(),
            detached_from_parent(*old(self), *final(self), child),
    {
        proof { Self::lemma_wf_links(*self, child); }
        let parent = self.get(child).parent;
        if let Some(parent) = parent {
            proof { Self::lemma_wf_links(*self, parent); }
            let pos = Self::position_of(&self.get(parent).children, child);
            let pos = match pos {
                Some(p) => p,
                None => {
                    return;
                },
            };
            proof { lemma_first_index_of(self.node(parent).children@, child, pos as int); }
            let ghost before = *self;
            let pn = self.node_mut(parent);
            pn.children.remove(pos);
            let cn = self.node_mut(child);
            cn.parent = None;
            proof {
                assert(self.nodes().dom() =~= before.nodes().dom());
                Self::lemma_detach_keeps_wf(before, *self, parent, child, pos as int);
            }
        }
    }

    /// Takes `child` out of its parent's children, if it has a parent.
    pub fn unmount_child(&mut self, child: DomNodeKey)
        requires
            old(self).wf(),
            old(self).has(child),
        ensures
            final(self).wf(),
            final(self).same_state(*old(self)),
            detached_from_parent(*old(self), *final(self), child),
            final(self).spec_events() == if old(self).node(child).parent is Some {
                old(self).spec_events().push(TreeEvent::Refresh)
            } else {
                old(self).spec_events()
            },
    {
        let had_parent = self.get(child).parent.is_some();
        self.detach(child);
        if had_parent {
            self.refresh();
        }
    }

    /// Removes a detached node that has no children and holds no focus, hover or focusable record.
    pub fn remove(&mut self, node: DomNodeKey) -> (r: Option<NodeProperties>)
        requires
            old(self).wf(),
            old(self).has(node),
            old(self).node(node).parent is None,
            old(self).node(node).children@.len() == 0,
            old(self).spec_focused_key() != Some(node),
            old(self).spec_hovered_key() != Some(node),
            !old(self).focusables().contains(node),
        ensures
            final(self).wf(),
            r == Some(old(self).node(node)),
            final(self).nodes() == old(self).nodes().remove(node@),
            final(self).same_state(*old(self)),
            final(self).spec_events() == old(self).spec_events().push(TreeEvent::Refresh),
    {
        proof { reveal(NodeTree::wf); }
        let r = slots_remove(&mut self.dom_nodes, node.raw());
        proof {
            reveal(NodeTree::wf);
            let o = *old(self);
            assert forall|j: DomNodeKey| #[trigger] self.has(j) implies self.links_ok(j) by {
                assert(o.has(j));
                assert(o.links_ok(j));
                let n = self.node(j);
                assert(n == o.node(j));
                assert forall|i: int| 0 <= i < n.children@.len() implies #[trigger] self.has(
                    n.children@[i],
                ) && self.node(n.children@[i]).parent == Some(j) by {
                    assert(o.has(n.children@[i]));
                    if n.children@[i] == node {
                        assert(o.node(node).parent == Some(j));
                    }
                }
                if let Some(g) = n.parent {
                    assert(o.has(g));
                    if g == node {
                        assert(o.node(node).children@.contains(j));
                    }
                }
            }
            assert forall|i: int| 0 <= i < self.focusables().len() implies #[trigger] self.has(self.focusables()[i]) by {
                assert(o.has(o.focusables()[i]));
            }
        }
        self.refresh();
        r
    }
}

/// Whether the roots are in strictly increasing order of their ids.
pub open spec fn roots_sorted(s: Seq<RootEntry>) -> bool {
    forall|i: int, j: int| 0 <= i < j < s.len() ==> root_id_lt(s[i].root_id, s[j].root_id)
}

/// The roots after adding `e`: it goes before the first root whose id is not below its
/// own, and replaces a root with the same id.
pub open spec fn roots_after_insert(s: Seq<RootEntry>, e: RootEntry, i: int) -> Seq<RootEntry> {
    if i < s.len() && s[i].root_id == e.root_id {
        s.update(i, e)
    } else {
        s.insert(i, e)
    }
}

/// `i` is the first position whose root id is not below `rid`.
pub open spec fn is_root_pos(s: Seq<RootEntry>, rid: RootId, i: int) -> bool {
    &&& 0 <= i <= s.len()
    &&& forall|j: int| 0 <= j < i ==> root_id_lt(#[trigger] s[j].root_id, rid)
    &&& i < s.len() ==> !root_id_lt(s[i].root_id, rid)
}

/// In a well formed tree the roots stand in ascending order of z-index, and roots of one
/// z-index in the order of their root ids, so that `roots_asc` lists them lowest first and
/// `roots_desc` lists them in the reverse order.
pub proof fn lemma_roots_ordered(t: NodeTree)
    requires
        t.wf(),
    ensures
        forall|i: int, j: int| 0 <= i < j < t.spec_roots().len() ==> root_id_lt(t.spec_roots()[i].root_id, t.spec_roots()[j].root_id),
{
    NodeTree::lemma_wf_facts(t);
}

/// Whether `a` sorts before `b`.
fn root_id_less(a: RootId, b: RootId) -> (r: bool)
    ensures
        r == root_id_lt(a, b),
{
    a.z_index < b.z_index || (a.z_index == b.z_index && a.id < b.id)
}

/// A copy of an optional string.
pub(crate) fn clone_opt_string(s: &Option<String>) -> (r: Option<String>)
    ensures
        r == *s,
{
    match s {
        Some(x) => Some(x.clone()),
        None => None,
    }
}

impl NodeTree {
    /// Adds `key` as a root with the next root id for `z_index`.
    fn insert_root(&mut self, z_index: i32, key: DomNodeKey)
        requires
            old(self).wf(),
        ensures
            final(self).wf(),
            final(self).nodes() == old(self).nodes(),
            final(self).spec_next_root_id() == old(self).spec_next_root_id().wrapping_add(1),
            exists|i: int| #![trigger is_root_pos(old(self).spec_roots(), RootId { z_index, id: old(self).spec_next_root_id() }, i)]
                is_root_pos(old(self).spec_roots(), RootId { z_index, id: old(self).spec_next_root_id() }, i)
                && final(self).spec_roots() == roots_after_insert(old(self).spec_roots(),
                    RootEntry { root_id: RootId { z_index, id: old(self).spec_next_root_id() }, key }, i),
            roots_sorted(old(self).spec_roots()) ==> roots_sorted(final(self).spec_roots()),
            final(self).spec_viewport() == old(self).spec_viewport(),
            final(self).spec_focused() == old(self).spec_focused(),
            final(self).spec_focused_key() == old(self).spec_focused_key(),
            final(self).spec_hovered_key() == old(self).spec_hovered_key(),
            final(self).focusables() == old(self).focusables(),
            final(self).spec_events() == old(self).spec_events(),
    {
        let rid = RootId::new(z_index, &mut self.next_root_id);
        let entry = RootEntry { root_id: rid, key };
        let mut i: usize = 0;
        while i < self.roots.len() && root_id_less(self.roots[i].root_id, rid)
            invariant
                i <= self.roots.len(),
                self.roots@ == old(self).roots@,
                forall|j: int| 0 <= j < i ==> root_id_lt(#[trigger] self.roots@[j].root_id, rid),
            decreases self.roots.len() - i,
        {
            i = i + 1;
        }
        let ghost s = self.roots@;
        proof { assert(is_root_pos(s, rid, i as int)); }
        if i < self.roots.len() && self.roots[i].root_id == rid {
            self.roots.set(i, entry);
        } else {
            self.roots.insert(i, entry);
        }
        proof {
            assert(self.spec_roots() =~= roots_after_insert(s, entry, i as int));
            Self::lemma_wf_facts(*old(self));
            if roots_sorted(s) {
                let n = self.spec_roots();
                assert forall|a: int, b: int| 0 <= a < b < n.len() implies root_id_lt(n[a].root_id, n[b].root_id) by {
                    if i < s.len() && s[i as int].root_id == rid {
                    } else {
                        if a < i && b == i {
                        } else if a == i as int && b > i {
                            assert(n[b] == s[b - 1]);
                            assert(!root_id_lt(s[i as int].root_id, rid));
                            if b - 1 > i {
                                assert(root_id_lt(s[i as int].root_id, s[b - 1].root_id));
                            }
                        } else if a < i && b > i {
                            assert(n[b] == s[b - 1]);
                        } else if a > i {
                            assert(n[a] == s[a - 1]);
                            assert(n[b] == s[b - 1]);
                        }
                    }
                }
            }
            Self::lemma_same_nodes_keeps_wf(*old(self), *self);
            assert(s == old(self).spec_roots());
            assert(rid == RootId { z_index, id: old(self).spec_next_root_id() });
            assert(is_root_pos(old(self).spec_roots(), RootId { z_index, id: old(self).spec_next_root_id() }, i as int));
        }
    }

    /// Makes `root` the root drawn at `z_index`.
    pub fn set_root(&mut self, z_index: i32, root: DomNodeKey)
        requires
            old(self).wf(),
            old(self).has(root),
        ensures
            final(self).wf(),
            final(self).nodes() == old(self).nodes(),
            final(self).spec_next_root_id() == old(self).spec_next_root_id().wrapping_add(1),
            exists|i: int| #![trigger is_root_pos(old(self).spec_roots(), RootId { z_index, id: old(self).spec_next_root_id() }, i)]
                is_root_pos(old(self).spec_roots(), RootId { z_index, id: old(self).spec_next_root_id() }, i)
                && final(self).spec_roots() == roots_after_insert(old(self).spec_roots(),
                    RootEntry { root_id: RootId { z_index, id: old(self).spec_next_root_id() }, key: root }, i),
            roots_sorted(old(self).spec_roots()) ==> roots_sorted(final(self).spec_roots()),
            final(self).spec_viewport() == old(self).spec_viewport(),
            final(self).spec_focused() == old(self).spec_focused(),
            final(self).spec_focused_key() == old(self).spec_focused_key(),
            final(self).spec_hovered_key() == old(self).spec_hovered_key(),
            final(self).focusables() == old(self).focusables(),
            final(self).spec_events() == old(self).spec_events(),
    {
        self.insert_root(z_index, root);
    }

    /// Gives `key` a z-index of its own, which makes it a root drawn at that z-index.
    pub fn set_z_index(&mut self, key: DomNodeKey, z_index: i32)
        requires
            old(self).wf(),
            old(self).has(key),
        ensures
            final(self).wf(),
            final(self).nodes() == old(self).nodes().insert(key@, NodeProperties { z_index: Some(z_index), ..old(self).node(key) }),
            final(self).spec_next_root_id() == old(self).spec_next_root_id().wrapping_add(1),
            exists|i: int| #![trigger is_root_pos(old(self).spec_roots(), RootId { z_index, id: old(self).spec_next_root_id() }, i)]
                is_root_pos(old(self).spec_roots(), RootId { z_index, id: old(self).spec_next_root_id() }, i)
                && final(self).spec_roots() == roots_after_insert(old(self).spec_roots(),
                    RootEntry { root_id: RootId { z_index, id: old(self).spec_next_root_id() }, key }, i),
            roots_sorted(old(self).spec_roots()) ==> roots_sorted(final(self).spec_roots()),
            final(self).spec_viewport() == old(self).spec_viewport(),
            final(self).spec_focused() == old(self).spec_focused(),
            final(self).spec_focused_key() == old(self).spec_focused_key(),
            final(self).spec_hovered_key() == old(self).spec_hovered_key(),
            final(self).focusables() == old(self).focusables(),
            final(self).spec_events() == old(self).spec_events(),
    {
        let n = self.node_mut(key);
        n.z_index = Some(z_index);
        proof { Self::lemma_update_keeps_wf(*old(self), *self, key); }
        self.insert_root(z_index, key);
    }

    /// The keys of the roots, lowest z-index first.
    pub fn roots_asc(&self) -> (r: Vec<DomNodeKey>)
        ensures
            r@.len() == self.spec_roots().len(),
            forall|i: int| 0 <= i < r@.len() ==> r@[i] == #[trigger] self.spec_roots()[i].key,
    {
        let mut out = Vec::new();
        let mut i: usize = 0;
        while i < self.roots.len()
            invariant
                i <= self.roots.len(),
                out@.len() == i,
                forall|j: int| 0 <= j < i ==> out@[j] == #[trigger] self.roots@[j].key,
            decreases self.roots.len() - i,
        {
            out.push(self.roots[i].key);
            i = i + 1;
        }
        out
    }

    /// The keys of the roots, highest z-index first.
    pub fn roots_desc(&self) -> (r: Vec<DomNodeKey>)
        ensures
            r@.len() == self.spec_roots().len(),
            forall|i: int| 0 <= i < r@.len() ==> r@[i] == #[trigger] self.spec_roots()[self.spec_roots().len() - 1 - i].key,
    {
        let mut out = Vec::new();
        let mut i: usize = self.roots.len();
        while i > 0
            invariant
                i <= self.roots.len(),
                out@.len() == self.roots.len() - i,
                forall|j: int| 0 <= j < out@.len() ==> out@[j] == #[trigger] self.roots@[self.roots@.len() - 1 - j].key,
            decreases i,
        {
            i = i - 1;
            out.push(self.roots[i].key);
        }
        out
    }

    /// The key of the first root drawn at `z_index`.
    pub fn root(&self, z_index: i32) -> (r: DomNodeKey)
        requires
            exists|i: int| 0 <= i < self.spec_roots().len() && #[trigger] self.spec_roots()[i].root_id.z_index == z_index,
        ensures
            exists|i: int| 0 <= i < self.spec_roots().len() && self.spec_roots()[i].root_id.z_index == z_index
                && r == self.spec_roots()[i].key && forall|j: int| 0 <= j < i ==> #[trigger] self.spec_roots()[j].root_id.z_index != z_index,
    {
        let mut i: usize = 0;
        while i < self.roots.len()
            invariant
                i <= self.roots.len(),
                forall|j: int| 0 <= j < i ==> #[trigger] self.roots@[j].root_id.z_index != z_index,
                exists|i: int| 0 <= i < self.roots@.len() && #[trigger] self.roots@[i].root_id.z_index == z_index,
            decreases self.roots.len() - i,
        {
            if self.roots[i].root_id.z_index == z_index {
                proof {
                    let ii = i as int;
                    assert(0 <= ii < self.spec_roots().len() && self.spec_roots()[ii].root_id.z_index == z_index
                        && self.roots[ii].key == self.spec_roots()[ii].key && forall|j: int| 0 <= j < ii ==> #[trigger] self.spec_roots()[j].root_id.z_index != z_index);
                }
                return self.roots[i].key;
            }
            i = i + 1;
        }
        proof {
            let w = choose|i: int| 0 <= i < self.roots@.len() && #[trigger] self.roots@[i].root_id.z_index == z_index;
            assert(self.roots@[w].root_id.z_index != z_index);
        }
        self.roots[0].key
    }

    /// Empties the tree but keeps the window size.
    pub fn clear(&mut self)
        ensures
            final(self).wf(),
            final(self).nodes() == Map::<u64, NodeProperties>::empty(),
            final(self).spec_roots().len() == 0,
            final(self).spec_next_root_id() == 1,
            final(self).spec_viewport() == (ViewportSize { window_size: old(self).spec_viewport().window_size, max_width: None, max_height: None }),
            final(self).spec_focused() is None,
            final(self).spec_focused_key() is None,
            final(self).spec_hovered_key() is None,
            final(self).focusables().len() == 0,
            final(self).spec_events().len() == 0,
    {
        let window_size = self.viewport.window_size;
        *self = Self::new();
        self.viewport.window_size = window_size;
        proof { reveal(NodeTree::wf); }
    }

    /// Gives `new_key` the name, kind, id, class, focusability, handlers, rectangle,
    /// display, clearing and enabled state of `old_key`; its links stay as they are.
    pub fn replace_node(&mut self, old_key: DomNodeKey, new_key: DomNodeKey)
        requires
            old(self).wf(),
            old(self).has(old_key),
            old(self).has(new_key),
        ensures
            final(self).wf(),
            node_replaced(*old(self), *final(self), old_key, new_key),
    {
        let (name, node_type, focusable, id, class, click_handlers, rect, original_display, block, clear, enabled) = {
            let o = self.get(old_key);
            (o.name.clone(), o.node_type.clone(), o.focusable, clone_node_id(&o.id), clone_opt_string(&o.class),
                o.click_handlers, o.rect, o.original_display, clone_block(&o.block), o.clear, o.enabled)
        };
        let n = self.node_mut(new_key);
        n.name = name;
        n.node_type = node_type;
        n.focusable = focusable;
        n.id = id;
        n.class = class;
        n.click_handlers = click_handlers;
        n.rect = rect;
        n.original_display = original_display;
        n.block = block;
        n.clear = clear;
        n.enabled = enabled;
        proof { Self::lemma_update_keeps_wf(*old(self), *self, new_key); }
        self.refresh();
    }
}
/// `new` is `old` after `new_key` took over the name, kind, id, class, focusability,
/// handlers, rectangle, display, block, clearing and enabled state of `old_key`, with a
/// redraw asked for.
pub open spec fn node_replaced(old: NodeTree, new: NodeTree, old_key: DomNodeKey, new_key: DomNodeKey) -> bool {
    let o = old.node(old_key);
    &&& new.same_state(old)
    &&& new.spec_events() == old.spec_events().push(TreeEvent::Refresh)
    &&& new.nodes() == old.nodes().insert(new_key@, NodeProperties {
        name: o.name,
        node_type: o.node_type,
        focusable: o.focusable,
        id: o.id,
        class: o.class,
        click_handlers: o.click_handlers,
        rect: o.rect,
        original_display: o.original_display,
        block: o.block,
        clear: o.clear,
        enabled: o.enabled,
        ..old.node(new_key)
    })
}

/// `new` is `old` with `child` taken out of the children of its parent (if it has one).
pub open spec fn detached_from_parent(old: NodeTree, new: NodeTree, child: DomNodeKey) -> bool {
    match old.node(child).parent {
        Some(p) => {
            let op = old.node(p);
            let np = new.node(p);
            &&& np == NodeProperties { children: np.children, ..op }
            &&& np.children@ == op.children@.remove(first_index_of(op.children@, child))
            &&& new.nodes() == old.nodes().insert(p@, np).insert(child@, NodeProperties { parent: None, ..old.node(child) })
        },
        None => new.nodes() == old.nodes(),
    }
}


/// Whether following parents from `k` reaches `r` within `fuel` steps.
pub open spec fn descends(t: NodeTree, k: DomNodeKey, r: DomNodeKey, fuel: nat) -> bool
    decreases fuel,
{
    k == r || (fuel > 0 && t.has(k) && (t.node(k).parent matches Some(p) && descends(t, p, r, (fuel - 1) as nat)))
}

/// Whether a key descends from another depends on the nodes alone.
pub(crate) proof fn lemma_descends_same_nodes(a: NodeTree, b: NodeTree, k: DomNodeKey, r: DomNodeKey, f: nat)
    requires
        a.nodes() == b.nodes(),
    ensures
        descends(a, k, r, f) == descends(b, k, r, f),
    decreases f,
{
    if f > 0 && a.has(k) {
        if let Some(p) = a.node(k).parent {
            lemma_descends_same_nodes(a, b, p, r, (f - 1) as nat);
        }
    }
}

/// More steps reach at least as far.
pub(crate) proof fn lemma_descends_mono(t: NodeTree, k: DomNodeKey, r: DomNodeKey, f: nat, g: nat)
    requires
        descends(t, k, r, f),
        f <= g,
    ensures
        descends(t, k, r, g),
    decreases f,
{
    if k != r {
        let p = t.node(k).parent.unwrap();
        lemma_descends_mono(t, p, r, (f - 1) as nat, (g - 1) as nat);
    }
}

/// A descendant of `c` is a descendant of `c`'s parent, one step further.
pub(crate) proof fn lemma_descends_parent(t: NodeTree, k: DomNodeKey, c: DomNodeKey, r: DomNodeKey, f: nat)
    requires
        descends(t, k, c, f),
        t.has(c),
        t.node(c).parent == Some(r),
    ensures
        descends(t, k, r, f + 1),
    decreases f,
{
    if k != c {
        let p = t.node(k).parent.unwrap();
        lemma_descends_parent(t, p, c, r, (f - 1) as nat);
        assert(descends(t, p, r, f));
    } else {
        assert(descends(t, r, r, f));
    }
}

/// Parent paths of `new` that stay inside nodes whose parent is unchanged or cleared are paths of `old`.
pub(crate) proof fn lemma_descends_transfer(old: NodeTree, new: NodeTree, k: DomNodeKey, c: DomNodeKey, f: nat)
    requires
        descends(new, k, c, f),
        forall|x: DomNodeKey| #[trigger] new.has(x) ==> old.has(x) && (new.node(x).parent == old.node(x).parent
            || new.node(x).parent is None),
    ensures
        descends(old, k, c, f),
    decreases f,
{
    if k != c {
        let p = new.node(k).parent.unwrap();
        assert(new.has(k));
        lemma_descends_transfer(old, new, p, c, (f - 1) as nat);
    }
}

/// The keys of `s` that satisfy `p`, in their order.
pub open spec fn keep(s: Seq<DomNodeKey>, p: spec_fn(DomNodeKey) -> bool) -> Seq<DomNodeKey>
    decreases s.len(),
{
    if s.len() == 0 {
        s
    } else {
        let r = keep(s.drop_first(), p);
        if p(s[0]) {
            seq![s[0]] + r
        } else {
            r
        }
    }
}

/// Keeping from a sequence with one more key at its end keeps that key too when it satisfies `p`.
pub(crate) proof fn lemma_keep_push(s: Seq<DomNodeKey>, x: DomNodeKey, p: spec_fn(DomNodeKey) -> bool)
    ensures
        keep(s.push(x), p) == if p(x) { keep(s, p).push(x) } else { keep(s, p) },
    decreases s.len(),
{
    if s.len() == 0 {
        assert(s.push(x).drop_first() =~= s);
        assert(seq![x] + s =~= s.push(x));
        if p(x) {
            assert(seq![x] + keep(s, p) =~= keep(s, p).push(x));
        }
    } else {
        let t = s.drop_first();
        lemma_keep_push(t, x, p);
        assert(s.push(x).drop_first() =~= t.push(x));
        if p(s[0]) {
            if p(x) {
                assert(seq![s[0]] + keep(t, p).push(x) =~= (seq![s[0]] + keep(t, p)).push(x));
            }
        }
    }
}

/// What `keep` keeps comes from `s` and satisfies `p`, and distinct keys stay distinct.
pub(crate) proof fn lemma_keep_props(s: Seq<DomNodeKey>, p: spec_fn(DomNodeKey) -> bool)
    ensures
        forall|x: DomNodeKey| #[trigger] keep(s, p).contains(x) <==> s.contains(x) && p(x),
        s.no_duplicates() ==> keep(s, p).no_duplicates(),
    decreases s.len(),
{
    if s.len() > 0 {
        let t = s.drop_first();
        lemma_keep_props(t, p);
        let r = keep(t, p);
        assert forall|x: DomNodeKey| keep(s, p).contains(x) <==> s.contains(x) && p(x) by {
            if s.contains(x) && p(x) {
                let i = choose|i: int| 0 <= i < s.len() && s[i] == x;
                if i > 0 {
                    assert(t[i - 1] == x);
                    assert(t.contains(x));
                    assert(r.contains(x));
                    let j = choose|j: int| 0 <= j < r.len() && r[j] == x;
                    if p(s[0]) {
                        assert(keep(s, p)[j + 1] == x);
                    }
                } else {
                    assert(keep(s, p)[0] == x);
                }
            }
            if keep(s, p).contains(x) {
                let j = choose|j: int| 0 <= j < keep(s, p).len() && keep(s, p)[j] == x;
                if p(s[0]) {
                    if j > 0 {
                        assert(r[j - 1] == x);
                        assert(r.contains(x));
                        assert(keep(t, p).contains(x));
                        assert(t.contains(x));
                        let k = choose|k: int| 0 <= k < t.len() && t[k] == x;
                        assert(s[k + 1] == x);
                    } else {
                        assert(s[0] == x);
                    }
                } else {
                    assert(r[j] == x);
                    assert(r.contains(x));
                    assert(keep(t, p).contains(x));
                    assert(t.contains(x));
                    let k = choose|k: int| 0 <= k < t.len() && t[k] == x;
                    assert(s[k + 1] == x);
                }
            }
        }
        if s.no_duplicates() {
            assert(t.no_duplicates()) by {
                assert forall|i: int, j: int| 0 <= i < t.len() && 0 <= j < t.len() && i != j implies t[i] != t[j] by {
                    assert(t[i] == s[i + 1] && t[j] == s[j + 1]);
                }
            }
            if p(s[0]) {
                assert(!r.contains(s[0])) by {
                    if r.contains(s[0]) {
                        assert(keep(t, p).contains(s[0]));
                        assert(t.contains(s[0]));
                        let k = choose|k: int| 0 <= k < t.len() && t[k] == s[0];
                        assert(s[k + 1] == s[0]);
                    }
                }
                let q = seq![s[0]] + r;
                assert forall|i: int, j: int| 0 <= i < q.len() && 0 <= j < q.len() && i != j implies q[i] != q[j] by {
                    if i == 0 {
                        assert(q[j] == r[j - 1]);
                    } else if j == 0 {
                        assert(q[i] == r[i - 1]);
                    } else {
                        assert(q[i] == r[i - 1] && q[j] == r[j - 1]);
                    }
                }
            }
        }
    }
}

/// Keeping what satisfies every condition keeps everything.
pub(crate) proof fn lemma_keep_all(s: Seq<DomNodeKey>, p: spec_fn(DomNodeKey) -> bool)
    requires
        forall|i: int| 0 <= i < s.len() ==> p(#[trigger] s[i]),
    ensures
        keep(s, p) == s,
    decreases s.len(),
{
    if s.len() > 0 {
        let t = s.drop_first();
        assert forall|i: int| 0 <= i < t.len() implies p(#[trigger] t[i]) by {
            assert(t[i] == s[i + 1]);
        }
        lemma_keep_all(t, p);
        assert(p(s[0]));
        assert(seq![s[0]] + t =~= s);
    }
}

/// Conditions that agree on `s` keep the same keys.
pub(crate) proof fn lemma_keep_ext(s: Seq<DomNodeKey>, p: spec_fn(DomNodeKey) -> bool, q: spec_fn(DomNodeKey) -> bool)
    requires
        forall|i: int| 0 <= i < s.len() ==> p(#[trigger] s[i]) == q(s[i]),
    ensures
        keep(s, p) == keep(s, q),
    decreases s.len(),
{
    if s.len() > 0 {
        let t = s.drop_first();
        assert forall|i: int| 0 <= i < t.len() implies p(#[trigger] t[i]) == q(t[i]) by {
            assert(t[i] == s[i + 1]);
        }
        lemma_keep_ext(t, p, q);
        assert(p(s[0]) == q(s[0]));
    }
}

/// Keeping twice is keeping once by both conditions.
pub(crate) proof fn lemma_keep_keep(s: Seq<DomNodeKey>, p: spec_fn(DomNodeKey) -> bool, q: spec_fn(DomNodeKey) -> bool)
    ensures
        keep(keep(s, p), q) == keep(s, |x: DomNodeKey| p(x) && q(x)),
    decreases s.len(),
{
    if s.len() > 0 {
        let t = s.drop_first();
        lemma_keep_keep(t, p, q);
        if p(s[0]) {
            let ks = seq![s[0]] + keep(t, p);
            assert(ks.drop_first() =~= keep(t, p));
            assert(ks[0] == s[0]);
        }
    }
}

/// `k` if it still names a node of `t`, otherwise nothing.
pub open spec fn still_there(t: NodeTree, k: Option<DomNodeKey>) -> Option<DomNodeKey> {
    match k {
        Some(f) => if t.has(f) {
            Some(f)
        } else {
            None
        },
        None => None,
    }
}

/// The events of `s` other than redraw requests.
pub open spec fn quiet(s: Seq<TreeEvent>) -> Seq<TreeEvent> {
    s.filter(|e: TreeEvent| !(e is Refresh))
}

/// The events `new` holds beyond those of `old`.
pub open spec fn added_events(old: NodeTree, new: NodeTree) -> Seq<TreeEvent> {
    new.spec_events().skip(old.spec_events().len() as int)
}

/// What taking the focus from the focused node of `t` while it is removed asks for,
/// besides redraws: the node hears twice that it lost focus to nothing, and the focus
/// listener hears that nothing is focused when the node had an id.
pub open spec fn removal_blur_events(t: NodeTree) -> Seq<TreeEvent> {
    match t.spec_focused_key() {
        Some(f) => seq![
            TreeEvent::Blur { key: f, new_target: None, rect: t.node(f).rect },
            TreeEvent::Blur { key: f, new_target: None, rect: t.node(f).rect },
        ] + if t.node(f).id is Some {
            seq![TreeEvent::FocusChange(None)]
        } else {
            Seq::<TreeEvent>::empty()
        },
        None => Seq::empty(),
    }
}

/// Whether removing nodes from `old` down to `new` took away the focused node.
pub open spec fn focus_removed(old: NodeTree, new: NodeTree) -> bool {
    old.spec_focused_key() matches Some(f) && !new.has(f)
}

/// The events asked for while removing: redraws, and the blur of the focused node when it
/// went away.
pub open spec fn removal_events(old: NodeTree, new: NodeTree) -> bool {
    &&& old.spec_events().is_prefix_of(new.spec_events())
    &&& quiet(added_events(old, new)) == if focus_removed(old, new) {
        removal_blur_events(old)
    } else {
        Seq::<TreeEvent>::empty()
    }
}

/// Dropping redraws from two runs of events drops them from each.
pub(crate) proof fn lemma_quiet_add(a: Seq<TreeEvent>, b: Seq<TreeEvent>)
    ensures
        quiet(a + b) == quiet(a) + quiet(b),
{
    Seq::filter_distributes_over_add(a, b, |e: TreeEvent| !(e is Refresh));
}

/// A redraw request alone has nothing else in it.
pub(crate) proof fn lemma_quiet_refresh()
    ensures
        quiet(seq![TreeEvent::Refresh]) == Seq::<TreeEvent>::empty(),
        quiet(Seq::<TreeEvent>::empty()) == Seq::<TreeEvent>::empty(),
{
    reveal_with_fuel(Seq::filter, 2);
    assert(seq![TreeEvent::Refresh].drop_last() =~= Seq::<TreeEvent>::empty());
}

/// Events without a redraw request are kept whole.
proof fn lemma_quiet_keeps(s: Seq<TreeEvent>)
    requires
        forall|i: int| 0 <= i < s.len() ==> !(#[trigger] s[i] is Refresh),
    ensures
        quiet(s) == s,
    decreases s.len(),
{
    reveal(Seq::filter);
    if s.len() > 0 {
        lemma_quiet_keeps(s.drop_last());
        assert(!(s.last() is Refresh));
        assert(s.drop_last().push(s.last()) =~= s);
    }
}

/// Taking the focus from the focused node `node` while it is removed asks, besides
/// redraws, for what `removal_blur_events` lists.
proof fn lemma_quiet_unset(t: NodeTree, node: DomNodeKey)
    requires
        t.spec_focused_key() == Some(node),
    ensures
        quiet(seq![TreeEvent::Blur { key: node, new_target: None, rect: t.node(node).rect }] + set_focused_events(t, None))
            == removal_blur_events(t),
{
    let b = TreeEvent::Blur { key: node, new_target: None, rect: t.node(node).rect };
    let change = if t.node(node).id is Some {
        seq![TreeEvent::FocusChange(None)]
    } else {
        Seq::<TreeEvent>::empty()
    };
    assert(set_focused_events(t, None) =~= seq![b] + change + seq![TreeEvent::Refresh]);
    assert(seq![b] + set_focused_events(t, None) =~= (seq![b, b] + change) + seq![TreeEvent::Refresh]);
    lemma_quiet_add(seq![b, b] + change, seq![TreeEvent::Refresh]);
    lemma_quiet_refresh();
    lemma_quiet_keeps(seq![b, b] + change);
    assert(quiet(seq![b, b] + change) + Seq::<TreeEvent>::empty() =~= seq![b, b] + change);
}

/// The events added from `a` to `c` are those added from `a` to `b` and then from `b` to `c`.
pub(crate) proof fn lemma_added_chain(a: NodeTree, b: NodeTree, c: NodeTree)
    requires
        a.spec_events().is_prefix_of(b.spec_events()),
        b.spec_events().is_prefix_of(c.spec_events()),
    ensures
        a.spec_events().is_prefix_of(c.spec_events()),
        added_events(a, c) == added_events(a, b) + added_events(b, c),
{
    assert(added_events(a, c) =~= added_events(a, b) + added_events(b, c));
}

/// `new` is `old` after removing `node` and nodes below it, together with the focus,
/// hover and focusable records that named them; when `new` is well formed, every node
/// below `node` is gone (`lemma_removed_subtree_gone`).
pub open spec fn subtree_removed(old: NodeTree, new: NodeTree, node: DomNodeKey) -> bool {
    &&& !new.has(node)
    &&& forall|k: DomNodeKey| #[trigger] new.has(k) ==> old.has(k) && new.node(k) == old.node(k)
    &&& forall|k: DomNodeKey| #[trigger] old.has(k) && old.node(k).parent is None && k != node ==> new.has(k)
    &&& forall|k: DomNodeKey| #[trigger] old.has(k) && !new.has(k) ==> descends(old, k, node, old.nodes().dom().len())
    &&& new.spec_focused_key() == still_there(new, old.spec_focused_key())
    &&& new.spec_focused() == if still_there(new, old.spec_focused_key()) == old.spec_focused_key() {
        old.spec_focused()
    } else {
        None
    }
    &&& new.spec_hovered_key() == still_there(new, old.spec_hovered_key())
    &&& new.focusables() == keep(old.focusables(), |x: DomNodeKey| new.has(x))
    &&& new.spec_roots() == old.spec_roots()
    &&& new.spec_next_root_id() == old.spec_next_root_id()
    &&& new.spec_viewport() == old.spec_viewport()
    &&& removal_events(old, new)
}

impl NodeTree {
    /// Removes the detached node `node` and every node below it, dropping any focus,
    /// hover or focusable record that names them.
    #[verifier::rlimit(40)]
    pub fn remove_subtree(&mut self, node: DomNodeKey)
        requires
            old(self).wf(),
            old(self).has(node),
            old(self).node(node).parent is None,
        ensures
            final(self).wf(),
            subtree_removed(*old(self), *final(self), node),
        decreases old(self).nodes().dom().len(),
    {
        proof { Self::lemma_wf_links(*self, node); Self::lemma_wf_facts(*self); }
        let ghost o = *self;
        self.unset_state(node);
        let ghost mid0 = *self;
        proof {
            Self::lemma_wf_links(mid0, node);
            lemma_keep_props(o.focusables(), other_than(node));
        }
        // Detach the children one by one.
        let mut detached: Vec<DomNodeKey> = Vec::new();
        while self.get(node).children.len() > 0
            invariant
                self.wf(),
                self.has(node),
                self.node(node).parent is None,
                self.node(node) == (NodeProperties { children: self.node(node).children, ..mid0.node(node) }),
                detached@ + self.node(node).children@ == mid0.node(node).children@,
                mid0.links_ok(node),
                mid0.has(node),
                self.nodes().dom() == mid0.nodes().dom(),
                forall|k: DomNodeKey| #[trigger] self.has(k) && k != node && !detached@.contains(k) ==> self.node(k) == mid0.node(k),
                forall|j: int| 0 <= j < detached@.len() ==> self.node(#[trigger] detached@[j]) == (NodeProperties { parent: None, ..mid0.node(detached@[j]) }),
                self.same_state(mid0),
                self.spec_events() == mid0.spec_events(),
                mid0.nodes() == o.nodes(),
            decreases self.node(node).children@.len(),
        {
            let c = self.get(node).children[0];
            proof {
                Self::lemma_wf_links(*self, node);
                assert(self.has(c));
                assert(mid0.node(node).children@[detached@.len() as int] == c);
                assert(mid0.has(c));
                assert(!detached@.contains(c)) by {
                    if detached@.contains(c) {
                        let j = choose|j: int| 0 <= j < detached@.len() && detached@[j] == c;
                        assert(mid0.node(node).children@[j] == c);
                    }
                }
                assert(c != node);
                assert(self.node(c).parent == Some(node));
                lemma_first_index_of(self.node(node).children@, c, 0);
            }
            let ghost before = *self;
            let ghost dbefore = detached@;
            assert(before.nodes().dom() == mid0.nodes().dom());
            self.detach(c);
            detached.push(c);
            proof {
                assert(self.node(node).children@ =~= before.node(node).children@.drop_first());
                assert(detached@ + self.node(node).children@ =~= mid0.node(node).children@) by {
                    assert(before.node(node).children@ =~= seq![c] + self.node(node).children@);
                }
                assert(self.nodes().dom() =~= mid0.nodes().dom());
                assert forall|k: DomNodeKey| #[trigger] self.has(k) && k != node && !detached@.contains(k) implies self.node(k) == mid0.node(k) by {
                    assert(detached@[detached@.len() - 1] == c);
                    assert(k != c);
                    assert(!dbefore.contains(k)) by {
                        if dbefore.contains(k) {
                            let j = choose|j: int| 0 <= j < dbefore.len() && dbefore[j] == k;
                            assert(detached@[j] == k);
                        }
                    }
                    assert(before.has(k));
                    assert(self.node(k) == before.node(k));
                }
                assert forall|j: int| 0 <= j < detached@.len() implies self.node(#[trigger] detached@[j]) == (NodeProperties { parent: None, ..mid0.node(detached@[j]) }) by {
                    if j < detached@.len() - 1 {
                        let d = detached@[j];
                        assert(d == dbefore[j]);
                        assert(mid0.node(node).children@[j] == d);
                        assert(mid0.has(mid0.node(node).children@[j]));
                        assert(mid0.has(d));
                        assert(before.node(dbefore[j]) == (NodeProperties { parent: None, ..mid0.node(dbefore[j]) }));
                        assert(d != c) by {
                            assert(mid0.node(node).children@[detached@.len() - 1] == c);
                        }
                        assert(d != node);
                        assert(before.has(d));
                        assert(self.node(detached@[j]) == before.node(detached@[j]));
                    } else {
                        assert(detached@[j] == c);
                        assert(before.node(c) == mid0.node(c));
                    }
                }
            }
        }
        let ghost mid1 = *self;
        proof {
            assert(detached@ =~= mid0.node(node).children@);
            lemma_keep_props(o.focusables(), other_than(node));
            assert(!keep(o.focusables(), other_than(node)).contains(node)) by {
                lemma_keep_props(o.focusables(), other_than(node));
                assert(!other_than(node)(node));
            }
            assert(!self.focusables().contains(node));
        }
        self.remove(node);
        let ghost mid2 = *self;
        proof {
            Self::lemma_wf_facts(o);
            assert(self.nodes().dom() =~= o.nodes().dom().remove(node@));
            assert(self.nodes().dom().len() == o.nodes().dom().len() - 1);
            assert forall|j: int| 0 <= j < detached@.len() implies self.has(#[trigger] detached@[j]) && self.node(detached@[j]).parent is None by {
                let d = detached@[j];
                assert(mid0.node(node).children@[j] == d);
                assert(mid0.has(d));
                assert(mid0.node(d).parent == Some(node));
                assert(d != node);
                assert(mid1.node(d) == (NodeProperties { parent: None, ..mid0.node(d) }));
            }
            assert forall|k: DomNodeKey| #[trigger] self.has(k) implies o.has(k) && (self.node(k) == o.node(k) || (detached@.contains(k)
                && self.node(k) == (NodeProperties { parent: None, ..o.node(k) }))) by {
                assert(mid1.has(k));
                assert(k != node);
                if detached@.contains(k) {
                    let j = choose|j: int| 0 <= j < detached@.len() && detached@[j] == k;
                    assert(mid1.node(detached@[j]) == (NodeProperties { parent: None, ..mid0.node(detached@[j]) }));
                } else {
                    assert(mid1.node(k) == mid0.node(k));
                }
            }
            assert forall|k: DomNodeKey| #[trigger] o.has(k) && o.node(k).parent is None && k != node implies self.has(k) by {
            }
            assert forall|k: DomNodeKey| #[trigger] o.has(k) && !self.has(k) implies descends(o, k, node, o.nodes().dom().len()) by {
                assert(k == node);
            }
            Self::lemma_wf_facts(o);
            assert forall|i: int| 0 <= i < o.focusables().len() implies other_than(node)(#[trigger] o.focusables()[i])
                == (|x: DomNodeKey| mid2.has(x))(o.focusables()[i]) by {
                assert(o.has(o.focusables()[i]));
            }
            lemma_keep_ext(o.focusables(), other_than(node), |x: DomNodeKey| mid2.has(x));
            // The events so far: the blur of `node` when it was focused, and a redraw.
            let unset_events = if o.spec_focused_key() == Some(node) {
                seq![TreeEvent::Blur { key: node, new_target: None, rect: o.node(node).rect }] + set_focused_events(o, None)
            } else {
                Seq::<TreeEvent>::empty()
            };
            assert(added_events(o, mid2) =~= unset_events + seq![TreeEvent::Refresh]);
            lemma_quiet_add(unset_events, seq![TreeEvent::Refresh]);
            lemma_quiet_refresh();
            if o.spec_focused_key() == Some(node) {
                lemma_quiet_unset(o, node);
            }
            assert(quiet(added_events(o, mid2)) =~= quiet(unset_events));
        }
        let mut i: usize = 0;
        while i < detached.len()
            invariant
                self.wf(),
                !self.has(node),
                0 <= i <= detached@.len(),
                detached@ == mid0.node(node).children@,
                mid0.links_ok(node),
                forall|j: int| i <= j < detached@.len() ==> self.has(#[trigger] detached@[j]) && self.node(detached@[j]).parent is None,
                forall|j: int| 0 <= j < i ==> !self.has(#[trigger] detached@[j]),
                o == *old(self),
                forall|k: DomNodeKey| #[trigger] self.has(k) ==> o.has(k) && (self.node(k) == o.node(k) || (detached@.contains(k)
                    && self.node(k) == (NodeProperties { parent: None, ..o.node(k) }))),
                forall|k: DomNodeKey| #[trigger] o.has(k) && o.node(k).parent is None && k != node ==> self.has(k),
                forall|k: DomNodeKey| #[trigger] o.has(k) && !self.has(k) ==> descends(o, k, node, o.nodes().dom().len()),
                self.spec_focused_key() == still_there(*self, o.spec_focused_key()),
                self.spec_focused() == if still_there(*self, o.spec_focused_key()) == o.spec_focused_key() {
                    o.spec_focused()
                } else {
                    None
                },
                self.spec_hovered_key() == still_there(*self, o.spec_hovered_key()),
                self.focusables() == keep(o.focusables(), |x: DomNodeKey| self.has(x)),
                self.spec_roots() == o.spec_roots(),
                self.spec_next_root_id() == o.spec_next_root_id(),
                self.spec_viewport() == o.spec_viewport(),
                removal_events(o, *self),
                self.nodes().dom().len() < o.nodes().dom().len(),
                self.nodes().dom().subset_of(o.nodes().dom()),
                mid0.nodes() == o.nodes(),
                mid0.has(node),
            decreases detached@.len() - i,
        {
            let d = detached[i];
            let ghost before = *self;
            self.remove_subtree(d);
            proof {
                // Whatever the call removed lies below `d`, hence below `node`.
                assert forall|k: DomNodeKey| #[trigger] o.has(k) && !self.has(k) implies descends(o, k, node, o.nodes().dom().len()) by {
                    if before.has(k) {
                        assert(descends(before, k, d, before.nodes().dom().len()));
                        assert forall|x: DomNodeKey| #[trigger] before.has(x) implies o.has(x) && (before.node(x).parent == o.node(x).parent
                            || before.node(x).parent is None) by {
                        }
                        lemma_descends_transfer(o, before, k, d, before.nodes().dom().len());
                        assert(o.node(d).parent == Some(node)) by {
                            let j = choose|j: int| 0 <= j < detached@.len() && detached@[j] == d;
                            assert(mid0.node(node).children@[i as int] == d);
                            assert(mid0.has(d));
                            assert(mid0.node(d) == o.node(d));
                        }
                        lemma_descends_parent(o, k, d, node, before.nodes().dom().len());
                        lemma_descends_mono(o, k, node, before.nodes().dom().len() + 1, o.nodes().dom().len());
                    }
                }
                let pb = |x: DomNodeKey| before.has(x);
                let pa = |x: DomNodeKey| self.has(x);
                lemma_keep_keep(o.focusables(), pb, pa);
                assert forall|j: int| 0 <= j < o.focusables().len() implies (|x: DomNodeKey| pb(x) && pa(x))(
                    #[trigger] o.focusables()[j]) == pa(o.focusables()[j]) by {
                    if self.has(o.focusables()[j]) {
                        assert(before.has(o.focusables()[j]));
                    }
                }
                lemma_keep_ext(o.focusables(), |x: DomNodeKey| pb(x) && pa(x), pa);
                Self::lemma_wf_facts(before);
                assert forall|x: u64| self.nodes().dom().contains(x) implies before.nodes().dom().contains(x) by {
                    assert(self.has(DomNodeKey { raw: x }));
                }
                vstd::set_lib::lemma_len_subset(self.nodes().dom(), before.nodes().dom());
                // The blur of the focused node is asked for once, by the call that removes it.
                lemma_added_chain(o, before, *self);
                lemma_quiet_add(added_events(o, before), added_events(before, *self));
                if let Some(f) = o.spec_focused_key() {
                    if before.has(f) {
                        assert(before.spec_focused_key() == Some(f));
                        assert(before.node(f).rect == o.node(f).rect && before.node(f).id == o.node(f).id);
                        assert(removal_blur_events(before) == removal_blur_events(o));
                    } else {
                        assert(!self.has(f));
                        assert(before.spec_focused_key() is None);
                    }
                }
                assert(quiet(added_events(o, *self)) =~= if focus_removed(o, *self) {
                    removal_blur_events(o)
                } else {
                    Seq::<TreeEvent>::empty()
                });
            }
            i = i + 1;
        }
        proof {
            assert forall|k: DomNodeKey| #[trigger] self.has(k) implies o.has(k) && self.node(k) == o.node(k) by {
                if detached@.contains(k) {
                    let j = choose|j: int| 0 <= j < detached@.len() && detached@[j] == k;
                    assert(!self.has(detached@[j]));
                }
            }
        }
    }
}

/// Whether `k` lies in the subtree of `r`: following parents from `k` reaches `r`.
pub open spec fn in_subtree(t: NodeTree, k: DomNodeKey, r: DomNodeKey) -> bool {
    descends(t, k, r, t.nodes().dom().len())
}

/// `new` is `old` with the focus, hover and focusable records of the subtree of `node`
/// dropped, as `unset_state` drops them for each of its nodes.
pub open spec fn subtree_unset(old: NodeTree, new: NodeTree, node: DomNodeKey) -> bool {
    let focused_here = old.spec_focused_key() matches Some(f) && in_subtree(old, f, node);
    &&& new.nodes() == old.nodes()
    &&& new.spec_roots() == old.spec_roots()
    &&& new.spec_next_root_id() == old.spec_next_root_id()
    &&& new.spec_viewport() == old.spec_viewport()
    &&& new.spec_focused_key() == if focused_here { None } else { old.spec_focused_key() }
    &&& new.spec_focused() == if focused_here { None } else { old.spec_focused() }
    &&& new.spec_hovered_key() == if old.spec_hovered_key() matches Some(h) && in_subtree(old, h, node) {
        None
    } else {
        old.spec_hovered_key()
    }
    &&& new.focusables() == keep(old.focusables(), |x: DomNodeKey| !in_subtree(old, x, node))
    &&& new.spec_events() == if focused_here {
        old.spec_events() + seq![TreeEvent::Blur { key: old.spec_focused_key().unwrap(), new_target: None,
            rect: old.node(old.spec_focused_key().unwrap()).rect }] + set_focused_events(old, None)
    } else {
        old.spec_events()
    }
}

impl NodeTree {
    /// Whether following parents from `k` reaches `r` within `fuel` steps.
    fn descends_within(&self, k: DomNodeKey, r: DomNodeKey, fuel: usize) -> (b: bool)
        ensures
            b == descends(*self, k, r, fuel as nat),
    {
        let mut cur = k;
        let mut f = fuel;
        loop
            invariant
                descends(*self, k, r, fuel as nat) == descends(*self, cur, r, f as nat),
            decreases f,
        {
            if cur == r {
                return true;
            }
            if f == 0 || !self.contains_key(cur) {
                return false;
            }
            match self.get(cur).parent {
                Some(p) => {
                    cur = p;
                    f = f - 1;
                },
                None => {
                    return false;
                },
            }
        }
    }

    /// Whether `k` lies in the subtree of `r`.
    pub fn is_in_subtree(&self, k: DomNodeKey, r: DomNodeKey) -> (b: bool)
        ensures
            b == in_subtree(*self, k, r),
    {
        let n = self.len();
        self.descends_within(k, r, n)
    }

    /// Drops the focus, hover and focusable records of every node in the subtree of `node`.
    pub fn unset_subtree_state(&mut self, node: DomNodeKey)
        requires
            old(self).wf(),
        ensures
            final(self).wf(),
            subtree_unset(*old(self), *final(self), node),
    {
        let ghost o = *self;
        proof { Self::lemma_wf_facts(o); }
        if let Some(f) = self.focused_key {
            proof { lemma_descends_same_nodes(*self, o, f, node, o.nodes().dom().len()); }
            if self.is_in_subtree(f, node) {
                self.remove_focused();
            }
        }
        let ghost m1 = *self;
        if let Some(h) = self.hovered_key {
            proof { lemma_descends_same_nodes(*self, o, h, node, o.nodes().dom().len()); }
            if self.is_in_subtree(h, node) {
                self.remove_hovered();
            }
        }
        let ghost m2 = *self;
        proof {
            Self::lemma_wf_facts(m2);
            assert(m2.nodes() == o.nodes());
        }
        let mut kept: Vec<DomNodeKey> = Vec::new();
        let mut i: usize = 0;
        while i < self.focusable_nodes.len()
            invariant
                *self == m2,
                m2.nodes() == o.nodes(),
                m2.focusables() == o.focusables(),
                i <= self.focusable_nodes@.len(),
                kept@ == keep(o.focusables().take(i as int), |x: DomNodeKey| !in_subtree(o, x, node)),
            decreases self.focusable_nodes@.len() - i,
        {
            let k = self.focusable_nodes[i];
            let inside = self.is_in_subtree(k, node);
            proof {
                lemma_descends_same_nodes(*self, o, k, node, o.nodes().dom().len());
                lemma_keep_push(o.focusables().take(i as int), k, |x: DomNodeKey| !in_subtree(o, x, node));
                assert(o.focusables().take(i as int + 1) =~= o.focusables().take(i as int).push(k));
            }
            if !inside {
                kept.push(k);
            }
            i = i + 1;
        }
        proof {
            assert(o.focusables().take(i as int) =~= o.focusables());
            lemma_keep_props(o.focusables(), |x: DomNodeKey| !in_subtree(o, x, node));
        }
        self.focusable_nodes = kept;
        proof {
            Self::lemma_wf_facts(o);
            assert forall|j: int| 0 <= j < self.focusables().len() implies #[trigger] self.has(self.focusables()[j]) by {
                assert(keep(o.focusables(), |x: DomNodeKey| !in_subtree(o, x, node)).contains(self.focusables()[j]));
                assert(o.focusables().contains(self.focusables()[j]));
                let a = choose|a: int| 0 <= a < o.focusables().len() && o.focusables()[a] == self.focusables()[j];
                assert(o.has(o.focusables()[a]));
            }
            Self::lemma_same_nodes_keeps_wf(m2, *self);
        }
    }
}

/// Moves the focus of `tree` to the next focusable node, wrapping around to the first.
pub fn focus_next(tree: &mut NodeTree)
    requires
        old(tree).wf(),
        old(tree).spec_focused_key() matches Some(f) ==> old(tree).focusables().contains(f),
    ensures
        final(tree).wf(),
        match focus_next_target(old(tree).focusables(), old(tree).spec_focused_key()) {
            Some(t) => focus_moved(*old(tree), *final(tree), Some(t)),
            None => *final(tree) == *old(tree),
        },
{
    tree.focus_next()
}

/// Moves the focus of `tree` to the previous focusable node, wrapping around to the last.
pub fn focus_prev(tree: &mut NodeTree)
    requires
        old(tree).wf(),
        old(tree).spec_focused_key() matches Some(f) ==> old(tree).focusables().contains(f),
    ensures
        final(tree).wf(),
        match focus_prev_target(old(tree).focusables(), old(tree).spec_focused_key()) {
            Some(t) => focus_moved(*old(tree), *final(tree), Some(t)),
            None => *final(tree) == *old(tree),
        },
{
    tree.focus_prev()
}

/// Takes the focus of `tree` away from whatever node holds it.
pub fn clear_focus(tree: &mut NodeTree)
    requires
        old(tree).wf(),
    ensures
        final(tree).wf(),
        focus_moved(*old(tree), *final(tree), None),
{
    tree.set_focused(None)
}

/// In a list without repeats, the first index of the item at `i` is `i`.
proof fn lemma_index_no_dup(s: Seq<DomNodeKey>, i: int)
    requires
        s.no_duplicates(),
        0 <= i < s.len(),
    ensures
        first_index_of(s, s[i]) == i,
{
    lemma_first_index_of(s, s[i], i);
}

/// Moving focus forward and then back returns it to where it was: for a focused node
/// among focusable nodes without repeats, the previous of its next is itself.
pub proof fn lemma_focus_prev_undoes_next(fs: Seq<DomNodeKey>, f: DomNodeKey)
    requires
        fs.no_duplicates(),
        fs.contains(f),
    ensures
        focus_prev_target(fs, focus_next_target(fs, Some(f))) == Some(f),
{
    let c = choose|c: int| 0 <= c < fs.len() && fs[c] == f;
    lemma_index_no_dup(fs, c);
    if c < fs.len() - 1 {
        lemma_index_no_dup(fs, c + 1);
    } else {
        lemma_index_no_dup(fs, 0);
        if fs.len() > 1 {
            assert(first_index_of(fs, fs[0]) == 0);
        }
    }
}

/// Moving focus back and then forward returns it to where it was.
pub proof fn lemma_focus_next_undoes_prev(fs: Seq<DomNodeKey>, f: DomNodeKey)
    requires
        fs.no_duplicates(),
        fs.contains(f),
    ensures
        focus_next_target(fs, focus_prev_target(fs, Some(f))) == Some(f),
{
    let c = choose|c: int| 0 <= c < fs.len() && fs[c] == f;
    lemma_index_no_dup(fs, c);
    if c > 0 {
        lemma_index_no_dup(fs, c - 1);
    } else {
        lemma_index_no_dup(fs, fs.len() - 1);
    }
}

/// Once a subtree is removed from a well formed tree, no node of what is left lies
/// below the removed node: the whole subtree is gone.
pub proof fn lemma_removed_subtree_gone(old: NodeTree, new: NodeTree, node: DomNodeKey, k: DomNodeKey, f: nat)
    requires
        new.wf(),
        subtree_removed(old, new, node),
        new.has(k),
    ensures
        !descends(old, k, node, f),
    decreases f,
{
    NodeTree::lemma_wf_links(new, k);
    if k != node && f > 0 && old.has(k) {
        if let Some(p) = old.node(k).parent {
            assert(new.node(k) == old.node(k));
            assert(new.has(p));
            lemma_removed_subtree_gone(old, new, node, p, (f - 1) as nat);
        }
    }
}

/// Attaching a detached node and then detaching it gives back the tree it was in, but
/// for the node being marked as mounted: the parent lists the same children again.
pub proof fn lemma_detach_undoes_attach(old: NodeTree, mid: NodeTree, new: NodeTree, p: DomNodeKey, c: DomNodeKey, pos: int)
    requires
        old.wf(),
        old.has(p),
        old.has(c),
        p != c,
        old.node(c).parent is None,
        0 <= pos <= old.node(p).children@.len(),
        attached(old, mid, p, c, pos),
        detached_from_parent(mid, new, c),
    ensures
        new.nodes() == old.nodes().insert(c@, NodeProperties { unmounted: false, ..old.node(c) }).insert(p@, new.node(p)),
        new.node(p) == (NodeProperties { children: new.node(p).children, ..old.node(p) }),
        new.node(p).children@ == old.node(p).children@,
{
    NodeTree::lemma_wf_links(old, p);
    lemma_key_view_injective(p, c);
    let cs = old.node(p).children@;
    assert(!cs.contains(c)) by {
        if cs.contains(c) {
            let i = choose|i: int| 0 <= i < cs.len() && cs[i] == c;
            assert(old.node(cs[i]).parent == Some(p));
        }
    }
    let ncs = cs.insert(pos, c);
    assert(mid.node(c).parent == Some(p));
    assert(mid.node(p).children@ == ncs);
    assert forall|j: int| 0 <= j < pos implies ncs[j] != c by {
        assert(ncs[j] == cs[j]);
    }
    lemma_first_index_of(ncs, c, pos);
    assert(ncs.remove(pos) =~= cs);
    assert(new.nodes() =~= old.nodes().insert(c@, NodeProperties { unmounted: false, ..old.node(c) }).insert(p@, new.node(p)));
}

} // verus!
