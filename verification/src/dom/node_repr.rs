use vstd::prelude::*;

use super::dom_node::NodeId;
use super::node_properties::{NodeProperties, NodeType};
use super::node_tree::{focus_moved, has_id, DomNodeKey, MatchBehavior, NodeTree};
use super::rect::{Position, Rect};
use crate::events::dispatcher::{
    click_plan, dispatch_mouse_button, focusable_in, focused_by_click, hit_test_spec, lemma_trav_sound, trav, traverse, ClickButton,
    NodeMatcher,
};

verus! {

/// The kind of a node as a snapshot shows it.
#[derive(Debug, Clone, Copy, PartialEq, Eq, Structural)]
pub enum NodeTypeRepr {
    Layout,
    Overlay,
    Absolute,
    Widget,
    Placeholder,
}

/// The kind a snapshot gives a node of type `t`.
pub open spec fn repr_type(t: NodeType) -> NodeTypeRepr {
    match t {
        NodeType::Layout => NodeTypeRepr::Layout,
        NodeType::Widget(_) => NodeTypeRepr::Widget,
        NodeType::Placeholder => NodeTypeRepr::Placeholder,
    }
}

/// A snapshot of one node of the document: its key, its rectangle and its kind.
#[derive(Debug, Clone, Copy, PartialEq, Eq, Structural)]
pub struct DomNodeRepr {
    key: DomNodeKey,
    rect: Rect,
    node_type: NodeTypeRepr,
}

impl View for DomNodeRepr {
    type V = (DomNodeKey, Rect, NodeTypeRepr);

    closed spec fn view(&self) -> (DomNodeKey, Rect, NodeTypeRepr) {
        (self.key, self.rect, self.node_type)
    }
}

/// The snapshot of the node under `k`.
pub open spec fn node_view(t: NodeTree, k: DomNodeKey) -> (DomNodeKey, Rect, NodeTypeRepr) {
    (k, t.node(k).rect, repr_type(t.node(k).node_type))
}

/// The keys that a search of the subtree of `k` with `m` and `mb` finds, in order.
pub open spec fn found_in<M: NodeMatcher>(t: NodeTree, k: DomNodeKey, m: M, mb: MatchBehavior) -> Seq<DomNodeKey> {
    trav(t, k, m, mb, t.nodes().dom().len())
}

/// Matches the nodes that carry the id `id`.
#[derive(Debug)]
pub struct IdMatcher {
    pub id: NodeId,
}

impl NodeMatcher for IdMatcher {
    open spec fn spec_matches(&self, key: DomNodeKey, node: NodeProperties) -> bool {
        has_id(node, self.id)
    }

    fn matches(&self, key: DomNodeKey, node: &NodeProperties) -> (r: bool) {
        match &node.id {
            Some(i) => *i == self.id,
            None => false,
        }
    }
}

/// Matches the nodes whose class is `class`.
#[derive(Debug)]
pub struct ClassMatcher {
    pub class: String,
}

impl NodeMatcher for ClassMatcher {
    open spec fn spec_matches(&self, key: DomNodeKey, node: NodeProperties) -> bool {
        node.class matches Some(c) && c@ == self.class@
    }

    fn matches(&self, key: DomNodeKey, node: &NodeProperties) -> (r: bool) {
        match &node.class {
            Some(c) => {
                let r = c.eq(&self.class);
                assert(r == (c@ == self.class@));
                r
            },
            None => false,
        }
    }
}

impl DomNodeRepr {
    /// The snapshot of `node`, which is stored under `key`.
    pub fn from_node(key: DomNodeKey, node: &NodeProperties) -> (r: DomNodeRepr)
        ensures
            r@ == (key, node.rect, repr_type(node.node_type)),
    {
        let node_type = match &node.node_type {
            NodeType::Layout => NodeTypeRepr::Layout,
            NodeType::Widget(_) => NodeTypeRepr::Widget,
            NodeType::Placeholder => NodeTypeRepr::Placeholder,
        };
        DomNodeRepr { key, rect: node.rect, node_type }
    }

    /// The rectangle of the node when the snapshot was taken.
    pub fn rect(&self) -> (r: Rect)
        ensures
            r == self@.1,
    {
        self.rect
    }

    /// The kind of the node.
    pub fn node_type(&self) -> (r: NodeTypeRepr)
        ensures
            r == self@.2,
    {
        self.node_type
    }

    /// The first node of this node's subtree, in depth-first order, that `m` matches.
    pub fn find<M: NodeMatcher>(&self, tree: &NodeTree, m: &M) -> (r: Option<DomNodeRepr>)
        ensures
            ({
                let found = found_in(*tree, self@.0, *m, MatchBehavior::StopOnFistMatch);
                match r {
                    Some(x) => found.len() > 0 && x@ == node_view(*tree, found[0]),
                    None => found.len() == 0,
                }
            }),
    {
        let found = traverse(tree, self.key, m, MatchBehavior::StopOnFistMatch);
        proof {
            lemma_trav_sound(*tree, self.key, *m, MatchBehavior::StopOnFistMatch, tree.nodes().dom().len());
        }
        if found.len() > 0 {
            let k = found[0];
            Some(DomNodeRepr::from_node(k, tree.get(k)))
        } else {
            None
        }
    }

    /// Every node of this node's subtree that `m` matches, in depth-first order.
    pub fn find_all<M: NodeMatcher>(&self, tree: &NodeTree, m: &M) -> (r: Vec<DomNodeRepr>)
        ensures
            ({
                let found = found_in(*tree, self@.0, *m, MatchBehavior::ContinueOnMatch);
                &&& r@.len() == found.len()
                &&& forall|i: int| 0 <= i < found.len() ==> #[trigger] r@[i]@ == node_view(*tree, found[i])
            }),
    {
        let found = traverse(tree, self.key, m, MatchBehavior::ContinueOnMatch);
        proof {
            lemma_trav_sound(*tree, self.key, *m, MatchBehavior::ContinueOnMatch, tree.nodes().dom().len());
        }
        let mut out: Vec<DomNodeRepr> = Vec::new();
        let mut i: usize = 0;
        while i < found.len()
            invariant
                i <= found@.len(),
                out@.len() == i,
                forall|j: int| 0 <= j < found@.len() ==> tree.has(#[trigger] found@[j]),
                forall|j: int| 0 <= j < i ==> #[trigger] out@[j]@ == node_view(*tree, found@[j]),
            decreases found@.len() - i,
        {
            let k = found[i];
            out.push(DomNodeRepr::from_node(k, tree.get(k)));
            i = i + 1;
        }
        out
    }

    /// The first node of this node's subtree that `m` matches, which must exist.
    pub fn get<M: NodeMatcher>(&self, tree: &NodeTree, m: &M) -> (r: DomNodeRepr)
        requires
            found_in(*tree, self@.0, *m, MatchBehavior::StopOnFistMatch).len() > 0,
        ensures
            r@ == node_view(*tree, found_in(*tree, self@.0, *m, MatchBehavior::StopOnFistMatch)[0]),
    {
        self.find(tree, m).unwrap()
    }

    /// The first node of this node's subtree, in depth-first order, that carries `id`.
    pub fn find_by_id(&self, tree: &NodeTree, id: NodeId) -> (r: Option<DomNodeRepr>)
        ensures
            ({
                let found = found_in(*tree, self@.0, IdMatcher { id }, MatchBehavior::StopOnFistMatch);
                match r {
                    Some(x) => found.len() > 0 && x@ == node_view(*tree, found[0]),
                    None => found.len() == 0,
                }
            }),
    {
        self.find(tree, &IdMatcher { id })
    }

    /// The first node of this node's subtree that carries `id`, which must exist.
    pub fn get_by_id(&self, tree: &NodeTree, id: NodeId) -> (r: DomNodeRepr)
        requires
            found_in(*tree, self@.0, IdMatcher { id }, MatchBehavior::StopOnFistMatch).len() > 0,
        ensures
            r@ == node_view(*tree, found_in(*tree, self@.0, IdMatcher { id }, MatchBehavior::StopOnFistMatch)[0]),
    {
        self.find_by_id(tree, id).unwrap()
    }

    /// Every node of this node's subtree whose class is `class`, in depth-first order.
    pub fn find_all_by_class(&self, tree: &NodeTree, class: String) -> (r: Vec<DomNodeRepr>)
        ensures
            ({
                let found = found_in(*tree, self@.0, ClassMatcher { class }, MatchBehavior::ContinueOnMatch);
                &&& r@.len() == found.len()
                &&& forall|i: int| 0 <= i < found.len() ==> #[trigger] r@[i]@ == node_view(*tree, found[i])
            }),
    {
        self.find_all(tree, &ClassMatcher { class })
    }

    /// How many children the node has now.
    pub fn children_count(&self, tree: &NodeTree) -> (r: usize)
        requires
            tree.has(self@.0),
        ensures
            r == tree.node(self@.0).children@.len(),
    {
        tree.get(self.key).children.len()
    }

    /// Moves the focus to the node, if it is still in the document.
    pub fn focus(&self, tree: &mut NodeTree)
        requires
            old(tree).wf(),
        ensures
            final(tree).wf(),
            old(tree).has(self@.0) ==> focus_moved(*old(tree), *final(tree), Some(self@.0)),
            !old(tree).has(self@.0) ==> *final(tree) == *old(tree),
    {
        if tree.contains_key(self.key) {
            tree.set_focused(Some(self.key));
        }
    }

    /// Whether the focused node is this node, as found in the document now (no node, when
    /// it is gone).
    pub fn is_focused(&self, tree: &NodeTree) -> (r: bool)
        ensures
            r == (tree.spec_focused_key() == if tree.has(self@.0) {
                Some(self@.0)
            } else {
                None
            }),
    {
        let found = if tree.contains_key(self.key) {
            Some(self.key)
        } else {
            None
        };
        tree.focused_key() == found
    }

    /// A left click at the top-left cell of the node's rectangle, as
    /// `dispatch_mouse_button` handles it.
    pub fn click<F: Fn(DomNodeKey) -> bool>(&self, tree: &mut NodeTree, run: F)
        requires
            old(tree).wf(),
            forall|k: DomNodeKey| run.requires((k,)),
        ensures
            final(tree).wf(),
            ({
                let position = Position { x: self@.1.x, y: self@.1.y };
                exists|outs: Seq<bool>|
                    #![trigger click_plan(focusable_in(*old(tree)), hit_test_spec(*old(tree), position, ClickButton::Left).reverse(), outs, false, false)]
                    {
                        let (focus, ran) = click_plan(focusable_in(*old(tree)),
                            hit_test_spec(*old(tree), position, ClickButton::Left).reverse(), outs, false, false);
                        &&& ran.len() == outs.len()
                        &&& forall|i: int| 0 <= i < ran.len() ==> run.ensures((ran[i],), #[trigger] outs[i])
                        &&& focused_by_click(*old(tree), *final(tree), focus)
                    }
            }),
    {
        let position = Position { x: self.rect.x, y: self.rect.y };
        dispatch_mouse_button(tree, position, ClickButton::Left, run);
        proof {
            assert(position == Position { x: self@.1.x, y: self@.1.y });
        }
    }
}

/// A snapshot that moved the focus to its node, which is in the document, reports itself
/// focused: the node is still there and it is the focused one.
pub proof fn lemma_focus_then_focused(old: NodeTree, new: NodeTree, k: DomNodeKey)
    requires
        old.has(k),
        focus_moved(old, new, Some(k)),
    ensures
        new.has(k),
        new.spec_focused_key() == Some(k),
{
}

} // verus!
