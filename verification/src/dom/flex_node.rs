use vstd::prelude::*;

use super::dom_node::{node_created, DomNode, NodeId};
use super::node_properties::{Display, FlexDirection, NodeProperties, NodeType};
use super::node_tree::{attached, moved_before, is_root_pos, keep, roots_after_insert, roots_sorted, DomNodeKey, NodeTree, RootEntry, RootId, TreeEvent};

verus! {

/// A flex container and the nodes it will hold once it is built.
#[derive(Debug)]
pub struct FlexNode {
    inner: DomNode,
    children: Vec<DomNode>,
}

impl FlexNode {
    /// The container node.
    pub closed spec fn container(self) -> DomNodeKey {
        self.inner@
    }

    /// The nodes the container will hold, in order.
    pub closed spec fn child_keys(self) -> Seq<DomNodeKey> {
        self.children@.map_values(|c: DomNode| c@)
    }

    /// The container with `child` added after the children it has.
    pub fn child(self, child: DomNode) -> (r: FlexNode)
        ensures
            r.container() == self.container(),
            r.child_keys() == self.child_keys().push(child@),
    {
        let mut s = self;
        s.children.push(child);
        proof {
            assert(s.children@.map_values(|c: DomNode| c@) =~= self.children@.map_values(|c: DomNode| c@).push(child@));
        }
        s
    }

    /// Gives the container the id `id`.
    pub fn id(self, tree: &mut NodeTree, id: NodeId) -> (r: FlexNode)
        requires
            old(tree).wf(),
            old(tree).has(self.container()),
        ensures
            r == self,
            final(tree).wf(),
            final(tree).nodes() == old(tree).nodes().insert(self.container()@, NodeProperties { id: Some(id), ..old(tree).node(self.container()) }),
            final(tree).same_state(*old(tree)),
            final(tree).spec_events() == old(tree).spec_events(),
    {
        tree.set_id(self.inner.get_key(), id);
        self
    }

    /// Gives the container the class `class`.
    pub fn class(self, tree: &mut NodeTree, class: String) -> (r: FlexNode)
        requires
            old(tree).wf(),
            old(tree).has(self.container()),
        ensures
            r == self,
            final(tree).wf(),
            final(tree).nodes() == old(tree).nodes().insert(self.container()@, NodeProperties { class: Some(class), ..old(tree).node(self.container()) }),
            final(tree).same_state(*old(tree)),
            final(tree).spec_events() == old(tree).spec_events(),
    {
        tree.set_class(self.inner.get_key(), class);
        self
    }

    /// Gives the container its own z-index, which makes it a root drawn at that z-index.
    pub fn z_index(self, tree: &mut NodeTree, z_index: i32) -> (r: FlexNode)
        requires
            old(tree).wf(),
            old(tree).has(self.container()),
        ensures
            r == self,
            final(tree).wf(),
            final(tree).nodes() == old(tree).nodes().insert(self.container()@, NodeProperties { z_index: Some(z_index), ..old(tree).node(self.container()) }),
            final(tree).spec_next_root_id() == old(tree).spec_next_root_id().wrapping_add(1),
            exists|i: int| #![trigger is_root_pos(old(tree).spec_roots(), RootId { z_index, id: old(tree).spec_next_root_id() }, i)]
                is_root_pos(old(tree).spec_roots(), RootId { z_index, id: old(tree).spec_next_root_id() }, i)
                && final(tree).spec_roots() == roots_after_insert(old(tree).spec_roots(),
                    RootEntry { root_id: RootId { z_index, id: old(tree).spec_next_root_id() }, key: self.container() }, i),
            roots_sorted(old(tree).spec_roots()) ==> roots_sorted(final(tree).spec_roots()),
            final(tree).spec_viewport() == old(tree).spec_viewport(),
            final(tree).spec_focused() == old(tree).spec_focused(),
            final(tree).spec_focused_key() == old(tree).spec_focused_key(),
            final(tree).spec_hovered_key() == old(tree).spec_hovered_key(),
            final(tree).focusables() == old(tree).focusables(),
            final(tree).spec_events() == old(tree).spec_events(),
    {
        tree.set_z_index(self.inner.get_key(), z_index);
        self
    }
}

/// A new flex container laying `children` out in a row.
pub fn row(tree: &mut NodeTree, children: Vec<DomNode>) -> (r: FlexNode)
    requires
        old(tree).wf(),
        old(tree).nodes().dom().len() < u32::MAX - 1,
    ensures
        final(tree).wf(),
        node_created(*old(tree), *final(tree), r.container(), "flex_row"@, NodeType::Layout, Display::Flex, FlexDirection::Row),
        r.child_keys() == children@.map_values(|c: DomNode| c@),
{
    FlexNode { inner: DomNode::flex_row(tree), children }
}

/// A new flex container laying `children` out in a column.
pub fn col(tree: &mut NodeTree, children: Vec<DomNode>) -> (r: FlexNode)
    requires
        old(tree).wf(),
        old(tree).nodes().dom().len() < u32::MAX - 1,
    ensures
        final(tree).wf(),
        node_created(*old(tree), *final(tree), r.container(), "flex_col"@, NodeType::Layout, Display::Flex, FlexDirection::Column),
        r.child_keys() == children@.map_values(|c: DomNode| c@),
{
    FlexNode { inner: DomNode::flex_col(tree), children }
}

/// `n` redraw requests.
pub open spec fn refreshes(n: nat) -> Seq<TreeEvent> {
    Seq::new(n, |i: int| TreeEvent::Refresh)
}

/// `new` is `old` after each of `cs` was appended to `parent` in turn; a child whose
/// z-index differs from its parent's is left where it was.
pub open spec fn children_appended(old: NodeTree, new: NodeTree, parent: DomNodeKey, cs: Seq<DomNodeKey>) -> bool {
    let placed = |c: DomNodeKey| !old.insert_blocked(old.node(parent), old.node(c));
    &&& new.same_state(old)
    &&& new.nodes().dom() == old.nodes().dom()
    &&& new.node(parent) == NodeProperties { children: new.node(parent).children, ..old.node(parent) }
    &&& new.node(parent).children@ == old.node(parent).children@ + keep(cs, placed)
    &&& forall|j: int| 0 <= j < cs.len() ==> #[trigger] new.node(cs[j]) == if placed(cs[j]) {
        NodeProperties { parent: Some(parent), unmounted: false, ..old.node(cs[j]) }
    } else {
        old.node(cs[j])
    }
    &&& forall|k: DomNodeKey| #[trigger] old.has(k) && k != parent && !cs.contains(k) ==> new.node(k) == old.node(k)
    &&& new.spec_events() == old.spec_events() + refreshes(keep(cs, placed).len())
}

/// `trees` runs from one tree to the next as each of `cs` is appended to `parent` in turn.
pub open spec fn appended_in_turn(trees: Seq<NodeTree>, parent: DomNodeKey, cs: Seq<DomNodeKey>) -> bool {
    &&& trees.len() == cs.len() + 1
    &&& forall|i: int| 0 <= i < cs.len() ==> #[trigger] moved_before(trees[i], trees[i + 1], parent, cs[i], None)
}

impl FlexNode {
    /// Builds the container: appends each child node to it, in order (a child that has a
    /// parent leaves it first), and returns it.
    #[verifier::rlimit(40)]
    pub fn build(self, tree: &mut NodeTree) -> (r: DomNode)
        requires
            old(tree).wf(),
            old(tree).has(self.container()),
            self.child_keys().no_duplicates(),
            forall|j: int| 0 <= j < self.child_keys().len() ==> {
                let c = #[trigger] self.child_keys()[j];
                &&& old(tree).has(c)
                &&& c != self.container()
            },
        ensures
            r@ == self.container(),
            final(tree).wf(),
            exists|trees: Seq<NodeTree>|
                #![trigger appended_in_turn(trees, self.container(), self.child_keys())]
                trees[0] == *old(tree) && trees.last() == *final(tree) && appended_in_turn(trees, self.container(), self.child_keys()),
            (forall|j: int| 0 <= j < self.child_keys().len() ==> #[trigger] old(tree).node(self.child_keys()[j]).parent is None)
                ==> children_appended(*old(tree), *final(tree), self.container(), self.child_keys()),
    {
        let ghost o = *tree;
        let ghost free = forall|j: int| 0 <= j < self.child_keys().len() ==> #[trigger] o.node(self.child_keys()[j]).parent is None;
        let ghost mut trees: Seq<NodeTree> = seq![*tree];
        let ghost cs = self.child_keys();
        let ghost p = self.container();
        let ghost placed = |c: DomNodeKey| !o.insert_blocked(o.node(p), o.node(c));
        let mut i: usize = 0;
        while i < self.children.len()
            invariant
                cs == self.child_keys(),
                cs.len() == self.children@.len(),
                p == self.inner@,
                placed == (|c: DomNodeKey| !o.insert_blocked(o.node(p), o.node(c))),
                cs.no_duplicates(),
                o.has(p),
                forall|j: int| 0 <= j < cs.len() ==> {
                    let c = #[trigger] cs[j];
                    &&& o.has(c)
                    &&& c != p
                },
                free == forall|j: int| 0 <= j < cs.len() ==> #[trigger] o.node(cs[j]).parent is None,
                i <= cs.len(),
                tree.wf(),
                tree.nodes().dom() == o.nodes().dom(),
                trees.len() == i + 1,
                trees[0] == o,
                trees.last() == *tree,
                forall|j: int| 0 <= j < i ==> #[trigger] moved_before(trees[j], trees[j + 1], p, cs[j], None),
                free ==> tree.same_state(o),
                free ==> tree.node(p) == (NodeProperties { children: tree.node(p).children, ..o.node(p) }),
                free ==> tree.node(p).children@ == o.node(p).children@ + keep(cs.take(i as int), placed),
                free ==> forall|j: int| 0 <= j < i ==> #[trigger] tree.node(cs[j]) == if placed(cs[j]) {
                    NodeProperties { parent: Some(p), unmounted: false, ..o.node(cs[j]) }
                } else {
                    o.node(cs[j])
                },
                free ==> forall|j: int| i <= j < cs.len() ==> #[trigger] tree.node(cs[j]) == o.node(cs[j]),
                free ==> forall|k: DomNodeKey| #[trigger] o.has(k) && k != p && !cs.contains(k) ==> tree.node(k) == o.node(k),
                free ==> tree.spec_events() == o.spec_events() + refreshes(keep(cs.take(i as int), placed).len()),
            decreases cs.len() - i,
        {
            let c = self.children[i];
            let ghost cur = *tree;
            proof {
                assert(cs[i as int] == c@);
                assert(cur.has(c@)) by {
                    assert(o.has(cs[i as int]));
                }
            }
            self.inner.append(tree, &c);
            proof {
                let ghost prev = trees;
                trees = trees.push(*tree);
                assert forall|j: int| 0 <= j < i + 1 implies #[trigger] moved_before(trees[j], trees[j + 1], p, cs[j], None) by {
                    if j < i {
                        assert(trees[j] == prev[j] && trees[j + 1] == prev[j + 1]);
                    }
                }
                if free {
                assert(cur.node(c@) == o.node(c@));
                assert(o.node(cs[i as int]).parent is None);
                let ci = c@;
                assert(super::node_tree::inserted_before(cur, *tree, p, ci, None));
                if placed(ci) {
                    assert(super::node_tree::attached(cur, *tree, p, ci, cur.node(p).children@.len() as int));
                } else {
                    assert(tree.nodes() == cur.nodes());
                }
                super::node_tree::lemma_keep_push(cs.take(i as int), ci, placed);
                assert(cs.take(i as int + 1) =~= cs.take(i as int).push(ci));
                assert(placed(ci) == !cur.insert_blocked(cur.node(p), cur.node(ci)));
                assert forall|j: int| 0 <= j < i + 1 implies #[trigger] tree.node(cs[j]) == if placed(cs[j]) {
                    NodeProperties { parent: Some(p), unmounted: false, ..o.node(cs[j]) }
                } else {
                    o.node(cs[j])
                } by {
                    if j < i {
                        assert(cs[j] != ci);
                        super::node_tree::lemma_key_view_injective(cs[j], ci);
                        super::node_tree::lemma_key_view_injective(cs[j], p);
                    }
                }
                assert forall|j: int| i + 1 <= j < cs.len() implies #[trigger] tree.node(cs[j]) == o.node(cs[j]) by {
                    assert(cs[j] != ci);
                    super::node_tree::lemma_key_view_injective(cs[j], ci);
                    super::node_tree::lemma_key_view_injective(cs[j], p);
                }
                assert forall|k: DomNodeKey| #[trigger] o.has(k) && k != p && !cs.contains(k) implies tree.node(k) == o.node(k) by {
                    assert(k != ci);
                    super::node_tree::lemma_key_view_injective(k, ci);
                    super::node_tree::lemma_key_view_injective(k, p);
                }
                if placed(ci) {
                    assert(tree.node(p).children@ =~= o.node(p).children@ + keep(cs.take(i as int + 1), placed));
                    assert(tree.spec_events() =~= o.spec_events() + refreshes(keep(cs.take(i as int + 1), placed).len()));
                } else {
                    assert(tree.nodes() == cur.nodes());
                }
                assert(tree.nodes().dom() =~= o.nodes().dom());
                } else {
                    super::node_tree::lemma_moved_keeps_dom(cur, *tree, p, c@, None);
                }
            }
            i = i + 1;
        }
        proof {
            assert(cs.take(i as int) =~= cs);
            assert(trees[0] == *old(tree));
            assert(appended_in_turn(trees, p, cs));
        }
        self.inner
    }
}

} // verus!
