use vstd::prelude::*;

use super::dom_node::{node_created, DomNode};
use super::node_properties::{Display, FlexDirection, NodeType};
use super::node_tree::{first_index_of, inserted_before, moved_before, NodeTree, TreeEvent};
use super::{child_unmounted, children_cleared, clear_children, not_below_children, unmount_child};

verus! {

/// The key of the marker node, if there is one.
pub open spec fn marker_key(marker: Option<&DomNode>) -> Option<super::node_tree::DomNodeKey> {
    match marker {
        Some(m) => Some(m@),
        None => None,
    }
}

/// The operations a view layer needs to build and take apart the document.
#[derive(Debug, Clone, Copy)]
pub struct RooibosDom;

impl RooibosDom {
    /// A new placeholder node.
    pub fn create_placeholder(tree: &mut NodeTree) -> (r: DomNode)
        requires
            old(tree).wf(),
            old(tree).nodes().dom().len() < u32::MAX - 1,
        ensures
            final(tree).wf(),
            node_created(*old(tree), *final(tree), r@, "placeholder"@, NodeType::Placeholder, Display::Hidden, FlexDirection::Row),
    {
        DomNode::placeholder(tree)
    }

    /// Puts `new_child` among the children of `parent`, before `marker` when that is a
    /// child, last otherwise (a child that has a parent leaves it first), and asks for a
    /// redraw.
    pub fn insert_node(tree: &mut NodeTree, parent: &DomNode, new_child: &DomNode, marker: Option<&DomNode>)
        requires
            old(tree).wf(),
            old(tree).has(parent@),
            old(tree).has(new_child@),
            parent@ != new_child@,
        ensures
            final(tree).wf(),
            exists|mid: NodeTree|
                #![trigger moved_before(*old(tree), mid, parent@, new_child@, marker_key(marker))]
                moved_before(*old(tree), mid, parent@, new_child@, marker_key(marker)) && final(tree).nodes() == mid.nodes() && final(tree).same_state(mid) && final(tree).spec_events()
                    == mid.spec_events().push(TreeEvent::Refresh),
    {
        parent.insert_before(tree, new_child, marker);
        let ghost mid = *tree;
        tree.refresh();
    }

    /// Removes `child` with its subtree, and hands it back.
    pub fn remove_node(tree: &mut NodeTree, parent: &DomNode, child: &DomNode) -> (r: Option<DomNode>)
        requires
            old(tree).wf(),
            old(tree).has(child@),
        ensures
            final(tree).wf(),
            child_unmounted(*old(tree), *final(tree), child@, true),
            r == Some(*child),
    {
        unmount_child(tree, child.get_key(), true);
        Some(*child)
    }

    /// Removes every child of `parent` with its subtree.
    pub fn clear_children(tree: &mut NodeTree, parent: &DomNode)
        requires
            old(tree).wf(),
            old(tree).has(parent@),
            not_below_children(*old(tree), parent@),
        ensures
            final(tree).wf(),
            children_cleared(*old(tree), *final(tree), parent@),
    {
        clear_children(tree, parent.get_key())
    }

    /// Removes `node` with its subtree.
    pub fn remove(tree: &mut NodeTree, node: &DomNode)
        requires
            old(tree).wf(),
            old(tree).has(node@),
        ensures
            final(tree).wf(),
            child_unmounted(*old(tree), *final(tree), node@, true),
    {
        unmount_child(tree, node.get_key(), true)
    }

    /// The parent of `node`, if it has one.
    pub fn get_parent(tree: &NodeTree, node: &DomNode) -> (r: Option<DomNode>)
        requires
            tree.has(node@),
        ensures
            r matches Some(p) ==> tree.node(node@).parent == Some(p@),
            r is None ==> tree.node(node@).parent is None,
    {
        node.get_parent(tree)
    }

    /// The first child of `node`, if it has one.
    pub fn first_child(tree: &NodeTree, node: &DomNode) -> (r: Option<DomNode>)
        requires
            tree.has(node@),
        ensures
            r matches Some(c) ==> tree.node(node@).children@.len() > 0 && c@ == tree.node(node@).children@[0],
            r is None ==> tree.node(node@).children@.len() == 0,
    {
        node.get_first_child(tree)
    }

    /// The sibling right after `node`, if there is one.
    pub fn next_sibling(tree: &NodeTree, node: &DomNode) -> (r: Option<DomNode>)
        requires
            tree.wf(),
            tree.has(node@),
        ensures
            match tree.node(node@).parent {
                Some(p) => {
                    let cs = tree.node(p).children@;
                    let pos = first_index_of(cs, node@);
                    if pos < cs.len() - 1 {
                        r matches Some(s) && s@ == cs[pos + 1]
                    } else {
                        r is None
                    }
                },
                None => r is None,
            },
    {
        node.get_next_sibling(tree)
    }
}

} // verus!
