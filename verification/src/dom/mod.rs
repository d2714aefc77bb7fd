pub mod dom_node;
pub mod flex_node;
pub mod node_properties;
pub mod node_tree;
pub mod rect;
pub mod render;
pub mod render_pass;
pub mod node_repr;
pub mod renderer;
mod slots;

use vstd::prelude::*;

use self::dom_node::{DomNode, NodeId};
use self::node_properties::NodeProperties;
use self::node_repr::{node_view, DomNodeRepr};
use self::node_tree::{
    descends, detached_from_parent, focus_moved, focus_target, inserted_before, is_root_pos, moved_before, keep, roots_after_insert, roots_sorted,
    still_there, subtree_removed, subtree_unset, DomNodeKey, NodeTree, RootEntry, RootId, TreeEvent, ViewportSize,
};

verus! {

/// `new` is `old` with the viewport limits `viewport`, and a redraw asked for.
pub open spec fn viewport_limited(old: NodeTree, new: NodeTree, viewport: ViewportSize) -> bool {
    &&& new.nodes() == old.nodes()
    &&& new.spec_viewport() == viewport
    &&& new.spec_roots() == old.spec_roots()
    &&& new.spec_next_root_id() == old.spec_next_root_id()
    &&& new.spec_focused() == old.spec_focused()
    &&& new.spec_focused_key() == old.spec_focused_key()
    &&& new.spec_hovered_key() == old.spec_hovered_key()
    &&& new.focusables() == old.focusables()
    &&& new.spec_events() == old.spec_events().push(TreeEvent::Refresh)
}

/// Caps the width the document may use at `max_width` (or lifts the cap) and asks for a redraw.
pub fn max_viewport_width(tree: &mut NodeTree, max_width: Option<u16>)
    requires
        old(tree).wf(),
    ensures
        final(tree).wf(),
        viewport_limited(*old(tree), *final(tree), ViewportSize { max_width, ..old(tree).spec_viewport() }),
{
    let mut viewport = tree.viewport_size();
    viewport.max_width = max_width;
    tree.set_viewport_size(viewport);
    tree.refresh();
}

/// Caps the height the document may use at `max_height` (or lifts the cap) and asks for a redraw.
pub fn max_viewport_height(tree: &mut NodeTree, max_height: Option<u16>)
    requires
        old(tree).wf(),
    ensures
        final(tree).wf(),
        viewport_limited(*old(tree), *final(tree), ViewportSize { max_height, ..old(tree).spec_viewport() }),
{
    let mut viewport = tree.viewport_size();
    viewport.max_height = max_height;
    tree.set_viewport_size(viewport);
    tree.refresh();
}

/// Drops the focus, hover and focusable records of the subtree of `node`; with `remove`
/// the subtree is also taken out of its parent, as the layout engine's removal does, and
/// out of the tree.
pub fn cleanup_removed_nodes(tree: &mut NodeTree, node: DomNodeKey, remove: bool)
    requires
        old(tree).wf(),
        old(tree).has(node),
    ensures
        final(tree).wf(),
        remove ==> exists|mid: NodeTree|
            #![trigger detached_from_parent(*old(tree), mid, node)]
            {
                &&& detached_from_parent(*old(tree), mid, node)
                &&& mid.same_state(*old(tree))
                &&& mid.spec_events() == if old(tree).node(node).parent is Some {
                    old(tree).spec_events().push(TreeEvent::Refresh)
                } else {
                    old(tree).spec_events()
                }
                &&& subtree_removed(mid, *final(tree), node)
            },
        !remove ==> subtree_unset(*old(tree), *final(tree), node),
{
    if remove {
        tree.unmount_child(node);
        let ghost mid = *tree;
        cleanup_detached(tree, node, true);
        proof {
            assert(detached_from_parent(*old(tree), mid, node));
        }
    } else {
        cleanup_detached(tree, node, false);
    }
}

/// `cleanup_removed_nodes` on a node that, when it is removed, has no parent.
fn cleanup_detached(tree: &mut NodeTree, node: DomNodeKey, remove: bool)
    requires
        old(tree).wf(),
        old(tree).has(node),
        remove ==> old(tree).node(node).parent is None,
    ensures
        final(tree).wf(),
        remove ==> subtree_removed(*old(tree), *final(tree), node),
        !remove ==> subtree_unset(*old(tree), *final(tree), node),
{
    if remove {
        tree.remove_subtree(node);
    } else {
        tree.unset_subtree_state(node);
        proof {
            node_tree::lemma_keep_props(old(tree).focusables(), |x: DomNodeKey| !node_tree::in_subtree(*old(tree), x, node));
        }
    }
}

/// `new` is `old` after `child` was taken out of its parent and then cleaned up as
/// `cleanup_removed_nodes` does; a child that is kept is marked as unmounted.
pub open spec fn child_unmounted(old: NodeTree, new: NodeTree, child: DomNodeKey, cleanup: bool) -> bool {
    exists|mid: NodeTree|
        #![trigger detached_from_parent(old, mid, child)]
        {
            &&& detached_from_parent(old, mid, child)
            &&& mid.same_state(old)
            &&& mid.spec_events() == if old.node(child).parent is Some {
                old.spec_events().push(TreeEvent::Refresh)
            } else {
                old.spec_events()
            }
            &&& cleanup ==> subtree_removed(mid, new, child)
            &&& !cleanup ==> exists|after: NodeTree|
                #![trigger subtree_unset(mid, after, child)]
                {
                    &&& subtree_unset(mid, after, child)
                    &&& new.nodes() == after.nodes().insert(child@, NodeProperties { unmounted: true, ..after.node(child) })
                    &&& new.same_state(after)
                    &&& new.spec_events() == after.spec_events().push(TreeEvent::Refresh)
                }
        }
}

/// Takes `child` out of its parent and cleans it up: with `cleanup` its subtree is
/// removed, without it only its focus, hover and focusable records go and it is
/// marked as unmounted.
pub fn unmount_child(tree: &mut NodeTree, child: DomNodeKey, cleanup: bool)
    requires
        old(tree).wf(),
        old(tree).has(child),
    ensures
        final(tree).wf(),
        child_unmounted(*old(tree), *final(tree), child, cleanup),
{
    tree.unmount_child(child);
    let ghost mid = *tree;
    cleanup_detached(tree, child, cleanup);
    if !cleanup {
        let ghost after = *tree;
        tree.set_unmounted(child, true);
        tree.refresh();
        proof {
            assert(subtree_unset(mid, after, child));
        }
    }
    proof {
        assert(detached_from_parent(*old(tree), mid, child));
    }
}

/// `new` is `old` after every child of `parent` was taken out and removed with its
/// subtree; `parent` itself and everything not below it stay as they were.
pub open spec fn children_cleared(old: NodeTree, new: NodeTree, parent: DomNodeKey) -> bool {
    let cs = old.node(parent).children@;
    &&& new.has(parent)
    &&& new.node(parent) == NodeProperties { children: new.node(parent).children, ..old.node(parent) }
    &&& new.node(parent).children@.len() == 0
    &&& forall|k: DomNodeKey| #[trigger] new.has(k) ==> old.has(k) && (k == parent || new.node(k) == old.node(k))
    &&& forall|k: DomNodeKey| #[trigger] old.has(k) && !new.has(k) ==> exists|j: int|
        0 <= j < cs.len() && node_tree::in_subtree(old, k, #[trigger] cs[j])
    &&& forall|k: DomNodeKey, j: int| 0 <= j < cs.len() && #[trigger] node_tree::in_subtree(old, k, cs[j]) ==> !#[trigger] new.has(k)
    &&& new.spec_focused_key() == still_there(new, old.spec_focused_key())
    &&& new.spec_focused() == if still_there(new, old.spec_focused_key()) == old.spec_focused_key() {
        old.spec_focused()
    } else {
        None
    }
    &&& new.spec_hovered_key() == still_there(new, old.spec_hovered_key())
    &&& new.focusables() == keep(old.focusables(), |x: DomNodeKey| new.has(x))
    &&& new.spec_roots() == old.spec_roots()
    &&& new.spec_next_root_id() == old.spec_next_root_id()
    &&& new.spec_viewport() == old.spec_viewport()
    &&& node_tree::removal_events(old, new)
}

/// Whether `parent` lies below none of its own children, so that removing a child's
/// subtree cannot take `parent` with it.
pub open spec fn not_below_children(t: NodeTree, parent: DomNodeKey) -> bool {
    forall|j: int| 0 <= j < t.node(parent).children@.len()
        ==> !node_tree::in_subtree(t, parent, #[trigger] t.node(parent).children@[j])
}

/// Unmounts every child of `parent` and removes it with its subtree.
pub fn clear_children(tree: &mut NodeTree, parent: DomNodeKey)
    requires
        old(tree).wf(),
        old(tree).has(parent),
        not_below_children(*old(tree), parent),
    ensures
        final(tree).wf(),
        children_cleared(*old(tree), *final(tree), parent),
{
    let ghost o = *tree;
    proof {
        NodeTree::lemma_wf_facts(o);
        NodeTree::lemma_wf_links(o, parent);
    }
    let mut cs: Vec<DomNodeKey> = Vec::new();
    let mut n: usize = 0;
    while n < tree.get(parent).children.len()
        invariant
            *tree == o,
            o.has(parent),
            n <= o.node(parent).children@.len(),
            cs@ == o.node(parent).children@.take(n as int),
        decreases o.node(parent).children@.len() - n,
    {
        cs.push(tree.get(parent).children[n]);
        n = n + 1;
        proof {
            assert(cs@ =~= o.node(parent).children@.take(n as int));
        }
    }
    proof {
        assert(cs@ =~= o.node(parent).children@);
        lemma_keep_all_has(o);
        assert(node_tree::added_events(o, o) =~= Seq::<TreeEvent>::empty());
        node_tree::lemma_quiet_refresh();
    }
    let mut i: usize = 0;
    while i < cs.len()
        invariant
            tree.wf(),
            o.wf(),
            o.has(parent),
            not_below_children(o, parent),
            cs@ == o.node(parent).children@,
            i <= cs@.len(),
            tree.has(parent),
            tree.node(parent) == (NodeProperties { children: tree.node(parent).children, ..o.node(parent) }),
            tree.node(parent).children@ == cs@.skip(i as int),
            forall|k: DomNodeKey| #[trigger] tree.has(k) ==> o.has(k) && (k == parent || tree.node(k) == o.node(k)),
            forall|k: DomNodeKey| #[trigger] o.has(k) && !tree.has(k) ==> exists|j: int|
                0 <= j < cs@.len() && node_tree::in_subtree(o, k, #[trigger] cs@[j]),
            tree.spec_focused_key() == still_there(*tree, o.spec_focused_key()),
            tree.spec_focused() == if still_there(*tree, o.spec_focused_key()) == o.spec_focused_key() {
                o.spec_focused()
            } else {
                None
            },
            tree.spec_hovered_key() == still_there(*tree, o.spec_hovered_key()),
            tree.focusables() == keep(o.focusables(), |x: DomNodeKey| tree.has(x)),
            tree.spec_roots() == o.spec_roots(),
            tree.spec_next_root_id() == o.spec_next_root_id(),
            tree.spec_viewport() == o.spec_viewport(),
            node_tree::removal_events(o, *tree),
            tree.nodes().dom().subset_of(o.nodes().dom()),
        decreases cs@.len() - i,
    {
        let c = cs[i];
        let ghost cur = *tree;
        proof {
            NodeTree::lemma_wf_links(cur, parent);
            assert(cur.node(parent).children@[0] == c);
            node_tree::lemma_first_index_of(cur.node(parent).children@, c, 0);
            assert(cur.has(c));
            assert(cur.node(c).parent == Some(parent));
        }
        unmount_child(tree, c, true);
        proof {
            let mid = choose|mid: NodeTree| #![trigger detached_from_parent(cur, mid, c)]
                detached_from_parent(cur, mid, c) && mid.same_state(cur) && mid.spec_events() == (if cur.node(c).parent is Some {
                    cur.spec_events().push(TreeEvent::Refresh)
                } else {
                    cur.spec_events()
                }) && subtree_removed(mid, *tree, c);
            NodeTree::lemma_wf_facts(o);
            NodeTree::lemma_wf_facts(cur);
            assert(mid.nodes().dom() =~= cur.nodes().dom());
            vstd::set_lib::lemma_len_subset(mid.nodes().dom(), o.nodes().dom());
            assert forall|x: DomNodeKey| #[trigger] mid.has(x) implies o.has(x) && (mid.node(x).parent == o.node(x).parent
                || mid.node(x).parent is None) by {
                assert(cur.has(x));
            }
            // `parent` stays: it does not lie below `c`.
            assert(mid.has(parent));
            if !tree.has(parent) {
                assert(mid.has(parent) && !tree.has(parent));
                assert(descends(mid, parent, c, mid.nodes().dom().len()));
                node_tree::lemma_descends_transfer(o, mid, parent, c, mid.nodes().dom().len());
                node_tree::lemma_descends_mono(o, parent, c, mid.nodes().dom().len(), o.nodes().dom().len());
                assert(o.node(parent).children@[i as int] == c);
                assert(!node_tree::in_subtree(o, parent, o.node(parent).children@[i as int]));
            }
            assert(tree.node(parent) == mid.node(parent));
            assert(tree.node(parent).children@ =~= cs@.skip(i as int + 1));
            assert forall|k: DomNodeKey| #[trigger] tree.has(k) implies o.has(k) && (k == parent || tree.node(k) == o.node(k)) by {
                assert(mid.has(k));
                if k != parent {
                    assert(k != c);
                    node_tree::lemma_key_view_injective(k, parent);
                    node_tree::lemma_key_view_injective(k, c);
                    assert(mid.node(k) == cur.node(k));
                    assert(cur.has(k));
                }
            }
            assert forall|k: DomNodeKey| #[trigger] o.has(k) && !tree.has(k) implies exists|j: int|
                0 <= j < cs@.len() && node_tree::in_subtree(o, k, #[trigger] cs@[j]) by {
                if cur.has(k) {
                    assert(mid.has(k) && !tree.has(k));
                    assert(descends(mid, k, c, mid.nodes().dom().len()));
                    node_tree::lemma_descends_transfer(o, mid, k, c, mid.nodes().dom().len());
                    node_tree::lemma_descends_mono(o, k, c, mid.nodes().dom().len(), o.nodes().dom().len());
                    assert(cs@[i as int] == c);
                }
            }
            let pc = |x: DomNodeKey| cur.has(x);
            let pt = |x: DomNodeKey| tree.has(x);
            assert(mid.focusables() == keep(o.focusables(), pc));
            node_tree::lemma_keep_keep(o.focusables(), pc, pt);
            assert forall|j: int| 0 <= j < o.focusables().len() implies (|x: DomNodeKey| pc(x) && pt(x))(
                #[trigger] o.focusables()[j]) == pt(o.focusables()[j]) by {
                if tree.has(o.focusables()[j]) {
                    assert(mid.has(o.focusables()[j]));
                }
            }
            node_tree::lemma_keep_ext(o.focusables(), |x: DomNodeKey| pc(x) && pt(x), pt);
            node_tree::lemma_has_subset(*tree, o);
            // The blur of the focused node is asked for once, when its subtree goes.
            assert(node_tree::added_events(cur, mid) =~= seq![TreeEvent::Refresh]);
            node_tree::lemma_added_chain(cur, mid, *tree);
            node_tree::lemma_added_chain(o, cur, *tree);
            node_tree::lemma_quiet_add(seq![TreeEvent::Refresh], node_tree::added_events(mid, *tree));
            node_tree::lemma_quiet_add(node_tree::added_events(o, cur), node_tree::added_events(cur, *tree));
            node_tree::lemma_quiet_refresh();
            assert(node_tree::quiet(node_tree::added_events(cur, *tree)) =~= node_tree::quiet(node_tree::added_events(mid, *tree)));
            if let Some(f) = o.spec_focused_key() {
                if cur.has(f) {
                    assert(cur.spec_focused_key() == Some(f));
                    assert(mid.spec_focused_key() == Some(f));
                    node_tree::lemma_key_view_injective(f, parent);
                    node_tree::lemma_key_view_injective(f, c);
                    assert(mid.node(f).rect == o.node(f).rect && mid.node(f).id == o.node(f).id);
                    assert(node_tree::removal_blur_events(mid) == node_tree::removal_blur_events(o));
                } else {
                    assert(!tree.has(f));
                    assert(cur.spec_focused_key() is None);
                    assert(mid.spec_focused_key() is None);
                }
            }
            assert(node_tree::quiet(node_tree::added_events(o, *tree)) =~= if node_tree::focus_removed(o, *tree) {
                node_tree::removal_blur_events(o)
            } else {
                Seq::<TreeEvent>::empty()
            });
        }
        i = i + 1;
    }
    proof {
        assert(tree.node(parent).children@.len() == 0);
        assert forall|k: DomNodeKey, j: int| 0 <= j < cs@.len() && #[trigger] node_tree::in_subtree(o, k, cs@[j]) implies !#[trigger] tree.has(k) by {
            lemma_below_cleared_gone(o, *tree, parent, k, j, o.nodes().dom().len());
        }
    }
}

/// Once the children of `parent` are cleared from a well formed tree, no node whose
/// parents reach one of those children within `f` steps is left.
proof fn lemma_below_cleared_gone(old: NodeTree, new: NodeTree, parent: DomNodeKey, k: DomNodeKey, j: int, f: nat)
    requires
        old.wf(),
        new.wf(),
        old.has(parent),
        not_below_children(old, parent),
        0 <= j < old.node(parent).children@.len(),
        descends(old, k, old.node(parent).children@[j], f),
        f <= old.nodes().dom().len(),
        new.has(parent),
        new.node(parent).children@.len() == 0,
        forall|x: DomNodeKey| #[trigger] new.has(x) ==> old.has(x) && (x == parent || new.node(x) == old.node(x)),
    ensures
        !new.has(k),
    decreases f,
{
    let c = old.node(parent).children@[j];
    NodeTree::lemma_wf_links(old, parent);
    if new.has(k) {
        if k == parent {
            node_tree::lemma_descends_mono(old, k, c, f, old.nodes().dom().len());
            assert(node_tree::in_subtree(old, parent, old.node(parent).children@[j]));
        }
        assert(new.node(k) == old.node(k));
        NodeTree::lemma_wf_links(new, k);
        if k == c {
            assert(old.node(c).parent == Some(parent));
            assert(new.node(parent).children@.contains(k));
        } else {
            let p = old.node(k).parent.unwrap();
            lemma_below_cleared_gone(old, new, parent, p, j, (f - 1) as nat);
            assert(new.has(p));
        }
    }
}

/// Every focusable node of a well formed tree is a node of the tree, so keeping those
/// that are keeps them all.
proof fn lemma_keep_all_has(t: NodeTree)
    requires
        t.wf(),
    ensures
        keep(t.focusables(), |x: DomNodeKey| t.has(x)) == t.focusables(),
{
    NodeTree::lemma_wf_facts(t);
    node_tree::lemma_keep_all(t.focusables(), |x: DomNodeKey| t.has(x));
}

/// Makes `node` the root of the document drawn at z-index 0.
pub fn mount(tree: &mut NodeTree, node: &DomNode)
    requires
        old(tree).wf(),
        old(tree).has(node@),
    ensures
        final(tree).wf(),
        final(tree).nodes() == old(tree).nodes(),
        final(tree).spec_next_root_id() == old(tree).spec_next_root_id().wrapping_add(1),
        exists|i: int| #![trigger is_root_pos(old(tree).spec_roots(), RootId { z_index: 0, id: old(tree).spec_next_root_id() }, i)]
            is_root_pos(old(tree).spec_roots(), RootId { z_index: 0, id: old(tree).spec_next_root_id() }, i)
            && final(tree).spec_roots() == roots_after_insert(old(tree).spec_roots(),
                RootEntry { root_id: RootId { z_index: 0, id: old(tree).spec_next_root_id() }, key: node@ }, i),
        roots_sorted(old(tree).spec_roots()) ==> roots_sorted(final(tree).spec_roots()),
        final(tree).spec_viewport() == old(tree).spec_viewport(),
        final(tree).spec_focused() == old(tree).spec_focused(),
        final(tree).spec_focused_key() == old(tree).spec_focused_key(),
        final(tree).spec_hovered_key() == old(tree).spec_hovered_key(),
        final(tree).focusables() == old(tree).focusables(),
        final(tree).spec_events() == old(tree).spec_events(),
{
    tree.set_root(0, node.get_key());
}

/// Throws the whole document away and starts from an empty one.
pub fn unmount(tree: &mut NodeTree)
    ensures
        final(tree).wf(),
        final(tree).nodes() == Map::<u64, NodeProperties>::empty(),
        final(tree).spec_roots().len() == 0,
        final(tree).spec_next_root_id() == 1,
        final(tree).spec_viewport() == (ViewportSize {
            window_size: rect::Rect { x: 0, y: 0, width: 0, height: 0 },
            max_width: None,
            max_height: None,
        }),
        final(tree).spec_focused() is None,
        final(tree).spec_focused_key() is None,
        final(tree).spec_hovered_key() is None,
        final(tree).focusables().len() == 0,
        final(tree).spec_events().len() == 0,
{
    *tree = NodeTree::new();
}

/// No node that can take focus carries the id asked for.
#[derive(Debug)]
pub struct NodeNotFound(pub NodeId);

/// `k` is the first node, in slot order, that can take focus and carries `id`.
pub open spec fn first_focus_target(t: NodeTree, id: NodeId, k: DomNodeKey) -> bool {
    &&& t.has(k)
    &&& focus_target(t.node(k), id)
    &&& forall|j: DomNodeKey| #![trigger t.has(j)] t.has(j) && slots::key_index(j@) < slots::key_index(k@)
        ==> !focus_target(t.node(j), id)
}

/// At most one node is the first, in slot order, that can take focus and carries a given id.
pub proof fn lemma_first_focus_target_unique(t: NodeTree, id: NodeId, a: DomNodeKey, b: DomNodeKey)
    requires
        t.wf(),
        first_focus_target(t, id, a),
        first_focus_target(t, id, b),
    ensures
        a == b,
{
    NodeTree::lemma_wf_facts(t);
    assert(slots::key_index(a@) == slots::key_index(b@)) by {
        if slots::key_index(a@) < slots::key_index(b@) {
            assert(t.has(a));
        } else if slots::key_index(b@) < slots::key_index(a@) {
            assert(t.has(b));
        }
    }
}

/// Whether some node that can take focus carries `id`.
pub open spec fn has_focus_target(t: NodeTree, id: NodeId) -> bool {
    exists|k: DomNodeKey| #[trigger] t.has(k) && focus_target(t.node(k), id)
}

/// Focuses the first node, in slot order, that can take focus and carries `id`; when
/// there is none, nothing changes and the id comes back in the error.
pub fn try_focus_id(tree: &mut NodeTree, id: NodeId) -> (r: Result<(), NodeNotFound>)
    requires
        old(tree).wf(),
    ensures
        final(tree).wf(),
        r is Ok <==> has_focus_target(*old(tree), id),
        r is Ok ==> exists|k: DomNodeKey| #[trigger] first_focus_target(*old(tree), id, k)
            && focus_moved(*old(tree), *final(tree), Some(k)),
        r matches Err(e) ==> e.0 == id && *final(tree) == *old(tree),
{
    match tree.find_focusable(&id) {
        Some(k) => {
            tree.set_focused(Some(k));
            proof {
                assert(first_focus_target(*old(tree), id, k));
            }
            Ok(())
        },
        None => Err(NodeNotFound(id)),
    }
}

/// Focuses the first node, in slot order, that can take focus and carries `id`.
pub fn focus_id(tree: &mut NodeTree, id: NodeId)
    requires
        old(tree).wf(),
        has_focus_target(*old(tree), id),
    ensures
        final(tree).wf(),
        exists|k: DomNodeKey| #[trigger] first_focus_target(*old(tree), id, k) && focus_moved(*old(tree), *final(tree), Some(k)),
{
    let r = try_focus_id(tree, id);
}

/// One line of the printed document: the tag that opens or closes the element of
/// `key`, indented `depth` levels.
#[derive(Debug, Clone, Copy, PartialEq, Eq, Structural)]
pub struct DomLine {
    pub depth: usize,
    pub key: DomNodeKey,
    pub open: bool,
}

/// The lines that print the subtree of `key` at `depth`, following children at most
/// `fuel` levels down. A node named "Placeholder" is left out with its subtree.
pub open spec fn dom_lines(t: NodeTree, key: DomNodeKey, depth: usize, fuel: nat) -> Seq<DomLine>
    decreases fuel, 0nat, 0nat,
{
    if fuel == 0 || !t.has(key) || t.node(key).name@ == "Placeholder"@ {
        Seq::empty()
    } else {
        seq![DomLine { depth, key, open: true }] + children_lines(t, t.node(key).children@, (depth + 1) as usize,
            (fuel - 1) as nat) + seq![DomLine { depth, key, open: false }]
    }
}

/// The lines that print the subtrees of `cs`, in order.
pub open spec fn children_lines(t: NodeTree, cs: Seq<DomNodeKey>, depth: usize, fuel: nat) -> Seq<DomLine>
    decreases fuel, 1nat, cs.len(),
{
    if cs.len() == 0 {
        Seq::empty()
    } else {
        children_lines(t, cs.drop_last(), depth, fuel) + dom_lines(t, cs.last(), depth, fuel)
    }
}

/// Appends the lines that print the subtree of `key` at `depth`.
fn print_dom_inner(tree: &NodeTree, key: DomNodeKey, depth: usize, fuel: usize, out: &mut Vec<DomLine>)
    requires
        depth + fuel <= usize::MAX,
    ensures
        final(out)@ == old(out)@ + dom_lines(*tree, key, depth, fuel as nat),
    decreases fuel,
{
    if fuel == 0 || !tree.contains_key(key) {
        proof {
            assert(old(out)@ + Seq::<DomLine>::empty() =~= old(out)@);
        }
        return;
    }
    let node = tree.get(key);
    if node.name == "Placeholder".to_owned() {
        proof {
            assert(old(out)@ + Seq::<DomLine>::empty() =~= old(out)@);
        }
        return;
    }
    let ghost start = out@;
    out.push(DomLine { depth, key, open: true });
    let mut i: usize = 0;
    while i < node.children.len()
        invariant
            *node == tree.node(key),
            depth + fuel <= usize::MAX,
            fuel > 0,
            i <= node.children@.len(),
            out@ == start + seq![DomLine { depth, key, open: true }] + children_lines(*tree, node.children@.take(i as int),
                (depth + 1) as usize, (fuel - 1) as nat),
        decreases node.children@.len() - i,
    {
        let ghost before = out@;
        print_dom_inner(tree, node.children[i], depth + 1, fuel - 1, out);
        proof {
            let cs = node.children@;
            assert(cs.take(i as int + 1).drop_last() =~= cs.take(i as int));
            assert(cs.take(i as int + 1).last() == cs[i as int]);
            assert(out@ =~= start + seq![DomLine { depth, key, open: true }] + children_lines(*tree, cs.take(i as int + 1),
                (depth + 1) as usize, (fuel - 1) as nat));
        }
        i = i + 1;
    }
    out.push(DomLine { depth, key, open: false });
    proof {
        assert(node.children@.take(i as int) =~= node.children@);
        assert(out@ =~= old(out)@ + dom_lines(*tree, key, depth, fuel as nat));
    }
}

/// The lines that print the document from its first root at z-index 0, each child
/// one level deeper than its parent.
pub fn print_dom(tree: &NodeTree) -> (r: Vec<DomLine>)
    requires
        exists|i: int| 0 <= i < tree.spec_roots().len() && #[trigger] tree.spec_roots()[i].root_id.z_index == 0,
    ensures
        exists|i: int|
            0 <= i < tree.spec_roots().len() && tree.spec_roots()[i].root_id.z_index == 0 && (forall|j: int|
                0 <= j < i ==> #[trigger] tree.spec_roots()[j].root_id.z_index != 0) && r@ == dom_lines(*tree,
                #[trigger] tree.spec_roots()[i].key, 0, tree.nodes().dom().len()),
{
    let root = tree.root(0);
    let fuel = tree.len();
    let mut out: Vec<DomLine> = Vec::new();
    print_dom_inner(tree, root, 0, fuel, &mut out);
    proof {
        assert(Seq::<DomLine>::empty() + dom_lines(*tree, root, 0, fuel as nat) =~= dom_lines(*tree, root, 0, fuel as nat));
    }
    out
}

/// The first root at z-index 0: the document's main root.
pub open spec fn main_root(t: NodeTree, i: int) -> bool {
    &&& 0 <= i < t.spec_roots().len()
    &&& t.spec_roots()[i].root_id.z_index == 0
    &&& forall|j: int| 0 <= j < i ==> #[trigger] t.spec_roots()[j].root_id.z_index != 0
}

/// A snapshot of the document's main root, which must still be in the tree.
pub fn root(tree: &NodeTree) -> (r: DomNodeRepr)
    requires
        exists|i: int| #[trigger] main_root(*tree, i) && tree.has(tree.spec_roots()[i].key),
    ensures
        exists|i: int| #[trigger] main_root(*tree, i) && r@ == node_view(*tree, tree.spec_roots()[i].key),
{
    proof {
        let i = choose|i: int| #[trigger] main_root(*tree, i) && tree.has(tree.spec_roots()[i].key);
        assert(tree.spec_roots()[i].root_id.z_index == 0);
    }
    let root = tree.root(0);
    proof {
        let i = choose|i: int| #[trigger] main_root(*tree, i) && tree.has(tree.spec_roots()[i].key);
        let j = choose|j: int| 0 <= j < tree.spec_roots().len() && tree.spec_roots()[j].root_id.z_index == 0
            && root == tree.spec_roots()[j].key && forall|k: int| 0 <= k < j ==> #[trigger] tree.spec_roots()[k].root_id.z_index != 0;
        if i < j {
            assert(tree.spec_roots()[i].root_id.z_index != 0);
        } else if j < i {
            assert(tree.spec_roots()[j].root_id.z_index != 0);
        }
        assert(main_root(*tree, j));
    }
    DomNodeRepr::from_node(root, tree.get(root))
}

/// `k` is the first node, in slot order, that carries `id`.
pub open spec fn first_with_id(t: NodeTree, id: NodeId, k: DomNodeKey) -> bool {
    &&& t.has(k)
    &&& node_tree::has_id(t.node(k), id)
    &&& forall|j: DomNodeKey| #![trigger t.has(j)] t.has(j) && slots::key_index(j@) < slots::key_index(k@)
        ==> !node_tree::has_id(t.node(j), id)
}

/// In a well-formed tree no two nodes share a slot, so at most one node is the first, in
/// slot order, to carry a given id.
pub proof fn lemma_first_with_id_unique(t: NodeTree, id: NodeId, a: DomNodeKey, b: DomNodeKey)
    requires
        t.wf(),
        first_with_id(t, id, a),
        first_with_id(t, id, b),
    ensures
        a == b,
{
    NodeTree::lemma_wf_facts(t);
    assert(slots::key_index(a@) == slots::key_index(b@)) by {
        if slots::key_index(a@) < slots::key_index(b@) {
            assert(t.has(a));
        } else if slots::key_index(b@) < slots::key_index(a@) {
            assert(t.has(b));
        }
    }
}

/// Focuses the first node, in slot order, that carries `id`, whether it can take focus
/// or not, as `set_focused` does (the listeners hear of it); nothing changes when no node
/// carries it.
pub fn focus(tree: &mut NodeTree, id: NodeId)
    requires
        old(tree).wf(),
    ensures
        final(tree).wf(),
        (exists|k: DomNodeKey| #[trigger] first_with_id(*old(tree), id, k)) ==> exists|k: DomNodeKey|
            #[trigger] first_with_id(*old(tree), id, k) && focus_moved(*old(tree), *final(tree), Some(k)),
        !(exists|k: DomNodeKey| #[trigger] first_with_id(*old(tree), id, k)) ==> *final(tree) == *old(tree),
{
    match tree.get_key(&id) {
        Some(k) => {
            tree.set_focused(Some(k));
            proof {
                assert(first_with_id(*old(tree), id, k));
            }
        },
        None => {
            proof {
                assert forall|k: DomNodeKey| !first_with_id(*old(tree), id, k) by {
                    if old(tree).has(k) {
                        assert(!node_tree::has_id(old(tree).node(k), id));
                    }
                }
            }
        },
    }
}

/// Where to mount a node: before a marker node, or as the last child of a node.
#[derive(Debug, Clone, Copy, PartialEq, Eq, Structural)]
pub enum MountKind {
    Before(DomNode),
    Append(DomNode),
}

/// Mounts `child` as `kind` says (a child that has a parent leaves it first), and gives
/// its key. A marker without a parent leaves the tree as it is.
pub fn mount_child(tree: &mut NodeTree, kind: MountKind, child: &DomNode) -> (r: DomNodeKey)
    requires
        old(tree).wf(),
        old(tree).has(child@),
        match kind {
            MountKind::Append(el) => old(tree).has(el@) && el@ != child@,
            MountKind::Before(marker) => old(tree).has(marker@) && marker@ != child@ && old(tree).node(marker@).parent != Some(
                child@,
            ),
        },
    ensures
        r == child@,
        final(tree).wf(),
        match kind {
            MountKind::Append(el) => moved_before(*old(tree), *final(tree), el@, child@, None),
            MountKind::Before(marker) => match old(tree).node(marker@).parent {
                Some(p) => moved_before(*old(tree), *final(tree), p, child@, Some(marker@)),
                None => *final(tree) == *old(tree),
            },
        },
{
    match kind {
        MountKind::Append(el) => {
            el.append(tree, child);
        },
        MountKind::Before(marker) => {
            proof {
                NodeTree::lemma_wf_links(*tree, marker@);
            }
            match tree.get(marker.get_key()).parent {
                Some(p) => {
                    tree.insert_before(p, child.get_key(), Some(marker.get_key()));
                },
                None => {},
            }
        },
    }
    child.get_key()
}

} // verus!
