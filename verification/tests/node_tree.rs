use rooibos::dom::dom_node::{DomNode, NodeId};
use rooibos::dom::flex_node::{col, row};
use rooibos::dom::node_properties::{Display, FlexDirection, NodeType};
use rooibos::dom::node_tree::{clear_focus, focus_next, focus_prev, DomNodeKey, NodeTree, TreeEvent};
use rooibos::dom::rect::Rect;
use rooibos::dom::{
    cleanup_removed_nodes, clear_children, focus, focus_id, max_viewport_height, max_viewport_width, mount,
    mount_child, print_dom, try_focus_id, unmount, unmount_child, DomLine, MountKind,
};

fn widget(tree: &mut NodeTree, name: &str) -> DomNode {
    DomNode::widget(tree, name.to_string())
}

/// A root div holding the widgets a, b and c, mounted at z-index 0.
fn three_widgets() -> (NodeTree, DomNode, DomNode, DomNode, DomNode) {
    let mut tree = NodeTree::new();
    let root = DomNode::div(&mut tree);
    let a = widget(&mut tree, "a");
    let b = widget(&mut tree, "b");
    let c = widget(&mut tree, "c");
    root.append(&mut tree, &a);
    root.append(&mut tree, &b);
    root.append(&mut tree, &c);
    mount(&mut tree, &root);
    tree.take_events();
    (tree, root, a, b, c)
}

fn make_focusable(tree: &mut NodeTree, nodes: &[DomNode]) {
    for n in nodes {
        tree.set_focusable(n.get_key(), true);
        tree.add_focusable(n.get_key());
    }
    tree.take_events();
}

#[test]
fn new_tree_is_empty() {
    let tree = NodeTree::new();
    assert_eq!(tree.len(), 0);
    assert_eq!(tree.focused_key(), None);
    assert_eq!(tree.hovered_key(), None);
    assert!(tree.roots_asc().is_empty());
}

#[test]
fn constructors_make_fresh_detached_nodes() {
    let mut tree = NodeTree::new();
    let p = DomNode::placeholder(&mut tree);
    let r = DomNode::flex_row(&mut tree);
    let c = DomNode::flex_col(&mut tree);
    let d = DomNode::div(&mut tree);
    assert_eq!(tree.len(), 4);
    let pn = tree.get(p.get_key());
    assert_eq!(pn.name, "placeholder");
    assert!(matches!(pn.node_type, NodeType::Placeholder));
    assert_eq!(pn.original_display, Display::Hidden);
    assert_eq!(tree.get(r.get_key()).flex_direction, FlexDirection::Row);
    assert_eq!(tree.get(c.get_key()).flex_direction, FlexDirection::Column);
    assert_eq!(tree.get(c.get_key()).name, "flex_col");
    assert_eq!(tree.get(d.get_key()).original_display, Display::Block);
    assert!(tree.get(d.get_key()).children.is_empty());
    assert_eq!(tree.get(d.get_key()).parent, None);
    assert!(tree.take_events().is_empty());
}

#[test]
fn append_links_parent_and_child() {
    let (tree, root, a, b, c) = three_widgets();
    assert_eq!(tree.get(root.get_key()).children, vec![a.get_key(), b.get_key(), c.get_key()]);
    assert_eq!(tree.get(b.get_key()).parent, Some(root.get_key()));
    assert_eq!(a.get_parent(&tree), Some(root));
    assert_eq!(root.get_first_child(&tree), Some(a));
    assert_eq!(a.get_next_sibling(&tree), Some(b));
    assert_eq!(c.get_next_sibling(&tree), None);
    assert_eq!(root.get_parent(&tree), None);
    assert_eq!(a.get_first_child(&tree), None);
}

#[test]
fn insert_before_places_child_before_reference() {
    let (mut tree, root, a, b, _c) = three_widgets();
    let d = widget(&mut tree, "d");
    root.insert_before(&mut tree, &d, Some(&b));
    assert_eq!(tree.get(root.get_key()).children[1], d.get_key());
    assert_eq!(tree.get(root.get_key()).children[2], b.get_key());
    assert_eq!(tree.get(d.get_key()).parent, Some(root.get_key()));
    assert_eq!(a.get_next_sibling(&tree), Some(d));
    let events = tree.take_events();
    assert_eq!(events.len(), 1);
    assert!(matches!(events[0], TreeEvent::Refresh));
}

#[test]
fn insert_before_unknown_reference_attaches_nothing() {
    let (mut tree, root, _a, _b, _c) = three_widgets();
    let d = widget(&mut tree, "d");
    let e = widget(&mut tree, "e");
    root.insert_before(&mut tree, &d, Some(&e));
    assert_eq!(tree.get(root.get_key()).children.len(), 3);
    assert_eq!(tree.get(d.get_key()).parent, None);
    assert!(!tree.get(d.get_key()).unmounted);
}

#[test]
fn child_with_own_z_index_is_not_attached() {
    let (mut tree, root, _a, _b, _c) = three_widgets();
    let d = widget(&mut tree, "d").z_index(&mut tree, 5);
    tree.take_events();
    root.append(&mut tree, &d);
    assert_eq!(tree.get(root.get_key()).children.len(), 3);
    assert_eq!(tree.get(d.get_key()).parent, None);
    assert!(tree.take_events().is_empty());
}

#[test]
fn roots_are_ordered_by_z_index_then_age() {
    let mut tree = NodeTree::new();
    let low = DomNode::div(&mut tree);
    let high = DomNode::div(&mut tree).z_index(&mut tree, 3);
    let also_low = DomNode::div(&mut tree);
    mount(&mut tree, &low);
    mount(&mut tree, &also_low);
    assert_eq!(tree.roots_asc(), vec![low.get_key(), also_low.get_key(), high.get_key()]);
    assert_eq!(tree.roots_desc(), vec![high.get_key(), also_low.get_key(), low.get_key()]);
    assert_eq!(tree.root(0), low.get_key());
    assert_eq!(tree.root(3), high.get_key());
}

#[test]
fn focus_next_walks_the_focusable_nodes_and_wraps() {
    let (mut tree, _root, a, b, c) = three_widgets();
    make_focusable(&mut tree, &[a, b, c]);
    focus_next(&mut tree);
    assert_eq!(tree.focused_key(), Some(a.get_key()));
    focus_next(&mut tree);
    assert_eq!(tree.focused_key(), Some(b.get_key()));
    focus_next(&mut tree);
    focus_next(&mut tree);
    assert_eq!(tree.focused_key(), Some(a.get_key()));
}

#[test]
fn focus_prev_starts_from_the_last_node() {
    let (mut tree, _root, a, b, c) = three_widgets();
    make_focusable(&mut tree, &[a, b, c]);
    focus_prev(&mut tree);
    assert_eq!(tree.focused_key(), Some(c.get_key()));
    focus_prev(&mut tree);
    assert_eq!(tree.focused_key(), Some(b.get_key()));
}

#[test]
fn focus_prev_undoes_focus_next() {
    let (mut tree, _root, a, b, c) = three_widgets();
    make_focusable(&mut tree, &[a, b, c]);
    for start in [a, b, c] {
        tree.set_focused(Some(start.get_key()));
        focus_next(&mut tree);
        focus_prev(&mut tree);
        assert_eq!(tree.focused_key(), Some(start.get_key()));
        focus_prev(&mut tree);
        focus_next(&mut tree);
        assert_eq!(tree.focused_key(), Some(start.get_key()));
    }
}

#[test]
fn focus_moves_tell_blur_change_and_focus() {
    let (mut tree, _root, a, b, _c) = three_widgets();
    let _ = a.id(&mut tree, NodeId::from_str("first"));
    let _ = b.id(&mut tree, NodeId::from_str("second"));
    tree.set_focused(Some(a.get_key()));
    tree.take_events();
    tree.set_focused(Some(b.get_key()));
    let events = tree.take_events();
    assert_eq!(events.len(), 4);
    match &events[0] {
        TreeEvent::Blur { key, new_target, .. } => {
            assert_eq!(*key, a.get_key());
            assert_eq!(new_target, &Some(NodeId::from_str("second")));
        }
        other => panic!("unexpected {other:?}"),
    }
    assert!(matches!(&events[1], TreeEvent::FocusChange(Some(id)) if *id == NodeId::from_str("second")));
    match &events[2] {
        TreeEvent::Focus { key, previous_target, .. } => {
            assert_eq!(*key, b.get_key());
            assert_eq!(previous_target, &Some(NodeId::from_str("first")));
        }
        other => panic!("unexpected {other:?}"),
    }
    assert!(matches!(events[3], TreeEvent::Refresh));
    assert_eq!(tree.focused(), &Some(NodeId::from_str("second")));
}

#[test]
fn clear_focus_blurs_the_focused_node() {
    let (mut tree, _root, a, _b, _c) = three_widgets();
    tree.set_focused(Some(a.get_key()));
    tree.take_events();
    clear_focus(&mut tree);
    assert_eq!(tree.focused_key(), None);
    let events = tree.take_events();
    assert!(matches!(events[0], TreeEvent::Blur { .. }));
}

#[test]
fn try_focus_id_finds_a_focusable_node() {
    let (mut tree, _root, a, b, _c) = three_widgets();
    make_focusable(&mut tree, &[b]);
    let _ = a.id(&mut tree, NodeId::from_str("target"));
    let _ = b.id(&mut tree, NodeId::from_str("target"));
    assert!(try_focus_id(&mut tree, NodeId::from_str("target")).is_ok());
    assert_eq!(tree.focused_key(), Some(b.get_key()));
}

#[test]
fn try_focus_id_reports_a_missing_node() {
    let (mut tree, _root, a, _b, _c) = three_widgets();
    let _ = a.id(&mut tree, NodeId::from_str("plain"));
    let err = try_focus_id(&mut tree, NodeId::from_str("plain")).unwrap_err();
    assert_eq!(err.0, NodeId::from_str("plain"));
    let err = try_focus_id(&mut tree, NodeId::from_str("nowhere")).unwrap_err();
    assert_eq!(err.0, NodeId::from_str("nowhere"));
    assert_eq!(tree.focused_key(), None);
}

#[test]
fn focus_id_focuses_the_named_node() {
    let (mut tree, _root, _a, _b, c) = three_widgets();
    make_focusable(&mut tree, &[c]);
    let _ = c.id(&mut tree, NodeId::new("c".to_string()));
    focus_id(&mut tree, NodeId::new("c".to_string()));
    assert_eq!(tree.focused_key(), Some(c.get_key()));
}

#[test]
fn focus_marks_any_node_with_the_id() {
    let (mut tree, _root, a, _b, _c) = three_widgets();
    let _ = a.id(&mut tree, NodeId::from_str("x"));
    tree.take_events();
    focus(&mut tree, NodeId::from_str("x"));
    assert_eq!(tree.focused_key(), Some(a.get_key()));
    let events = tree.take_events();
    assert!(events.iter().any(|e| matches!(e, TreeEvent::FocusChange(Some(id)) if *id == NodeId::from_str("x"))));
    assert!(events.iter().any(|e| matches!(e, TreeEvent::Focus { key, .. } if *key == a.get_key())));
    focus(&mut tree, NodeId::from_str("missing"));
    assert_eq!(tree.focused_key(), Some(a.get_key()));
    assert!(tree.take_events().is_empty());
}

/// root > mid > (leaf1, leaf2), plus a separate root.
fn nested() -> (NodeTree, DomNode, DomNode, DomNode, DomNode, DomNode) {
    let mut tree = NodeTree::new();
    let root = DomNode::div(&mut tree);
    let mid = DomNode::flex_row(&mut tree);
    let leaf1 = widget(&mut tree, "leaf1");
    let leaf2 = widget(&mut tree, "leaf2");
    let other = DomNode::div(&mut tree);
    mid.append(&mut tree, &leaf1);
    mid.append(&mut tree, &leaf2);
    root.append(&mut tree, &mid);
    mount(&mut tree, &root);
    tree.take_events();
    (tree, root, mid, leaf1, leaf2, other)
}

#[test]
fn unmount_child_with_cleanup_removes_the_subtree() {
    let (mut tree, root, mid, leaf1, leaf2, other) = nested();
    make_focusable(&mut tree, &[leaf1, leaf2]);
    tree.set_focused(Some(leaf2.get_key()));
    tree.set_hovered(leaf1.get_key());
    unmount_child(&mut tree, mid.get_key(), true);
    assert!(!tree.contains_key(mid.get_key()));
    assert!(!tree.contains_key(leaf1.get_key()));
    assert!(!tree.contains_key(leaf2.get_key()));
    assert!(tree.contains_key(root.get_key()));
    assert!(tree.contains_key(other.get_key()));
    assert!(tree.get(root.get_key()).children.is_empty());
    assert_eq!(tree.focused_key(), None);
    assert_eq!(tree.hovered_key(), None);
    assert_eq!(tree.len(), 2);
}

#[test]
fn unmount_child_without_cleanup_keeps_the_nodes() {
    let (mut tree, root, mid, leaf1, leaf2, _other) = nested();
    make_focusable(&mut tree, &[leaf1, leaf2]);
    tree.set_focused(Some(leaf1.get_key()));
    unmount_child(&mut tree, mid.get_key(), false);
    assert!(tree.contains_key(leaf1.get_key()));
    assert!(tree.get(root.get_key()).children.is_empty());
    assert_eq!(tree.get(mid.get_key()).parent, None);
    assert!(tree.get(mid.get_key()).unmounted);
    assert_eq!(tree.focused_key(), None);
    assert_eq!(tree.len(), 5);
    // The focusable records of the subtree are gone: focusing forward finds nothing.
    focus_next(&mut tree);
    assert_eq!(tree.focused_key(), None);
}

#[test]
fn cleanup_without_removal_only_drops_state() {
    let (mut tree, _root, mid, leaf1, _leaf2, _other) = nested();
    tree.set_hovered(leaf1.get_key());
    cleanup_removed_nodes(&mut tree, mid.get_key(), false);
    assert_eq!(tree.hovered_key(), None);
    assert_eq!(tree.len(), 5);
}

#[test]
fn cleanup_with_removal_of_a_detached_node() {
    let (mut tree, _root, _mid, _leaf1, _leaf2, other) = nested();
    let child = widget(&mut tree, "child");
    other.append(&mut tree, &child);
    cleanup_removed_nodes(&mut tree, other.get_key(), true);
    assert!(!tree.contains_key(other.get_key()));
    assert!(!tree.contains_key(child.get_key()));
    assert_eq!(tree.len(), 4);
}

#[test]
fn cleanup_with_removal_of_an_attached_node_takes_it_out_of_its_parent() {
    let (mut tree, root, mid, leaf1, leaf2, _other) = nested();
    cleanup_removed_nodes(&mut tree, mid.get_key(), true);
    assert!(tree.get(root.get_key()).children.is_empty());
    assert!(!tree.contains_key(mid.get_key()));
    assert!(!tree.contains_key(leaf1.get_key()));
    assert!(!tree.contains_key(leaf2.get_key()));
    assert_eq!(tree.len(), 2);
}

#[test]
fn clear_children_empties_the_parent_only() {
    let (mut tree, root, mid, leaf1, leaf2, other) = nested();
    clear_children(&mut tree, root.get_key());
    assert!(tree.contains_key(root.get_key()));
    assert!(tree.get(root.get_key()).children.is_empty());
    for gone in [mid, leaf1, leaf2] {
        assert!(!tree.contains_key(gone.get_key()));
    }
    assert!(tree.contains_key(other.get_key()));
}

#[test]
fn detach_then_attach_restores_the_children() {
    let (mut tree, root, a, b, c) = three_widgets();
    let before = tree.get(root.get_key()).children.clone();
    let d = widget(&mut tree, "d");
    root.insert_before(&mut tree, &d, Some(&b));
    tree.unmount_child(d.get_key());
    assert_eq!(tree.get(root.get_key()).children, before);
    assert_eq!(before, vec![a.get_key(), b.get_key(), c.get_key()]);
    assert_eq!(tree.get(d.get_key()).parent, None);
}

#[test]
fn replace_node_moves_properties_and_removes_the_old_node() {
    let (mut tree, root, a, _b, _c) = three_widgets();
    let _ = a.id(&mut tree, NodeId::from_str("old"));
    tree.set_block(a.get_key(), Some(ratatui::widgets::Block::bordered().title("box")));
    let fresh = DomNode::div(&mut tree);
    assert_eq!(tree.get(fresh.get_key()).block, None);
    let mut handle = a;
    handle.replace_node(&mut tree, &fresh);
    assert_eq!(handle.get_key(), fresh.get_key());
    assert!(!tree.contains_key(a.get_key()));
    assert_eq!(tree.get(fresh.get_key()).id, Some(NodeId::from_str("old")));
    assert_eq!(tree.get(fresh.get_key()).name, "a");
    assert_eq!(tree.get(fresh.get_key()).block, Some(ratatui::widgets::Block::bordered().title("box")));
    assert_eq!(tree.get(root.get_key()).children.len(), 2);
}

#[test]
fn print_dom_lists_nodes_in_document_order() {
    let (mut tree, root, mid, leaf1, leaf2, _other) = nested();
    let hidden = widget(&mut tree, "hidden");
    tree.set_name(hidden.get_key(), "Placeholder".to_string());
    leaf1.append(&mut tree, &hidden);
    let lines = print_dom(&tree);
    let open = |depth, node: DomNode| DomLine { depth, key: node.get_key(), open: true };
    let close = |depth, node: DomNode| DomLine { depth, key: node.get_key(), open: false };
    assert_eq!(
        lines,
        vec![
            open(0, root),
            open(1, mid),
            open(2, leaf1),
            close(2, leaf1),
            open(2, leaf2),
            close(2, leaf2),
            close(1, mid),
            close(0, root),
        ]
    );
}

#[test]
fn node_type_structure_names_the_kind() {
    assert_eq!(NodeType::Layout.structure().name, "Layout");
    assert_eq!(NodeType::Widget("text".to_string()).structure().name, "Widget");
    assert_eq!(NodeType::Placeholder.structure().name, "Placeholder");
    assert!(NodeType::Layout.structure().attrs.is_none());
}

#[test]
fn viewport_limits_are_recorded() {
    let mut tree = NodeTree::new();
    max_viewport_width(&mut tree, Some(80));
    max_viewport_height(&mut tree, Some(24));
    let v = tree.viewport_size();
    assert_eq!(v.max_width, Some(80));
    assert_eq!(v.max_height, Some(24));
    assert_eq!(tree.take_events().len(), 2);
    max_viewport_width(&mut tree, None);
    assert_eq!(tree.viewport_size().max_width, None);
}

#[test]
fn window_size_change_is_told_once() {
    let mut tree = NodeTree::new();
    let size = Rect { x: 0, y: 0, width: 100, height: 40 };
    tree.set_window_size(size);
    tree.set_window_size(size);
    let events = tree.take_events();
    assert_eq!(events.len(), 1);
    assert!(matches!(events[0], TreeEvent::WindowSizeChange(r) if r == size));
}

#[test]
fn unmount_starts_over() {
    let (mut tree, _root, _a, _b, _c) = three_widgets();
    unmount(&mut tree);
    assert_eq!(tree.len(), 0);
    assert!(tree.roots_asc().is_empty());
}

#[test]
fn clear_keeps_the_window_size() {
    let (mut tree, _root, _a, _b, _c) = three_widgets();
    let size = Rect { x: 0, y: 0, width: 10, height: 5 };
    tree.set_window_size(size);
    tree.clear();
    assert_eq!(tree.len(), 0);
    assert_eq!(tree.window_size(), size);
}

#[test]
fn flex_row_build_appends_children_in_order() {
    let mut tree = NodeTree::new();
    let a = widget(&mut tree, "a");
    let b = widget(&mut tree, "b");
    let c = widget(&mut tree, "c");
    let node = row(&mut tree, vec![a, b]).child(c).id(&mut tree, NodeId::from_str("row"));
    let built = node.build(&mut tree);
    assert_eq!(tree.get(built.get_key()).children, vec![a.get_key(), b.get_key(), c.get_key()]);
    assert_eq!(tree.get(built.get_key()).name, "flex_row");
    assert_eq!(tree.get(built.get_key()).id, Some(NodeId::from_str("row")));
    let column = col(&mut tree, vec![]).class(&mut tree, "stack".to_string()).build(&mut tree);
    assert_eq!(tree.get(column.get_key()).flex_direction, FlexDirection::Column);
    assert_eq!(tree.get(column.get_key()).class, Some("stack".to_string()));
}

#[test]
fn mount_child_appends_or_goes_before_a_marker() {
    let (mut tree, root, a, b, _c) = three_widgets();
    let d = widget(&mut tree, "d");
    let key = mount_child(&mut tree, MountKind::Before(b), &d);
    assert_eq!(key, d.get_key());
    assert_eq!(tree.get(root.get_key()).children[1], d.get_key());
    let e = widget(&mut tree, "e");
    mount_child(&mut tree, MountKind::Append(a), &e);
    assert_eq!(tree.get(a.get_key()).children, vec![e.get_key()]);
    let f = widget(&mut tree, "f");
    let lone = widget(&mut tree, "lone");
    mount_child(&mut tree, MountKind::Before(lone), &f);
    assert_eq!(tree.get(f.get_key()).parent, None);
}

#[test]
fn disabling_a_node_drops_its_focus() {
    let (mut tree, _root, a, _b, _c) = three_widgets();
    make_focusable(&mut tree, &[a]);
    tree.set_focused(Some(a.get_key()));
    tree.set_enabled(a.get_key(), false);
    assert_eq!(tree.focused_key(), None);
    assert!(!tree.get(a.get_key()).is_enabled());
    tree.add_focusable(a.get_key());
    focus_next(&mut tree);
    assert_eq!(tree.focused_key(), None);
}

#[test]
fn get_key_finds_the_first_node_with_an_id() {
    let (mut tree, _root, a, _b, _c) = three_widgets();
    let _ = a.id(&mut tree, NodeId::from_str("named"));
    assert_eq!(tree.get_key(&NodeId::from_str("named")), Some(a.get_key()));
    assert_eq!(tree.get_key(&NodeId::from_str("unnamed")), None);
}

#[test]
fn keys_compare_by_node() {
    let (tree, root, a, _b, _c) = three_widgets();
    let k: DomNodeKey = a.get_key();
    assert_eq!(tree.get(root.get_key()).children[0], k);
    assert_ne!(root.get_key(), k);
}

#[test]
fn removing_the_focused_node_blurs_it() {
    let (mut tree, _root, mid, leaf1, leaf2, _other) = nested();
    make_focusable(&mut tree, &[leaf1, leaf2]);
    let _ = leaf2.id(&mut tree, NodeId::from_str("leaf2"));
    tree.set_focused(Some(leaf2.get_key()));
    tree.take_events();
    unmount_child(&mut tree, mid.get_key(), true);
    let events: Vec<TreeEvent> = tree.take_events().into_iter().filter(|e| !matches!(e, TreeEvent::Refresh)).collect();
    assert_eq!(events.len(), 3);
    assert!(matches!(events[0], TreeEvent::Blur { key, new_target: None, .. } if key == leaf2.get_key()));
    assert!(matches!(events[1], TreeEvent::Blur { key, new_target: None, .. } if key == leaf2.get_key()));
    assert!(matches!(events[2], TreeEvent::FocusChange(None)));
}
