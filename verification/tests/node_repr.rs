use std::cell::RefCell;

use rooibos::borders::{BorderInsets, BorderType, Borders};
use rooibos::dom::dom_node::{DomNode, NodeId};
use rooibos::dom::node_properties::{ClickHandlers, Display, FlexDirection, NodeProperties, NodeType};
use rooibos::dom::node_repr::{DomNodeRepr, IdMatcher, NodeTypeRepr};
use rooibos::dom::node_tree::{DomNodeKey, NodeTree};
use rooibos::dom::rect::Rect;
use rooibos::dom::render::{children_extent, render_plan};
use rooibos::dom::{mount, root};
use rooibos::dom::rect::Position;
use rooibos::events::dispatcher::WidgetAt;
use rooibos::router::{Route, RouteContext, Router};

fn rect(x: u16, y: u16, width: u16, height: u16) -> Rect {
    Rect { x, y, width, height }
}

/// A root div holding a row, which holds the widgets "a" (class "item") and "b"
/// (class "item", id "target"); a third widget "c" sits under the root.
fn document() -> (NodeTree, DomNode, DomNode, DomNode, DomNode, DomNode) {
    let mut tree = NodeTree::new();
    let top = DomNode::div(&mut tree);
    let row = DomNode::flex_row(&mut tree);
    let a = DomNode::widget(&mut tree, "a".to_string()).class(&mut tree, "item".to_string());
    let b = DomNode::widget(&mut tree, "b".to_string())
        .class(&mut tree, "item".to_string())
        .id(&mut tree, NodeId::new("target".to_string()));
    let c = DomNode::widget(&mut tree, "c".to_string());
    row.append(&mut tree, &a);
    row.append(&mut tree, &b);
    top.append(&mut tree, &row);
    top.append(&mut tree, &c);
    tree.set_rect(top.get_key(), rect(0, 0, 20, 10));
    tree.set_rect(row.get_key(), rect(0, 0, 20, 5));
    tree.set_rect(a.get_key(), rect(0, 0, 10, 5));
    tree.set_rect(b.get_key(), rect(10, 0, 10, 5));
    tree.set_rect(c.get_key(), rect(0, 5, 20, 5));
    mount(&mut tree, &top);
    tree.take_events();
    (tree, top, row, a, b, c)
}

fn snapshot(tree: &NodeTree, n: &DomNode) -> DomNodeRepr {
    DomNodeRepr::from_node(n.get_key(), tree.get(n.get_key()))
}

#[test]
fn root_is_the_mounted_top_node() {
    let (tree, top, _row, _a, _b, _c) = document();
    let r = root(&tree);
    assert_eq!(r, snapshot(&tree, &top));
    assert_eq!(r.rect(), rect(0, 0, 20, 10));
    assert_eq!(r.node_type(), NodeTypeRepr::Layout);
    assert_eq!(r.children_count(&tree), 2);
}

#[test]
fn snapshots_give_the_kind_of_node() {
    let mut tree = NodeTree::new();
    let p = DomNode::placeholder(&mut tree);
    let w = DomNode::widget(&mut tree, "w".to_string());
    assert_eq!(snapshot(&tree, &p).node_type(), NodeTypeRepr::Placeholder);
    assert_eq!(snapshot(&tree, &w).node_type(), NodeTypeRepr::Widget);
    assert!(matches!(tree.get(w.get_key()).node_type, NodeType::Widget(_)));
}

#[test]
fn find_by_id_searches_the_subtree() {
    let (tree, _top, row, _a, b, c) = document();
    let r = root(&tree);
    assert_eq!(r.find_by_id(&tree, NodeId::new("target".to_string())), Some(snapshot(&tree, &b)));
    assert_eq!(r.get_by_id(&tree, NodeId::new("target".to_string())), snapshot(&tree, &b));
    assert_eq!(r.find_by_id(&tree, NodeId::new("missing".to_string())), None);
    let under_c = snapshot(&tree, &c);
    assert_eq!(under_c.find_by_id(&tree, NodeId::new("target".to_string())), None);
    let under_row = snapshot(&tree, &row);
    assert_eq!(under_row.find(&tree, &IdMatcher { id: NodeId::new("target".to_string()) }), Some(snapshot(&tree, &b)));
}

#[test]
fn find_all_by_class_keeps_depth_first_order() {
    let (tree, _top, _row, a, b, _c) = document();
    let r = root(&tree);
    assert_eq!(r.find_all_by_class(&tree, "item".to_string()), vec![snapshot(&tree, &a), snapshot(&tree, &b)]);
    assert!(r.find_all_by_class(&tree, "none".to_string()).is_empty());
}

#[test]
fn find_with_a_matcher_stops_at_the_first_match() {
    let (tree, _top, _row, a, b, c) = document();
    let r = root(&tree);
    let at = WidgetAt { position: Position { x: 12, y: 1 } };
    assert_eq!(r.find(&tree, &at), Some(snapshot(&tree, &b)));
    assert_eq!(r.get(&tree, &WidgetAt { position: Position { x: 3, y: 7 } }), snapshot(&tree, &c));
    assert_eq!(r.find_all(&tree, &WidgetAt { position: Position { x: 3, y: 2 } }), vec![snapshot(&tree, &a)]);
    assert_eq!(r.find(&tree, &WidgetAt { position: Position { x: 30, y: 30 } }), None);
}

#[test]
fn focus_and_is_focused_follow_the_document() {
    let (mut tree, _top, _row, a, b, _c) = document();
    let sa = snapshot(&tree, &a);
    let sb = snapshot(&tree, &b);
    assert!(!sa.is_focused(&tree));
    sa.focus(&mut tree);
    assert_eq!(tree.focused_key(), Some(a.get_key()));
    assert!(sa.is_focused(&tree));
    assert!(!sb.is_focused(&tree));
    sb.focus(&mut tree);
    assert!(sb.is_focused(&tree));
    assert!(!sa.is_focused(&tree));
}

#[test]
fn a_snapshot_of_a_removed_node_cannot_take_focus() {
    let mut tree = NodeTree::new();
    let w = DomNode::widget(&mut tree, "w".to_string());
    let s = snapshot(&tree, &w);
    tree.remove(w.get_key());
    s.focus(&mut tree);
    assert_eq!(tree.focused_key(), None);
    assert!(s.is_focused(&tree));
}

#[test]
fn click_hits_the_top_left_cell_of_the_node() {
    let (mut tree, top, _row, _a, b, _c) = document();
    tree.set_focusable(b.get_key(), true);
    tree.set_click_handlers(top.get_key(), ClickHandlers { left: true, right: false, middle: false });
    let ran = RefCell::new(Vec::new());
    snapshot(&tree, &b).click(&mut tree, |k: DomNodeKey| {
        ran.borrow_mut().push(k);
        false
    });
    assert_eq!(tree.focused_key(), Some(b.get_key()));
    assert_eq!(*ran.borrow(), vec![b.get_key(), top.get_key()]);
}

#[test]
fn borders_take_one_cell_on_each_bordered_side() {
    assert_eq!(Borders::all().to_rect(), BorderInsets { top: 1, bottom: 1, left: 1, right: 1 });
    assert_eq!(Borders::top().to_rect(), BorderInsets { top: 1, bottom: 0, left: 0, right: 0 });
    assert_eq!(Borders::bottom().to_rect(), BorderInsets { top: 0, bottom: 1, left: 0, right: 0 });
    assert_eq!(Borders::left().to_rect(), BorderInsets { top: 0, bottom: 0, left: 1, right: 0 });
    assert_eq!(Borders::right().to_rect(), BorderInsets { top: 0, bottom: 0, left: 0, right: 1 });
    assert_eq!(Borders::x().to_rect(), BorderInsets { top: 0, bottom: 0, left: 1, right: 1 });
    assert_eq!(Borders::y().to_rect(), BorderInsets { top: 1, bottom: 1, left: 0, right: 0 });
    assert_eq!(Borders::default().to_rect(), BorderInsets { top: 0, bottom: 0, left: 0, right: 0 });
}

#[test]
fn border_styles_keep_the_sides() {
    let b = Borders::x().round().title("t".to_string()).double().border_type(BorderType::Thick).empty();
    assert_eq!(b.to_rect(), BorderInsets { top: 0, bottom: 0, left: 1, right: 1 });
}

#[test]
fn use_param_and_use_query_read_the_current_route() {
    let router = Router::new()
        .routes(vec![Route::new("/".to_string(), ()), Route::new("/users/{id}".to_string(), ())])
        .initial("/".to_string());
    let mut ctx = RouteContext::new(&router).unwrap();
    ctx.push("/users/7?sort=asc");
    assert_eq!(ctx.use_param("id"), "7");
    assert_eq!(ctx.use_query("sort"), "asc");
}

#[test]
fn replace_with_takes_over_what_the_node_shows_and_keeps_its_links() {
    let mut tree = NodeTree::new();
    let parent = DomNode::div(&mut tree);
    let mut target = NodeProperties::new("old".to_string(), NodeType::Layout, Display::Flex, FlexDirection::Row);
    target.parent = Some(parent.get_key());
    target.z_index = Some(3);
    target.ancestor_scroll_offset = Position { x: 1, y: 1 };
    let mut source = NodeProperties::new("new".to_string(), NodeType::Widget("w".to_string()), Display::Block, FlexDirection::Column);
    source.id = Some(NodeId::new("n".to_string()));
    source.class = Some("c".to_string());
    source.focusable = true;
    source.rect = rect(1, 2, 3, 4);
    source.scroll_offset = Position { x: 0, y: 2 };
    source.max_scroll_offset = Position { x: 0, y: 5 };
    source.enabled = false;
    target.replace_with(&source);
    assert_eq!(target.name, "new");
    assert!(matches!(target.node_type, NodeType::Widget(ref w) if w == "w"));
    assert_eq!(target.id, Some(NodeId::new("n".to_string())));
    assert_eq!(target.class, Some("c".to_string()));
    assert!(target.focusable);
    assert_eq!(target.rect, rect(1, 2, 3, 4));
    assert_eq!(target.original_display, Display::Block);
    assert_eq!(target.scroll_offset, Position { x: 0, y: 2 });
    assert_eq!(target.max_scroll_offset, Position { x: 0, y: 5 });
    assert!(!target.enabled);
    assert_eq!(target.parent, Some(parent.get_key()));
    assert_eq!(target.z_index, Some(3));
    assert_eq!(target.ancestor_scroll_offset, Position { x: 1, y: 1 });
    assert_eq!(target.flex_direction, FlexDirection::Row);
}

#[test]
fn union_covers_both_rectangles() {
    assert_eq!(rect(0, 0, 2, 2).union(rect(3, 1, 2, 4)), rect(0, 0, 5, 5));
    assert_eq!(rect(5, 5, 1, 1).union(rect(1, 2, 1, 1)), rect(1, 2, 5, 4));
    assert_eq!(rect(65530, 0, 10, 1).union(rect(0, 0, 1, 1)), rect(0, 0, 65535, 1));
}

#[test]
fn render_plan_draws_a_node_inside_its_parent_directly() {
    let parent = rect(0, 0, 20, 10);
    let plan = render_plan(rect(0, 2, 10, 3), rect(0, 2, 10, 3), parent, Position { x: 0, y: 0 }, false, rect(0, 2, 10, 3));
    assert_eq!(plan.height_above_parent, 0);
    assert!(!plan.needs_buffer);
    assert!(plan.needs_render);
    assert!(!plan.resized);
}

#[test]
fn render_plan_buffers_a_node_that_overflows_and_culls_one_below() {
    let parent = rect(0, 0, 20, 10);
    let plan = render_plan(rect(0, 8, 10, 5), rect(0, 8, 10, 5), parent, Position { x: 0, y: 1 }, false, rect(0, 0, 0, 0));
    assert_eq!(plan.height_above_parent, 2);
    assert!(plan.needs_buffer);
    assert!(plan.needs_render);
    assert!(plan.resized);
    let below = render_plan(rect(0, 12, 10, 5), rect(0, 12, 10, 5), parent, Position { x: 0, y: 0 }, true, rect(0, 12, 10, 5));
    assert_eq!(below.height_above_parent, 7);
    assert!(below.needs_buffer);
    assert!(!below.needs_render);
}

#[test]
fn children_extent_skips_empty_children() {
    assert_eq!(children_extent(&vec![]), rect(0, 0, 0, 0));
    assert_eq!(children_extent(&vec![rect(4, 4, 0, 3), rect(1, 1, 2, 0)]), rect(0, 0, 0, 0));
    assert_eq!(children_extent(&vec![rect(4, 4, 0, 3), rect(2, 3, 2, 2), rect(6, 1, 1, 1)]), rect(2, 1, 5, 4));
}
