use std::cell::RefCell;

use rooibos::dom::dom_node::DomNode;
use rooibos::dom::mount;
use rooibos::dom::node_properties::{ClickHandlers, Display, FlexDirection, NodeProperties, NodeType, ScrollDirection};
use rooibos::dom::node_tree::{DomNodeKey, MatchBehavior, NodeTree};
use rooibos::dom::rect::{Position, Rect};
use rooibos::events::dispatcher::{
    bubble_event, dispatch_key_event, dispatch_mouse_button, dispatch_scroll_event, hit_test, search_roots, traverse, AllowDisabled, ClickButton,
    EventDispatcher, HandlerOutcome, HoverChange, KeyOutcome, WidgetAt,
};
use rooibos::events::key::{KeyCode, KeyEvent, KeyModifiers, CONTROL_BIT};

fn rect(x: u16, y: u16, width: u16, height: u16) -> Rect {
    Rect { x, y, width, height }
}

/// A root div covering 20x10 with two widgets side by side, each 10x10.
fn screen() -> (NodeTree, DomNode, DomNode, DomNode) {
    let mut tree = NodeTree::new();
    let root = DomNode::div(&mut tree);
    let left = DomNode::widget(&mut tree, "left".to_string());
    let right = DomNode::widget(&mut tree, "right".to_string());
    root.append(&mut tree, &left);
    root.append(&mut tree, &right);
    tree.set_rect(root.get_key(), rect(0, 0, 20, 10));
    tree.set_rect(left.get_key(), rect(0, 0, 10, 10));
    tree.set_rect(right.get_key(), rect(10, 0, 10, 10));
    mount(&mut tree, &root);
    tree.take_events();
    (tree, root, left, right)
}

#[test]
fn bubbling_climbs_to_the_root() {
    let (tree, root, left, _right) = screen();
    let seen = RefCell::new(Vec::new());
    let handled = bubble_event(&tree, left.get_key(), AllowDisabled::Disallow, |k: DomNodeKey| {
        seen.borrow_mut().push(k);
        if k == root.get_key() { HandlerOutcome::Handled } else { HandlerOutcome::Unhandled }
    });
    assert!(handled);
    assert_eq!(*seen.borrow(), vec![left.get_key(), root.get_key()]);
}

#[test]
fn bubbling_stops_where_a_handler_stops_it() {
    let (tree, _root, left, _right) = screen();
    let seen = RefCell::new(Vec::new());
    let handled = bubble_event(&tree, left.get_key(), AllowDisabled::Allow, |k: DomNodeKey| {
        seen.borrow_mut().push(k);
        HandlerOutcome::Stopped
    });
    assert!(handled);
    assert_eq!(*seen.borrow(), vec![left.get_key()]);
}

#[test]
fn bubbling_skips_a_disabled_node_unless_allowed() {
    let (mut tree, _root, left, _right) = screen();
    tree.set_enabled(left.get_key(), false);
    let count = RefCell::new(0);
    let handled = bubble_event(&tree, left.get_key(), AllowDisabled::Disallow, |_k: DomNodeKey| {
        *count.borrow_mut() += 1;
        HandlerOutcome::Handled
    });
    assert!(!handled);
    assert_eq!(*count.borrow(), 0);
    let handled = bubble_event(&tree, left.get_key(), AllowDisabled::Allow, |_k: DomNodeKey| {
        *count.borrow_mut() += 1;
        HandlerOutcome::Unhandled
    });
    assert!(!handled);
    assert_eq!(*count.borrow(), 2);
}

#[test]
fn traverse_finds_the_widget_under_a_position() {
    let (tree, root, left, right) = screen();
    let found = traverse(&tree, root.get_key(), &WidgetAt { position: Position { x: 12, y: 3 } }, MatchBehavior::SearchChildrenOnMatch);
    assert_eq!(found, vec![right.get_key()]);
    let found = traverse(&tree, root.get_key(), &WidgetAt { position: Position { x: 2, y: 3 } }, MatchBehavior::ContinueOnMatch);
    assert_eq!(found, vec![left.get_key()]);
    let found = traverse(&tree, root.get_key(), &WidgetAt { position: Position { x: 30, y: 3 } }, MatchBehavior::StopOnFistMatch);
    assert!(found.is_empty());
}

#[test]
fn search_roots_prefers_the_highest_root() {
    let (mut tree, _root, left, _right) = screen();
    let popup = DomNode::widget(&mut tree, "popup".to_string()).z_index(&mut tree, 1);
    tree.set_rect(popup.get_key(), rect(0, 0, 5, 5));
    let m = WidgetAt { position: Position { x: 1, y: 1 } };
    assert_eq!(search_roots(&tree, &m, MatchBehavior::SearchChildrenOnMatch), Some(popup.get_key()));
    let m = WidgetAt { position: Position { x: 7, y: 7 } };
    assert_eq!(search_roots(&tree, &m, MatchBehavior::SearchChildrenOnMatch), Some(left.get_key()));
}

#[test]
fn mouse_moves_change_the_hover() {
    let (mut tree, _root, left, right) = screen();
    let mut d = EventDispatcher::new();
    let change = d.dispatch_mouse_moved(&mut tree, Position { x: 1, y: 1 });
    assert_eq!(change, HoverChange { leave: None, enter: Some(left.get_key()) });
    assert_eq!(tree.hovered_key(), Some(left.get_key()));
    let change = d.dispatch_mouse_moved(&mut tree, Position { x: 2, y: 2 });
    assert_eq!(change, HoverChange { leave: None, enter: None });
    let change = d.dispatch_mouse_moved(&mut tree, Position { x: 15, y: 2 });
    assert_eq!(change, HoverChange { leave: Some(left.get_key()), enter: Some(right.get_key()) });
    let change = d.dispatch_mouse_moved(&mut tree, Position { x: 50, y: 50 });
    assert_eq!(change, HoverChange { leave: Some(right.get_key()), enter: None });
    assert_eq!(tree.hovered_key(), None);
    assert_eq!(d.last_mouse_position, Position { x: 50, y: 50 });
}

#[test]
fn hidden_widgets_are_not_hovered() {
    let (mut tree, _root, left, _right) = screen();
    tree.set_visible(left.get_key(), false);
    let mut d = EventDispatcher::new();
    let change = d.dispatch_mouse_moved(&mut tree, Position { x: 1, y: 1 });
    assert_eq!(change.enter, None);
}

#[test]
fn reset_mouse_position_hovers_again() {
    let (mut tree, _root, left, _right) = screen();
    let mut d = EventDispatcher::new();
    d.dispatch_mouse_moved(&mut tree, Position { x: 1, y: 1 });
    tree.remove_hovered();
    let change = d.reset_mouse_position(&mut tree);
    assert_eq!(change.enter, Some(left.get_key()));
    assert_eq!(tree.hovered_key(), Some(left.get_key()));
}

#[test]
fn fresh_dispatcher_hovers_nothing() {
    let (mut tree, _root, _left, _right) = screen();
    let mut d = EventDispatcher::new();
    let change = d.reset_mouse_position(&mut tree);
    assert_eq!(change, HoverChange { leave: None, enter: None });
}

#[test]
fn click_focuses_the_innermost_focusable_node_and_runs_handlers_outward() {
    let (mut tree, root, left, _right) = screen();
    tree.set_focusable(left.get_key(), true);
    tree.set_click_handlers(root.get_key(), ClickHandlers { left: true, right: false, middle: false });
    assert_eq!(hit_test(&tree, Position { x: 1, y: 1 }, ClickButton::Left), vec![root.get_key(), left.get_key()]);
    let ran = RefCell::new(Vec::new());
    dispatch_mouse_button(&mut tree, Position { x: 1, y: 1 }, ClickButton::Left, |k: DomNodeKey| {
        ran.borrow_mut().push(k);
        false
    });
    assert_eq!(tree.focused_key(), Some(left.get_key()));
    assert_eq!(*ran.borrow(), vec![left.get_key(), root.get_key()]);
}

#[test]
fn a_stopped_click_goes_no_further_once_focus_is_set() {
    let (mut tree, root, left, _right) = screen();
    tree.set_focusable(left.get_key(), true);
    tree.set_click_handlers(root.get_key(), ClickHandlers { left: true, right: false, middle: false });
    let ran = RefCell::new(Vec::new());
    dispatch_mouse_button(&mut tree, Position { x: 1, y: 1 }, ClickButton::Left, |k: DomNodeKey| {
        ran.borrow_mut().push(k);
        true
    });
    assert_eq!(*ran.borrow(), vec![left.get_key()]);
    assert_eq!(tree.focused_key(), Some(left.get_key()));
}

#[test]
fn clicking_nothing_changes_nothing() {
    let (mut tree, _root, _left, _right) = screen();
    assert!(hit_test(&tree, Position { x: 1, y: 1 }, ClickButton::Right).is_empty());
    let ran = RefCell::new(0);
    dispatch_mouse_button(&mut tree, Position { x: 1, y: 1 }, ClickButton::Right, |_k: DomNodeKey| {
        *ran.borrow_mut() += 1;
        false
    });
    assert_eq!(*ran.borrow(), 0);
    assert_eq!(tree.focused_key(), None);
}

#[test]
fn control_x_toggles_the_printed_document() {
    let (tree, _root, _left, _right) = screen();
    let e = KeyEvent::new(KeyCode::Char('x'), KeyModifiers::from_bits_retain(CONTROL_BIT));
    let ran = RefCell::new(0);
    let outcome = dispatch_key_event(&tree, &e, |_k: DomNodeKey| {
        *ran.borrow_mut() += 1;
        HandlerOutcome::Handled
    });
    assert_eq!(outcome, KeyOutcome::TogglePrintDom);
    assert_eq!(*ran.borrow(), 0);
}

#[test]
fn keys_go_to_the_focused_node_first() {
    let (mut tree, root, left, _right) = screen();
    tree.set_focused(Some(left.get_key()));
    let seen = RefCell::new(Vec::new());
    let e = KeyEvent::new(KeyCode::Char('x'), KeyModifiers::empty());
    let outcome = dispatch_key_event(&tree, &e, |k: DomNodeKey| {
        seen.borrow_mut().push(k);
        HandlerOutcome::Unhandled
    });
    assert_eq!(outcome, KeyOutcome::Focused(false));
    assert_eq!(*seen.borrow(), vec![left.get_key(), root.get_key()]);
}

#[test]
fn without_focus_keys_go_to_the_roots_until_handled() {
    let (mut tree, root, _left, _right) = screen();
    let popup = DomNode::div(&mut tree).z_index(&mut tree, 2);
    let seen = RefCell::new(Vec::new());
    let e = KeyEvent::new(KeyCode::Enter, KeyModifiers::empty());
    let outcome = dispatch_key_event(&tree, &e, |k: DomNodeKey| {
        seen.borrow_mut().push(k);
        if k == root.get_key() { HandlerOutcome::Handled } else { HandlerOutcome::Unhandled }
    });
    assert_eq!(outcome, KeyOutcome::Roots(true));
    assert_eq!(*seen.borrow(), vec![popup.get_key(), root.get_key()]);
    let outcome = dispatch_key_event(&tree, &e, |_k: DomNodeKey| HandlerOutcome::Unhandled);
    assert_eq!(outcome, KeyOutcome::Roots(false));
}

fn scrollable(tree: &mut NodeTree, node: DomNode, max: Position) {
    let old = tree.get(node.get_key());
    let mut props = NodeProperties::new(old.name.clone(), old.node_type.clone(), old.original_display, old.flex_direction);
    props.parent = old.parent;
    props.children = old.children.clone();
    props.rect = old.rect;
    props.max_scroll_offset = max;
    tree.replace_inner(node.get_key(), props);
}

#[test]
fn wheel_scrolls_the_innermost_scrollable_node() {
    let (mut tree, root, left, _right) = screen();
    scrollable(&mut tree, root, Position { x: 0, y: 5 });
    scrollable(&mut tree, left, Position { x: 0, y: 2 });
    let target = dispatch_scroll_event(&mut tree, Position { x: 1, y: 1 }, ScrollDirection::Down);
    assert_eq!(target, Some(left.get_key()));
    assert_eq!(tree.get(left.get_key()).scroll_offset, Position { x: 0, y: 1 });
    assert_eq!(tree.get(root.get_key()).scroll_offset, Position { x: 0, y: 0 });
    let target = dispatch_scroll_event(&mut tree, Position { x: 15, y: 1 }, ScrollDirection::Down);
    assert_eq!(target, Some(root.get_key()));
    let target = dispatch_scroll_event(&mut tree, Position { x: 40, y: 1 }, ScrollDirection::Down);
    assert_eq!(target, None);
}

#[test]
fn scrolling_stays_between_zero_and_the_maximum() {
    let (mut tree, _root, left, _right) = screen();
    scrollable(&mut tree, left, Position { x: 2, y: 3 });
    let k = left.get_key();
    assert_eq!(tree.scroll(k, ScrollDirection::Up), (0, 0));
    for _ in 0..10 {
        tree.scroll(k, ScrollDirection::Down);
    }
    assert_eq!(tree.get(k).scroll_offset, Position { x: 0, y: 3 });
    assert_eq!(tree.scroll(k, ScrollDirection::Up), (0, -1));
    assert_eq!(tree.scroll(k, ScrollDirection::Right), (1, 0));
    assert_eq!(tree.scroll(k, ScrollDirection::Left), (-1, 0));
    assert_eq!(tree.get(k).scroll_offset, Position { x: 0, y: 2 });
}

#[test]
fn ancestor_scroll_offsets_do_not_go_below_zero() {
    let mut props = NodeProperties::new("n".to_string(), NodeType::Layout, Display::Block, FlexDirection::Row);
    props.ancestor_scroll_offset = Position { x: 3, y: 3 };
    props.update_ancestor_scroll_offsets((-5, 2));
    assert_eq!(props.ancestor_scroll_offset, Position { x: 0, y: 5 });
}
