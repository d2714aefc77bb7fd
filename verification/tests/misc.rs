use std::cell::RefCell;

use rooibos::borders::{default_border_properties, BorderProperties, BorderType};
use rooibos::component::{drain_filter, is_color, is_style};
use rooibos::error_boundary::{boundary_action, BoundaryAction, ErrorBoundaryErrorHook, Errors};
use rooibos::list_view::clicked_item;
use rooibos::dom::node_properties::FocusScope;
use rooibos::dom::rect::{Position, Rect};
use rooibos::events::{
    EventHandle, NodeState, NodeStateTracker, StateChangeCause, DISABLED_BIT, FOCUSED_BIT, HOVERED_BIT,
};

#[test]
fn drain_filter_removes_matching_items_in_place() {
    let mut v = vec![1, 2, 3, 4, 5, 6];
    drain_filter(&mut v, |x: &i32| *x % 2 == 0);
    assert_eq!(v, vec![1, 3, 5]);
}

#[test]
fn drain_filter_asks_each_item_once_in_order() {
    let mut v = vec!['a', 'b', 'c'];
    let asked = RefCell::new(Vec::new());
    drain_filter(&mut v, |c: &char| {
        asked.borrow_mut().push(*c);
        *c == 'b'
    });
    assert_eq!(v, vec!['a', 'c']);
    assert_eq!(*asked.borrow(), vec!['a', 'b', 'c']);
}

#[test]
fn drain_filter_on_empty_and_all() {
    let mut empty: Vec<u8> = vec![];
    drain_filter(&mut empty, |_x: &u8| true);
    assert!(empty.is_empty());
    let mut all = vec![1u8, 2, 3];
    drain_filter(&mut all, |_x: &u8| true);
    assert!(all.is_empty());
}

#[test]
fn style_and_color_names() {
    assert!(is_style("Style"));
    assert!(is_style("rooibos_theme::Style"));
    assert!(is_style("ratatui::style::Style"));
    assert!(!is_style("Color"));
    assert!(!is_style("style"));
    assert!(is_color("Color"));
    assert!(is_color("rooibos_theme::Color"));
    assert!(is_color("ratatui::style::Color"));
    assert!(!is_color("Colour"));
}

#[test]
fn border_defaults() {
    assert_eq!(BorderType::default(), BorderType::Solid);
    let d = BorderProperties::default();
    assert_eq!(d.primary, BorderType::Solid);
    assert_eq!(d.disabled, BorderType::Solid);
    let t = default_border_properties();
    assert_eq!(t.primary, BorderType::Round);
    assert_eq!(t.active, BorderType::Double);
    assert_eq!(t.hovered, BorderType::Double);
    assert_eq!(t.disabled, BorderType::Inner);
}

#[test]
fn event_handle_stops_for_good() {
    let mut h = EventHandle::default();
    assert!(!h.get_stop_propagation());
    h.stop_propagation();
    assert!(h.get_stop_propagation());
    h.stop_propagation();
    assert!(h.get_stop_propagation());
}

#[test]
fn state_tracker_reports_each_change() {
    let mut t = NodeStateTracker::new();
    assert_eq!(t.state().bits, 0);
    let e = t.apply(StateChangeCause::Focus);
    assert_eq!(e.cause, StateChangeCause::Focus);
    assert_eq!(e.state.bits, FOCUSED_BIT);
    let e = t.apply(StateChangeCause::MouseEnter);
    assert_eq!(e.state.bits, FOCUSED_BIT | HOVERED_BIT);
    let e = t.apply(StateChangeCause::Disable);
    assert_eq!(e.state.bits, FOCUSED_BIT | HOVERED_BIT | DISABLED_BIT);
    let e = t.apply(StateChangeCause::Blur);
    assert_eq!(e.state.bits, HOVERED_BIT | DISABLED_BIT);
    let e = t.apply(StateChangeCause::MouseLeave);
    assert_eq!(e.state.bits, DISABLED_BIT);
    let e = t.apply(StateChangeCause::Enable);
    assert_eq!(e.state.bits, 0);
}

#[test]
fn later_change_to_a_flag_wins() {
    let mut t = NodeStateTracker::new();
    t.apply(StateChangeCause::Focus);
    t.apply(StateChangeCause::Blur);
    assert_eq!(t, NodeStateTracker::new());
}

#[test]
fn node_state_bits() {
    let mut s = NodeState::empty();
    s.insert(NodeState { bits: HOVERED_BIT });
    assert!(s.contains(NodeState { bits: HOVERED_BIT }));
    assert!(!s.contains(NodeState { bits: FOCUSED_BIT }));
}

#[test]
fn rect_contains_its_inside_only() {
    let r = Rect { x: 2, y: 3, width: 4, height: 2 };
    assert!(r.contains(Position { x: 2, y: 3 }));
    assert!(r.contains(Position { x: 5, y: 4 }));
    assert!(!r.contains(Position { x: 6, y: 4 }));
    assert!(!r.contains(Position { x: 2, y: 5 }));
    assert_eq!(r.right(), 6);
    assert_eq!(r.bottom(), 5);
    let edge = Rect { x: u16::MAX - 1, y: 0, width: 10, height: 1 };
    assert_eq!(edge.right(), u16::MAX);
}

#[test]
fn focus_scope_starts_empty() {
    let s = FocusScope::new(4);
    assert_eq!(s, FocusScope { last_focused: None, contain: false, id: 4 });
}

#[test]
fn a_click_hits_the_item_whose_rows_cover_it() {
    let heights = vec![1u16, 2, 3];
    assert_eq!(clicked_item(2, 2, &heights), Some(0));
    assert_eq!(clicked_item(2, 3, &heights), Some(1));
    assert_eq!(clicked_item(2, 4, &heights), Some(1));
    assert_eq!(clicked_item(2, 5, &heights), Some(2));
    assert_eq!(clicked_item(2, 7, &heights), Some(2));
    assert_eq!(clicked_item(2, 8, &heights), None);
    assert_eq!(clicked_item(0, 0, &vec![0, 1]), Some(1));
    assert_eq!(clicked_item(0, 0, &vec![]), None);
}

#[test]
fn an_error_boundary_swaps_views_only_when_the_errors_change() {
    assert_eq!(boundary_action(true, None), BoundaryAction::Build { with_fallback: false });
    assert_eq!(boundary_action(false, None), BoundaryAction::Build { with_fallback: true });
    assert_eq!(boundary_action(true, Some(true)), BoundaryAction::ShowChildren);
    assert_eq!(boundary_action(false, Some(false)), BoundaryAction::ShowFallback);
    assert_eq!(boundary_action(true, Some(false)), BoundaryAction::Keep);
    assert_eq!(boundary_action(false, Some(true)), BoundaryAction::Keep);
}

#[test]
fn errors_are_stored_and_taken_out_by_key() {
    let mut errors: Errors<&str> = Errors::default();
    assert!(errors.is_empty());
    errors.insert(4, "four");
    errors.insert_with_default_key("default");
    assert!(!errors.is_empty());
    errors.insert(4, "again");
    assert_eq!(errors.remove(4), Some("again"));
    assert_eq!(errors.remove(4), None);
    assert_eq!(errors.remove(0), Some("default"));
    assert!(errors.is_empty());
}

#[test]
fn the_hook_numbers_thrown_errors_and_clears_them() {
    let mut hook = ErrorBoundaryErrorHook::new(vec![(7, "seven"), (7, "later")]);
    assert!(!hook.errors_empty());
    let a = hook.throw("a");
    let b = hook.throw("b");
    assert_eq!((a, b), (0, 1));
    hook.clear(7);
    hook.clear(a);
    assert!(!hook.errors_empty());
    hook.clear(b);
    assert!(hook.errors_empty());
    let empty: ErrorBoundaryErrorHook<&str> = ErrorBoundaryErrorHook::new(Vec::new());
    assert!(empty.errors_empty());
}
