use rooibos::dom::dom_node::{DomNode, IdCounter, NodeId};
use rooibos::dom::flex_node::row;
use rooibos::dom::node_tree::NodeTree;
use rooibos::dom::rect::{Position, Rect};
use rooibos::dom::render::NodeLayout;
use rooibos::events::EventHandle;

fn rect(x: u16, y: u16, width: u16, height: u16) -> Rect {
    Rect { x, y, width, height }
}

#[test]
fn appending_a_child_that_has_a_parent_moves_it() {
    let mut tree = NodeTree::new();
    let a = DomNode::div(&mut tree);
    let b = DomNode::div(&mut tree);
    let w = DomNode::widget(&mut tree, "w".to_string());
    let x = DomNode::widget(&mut tree, "x".to_string());
    a.append(&mut tree, &w);
    a.append(&mut tree, &x);
    b.append(&mut tree, &w);
    assert_eq!(tree.get(a.get_key()).children, vec![x.get_key()]);
    assert_eq!(tree.get(b.get_key()).children, vec![w.get_key()]);
    assert_eq!(tree.get(w.get_key()).parent, Some(b.get_key()));
}

#[test]
fn moving_a_child_before_a_sibling_reorders_it() {
    let mut tree = NodeTree::new();
    let a = DomNode::div(&mut tree);
    let w = DomNode::widget(&mut tree, "w".to_string());
    let x = DomNode::widget(&mut tree, "x".to_string());
    let y = DomNode::widget(&mut tree, "y".to_string());
    a.append(&mut tree, &w);
    a.append(&mut tree, &x);
    a.append(&mut tree, &y);
    a.insert_before(&mut tree, &y, Some(&w));
    assert_eq!(tree.get(a.get_key()).children, vec![y.get_key(), w.get_key(), x.get_key()]);
    a.append(&mut tree, &y);
    assert_eq!(tree.get(a.get_key()).children, vec![w.get_key(), x.get_key(), y.get_key()]);
}

#[test]
fn a_reference_that_is_not_a_child_leaves_a_parented_child_in_place() {
    let mut tree = NodeTree::new();
    let a = DomNode::div(&mut tree);
    let b = DomNode::div(&mut tree);
    let w = DomNode::widget(&mut tree, "w".to_string());
    let stray = DomNode::widget(&mut tree, "s".to_string());
    a.append(&mut tree, &w);
    b.insert_before(&mut tree, &w, Some(&stray));
    assert_eq!(tree.get(a.get_key()).children, vec![w.get_key()]);
    assert!(tree.get(b.get_key()).children.is_empty());
    b.insert_before(&mut tree, &w, Some(&w));
    assert_eq!(tree.get(w.get_key()).parent, Some(a.get_key()));
}

#[test]
fn building_a_row_moves_children_out_of_other_parents() {
    let mut tree = NodeTree::new();
    let old = DomNode::div(&mut tree);
    let w = DomNode::widget(&mut tree, "w".to_string());
    old.append(&mut tree, &w);
    let r = row(&mut tree, vec![w]);
    let built = r.build(&mut tree);
    assert!(tree.get(old.get_key()).children.is_empty());
    assert_eq!(tree.get(built.get_key()).children, vec![w.get_key()]);
}

#[test]
fn node_ids_convert_from_strings_and_back() {
    let from: NodeId = NodeId::from("name".to_string());
    assert_eq!(from, NodeId::new("name".to_string()));
    assert_eq!(from.to_string(), "name");
    let mut counter = IdCounter::new();
    let auto = NodeId::new_auto(&mut counter);
    assert_eq!(auto.to_string(), "1");
    counter.next = 4096;
    assert_eq!(NodeId::new_auto(&mut counter).to_string(), "4096");
}

#[test]
fn a_focusable_node_is_recorded_each_time_it_is_added() {
    let mut tree = NodeTree::new();
    let a = DomNode::widget(&mut tree, "a".to_string());
    let b = DomNode::widget(&mut tree, "b".to_string());
    tree.set_focusable(a.get_key(), true);
    tree.set_focusable(b.get_key(), true);
    tree.add_focusable(a.get_key());
    tree.add_focusable(b.get_key());
    tree.add_focusable(a.get_key());
    tree.set_focused(Some(a.get_key()));
    tree.focus_prev();
    // the first record of `a` is at the front, so the step back wraps to the last record
    assert_eq!(tree.focused_key(), Some(a.get_key()));
    tree.focus_next();
    assert_eq!(tree.focused_key(), Some(b.get_key()));
}

#[test]
fn a_render_step_stores_the_rectangle_and_records_focus() {
    let mut tree = NodeTree::new();
    let d = DomNode::div(&mut tree);
    let w = DomNode::widget(&mut tree, "w".to_string());
    tree.set_focusable(w.get_key(), true);
    tree.set_rect(w.get_key(), rect(0, 0, 5, 1));
    let layout = NodeLayout {
        render_bounds: rect(0, 2, 5, 1),
        visible_bounds: rect(0, 2, 5, 1),
        can_scroll: false,
        child_bounds: rect(0, 2, 5, 1),
        scroll_offset: Position { x: 0, y: 0 },
    };
    let (plan, into_children) = tree.render_step(w.get_key(), layout, rect(0, 0, 20, 10), Position { x: 0, y: 0 });
    assert!(plan.resized && plan.needs_render && !into_children);
    assert_eq!(tree.get(w.get_key()).rect, rect(0, 2, 5, 1));
    assert!(tree.get(w.get_key()).visible);
    assert!(tree.has_focusable(w.get_key()));
    let (again, _) = tree.render_step(w.get_key(), layout, rect(0, 0, 20, 10), Position { x: 0, y: 0 });
    assert!(!again.resized);
    let hidden = NodeLayout { render_bounds: rect(0, 30, 5, 1), visible_bounds: rect(0, 30, 5, 1), ..layout };
    let (plan, into_children) = tree.render_step(d.get_key(), hidden, rect(0, 0, 20, 10), Position { x: 0, y: 0 });
    assert!(!plan.needs_render && !into_children);
    assert!(!tree.get(d.get_key()).visible);
    let shown = NodeLayout { render_bounds: rect(0, 0, 5, 1), visible_bounds: rect(0, 0, 5, 1), ..layout };
    let (_, into_children) = tree.render_step(d.get_key(), shown, rect(0, 0, 20, 10), Position { x: 0, y: 0 });
    assert!(into_children);
}

#[test]
fn a_stop_made_through_the_handle_is_seen_afterwards() {
    let mut handle = EventHandle::default();
    let stop = |h: &mut EventHandle| h.stop_propagation();
    stop(&mut handle);
    assert!(handle.get_stop_propagation());
}

fn layout(r: Rect) -> NodeLayout {
    NodeLayout { render_bounds: r, visible_bounds: r, can_scroll: false, child_bounds: r, scroll_offset: Position { x: 0, y: 0 } }
}

#[test]
fn a_render_pass_visits_drawn_layouts_in_order() {
    let mut tree = NodeTree::new();
    let top = DomNode::div(&mut tree);
    let bare = DomNode::div(&mut tree);
    let a = DomNode::widget(&mut tree, "a".to_string());
    let b = DomNode::widget(&mut tree, "b".to_string());
    let far = DomNode::div(&mut tree);
    let hidden = DomNode::widget(&mut tree, "h".to_string());
    top.append(&mut tree, &bare);
    bare.append(&mut tree, &a);
    top.append(&mut tree, &b);
    top.append(&mut tree, &far);
    far.append(&mut tree, &hidden);
    tree.set_focusable(b.get_key(), true);
    tree.set_focusable(a.get_key(), true);
    let layouts = vec![
        (top.get_key(), layout(rect(0, 0, 20, 10))),
        (a.get_key(), layout(rect(0, 0, 10, 5))),
        (b.get_key(), layout(rect(10, 0, 10, 5))),
        (far.get_key(), layout(rect(0, 40, 20, 5))),
        (hidden.get_key(), layout(rect(0, 40, 20, 5))),
    ];
    let plans = rooibos::dom::render_pass::render_pass(&mut tree, top.get_key(), rect(0, 0, 20, 10), Position { x: 0, y: 0 }, &layouts);
    let keys: Vec<_> = plans.iter().map(|p| p.0).collect();
    assert_eq!(keys, vec![top.get_key(), a.get_key(), b.get_key(), far.get_key()]);
    assert!(plans.iter().take(3).all(|p| p.1.needs_render && p.1.resized));
    assert!(!plans[3].1.needs_render);
    assert_eq!(tree.get(b.get_key()).rect, rect(10, 0, 10, 5));
    assert!(!tree.get(far.get_key()).visible);
    assert_eq!(tree.get(hidden.get_key()).rect, rect(0, 0, 0, 0));
    tree.set_focused(Some(a.get_key()));
    tree.focus_next();
    assert_eq!(tree.focused_key(), Some(b.get_key()));
}

#[test]
fn a_pass_fits_unless_a_drawn_rectangle_runs_past_the_last_row() {
    let mut tree = NodeTree::new();
    let top = DomNode::div(&mut tree);
    let w = DomNode::widget(&mut tree, "w".to_string());
    top.append(&mut tree, &w);
    let fine = vec![(top.get_key(), layout(rect(0, 0, 20, 10))), (w.get_key(), layout(rect(0, 0, 5, 1)))];
    assert!(rooibos::dom::render_pass::pass_fits(&tree, top.get_key(), rect(0, 0, 20, 10), Position { x: 0, y: 0 }, &fine));
    let tall = vec![(top.get_key(), layout(rect(0, 0, 20, 10))), (w.get_key(), layout(rect(0, 65000, 5, 1000)))];
    assert!(!rooibos::dom::render_pass::pass_fits(&tree, top.get_key(), rect(0, 0, 20, 10), Position { x: 0, y: 0 }, &tall));
    // a node that is never reached is not measured
    let unreached = vec![(top.get_key(), layout(rect(0, 40, 20, 10))), (w.get_key(), layout(rect(0, 65000, 5, 1000)))];
    assert!(rooibos::dom::render_pass::pass_fits(&tree, top.get_key(), rect(0, 0, 20, 10), Position { x: 0, y: 0 }, &unreached));
}
