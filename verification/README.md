# rooibos

The document model of a terminal UI framework, with its behaviour stated in
Verus contracts and proved.

## Layout

- `src/dom/` — the node tree (`node_tree.rs`): nodes stored in a slot map,
  parent and child links, roots ordered by z-index, focus and hover state, and
  the requests (blur, focus, redraw) the tree hands to its owner. Around it:
  node handles (`dom_node.rs`), flex containers (`flex_node.rs`), mounting and
  unmounting (`mod.rs`), snapshots of nodes and searches over them
  (`node_repr.rs`), rectangles (`rect.rs`), the decisions of a render step
  (`render.rs`) and the render pass over the tree (`render_pass.rs`).
- `src/events/` — key events and modifiers (`key.rs`), node state changes
  (`mod.rs`), and routing of keys, clicks, hovering and scrolling through the
  tree (`dispatcher.rs`).
- `src/router.rs` — route tables, URL parsing and the route history.
- `src/wrapping_list.rs`, `src/list_view.rs`, `src/tab_view.rs`,
  `src/notification.rs`, `src/error_boundary.rs`, `src/borders.rs`,
  `src/component.rs` — the logic of the components: cyclic lists, hit testing
  of list rows and tab headers, the length of a tab header row, notification
  queues, the errors an error boundary holds and what it shows, border settings.
- `app/` — the process side: the tree a thread works on, the handlers nodes
  registered, crossterm event conversion, and timers for notifications.
- `tests/` — tests on concrete values.
