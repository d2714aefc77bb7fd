use vstd::prelude::*;

use super::dom_node::{clone_node_id, NodeId};
use super::node_tree::{clone_opt_string, DomNodeKey};
use super::rect::{sat_sub, Position, Rect};

use ratatui::widgets::Block;

verus! {

#[verifier::external_type_specification]
#[verifier::external_body]
pub struct ExBlock<'a>(Block<'a>);

/// `Option<Block>::clone`: a copy of `b`; `Block`'s `Clone` is derived, so the copy has
/// every field of `b`.
#[verifier::external_body]
pub(crate) fn clone_block(b: &Option<Block<'static>>) -> (r: Option<Block<'static>>)
    ensures
        r == *b,
{
    b.clone()
}

/// What a node shows: a layout container, a widget, or nothing.
#[derive(Debug)]
pub enum NodeType {
    Layout,
    /// A widget, named by its widget type.
    Widget(String),
    Placeholder,
}

impl Clone for NodeType {
    fn clone(&self) -> (r: NodeType)
        ensures
            r == *self,
    {
        match self {
            NodeType::Layout => NodeType::Layout,
            NodeType::Widget(w) => NodeType::Widget(w.clone()),
            NodeType::Placeholder => NodeType::Placeholder,
        }
    }
}

/// The name of a kind of node as the printed document shows it.
#[derive(Debug)]
pub struct NodeTypeStructure {
    pub name: &'static str,
    pub attrs: Option<String>,
}

impl NodeType {
    /// The name of this kind of node, and its attributes (none for any kind).
    pub fn structure(&self) -> (r: NodeTypeStructure)
        ensures
            r.attrs is None,
            r.name@ == match self {
                NodeType::Layout => "Layout"@,
                NodeType::Widget(_) => "Widget"@,
                NodeType::Placeholder => "Placeholder"@,
            },
    {
        match self {
            NodeType::Layout => NodeTypeStructure { name: "Layout", attrs: None },
            NodeType::Widget(_) => NodeTypeStructure { name: "Widget", attrs: None },
            NodeType::Placeholder => NodeTypeStructure { name: "Placeholder", attrs: None },
        }
    }
}

/// How a node is laid out among its siblings before any style is applied.
#[derive(Debug, Clone, Copy, PartialEq, Eq, Structural)]
pub enum Display {
    Block,
    Flex,
    Grid,
    Hidden,
}

/// The main axis of a flex container.
#[derive(Debug, Clone, Copy, PartialEq, Eq, Structural)]
pub enum FlexDirection {
    Row,
    Column,
}

/// How focus moves inside a node.
#[derive(Debug, Clone, Copy, PartialEq, Eq, Structural)]
pub enum FocusMode {
    Tab,
    List,
    Unset,
}

/// Which click handlers a node has registered.
#[derive(Debug, Clone, Copy, PartialEq, Eq, Structural)]
pub struct ClickHandlers {
    pub left: bool,
    pub right: bool,
    pub middle: bool,
}

/// A group of nodes that remembers which of them was focused last.
#[derive(Debug, Clone, Copy, PartialEq, Eq, Structural)]
pub struct FocusScope {
    pub last_focused: Option<DomNodeKey>,
    pub contain: bool,
    pub id: u32,
}

impl FocusScope {
    /// A scope with the given id that contains nothing yet.
    pub fn new(id: u32) -> (r: FocusScope)
        ensures
            r == (FocusScope { last_focused: None, contain: false, id }),
    {
        FocusScope { last_focused: None, contain: false, id }
    }
}

/// Everything the document keeps about one node.
#[derive(Debug)]
pub struct NodeProperties {
    pub node_type: NodeType,
    pub name: String,
    pub original_display: Display,
    pub flex_direction: FlexDirection,
    pub children: Vec<DomNodeKey>,
    pub parent: Option<DomNodeKey>,
    pub id: Option<NodeId>,
    pub class: Option<String>,
    pub focusable: bool,
    pub click_handlers: ClickHandlers,
    pub rect: Rect,
    /// The border and title drawn around the node, if any.
    pub block: Option<Block<'static>>,
    pub z_index: Option<i32>,
    pub clear: bool,
    pub scroll_offset: Position,
    pub ancestor_scroll_offset: Position,
    pub max_scroll_offset: Position,
    pub enabled: bool,
    pub parent_enabled: bool,
    pub unmounted: bool,
    pub visible: bool,
}

/// A fresh, detached node with the given name, type and display.
pub open spec fn fresh_node(name: Seq<char>, node_type: NodeType, display: Display, direction: FlexDirection) -> (
    spec_fn(NodeProperties) -> bool) {
    |p: NodeProperties|
        {
            &&& p.name@ == name
            &&& p.node_type == node_type
            &&& p.original_display == display
            &&& p.flex_direction == direction
            &&& p.children@.len() == 0
            &&& p.parent is None
            &&& p.id is None
            &&& p.class is None
            &&& !p.focusable
            &&& p.click_handlers == ClickHandlers { left: false, right: false, middle: false }
            &&& p.rect == Rect { x: 0, y: 0, width: 0, height: 0 }
            &&& p.z_index is None
            &&& !p.clear
            &&& p.scroll_offset == Position { x: 0, y: 0 }
            &&& p.ancestor_scroll_offset == Position { x: 0, y: 0 }
            &&& p.max_scroll_offset == Position { x: 0, y: 0 }
            &&& p.enabled
            &&& p.parent_enabled
            &&& !p.unmounted
            &&& p.visible
        }
}

impl NodeProperties {
    /// A detached node with default properties.
    pub fn new(name: String, node_type: NodeType, display: Display, direction: FlexDirection) -> (r: NodeProperties)
        ensures
            fresh_node(name@, node_type, display, direction)(r),
    {
        NodeProperties {
            node_type,
            name,
            original_display: display,
            flex_direction: direction,
            children: Vec::new(),
            parent: None,
            id: None,
            class: None,
            focusable: false,
            click_handlers: ClickHandlers { left: false, right: false, middle: false },
            rect: Rect::zero(),
            block: None,
            z_index: None,
            clear: false,
            scroll_offset: Position::origin(),
            ancestor_scroll_offset: Position::origin(),
            max_scroll_offset: Position::origin(),
            enabled: true,
            parent_enabled: true,
            unmounted: false,
            visible: true,
        }
    }

    /// Neither the node nor an ancestor was disabled.
    pub open spec fn spec_enabled(&self) -> bool {
        self.enabled && self.parent_enabled
    }

    /// The node takes focus and is enabled.
    pub open spec fn spec_focusable(&self) -> bool {
        self.focusable && self.spec_enabled()
    }

    /// A node is enabled when neither it nor an ancestor was disabled.
    pub fn is_enabled(&self) -> (r: bool)
        ensures
            r == self.spec_enabled(),
    {
        self.enabled && self.parent_enabled
    }

    /// A node takes focus when it is focusable and enabled.
    pub fn is_focusable(&self) -> (r: bool)
        ensures
            r == self.spec_focusable(),
    {
        self.focusable && self.is_enabled()
    }

    /// The node's rectangle moved up and left by its own and its ancestors' scroll offsets.
    pub fn position(&self) -> (r: Rect)
        ensures
            r == (Rect {
                x: sat_sub(sat_sub(self.rect.x, self.scroll_offset.x), self.ancestor_scroll_offset.x),
                y: sat_sub(sat_sub(self.rect.y, self.scroll_offset.y), self.ancestor_scroll_offset.y),
                ..self.rect
            }),
    {
        let mut rect = self.rect;
        rect.x = rect.x.saturating_sub(self.scroll_offset.x).saturating_sub(self.ancestor_scroll_offset.x);
        rect.y = rect.y.saturating_sub(self.scroll_offset.y).saturating_sub(self.ancestor_scroll_offset.y);
        rect
    }
}

/// The direction the mouse wheel turned.
#[derive(Debug, Clone, Copy, PartialEq, Eq, Structural)]
pub enum ScrollDirection {
    Up,
    Down,
    Left,
    Right,
}

/// The change of content position a turn of the wheel asks for: up and left move the
/// content by one towards the start, down and right by one towards the end.
pub open spec fn scroll_delta(direction: ScrollDirection) -> (i32, i32) {
    match direction {
        ScrollDirection::Up => (0, 1),
        ScrollDirection::Down => (0, -1i32),
        ScrollDirection::Left => (1, 0),
        ScrollDirection::Right => (-1i32, 0),
    }
}

/// `terminput::ScrollDirection::delta`: the change (x, y) for a turn of the wheel, as
/// `scroll_delta` lists it.
#[verifier::external_body]
fn delta(direction: ScrollDirection) -> (r: (i32, i32))
    ensures
        r == scroll_delta(direction),
{
    let d = match direction {
        ScrollDirection::Up => terminput::ScrollDirection::Up,
        ScrollDirection::Down => terminput::ScrollDirection::Down,
        ScrollDirection::Left => terminput::ScrollDirection::Left,
        ScrollDirection::Right => terminput::ScrollDirection::Right,
    }.delta();
    (d.x, d.y)
}

/// `v` kept between 0 and `max`.
pub open spec fn clamp_offset(v: int, max: u16) -> int {
    if v > max {
        max as int
    } else if v < 0 {
        0
    } else {
        v
    }
}

impl NodeProperties {
    /// Takes over the name, kind, focusability, id, class, handlers, rectangle, display,
    /// clearing, enabled state and scroll offsets of `new`; the links, the offsets of the
    /// ancestors, the z-index and the mount and visibility state stay as they are.
    pub fn replace_with(&mut self, new: &NodeProperties)
        ensures
            *final(self) == (NodeProperties {
                name: new.name,
                node_type: new.node_type,
                focusable: new.focusable,
                id: new.id,
                class: new.class,
                click_handlers: new.click_handlers,
                rect: new.rect,
                original_display: new.original_display,
                clear: new.clear,
                enabled: new.enabled,
                scroll_offset: new.scroll_offset,
                max_scroll_offset: new.max_scroll_offset,
                ..*old(self)
            }),
    {
        self.name = new.name.clone();
        self.node_type = new.node_type.clone();
        self.focusable = new.focusable;
        self.id = clone_node_id(&new.id);
        self.class = clone_opt_string(&new.class);
        self.click_handlers = new.click_handlers;
        self.rect = new.rect;
        self.original_display = new.original_display;
        self.clear = new.clear;
        self.enabled = new.enabled;
        self.scroll_offset = new.scroll_offset;
        self.max_scroll_offset = new.max_scroll_offset;
    }
}

impl NodeProperties {
    /// Scrolls the content of the node by a turn of the wheel, keeping the offset between
    /// zero and the most it may scroll, and gives how far the offset moved.
    pub fn scroll(&mut self, direction: ScrollDirection) -> (r: (i32, i32))
        ensures
            final(self).scroll_offset.x == clamp_offset(old(self).scroll_offset.x - scroll_delta(direction).0,
                old(self).max_scroll_offset.x),
            final(self).scroll_offset.y == clamp_offset(old(self).scroll_offset.y - scroll_delta(direction).1,
                old(self).max_scroll_offset.y),
            r.0 == final(self).scroll_offset.x - old(self).scroll_offset.x,
            r.1 == final(self).scroll_offset.y - old(self).scroll_offset.y,
            *final(self) == (NodeProperties { scroll_offset: final(self).scroll_offset, ..*old(self) }),
    {
        let (dx, dy) = delta(direction);
        let mut x: i32 = self.scroll_offset.x as i32 - dx;
        let mut y: i32 = self.scroll_offset.y as i32 - dy;
        if x > self.max_scroll_offset.x as i32 {
            x = self.max_scroll_offset.x as i32;
        }
        if x < 0 {
            x = 0;
        }
        if y > self.max_scroll_offset.y as i32 {
            y = self.max_scroll_offset.y as i32;
        }
        if y < 0 {
            y = 0;
        }
        let x_change = x - self.scroll_offset.x as i32;
        let y_change = y - self.scroll_offset.y as i32;
        self.scroll_offset = Position { x: x as u16, y: y as u16 };
        (x_change, y_change)
    }

    /// Moves the scroll offset that the node inherits from its ancestors by `change`, not
    /// below zero (a result past `u16::MAX` wraps, as a cast to `u16` does).
    pub fn update_ancestor_scroll_offsets(&mut self, change: (i32, i32))
        requires
            old(self).ancestor_scroll_offset.x + change.0 <= i32::MAX,
            old(self).ancestor_scroll_offset.y + change.1 <= i32::MAX,
        ensures
            final(self).ancestor_scroll_offset.x == (if old(self).ancestor_scroll_offset.x + change.0 < 0 {
                0
            } else {
                old(self).ancestor_scroll_offset.x + change.0
            }) as u16,
            final(self).ancestor_scroll_offset.y == (if old(self).ancestor_scroll_offset.y + change.1 < 0 {
                0
            } else {
                old(self).ancestor_scroll_offset.y + change.1
            }) as u16,
            *final(self) == (NodeProperties { ancestor_scroll_offset: final(self).ancestor_scroll_offset, ..*old(self) }),
    {
        let mut x: i32 = self.ancestor_scroll_offset.x as i32 + change.0;
        if x < 0 {
            x = 0;
        }
        let mut y: i32 = self.ancestor_scroll_offset.y as i32 + change.1;
        if y < 0 {
            y = 0;
        }
        self.ancestor_scroll_offset = Position { x: x as u16, y: y as u16 };
    }
}

} // verus!
