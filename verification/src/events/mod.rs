pub mod dispatcher;
pub mod key;

use vstd::prelude::*;

use crate::dom::dom_node::NodeId;

verus! {

/// Handed to an event handler, which can use it to keep the event from reaching the
/// ancestors of its node. There is one handle per event, lent by `&mut` to each handler
/// in turn; it cannot be cloned or copied, so every later reader of the handle sees a
/// stop that a handler made.
#[derive(Debug)]
pub struct EventHandle {
    stop: bool,
}

impl EventHandle {
    /// A handle on an event that still travels on.
    pub fn new() -> (r: EventHandle)
        ensures
            !r.spec_stopped(),
    {
        EventHandle { stop: false }
    }

    /// Whether a handler stopped the event.
    pub closed spec fn spec_stopped(self) -> bool {
        self.stop
    }

    /// Keeps the event from reaching the ancestors of the node that handles it.
    pub fn stop_propagation(&mut self)
        ensures
            final(self).spec_stopped(),
    {
        self.stop = true;
    }

    /// Whether a handler stopped the event.
    pub fn get_stop_propagation(&self) -> (r: bool)
        ensures
            r == self.spec_stopped(),
    {
        self.stop
    }
}

impl Default for EventHandle {
    fn default() -> (r: EventHandle)
        ensures
            !r.spec_stopped(),
    {
        EventHandle::new()
    }
}

/// A node lost focus to `new_target` (nothing, or the id of the node that took it).
#[derive(Debug)]
pub struct BlurEvent {
    pub new_target: Option<NodeId>,
}

/// A node took focus from `previous_target`.
#[derive(Debug)]
pub struct FocusEvent {
    pub previous_target: Option<NodeId>,
}

/// What a node is at a moment: focused, hovered, disabled, as bits.
#[derive(Debug, Clone, Copy, PartialEq, Eq, Structural)]
pub struct NodeState {
    pub bits: u32,
}

pub const FOCUSED_BIT: u32 = 1;

pub const HOVERED_BIT: u32 = 2;

pub const DISABLED_BIT: u32 = 4;

impl NodeState {
    /// No state at all.
    pub fn empty() -> (r: NodeState)
        ensures
            r.bits == 0,
    {
        NodeState { bits: 0 }
    }

    /// Whether every bit of `other` is set here.
    pub fn contains(&self, other: NodeState) -> (r: bool)
        ensures
            r == (self.bits & other.bits == other.bits),
    {
        self.bits & other.bits == other.bits
    }

    /// Sets the bits of `other`.
    pub fn insert(&mut self, other: NodeState)
        ensures
            final(self).bits == old(self).bits | other.bits,
    {
        self.bits = self.bits | other.bits;
    }
}

/// What made the state of a node change.
#[derive(Debug, Clone, Copy, PartialEq, Eq, Structural)]
pub enum StateChangeCause {
    Focus,
    Blur,
    MouseEnter,
    MouseLeave,
    Enable,
    Disable,
}

/// The state of a node after a change, and what caused it.
#[derive(Debug, Clone, Copy, PartialEq, Eq, Structural)]
pub struct StateChangeEvent {
    pub state: NodeState,
    pub cause: StateChangeCause,
}

/// The state bits for the given flags.
pub open spec fn state_bits(focused: bool, hovered: bool, enabled: bool) -> u32 {
    (if focused { FOCUSED_BIT } else { 0u32 }) | (if hovered { HOVERED_BIT } else { 0u32 }) | (if !enabled {
        DISABLED_BIT
    } else {
        0u32
    })
}

/// The flags after the change `cause`: focus and blur set and clear the focused flag,
/// entering and leaving the hovered flag, enabling and disabling the enabled flag.
pub open spec fn applied(t: NodeStateTracker, cause: StateChangeCause) -> NodeStateTracker {
    match cause {
        StateChangeCause::Focus => NodeStateTracker { focused: true, ..t },
        StateChangeCause::Blur => NodeStateTracker { focused: false, ..t },
        StateChangeCause::MouseEnter => NodeStateTracker { hovered: true, ..t },
        StateChangeCause::MouseLeave => NodeStateTracker { hovered: false, ..t },
        StateChangeCause::Enable => NodeStateTracker { enabled: true, ..t },
        StateChangeCause::Disable => NodeStateTracker { enabled: false, ..t },
    }
}

/// The flag that a change touches.
pub open spec fn flag_of(cause: StateChangeCause) -> int {
    match cause {
        StateChangeCause::Focus | StateChangeCause::Blur => 0,
        StateChangeCause::MouseEnter | StateChangeCause::MouseLeave => 1,
        StateChangeCause::Enable | StateChangeCause::Disable => 2,
    }
}

/// Of two changes to the same flag only the later one counts.
pub proof fn lemma_later_change_wins(t: NodeStateTracker, first: StateChangeCause, second: StateChangeCause)
    requires
        flag_of(first) == flag_of(second),
    ensures
        applied(applied(t, first), second) == applied(t, second),
{
}

/// Changes to different flags can be applied in either order.
pub proof fn lemma_changes_commute(t: NodeStateTracker, a: StateChangeCause, b: StateChangeCause)
    requires
        flag_of(a) != flag_of(b),
    ensures
        applied(applied(t, a), b) == applied(applied(t, b), a),
{
}

/// What a state-change listener remembers of its node: whether it is focused, hovered
/// and enabled.
#[derive(Debug, Clone, Copy, PartialEq, Eq, Structural)]
pub struct NodeStateTracker {
    pub focused: bool,
    pub hovered: bool,
    pub enabled: bool,
}

impl NodeStateTracker {
    /// A node that is neither focused nor hovered, and enabled.
    pub fn new() -> (r: NodeStateTracker)
        ensures
            r == (NodeStateTracker { focused: false, hovered: false, enabled: true }),
    {
        NodeStateTracker { focused: false, hovered: false, enabled: true }
    }

    /// The state of the node, as bits.
    pub fn state(&self) -> (r: NodeState)
        ensures
            r.bits == state_bits(self.focused, self.hovered, self.enabled),
    {
        let focused = if self.focused { FOCUSED_BIT } else { 0u32 };
        let hovered = if self.hovered { HOVERED_BIT } else { 0u32 };
        let disabled = if !self.enabled { DISABLED_BIT } else { 0u32 };
        NodeState { bits: focused | hovered | disabled }
    }

    /// Records the change `cause` and tells the listener the state that results.
    pub fn apply(&mut self, cause: StateChangeCause) -> (r: StateChangeEvent)
        ensures
            *final(self) == applied(*old(self), cause),
            r.cause == cause,
            r.state.bits == state_bits(final(self).focused, final(self).hovered, final(self).enabled),
    {
        match cause {
            StateChangeCause::Focus => self.focused = true,
            StateChangeCause::Blur => self.focused = false,
            StateChangeCause::MouseEnter => self.hovered = true,
            StateChangeCause::MouseLeave => self.hovered = false,
            StateChangeCause::Enable => self.enabled = true,
            StateChangeCause::Disable => self.enabled = false,
        }
        StateChangeEvent { state: self.state(), cause }
    }
}

} // verus!
