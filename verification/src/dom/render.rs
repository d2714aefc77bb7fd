use vstd::prelude::*;

use super::rect::{rect_union, sat_sub, Position, Rect};

verus! {

/// What a render pass decides for one node from the rectangles its layout gives it.
#[derive(Debug, Clone, Copy, PartialEq, Eq, Structural)]
pub struct RenderPlan {
    /// How many rows the node reaches below the visible bottom of its parent.
    pub height_above_parent: u16,
    /// Whether the node is drawn into a buffer of its own first, to be scrolled or cut.
    pub needs_buffer: bool,
    /// Whether the node starts inside its parent's visible area, so that it is drawn at all.
    pub needs_render: bool,
    /// Whether the node's rectangle differs from the one it had at the last pass.
    pub resized: bool,
}

/// The plan `render_plan` gives for these rectangles.
pub open spec fn plan_of(
    render_bounds: Rect,
    visible_bounds: Rect,
    parent_bounds: Rect,
    parent_scroll_offset: Position,
    can_scroll: bool,
    prev_rect: Rect,
) -> RenderPlan {
    let height_above_parent = sat_sub(
        sat_sub((render_bounds.y + render_bounds.height) as u16, (parent_bounds.y + parent_bounds.height) as u16),
        parent_scroll_offset.y,
    );
    RenderPlan {
        height_above_parent,
        needs_buffer: can_scroll || height_above_parent > 0,
        needs_render: visible_bounds.x < parent_bounds.x + parent_bounds.width + parent_scroll_offset.x
            && visible_bounds.y < parent_bounds.y + parent_bounds.height + parent_scroll_offset.y,
        resized: render_bounds != prev_rect,
    }
}

/// A node whose content can scroll is always drawn into a buffer of its own.
pub proof fn lemma_scrollable_is_buffered(
    render_bounds: Rect,
    visible_bounds: Rect,
    parent_bounds: Rect,
    parent_scroll_offset: Position,
    prev_rect: Rect,
)
    ensures
        plan_of(render_bounds, visible_bounds, parent_bounds, parent_scroll_offset, true, prev_rect).needs_buffer,
{
}

/// A node that cannot scroll gets a buffer exactly when it reaches below the bottom of its
/// parent's visible area (moved down by the parent's scroll offset), and then by as many rows
/// as it reaches past it; otherwise it reaches past by none.
pub proof fn lemma_buffer_when_reaching_below_parent(
    render_bounds: Rect,
    visible_bounds: Rect,
    parent_bounds: Rect,
    parent_scroll_offset: Position,
    prev_rect: Rect,
)
    requires
        render_bounds.y + render_bounds.height <= u16::MAX,
        parent_bounds.y + parent_bounds.height + parent_scroll_offset.y <= u16::MAX,
    ensures
        ({
            let plan = plan_of(render_bounds, visible_bounds, parent_bounds, parent_scroll_offset, false, prev_rect);
            let below = render_bounds.y + render_bounds.height - (parent_bounds.y + parent_bounds.height + parent_scroll_offset.y);
            &&& plan.needs_buffer <==> below > 0
            &&& plan.height_above_parent == if below > 0 { below } else { 0 }
        }),
{
}

/// A node is drawn exactly when its visible area starts left of the right edge and above
/// the bottom edge of its parent's area moved by the parent's scroll offset, and it counts
/// as resized exactly when its rectangle changed since the last pass.
pub proof fn lemma_drawn_and_resized(
    render_bounds: Rect,
    visible_bounds: Rect,
    parent_bounds: Rect,
    parent_scroll_offset: Position,
    can_scroll: bool,
    prev_rect: Rect,
)
    ensures
        ({
            let plan = plan_of(render_bounds, visible_bounds, parent_bounds, parent_scroll_offset, can_scroll, prev_rect);
            &&& plan.needs_render <==> (visible_bounds.x < parent_bounds.x + parent_bounds.width + parent_scroll_offset.x
                && visible_bounds.y < parent_bounds.y + parent_bounds.height + parent_scroll_offset.y)
            &&& plan.resized <==> (render_bounds.x != prev_rect.x || render_bounds.y != prev_rect.y
                || render_bounds.width != prev_rect.width || render_bounds.height != prev_rect.height)
        }),
{
}

/// What the layout gives a node for one render pass: the rectangle it draws in, the part
/// of it that shows, whether its content scrolls, and the area and scroll offset that its
/// children are drawn within.
#[derive(Debug, Clone, Copy, PartialEq, Eq, Structural)]
pub struct NodeLayout {
    pub render_bounds: Rect,
    pub visible_bounds: Rect,
    pub can_scroll: bool,
    pub child_bounds: Rect,
    pub scroll_offset: Position,
}

/// The rectangle sums a render pass computes for `layout` under `parent_bounds` scrolled by
/// `parent_scroll_offset` fit in 16 bits.
pub open spec fn plan_fits(layout: NodeLayout, parent_bounds: Rect, parent_scroll_offset: Position) -> bool {
    &&& layout.render_bounds.y + layout.render_bounds.height <= u16::MAX
    &&& parent_bounds.x + parent_bounds.width + parent_scroll_offset.x <= u16::MAX
    &&& parent_bounds.y + parent_bounds.height + parent_scroll_offset.y <= u16::MAX
}

/// The decisions for a node whose layout gives it `render_bounds` to draw in and
/// `visible_bounds` to show, under a parent whose visible area is `parent_bounds`
/// scrolled by `parent_scroll_offset`, and that had `prev_rect` at the last pass.
pub fn render_plan(
    render_bounds: Rect,
    visible_bounds: Rect,
    parent_bounds: Rect,
    parent_scroll_offset: Position,
    can_scroll: bool,
    prev_rect: Rect,
) -> (r: RenderPlan)
    requires
        render_bounds.y + render_bounds.height <= u16::MAX,
        parent_bounds.x + parent_bounds.width + parent_scroll_offset.x <= u16::MAX,
        parent_bounds.y + parent_bounds.height + parent_scroll_offset.y <= u16::MAX,
    ensures
        r == plan_of(render_bounds, visible_bounds, parent_bounds, parent_scroll_offset, can_scroll, prev_rect),
{
    let height_above_parent = (render_bounds.y + render_bounds.height).saturating_sub(
        parent_bounds.y + parent_bounds.height,
    ).saturating_sub(parent_scroll_offset.y);
    let needs_buffer = can_scroll || height_above_parent > 0;
    let needs_render = visible_bounds.x < parent_bounds.x + parent_bounds.width + parent_scroll_offset.x
        && visible_bounds.y < parent_bounds.y + parent_bounds.height + parent_scroll_offset.y;
    let resized = !(render_bounds == prev_rect);
    RenderPlan { height_above_parent, needs_buffer, needs_render, resized }
}

/// The union of the rectangles of `s` that cover at least one cell, taken in order;
/// nothing when none does.
pub open spec fn covered_union(s: Seq<Rect>) -> Option<Rect>
    decreases s.len(),
{
    if s.len() == 0 {
        None
    } else {
        let pre = covered_union(s.drop_last());
        let r = s.last();
        if r.width > 0 && r.height > 0 {
            match pre {
                Some(u) => Some(rect_union(u, r)),
                None => Some(r),
            }
        } else {
            pre
        }
    }
}

/// The area the children of a node cover together, from each child's full rectangle:
/// the union of those that cover a cell, or the empty rectangle at the origin.
pub fn children_extent(child_bounds: &Vec<Rect>) -> (r: Rect)
    ensures
        r == match covered_union(child_bounds@) {
            Some(u) => u,
            None => Rect { x: 0, y: 0, width: 0, height: 0 },
        },
{
    let mut all = Rect::zero();
    let mut init = false;
    let mut i: usize = 0;
    while i < child_bounds.len()
        invariant
            i <= child_bounds@.len(),
            init == covered_union(child_bounds@.take(i as int)) is Some,
            init ==> covered_union(child_bounds@.take(i as int)) == Some(all),
            !init ==> all == (Rect { x: 0, y: 0, width: 0, height: 0 }),
        decreases child_bounds@.len() - i,
    {
        let b = child_bounds[i];
        proof {
            assert(child_bounds@.take(i as int + 1).drop_last() =~= child_bounds@.take(i as int));
        }
        if b.width > 0 && b.height > 0 {
            if !init {
                all = b;
                init = true;
            } else {
                all = all.union(b);
            }
        }
        i = i + 1;
    }
    proof {
        assert(child_bounds@.take(i as int) =~= child_bounds@);
    }
    all
}

} // verus!
