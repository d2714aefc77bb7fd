use vstd::prelude::*;

use super::node_properties::{NodeProperties, NodeType};
use super::node_tree::{DomNodeKey, NodeTree};
use super::rect::{Position, Rect};
use super::render::{plan_fits, plan_of, render_plan, NodeLayout, RenderPlan};

verus! {

/// One node's turn in a render pass: the node, what the layout gives it, and the area
/// (and scroll offset) of its parent that it is drawn within.
#[derive(Debug, Clone, Copy, PartialEq, Eq, Structural)]
pub struct RenderVisit {
    pub key: DomNodeKey,
    pub layout: NodeLayout,
    pub parent_bounds: Rect,
    pub parent_scroll_offset: Position,
}

/// The layout of the first entry of `ls` for `k`, if any.
pub open spec fn layout_of(ls: Seq<(DomNodeKey, NodeLayout)>, k: DomNodeKey) -> Option<NodeLayout>
    decreases ls.len(),
{
    if ls.len() == 0 {
        None
    } else if ls[0].0 == k {
        Some(ls[0].1)
    } else {
        layout_of(ls.drop_first(), k)
    }
}

/// Whether a node with layout `l` starts inside the area `pb` of its parent scrolled by
/// `ps`, so that it is drawn.
pub open spec fn drawn(l: NodeLayout, pb: Rect, ps: Position) -> bool {
    plan_of(l.render_bounds, l.visible_bounds, pb, ps, l.can_scroll, l.render_bounds).needs_render
}

/// The turns of a render pass over the subtree of `k`, in order, at most `fuel` levels
/// down: a node without a layout hands its parent's area on to its children; a node
/// with one takes its turn, and then its children take theirs, within the area the
/// layout gives them, when it is a layout node that is drawn.
pub open spec fn visits(t: NodeTree, k: DomNodeKey, pb: Rect, ps: Position, ls: Seq<(DomNodeKey, NodeLayout)>, fuel: nat) -> Seq<
    RenderVisit,
>
    decreases fuel, 0nat, 0nat,
{
    if fuel == 0 || !t.has(k) {
        Seq::empty()
    } else {
        let cs = t.node(k).children@;
        match layout_of(ls, k) {
            None => visits_children(t, cs, pb, ps, ls, (fuel - 1) as nat),
            Some(l) => {
                let v = RenderVisit { key: k, layout: l, parent_bounds: pb, parent_scroll_offset: ps };
                if drawn(l, pb, ps) && t.node(k).node_type is Layout {
                    seq![v] + visits_children(t, cs, l.child_bounds, l.scroll_offset, ls, (fuel - 1) as nat)
                } else {
                    seq![v]
                }
            },
        }
    }
}

/// A node with a layout that is not drawn, or that is a widget rather than a layout
/// container, takes its own turn and no node below it takes one.
pub proof fn lemma_hidden_or_leaf_ends_the_pass(t: NodeTree, k: DomNodeKey, pb: Rect, ps: Position,
    ls: Seq<(DomNodeKey, NodeLayout)>, fuel: nat, l: NodeLayout)
    requires
        fuel > 0,
        t.has(k),
        layout_of(ls, k) == Some(l),
        !drawn(l, pb, ps) || !(t.node(k).node_type is Layout),
    ensures
        visits(t, k, pb, ps, ls, fuel).len() == 1,
        visits(t, k, pb, ps, ls, fuel)[0].key == k,
        visits(t, k, pb, ps, ls, fuel)[0].layout == l,
{
}

/// The turns of the subtrees of `cs`, in order.
pub open spec fn visits_children(
    t: NodeTree,
    cs: Seq<DomNodeKey>,
    pb: Rect,
    ps: Position,
    ls: Seq<(DomNodeKey, NodeLayout)>,
    fuel: nat,
) -> Seq<RenderVisit>
    decreases fuel, 1nat, cs.len(),
{
    if cs.len() == 0 {
        Seq::empty()
    } else {
        visits_children(t, cs.drop_last(), pb, ps, ls, fuel) + visits(t, cs.last(), pb, ps, ls, fuel)
    }
}

/// The nodes `n` after the turns `vs`: each node that took a turn has the rectangle its
/// layout gave it, and is marked shown exactly when it was drawn.
pub open spec fn nodes_after(n: Map<u64, NodeProperties>, vs: Seq<RenderVisit>) -> Map<u64, NodeProperties>
    decreases vs.len(),
{
    if vs.len() == 0 {
        n
    } else {
        let m = nodes_after(n, vs.drop_last());
        let v = vs.last();
        m.insert(
            v.key@,
            NodeProperties {
                rect: v.layout.render_bounds,
                visible: drawn(v.layout, v.parent_bounds, v.parent_scroll_offset),
                ..m[v.key@]
            },
        )
    }
}

/// The focusable records `fs` after the turns `vs` over nodes `n`: each node that takes
/// focus is added when it takes its turn.
pub open spec fn focusables_after(fs: Seq<DomNodeKey>, n: Map<u64, NodeProperties>, vs: Seq<RenderVisit>) -> Seq<DomNodeKey>
    decreases vs.len(),
{
    if vs.len() == 0 {
        fs
    } else {
        let f = focusables_after(fs, n, vs.drop_last());
        let k = vs.last().key;
        if n[k@].spec_focusable() {
            f.push(k)
        } else {
            f
        }
    }
}

/// The plan of turn `i` of `vs`, taken on the nodes `n` as the turns before it left them.
pub open spec fn visit_plan(n: Map<u64, NodeProperties>, vs: Seq<RenderVisit>, i: int) -> RenderPlan {
    let v = vs[i];
    plan_of(
        v.layout.render_bounds,
        v.layout.visible_bounds,
        v.parent_bounds,
        v.parent_scroll_offset,
        v.layout.can_scroll,
        nodes_after(n, vs.take(i))[v.key@].rect,
    )
}

/// Each turn of `vs` fits the 16-bit sums of a render step.
pub open spec fn visits_fit(vs: Seq<RenderVisit>) -> bool {
    forall|i: int| 0 <= i < vs.len() ==> #[trigger] plan_fits(vs[i].layout, vs[i].parent_bounds, vs[i].parent_scroll_offset)
}

/// `cur` holds the nodes of `t` as the turns `done` left them, with the focusable records
/// they made; everything else is as in `t`.
pub open spec fn pass_state(t: NodeTree, cur: NodeTree, done: Seq<RenderVisit>) -> bool {
    &&& cur.wf()
    &&& cur.nodes() == nodes_after(t.nodes(), done)
    &&& cur.focusables() == focusables_after(t.focusables(), t.nodes(), done)
    &&& cur.spec_roots() == t.spec_roots()
    &&& cur.spec_next_root_id() == t.spec_next_root_id()
    &&& cur.spec_viewport() == t.spec_viewport()
    &&& cur.spec_focused() == t.spec_focused()
    &&& cur.spec_focused_key() == t.spec_focused_key()
    &&& cur.spec_hovered_key() == t.spec_hovered_key()
    &&& cur.spec_events() == t.spec_events()
}

/// The turns change only rectangles and shown marks: every node keeps everything else.
proof fn lemma_nodes_after_shape(n: Map<u64, NodeProperties>, vs: Seq<RenderVisit>, r: u64)
    requires
        forall|i: int| 0 <= i < vs.len() ==> n.dom().contains(#[trigger] vs[i].key@),
    ensures
        nodes_after(n, vs).dom() == n.dom(),
        n.dom().contains(r) ==> nodes_after(n, vs)[r] == (NodeProperties {
            rect: nodes_after(n, vs)[r].rect,
            visible: nodes_after(n, vs)[r].visible,
            ..n[r]
        }),
    decreases vs.len(),
{
    if vs.len() > 0 {
        assert forall|i: int| 0 <= i < vs.drop_last().len() implies n.dom().contains(#[trigger] vs.drop_last()[i].key@) by {
            assert(vs.drop_last()[i] == vs[i]);
        }
        lemma_nodes_after_shape(n, vs.drop_last(), r);
        let m = nodes_after(n, vs.drop_last());
        assert(n.dom().contains(vs[vs.len() - 1].key@));
        assert(nodes_after(n, vs).dom() =~= n.dom());
    }
}

/// The layout of the first entry of `ls` for `k`, if any.
fn find_layout(ls: &Vec<(DomNodeKey, NodeLayout)>, k: DomNodeKey) -> (r: Option<NodeLayout>)
    ensures
        r == layout_of(ls@, k),
{
    let mut i: usize = 0;
    proof {
        assert(ls@.skip(0) =~= ls@);
    }
    while i < ls.len()
        invariant
            i <= ls@.len(),
            layout_of(ls@, k) == layout_of(ls@.skip(i as int), k),
        decreases ls@.len() - i,
    {
        proof {
            assert(ls@.skip(i as int).drop_first() =~= ls@.skip(i as int + 1));
        }
        if ls[i].0 == k {
            proof {
                assert(ls@.skip(i as int)[0] == ls@[i as int]);
            }
            return Some(ls[i].1);
        }
        i = i + 1;
    }
    proof {
        assert(ls@.skip(i as int).len() == 0);
    }
    None
}

/// Turns taken in a row leave the nodes and records as each turn in turn leaves them.
proof fn lemma_after_push(t: NodeTree, done: Seq<RenderVisit>, v: RenderVisit)
    ensures
        (done.push(v)).drop_last() == done,
        (done.push(v)).take(done.len() as int) == done,
        forall|i: int| 0 <= i <= done.len() ==> #[trigger] (done.push(v)).take(i) == done.take(i),
{
    assert((done.push(v)).drop_last() =~= done);
    assert((done.push(v)).take(done.len() as int) =~= done);
    assert forall|i: int| 0 <= i <= done.len() implies #[trigger] (done.push(v)).take(i) == done.take(i) by {
        assert((done.push(v)).take(i) =~= done.take(i));
    }
}

/// The turns of the children taken so far come first among the turns of all of them.
proof fn lemma_children_prefix(t: NodeTree, cs: Seq<DomNodeKey>, j: int, pb: Rect, ps: Position, ls: Seq<(DomNodeKey, NodeLayout)>, fuel: nat)
    requires
        0 <= j <= cs.len(),
    ensures
        visits_children(t, cs.take(j), pb, ps, ls, fuel).len() <= visits_children(t, cs, pb, ps, ls, fuel).len(),
        forall|i: int| 0 <= i < visits_children(t, cs.take(j), pb, ps, ls, fuel).len() ==>
            #[trigger] visits_children(t, cs.take(j), pb, ps, ls, fuel)[i] == visits_children(t, cs, pb, ps, ls, fuel)[i],
    decreases cs.len() - j,
{
    if j < cs.len() {
        lemma_children_prefix(t, cs, j + 1, pb, ps, ls, fuel);
        assert(cs.take(j + 1).drop_last() =~= cs.take(j));
        let a = visits_children(t, cs.take(j), pb, ps, ls, fuel);
        let b = visits_children(t, cs.take(j + 1), pb, ps, ls, fuel);
        assert(b == a + visits(t, cs.take(j + 1).last(), pb, ps, ls, fuel));
        assert forall|i: int| 0 <= i < a.len() implies #[trigger] a[i] == visits_children(t, cs, pb, ps, ls, fuel)[i] by {
            assert(b[i] == a[i]);
        }
    } else {
        assert(cs.take(j) =~= cs);
    }
}

/// Takes the turns of the subtrees of `cs` in order.
fn walk_children(
    tree: &mut NodeTree,
    cs: &Vec<DomNodeKey>,
    pb: Rect,
    ps: Position,
    ls: &Vec<(DomNodeKey, NodeLayout)>,
    fuel: usize,
    out: &mut Vec<(DomNodeKey, RenderPlan)>,
    Ghost(t): Ghost<NodeTree>,
    Ghost(done): Ghost<Seq<RenderVisit>>,
) -> (vs: Ghost<Seq<RenderVisit>>)
    requires
        pass_state(t, *old(tree), done),
        forall|i: int| 0 <= i < done.len() ==> t.has(#[trigger] done[i].key),
        old(out)@.len() == done.len(),
        forall|i: int| 0 <= i < done.len() ==> #[trigger] old(out)@[i] == (done[i].key, visit_plan(t.nodes(), done, i)),
        visits_fit(visits_children(t, cs@, pb, ps, ls@, fuel as nat)),
    ensures
        vs@ == visits_children(t, cs@, pb, ps, ls@, fuel as nat),
        pass_state(t, *final(tree), done + vs@),
        forall|i: int| 0 <= i < (done + vs@).len() ==> t.has(#[trigger] (done + vs@)[i].key),
        final(out)@.len() == (done + vs@).len(),
        forall|i: int| 0 <= i < (done + vs@).len() ==> #[trigger] final(out)@[i] == ((done + vs@)[i].key, visit_plan(
            t.nodes(),
            done + vs@,
            i,
        )),
    decreases fuel, 1nat,
{
    let ghost all = visits_children(t, cs@, pb, ps, ls@, fuel as nat);
    let ghost mut acc: Seq<RenderVisit> = Seq::empty();
    proof {
        assert(cs@.take(0) =~= Seq::<DomNodeKey>::empty());
        assert(done + acc =~= done);
    }
    let mut i: usize = 0;
    while i < cs.len()
        invariant
            i <= cs@.len(),
            all == visits_children(t, cs@, pb, ps, ls@, fuel as nat),
            visits_fit(all),
            acc == visits_children(t, cs@.take(i as int), pb, ps, ls@, fuel as nat),
            pass_state(t, *tree, done + acc),
            forall|j: int| 0 <= j < (done + acc).len() ==> t.has(#[trigger] (done + acc)[j].key),
            out@.len() == (done + acc).len(),
            forall|j: int| 0 <= j < (done + acc).len() ==> #[trigger] out@[j] == ((done + acc)[j].key, visit_plan(
                t.nodes(),
                done + acc,
                j,
            )),
        decreases cs@.len() - i,
    {
        let c = cs[i];
        proof {
            assert(cs@.take(i as int + 1).drop_last() =~= cs@.take(i as int));
            assert(cs@.take(i as int + 1).last() == c);
            lemma_children_prefix(t, cs@, i as int + 1, pb, ps, ls@, fuel as nat);
            let next = visits_children(t, cs@.take(i as int + 1), pb, ps, ls@, fuel as nat);
            let sub = visits(t, c, pb, ps, ls@, fuel as nat);
            assert(next == acc + sub);
            assert forall|j: int| 0 <= j < sub.len() implies #[trigger] plan_fits(sub[j].layout, sub[j].parent_bounds, sub[j].parent_scroll_offset) by {
                assert(next[acc.len() + j] == sub[j]);
                assert(all[acc.len() + j] == sub[j]);
            }
        }
        let r = walk(tree, c, pb, ps, ls, fuel, out, Ghost(t), Ghost(done + acc));
        proof {
            assert(done + acc + r@ =~= done + (acc + r@));
            acc = acc + r@;
        }
        i = i + 1;
    }
    proof {
        assert(cs@.take(i as int) =~= cs@);
    }
    Ghost(acc)
}

/// Takes the turns of the subtree of `k` on `tree`, appending each turn's key and plan to
/// `out`; gives the turns taken.
fn walk(
    tree: &mut NodeTree,
    k: DomNodeKey,
    pb: Rect,
    ps: Position,
    ls: &Vec<(DomNodeKey, NodeLayout)>,
    fuel: usize,
    out: &mut Vec<(DomNodeKey, RenderPlan)>,
    Ghost(t): Ghost<NodeTree>,
    Ghost(done): Ghost<Seq<RenderVisit>>,
) -> (vs: Ghost<Seq<RenderVisit>>)
    requires
        pass_state(t, *old(tree), done),
        forall|i: int| 0 <= i < done.len() ==> t.has(#[trigger] done[i].key),
        old(out)@.len() == done.len(),
        forall|i: int| 0 <= i < done.len() ==> #[trigger] old(out)@[i] == (done[i].key, visit_plan(t.nodes(), done, i)),
        visits_fit(visits(t, k, pb, ps, ls@, fuel as nat)),
    ensures
        vs@ == visits(t, k, pb, ps, ls@, fuel as nat),
        pass_state(t, *final(tree), done + vs@),
        forall|i: int| 0 <= i < (done + vs@).len() ==> t.has(#[trigger] (done + vs@)[i].key),
        final(out)@.len() == (done + vs@).len(),
        forall|i: int| 0 <= i < (done + vs@).len() ==> #[trigger] final(out)@[i] == ((done + vs@)[i].key, visit_plan(
            t.nodes(),
            done + vs@,
            i,
        )),
    decreases fuel, 0nat,
{
    proof {
        lemma_nodes_after_shape(t.nodes(), done, k@);
    }
    if fuel == 0 || !tree.contains_key(k) {
        proof {
            assert(done + Seq::<RenderVisit>::empty() =~= done);
        }
        let ghost res = Seq::<RenderVisit>::empty();
        return Ghost(res);
    }
    let ghost tk = t.node(k);
    let cs = tree.get(k).children.clone();
    proof {
        assert(cs@ == tk.children@);
    }
    match find_layout(ls, k) {
        None => {
            walk_children(tree, &cs, pb, ps, ls, fuel - 1, out, Ghost(t), Ghost(done))
        },
        Some(l) => {
            let ghost v = RenderVisit { key: k, layout: l, parent_bounds: pb, parent_scroll_offset: ps };
            let ghost whole = visits(t, k, pb, ps, ls@, fuel as nat);
            proof {
                assert(whole[0] == v);
                assert(plan_fits(whole[0].layout, whole[0].parent_bounds, whole[0].parent_scroll_offset));
            }
            let ghost before = *tree;
            let (plan, deeper) = tree.render_step(k, l, pb, ps);
            let ghost done1 = done.push(v);
            proof {
                lemma_after_push(t, done, v);
                assert(plan.needs_render == drawn(l, pb, ps));
                assert(tree.nodes() =~= nodes_after(t.nodes(), done1));
                assert(before.node(k).spec_focusable() == t.nodes()[k@].spec_focusable());
            }
            out.push((k, plan));
            proof {
                assert forall|i: int| 0 <= i < done1.len() implies t.has(#[trigger] done1[i].key) by {
                    if i < done.len() {
                        assert(done1[i] == done[i]);
                    }
                }
                assert forall|i: int| 0 <= i < done1.len() implies #[trigger] out@[i] == (done1[i].key, visit_plan(
                    t.nodes(),
                    done1,
                    i,
                )) by {
                    if i < done.len() {
                        assert(done1[i] == done[i]);
                        assert(done1.take(i) == done.take(i));
                    }
                }
            }
            if deeper {
                proof {
                    let sub = visits_children(t, tk.children@, l.child_bounds, l.scroll_offset, ls@, (fuel - 1) as nat);
                    assert(whole == seq![v] + sub);
                    assert forall|j: int| 0 <= j < sub.len() implies #[trigger] plan_fits(sub[j].layout, sub[j].parent_bounds, sub[j].parent_scroll_offset) by {
                        assert(whole[j + 1] == sub[j]);
                    }
                }
                let r = walk_children(tree, &cs, l.child_bounds, l.scroll_offset, ls, fuel - 1, out, Ghost(t), Ghost(done1));
                proof {
                    assert(done1 + r@ =~= done + (seq![v] + r@));
                }
                let ghost res = seq![v] + r@;
                Ghost(res)
            } else {
                proof {
                    assert(done1 =~= done + seq![v]);
                }
                let ghost res = seq![v];
                Ghost(res)
            }
        },
    }
}

/// The sums a render step of a node with layout `l` under `pb` scrolled by `ps` makes
/// fit in 16 bits.
fn step_fits(l: NodeLayout, pb: Rect, ps: Position) -> (r: bool)
    ensures
        r == plan_fits(l, pb, ps),
{
    (l.render_bounds.y as u32 + l.render_bounds.height as u32 <= 0xffff) && (pb.x as u32 + pb.width as u32
        + ps.x as u32 <= 0xffff) && (pb.y as u32 + pb.height as u32 + ps.y as u32 <= 0xffff)
}

/// Turns taken one after the other fit exactly when each part fits.
proof fn lemma_fit_concat(a: Seq<RenderVisit>, b: Seq<RenderVisit>)
    ensures
        visits_fit(a + b) == (visits_fit(a) && visits_fit(b)),
{
    if visits_fit(a + b) {
        assert forall|i: int| 0 <= i < a.len() implies #[trigger] plan_fits(a[i].layout, a[i].parent_bounds, a[i].parent_scroll_offset) by {
            assert((a + b)[i] == a[i]);
        }
        assert forall|i: int| 0 <= i < b.len() implies #[trigger] plan_fits(b[i].layout, b[i].parent_bounds, b[i].parent_scroll_offset) by {
            assert((a + b)[a.len() + i] == b[i]);
        }
    }
    if visits_fit(a) && visits_fit(b) {
        assert forall|i: int| 0 <= i < (a + b).len() implies #[trigger] plan_fits((a + b)[i].layout, (a + b)[i].parent_bounds, (a + b)[i].parent_scroll_offset) by {
            if i < a.len() {
                assert((a + b)[i] == a[i]);
            } else {
                assert((a + b)[i] == b[i - a.len()]);
            }
        }
    }
}

/// Whether every turn over the subtrees of `cs` fits.
fn fits_children(
    tree: &NodeTree,
    cs: &Vec<DomNodeKey>,
    pb: Rect,
    ps: Position,
    ls: &Vec<(DomNodeKey, NodeLayout)>,
    fuel: usize,
) -> (r: bool)
    ensures
        r == visits_fit(visits_children(*tree, cs@, pb, ps, ls@, fuel as nat)),
    decreases fuel, 1nat,
{
    let mut ok = true;
    let mut i: usize = 0;
    proof {
        assert(cs@.take(0) =~= Seq::<DomNodeKey>::empty());
    }
    while i < cs.len()
        invariant
            i <= cs@.len(),
            ok == visits_fit(visits_children(*tree, cs@.take(i as int), pb, ps, ls@, fuel as nat)),
        decreases cs@.len() - i,
    {
        let w = fits_walk(tree, cs[i], pb, ps, ls, fuel);
        proof {
            assert(cs@.take(i as int + 1).drop_last() =~= cs@.take(i as int));
            assert(cs@.take(i as int + 1).last() == cs@[i as int]);
            lemma_fit_concat(
                visits_children(*tree, cs@.take(i as int), pb, ps, ls@, fuel as nat),
                visits(*tree, cs@[i as int], pb, ps, ls@, fuel as nat),
            );
        }
        ok = ok && w;
        i = i + 1;
    }
    proof {
        assert(cs@.take(i as int) =~= cs@);
    }
    ok
}

/// Whether every turn over the subtree of `k` fits.
fn fits_walk(tree: &NodeTree, k: DomNodeKey, pb: Rect, ps: Position, ls: &Vec<(DomNodeKey, NodeLayout)>, fuel: usize) -> (r: bool)
    ensures
        r == visits_fit(visits(*tree, k, pb, ps, ls@, fuel as nat)),
    decreases fuel, 0nat,
{
    if fuel == 0 || !tree.contains_key(k) {
        return true;
    }
    let n = tree.get(k);
    match find_layout(ls, k) {
        None => fits_children(tree, &n.children, pb, ps, ls, fuel - 1),
        Some(l) => {
            let ghost v = RenderVisit { key: k, layout: l, parent_bounds: pb, parent_scroll_offset: ps };
            let ghost whole = visits(*tree, k, pb, ps, ls@, fuel as nat);
            proof {
                assert(whole[0] == v);
            }
            if !step_fits(l, pb, ps) {
                proof {
                    assert(whole.len() > 0);
                    assert(!plan_fits(whole[0].layout, whole[0].parent_bounds, whole[0].parent_scroll_offset));
                }
                return false;
            }
            let plan = render_plan(l.render_bounds, l.visible_bounds, pb, ps, l.can_scroll, l.render_bounds);
            let is_layout = match n.node_type {
                NodeType::Layout => true,
                _ => false,
            };
            if plan.needs_render && is_layout {
                let rest = fits_children(tree, &n.children, l.child_bounds, l.scroll_offset, ls, fuel - 1);
                proof {
                    lemma_fit_concat(
                        seq![v],
                        visits_children(*tree, n.children@, l.child_bounds, l.scroll_offset, ls@, (fuel - 1) as nat),
                    );
                }
                rest
            } else {
                proof {
                    assert(whole == seq![v]);
                }
                true
            }
        },
    }
}

/// Whether every turn of the render pass over `root` fits the 16-bit sums of a render
/// step, as `render_pass` asks of its caller.
pub fn pass_fits(
    tree: &NodeTree,
    root: DomNodeKey,
    parent_bounds: Rect,
    parent_scroll_offset: Position,
    layouts: &Vec<(DomNodeKey, NodeLayout)>,
) -> (r: bool)
    requires
        tree.wf(),
    ensures
        r == visits_fit(visits(*tree, root, parent_bounds, parent_scroll_offset, layouts@, tree.nodes().dom().len())),
{
    fits_walk(tree, root, parent_bounds, parent_scroll_offset, layouts, tree.len())
}

/// A render pass over the subtree of `root`, which is drawn within `parent_bounds`
/// scrolled by `parent_scroll_offset`, with the layouts `layouts` gives (the first entry
/// for a key counts): each node takes its render step in the order `visits` lays out,
/// and the pass gives each turn's node and plan, so that the caller draws the nodes and
/// runs the size-change handlers of each node whose plan says it was resized.
pub fn render_pass(
    tree: &mut NodeTree,
    root: DomNodeKey,
    parent_bounds: Rect,
    parent_scroll_offset: Position,
    layouts: &Vec<(DomNodeKey, NodeLayout)>,
) -> (r: Vec<(DomNodeKey, RenderPlan)>)
    requires
        old(tree).wf(),
        visits_fit(visits(*old(tree), root, parent_bounds, parent_scroll_offset, layouts@, old(tree).nodes().dom().len())),
    ensures
        ({
            let vs = visits(*old(tree), root, parent_bounds, parent_scroll_offset, layouts@, old(tree).nodes().dom().len());
            &&& pass_state(*old(tree), *final(tree), vs)
            &&& r@.len() == vs.len()
            &&& forall|i: int| 0 <= i < vs.len() ==> #[trigger] r@[i] == (vs[i].key, visit_plan(old(tree).nodes(), vs, i))
        }),
{
    let ghost t = *tree;
    let mut out: Vec<(DomNodeKey, RenderPlan)> = Vec::new();
    let fuel = tree.len();
    let vs = walk(tree, root, parent_bounds, parent_scroll_offset, layouts, fuel, &mut out, Ghost(t), Ghost(Seq::empty()));
    proof {
        assert(Seq::<RenderVisit>::empty() + vs@ =~= vs@);
    }
    out
}

} // verus!
