use vstd::prelude::*;

use crate::dom::node_properties::{clamp_offset, scroll_delta, NodeProperties, NodeType, ScrollDirection};
use crate::dom::node_tree::{descends, focus_moved, lemma_descends_mono, lemma_descends_parent, DomNodeKey, MatchBehavior, NodeTree};
use crate::dom::rect::{rect_contains, sat_sub, Position, Rect};
use crate::events::key::{KeyCode, KeyEvent, KeyModifiers, CONTROL_BIT};

verus! {

/// Whether an event still reaches a disabled node.
#[derive(Debug, Clone, Copy, PartialEq, Eq, Structural)]
pub enum AllowDisabled {
    Allow,
    Disallow,
}

/// What the handlers of one node did with an event.
#[derive(Debug, Clone, Copy, PartialEq, Eq, Structural)]
pub enum HandlerOutcome {
    /// The node has no handler for the event.
    Unhandled,
    /// Handlers ran and let the event travel on to the parent.
    Handled,
    /// Handlers ran and stopped the event.
    Stopped,
}

/// `trace` lists, in order, the nodes an event bubbling up from `key` was handed to,
/// with what their handlers did: it climbs from parent to parent, and ends at a root,
/// at a handler that stops it, or (when disabled nodes are left out) before a disabled
/// node, which receives nothing. `fuel` bounds the climb.
pub open spec fn bubble_trace(t: NodeTree, key: DomNodeKey, allow: AllowDisabled, trace: Seq<(DomNodeKey, HandlerOutcome)>,
    fuel: nat) -> bool
    decreases fuel,
{
    if fuel == 0 || !t.has(key) || (allow == AllowDisabled::Disallow && !t.node(key).spec_enabled()) {
        trace.len() == 0
    } else {
        &&& trace.len() > 0
        &&& trace[0].0 == key
        &&& if trace[0].1 == HandlerOutcome::Stopped {
            trace.len() == 1
        } else {
            match t.node(key).parent {
                Some(p) => bubble_trace(t, p, allow, trace.drop_first(), (fuel - 1) as nat),
                None => trace.len() == 1,
            }
        }
    }
}

/// Whether some node of the trace handled the event.
pub open spec fn trace_handled(trace: Seq<(DomNodeKey, HandlerOutcome)>) -> bool {
    exists|i: int| 0 <= i < trace.len() && #[trigger] trace[i].1 != HandlerOutcome::Unhandled
}

/// Hands an event to `key` and then to each ancestor in turn through `run`, which runs
/// the node's handlers and tells what they did; says whether any node handled it.
pub fn bubble_event<F: Fn(DomNodeKey) -> HandlerOutcome>(tree: &NodeTree, key: DomNodeKey, allow: AllowDisabled, run: F) -> (handled: bool)
    requires
        forall|k: DomNodeKey| run.requires((k,)),
    ensures
        exists|trace: Seq<(DomNodeKey, HandlerOutcome)>|
            #![trigger bubble_trace(*tree, key, allow, trace, tree.nodes().dom().len())]
            {
                &&& bubble_trace(*tree, key, allow, trace, tree.nodes().dom().len())
                &&& forall|i: int| 0 <= i < trace.len() ==> run.ensures((trace[i].0,), #[trigger] trace[i].1)
                &&& handled == trace_handled(trace)
            },
{
    let fuel = tree.len();
    let (handled, Ghost(trace)) = bubble_from(tree, key, allow, &run, fuel);
    handled
}

fn bubble_from<F: Fn(DomNodeKey) -> HandlerOutcome>(tree: &NodeTree, key: DomNodeKey, allow: AllowDisabled, run: &F, fuel: usize) -> (r: (
    bool,
    Ghost<Seq<(DomNodeKey, HandlerOutcome)>>,
))
    requires
        forall|k: DomNodeKey| run.requires((k,)),
    ensures
        bubble_trace(*tree, key, allow, r.1@, fuel as nat),
        forall|i: int| 0 <= i < r.1@.len() ==> run.ensures((r.1@[i].0,), #[trigger] r.1@[i].1),
        r.0 == trace_handled(r.1@),
    decreases fuel,
{
    if fuel == 0 || !tree.contains_key(key) {
        return (false, Ghost(Seq::empty()));
    }
    let node = tree.get(key);
    if allow == AllowDisabled::Disallow && !node.is_enabled() {
        return (false, Ghost(Seq::empty()));
    }
    let outcome = run(key);
    let here = outcome != HandlerOutcome::Unhandled;
    if outcome == HandlerOutcome::Stopped {
        let ghost trace = seq![(key, outcome)];
        proof {
            assert(trace[0].1 != HandlerOutcome::Unhandled);
        }
        return (true, Ghost(trace));
    }
    match node.parent {
        Some(p) => {
            let (above, Ghost(rest)) = bubble_from(tree, p, allow, run, fuel - 1);
            let ghost trace = seq![(key, outcome)] + rest;
            proof {
                assert(trace.drop_first() =~= rest);
                assert forall|i: int| 0 <= i < trace.len() implies run.ensures((trace[i].0,), #[trigger] trace[i].1) by {
                    if i > 0 {
                        assert(trace[i] == rest[i - 1]);
                    }
                }
                if here {
                    assert(trace[0].1 != HandlerOutcome::Unhandled);
                }
                if above {
                    let j = choose|j: int| 0 <= j < rest.len() && #[trigger] rest[j].1 != HandlerOutcome::Unhandled;
                    assert(trace[j + 1] == rest[j]);
                }
                if trace_handled(trace) {
                    let j = choose|j: int| 0 <= j < trace.len() && #[trigger] trace[j].1 != HandlerOutcome::Unhandled;
                    if j > 0 {
                        assert(trace[j] == rest[j - 1]);
                    }
                }
            }
            (here || above, Ghost(trace))
        },
        None => {
            let ghost trace = seq![(key, outcome)];
            proof {
                if here {
                    assert(trace[0].1 != HandlerOutcome::Unhandled);
                }
            }
            (here, Ghost(trace))
        },
    }
}

/// A node whose handlers did not stop the event hands it on: in any trace of a bubbling
/// event, the entry after a node that did not stop it is that node's parent, when the node
/// has one that may receive it (and the climb has not run out of steps).
pub proof fn lemma_unstopped_event_reaches_parent(t: NodeTree, key: DomNodeKey, allow: AllowDisabled,
    trace: Seq<(DomNodeKey, HandlerOutcome)>, fuel: nat, i: int, p: DomNodeKey)
    requires
        bubble_trace(t, key, allow, trace, fuel),
        0 <= i < trace.len(),
        i + 1 < fuel,
        trace[i].1 != HandlerOutcome::Stopped,
        t.node(trace[i].0).parent == Some(p),
        t.has(p),
        allow == AllowDisabled::Allow || t.node(p).spec_enabled(),
    ensures
        i + 1 < trace.len(),
        trace[i + 1].0 == p,
    decreases i,
{
    reveal_with_fuel(bubble_trace, 2);
    if i > 0 {
        assert(trace.len() > 1);
        let q = t.node(key).parent.unwrap();
        assert(trace.drop_first()[i - 1] == trace[i]);
        lemma_unstopped_event_reaches_parent(t, q, allow, trace.drop_first(), (fuel - 1) as nat, i - 1, p);
        assert(trace.drop_first()[i] == trace[i + 1]);
    } else {
        assert(trace.drop_first().len() > 0);
        assert(trace.drop_first()[0] == trace[1]);
    }
}

/// A node whose handlers stop the event is the last one to receive it.
pub proof fn lemma_stopped_event_ends(t: NodeTree, key: DomNodeKey, allow: AllowDisabled,
    trace: Seq<(DomNodeKey, HandlerOutcome)>, fuel: nat, i: int)
    requires
        bubble_trace(t, key, allow, trace, fuel),
        0 <= i < trace.len(),
        trace[i].1 == HandlerOutcome::Stopped,
    ensures
        i == trace.len() - 1,
    decreases i,
{
    if i > 0 {
        let q = t.node(key).parent.unwrap();
        assert(trace.drop_first()[i - 1] == trace[i]);
        lemma_stopped_event_ends(t, q, allow, trace.drop_first(), (fuel - 1) as nat, i - 1);
    }
}

/// Every node of a trace received the event from the node before it: the trace starts at
/// `key` and each later entry is the parent of the one before.
pub proof fn lemma_trace_climbs_parents(t: NodeTree, key: DomNodeKey, allow: AllowDisabled,
    trace: Seq<(DomNodeKey, HandlerOutcome)>, fuel: nat, i: int)
    requires
        bubble_trace(t, key, allow, trace, fuel),
        0 <= i < trace.len(),
    ensures
        trace[0].0 == key,
        t.has(trace[i].0),
        allow == AllowDisabled::Disallow ==> t.node(trace[i].0).spec_enabled(),
        i + 1 < trace.len() ==> t.node(trace[i].0).parent == Some(trace[i + 1].0),
    decreases i,
{
    reveal_with_fuel(bubble_trace, 2);
    if i > 0 {
        let q = t.node(key).parent.unwrap();
        assert(trace.drop_first()[i - 1] == trace[i]);
        lemma_trace_climbs_parents(t, q, allow, trace.drop_first(), (fuel - 1) as nat, i - 1);
        if i + 1 < trace.len() {
            assert(trace.drop_first()[i] == trace[i + 1]);
        }
    } else if trace.len() > 1 {
        assert(trace.drop_first()[0] == trace[1]);
    }
}

/// A test that a traversal applies to each node it visits.
pub trait NodeMatcher {
    /// Whether the node `node`, under `key`, matches.
    spec fn spec_matches(&self, key: DomNodeKey, node: NodeProperties) -> bool;

    /// Whether the node `node`, under `key`, matches.
    fn matches(&self, key: DomNodeKey, node: &NodeProperties) -> (r: bool)
        ensures
            r == self.spec_matches(key, *node);
}

/// The matching nodes of the subtree of `k`, in the order a depth-first walk meets
/// them, at most `fuel` levels down. With `StopOnFistMatch` a matching node's
/// children are not searched; with `SearchChildrenOnMatch` the walk leaves a node's
/// remaining children once one child's subtree yielded a match.
pub open spec fn trav<M: NodeMatcher>(t: NodeTree, k: DomNodeKey, m: M, mb: MatchBehavior, fuel: nat) -> Seq<DomNodeKey>
    decreases fuel, 0nat, 0nat,
{
    if fuel == 0 || !t.has(k) {
        Seq::empty()
    } else {
        let hit = m.spec_matches(k, t.node(k));
        let head = if hit { seq![k] } else { Seq::empty() };
        if hit && mb == MatchBehavior::StopOnFistMatch {
            head
        } else {
            head + trav_children(t, t.node(k).children@, m, mb, (fuel - 1) as nat)
        }
    }
}

/// The matches of the subtrees of `cs`, searched in order.
pub open spec fn trav_children<M: NodeMatcher>(t: NodeTree, cs: Seq<DomNodeKey>, m: M, mb: MatchBehavior, fuel: nat) -> Seq<DomNodeKey>
    decreases fuel, 1nat, cs.len(),
{
    if cs.len() == 0 {
        Seq::empty()
    } else {
        let pre = trav_children(t, cs.drop_last(), m, mb, fuel);
        if mb == MatchBehavior::SearchChildrenOnMatch && pre.len() > 0 {
            pre
        } else {
            pre + trav(t, cs.last(), m, mb, fuel)
        }
    }
}

/// Once the children searched so far yielded a match, searching more of them adds nothing.
proof fn lemma_trav_children_settled<M: NodeMatcher>(t: NodeTree, cs: Seq<DomNodeKey>, i: int, j: int, m: M, fuel: nat)
    requires
        0 <= i <= j <= cs.len(),
        trav_children(t, cs.take(i), m, MatchBehavior::SearchChildrenOnMatch, fuel).len() > 0,
    ensures
        trav_children(t, cs.take(j), m, MatchBehavior::SearchChildrenOnMatch, fuel) == trav_children(t, cs.take(i), m,
            MatchBehavior::SearchChildrenOnMatch, fuel),
    decreases j - i,
{
    if j > i {
        lemma_trav_children_settled(t, cs, i, j - 1, m, fuel);
        assert(cs.take(j).drop_last() =~= cs.take(j - 1));
    }
}

fn traverse_inner<M: NodeMatcher>(tree: &NodeTree, k: DomNodeKey, m: &M, mb: MatchBehavior, fuel: usize, out: &mut Vec<DomNodeKey>)
    ensures
        final(out)@ == old(out)@ + trav(*tree, k, *m, mb, fuel as nat),
    decreases fuel,
{
    if fuel == 0 || !tree.contains_key(k) {
        proof {
            assert(old(out)@ + Seq::<DomNodeKey>::empty() =~= old(out)@);
        }
        return;
    }
    let node = tree.get(k);
    let hit = m.matches(k, node);
    let ghost start = out@;
    if hit {
        out.push(k);
        if mb == MatchBehavior::StopOnFistMatch {
            proof {
                assert(out@ =~= old(out)@ + trav(*tree, k, *m, mb, fuel as nat));
            }
            return;
        }
    }
    let ghost head: Seq<DomNodeKey> = if hit { seq![k] } else { Seq::empty() };
    let ghost cs = node.children@;
    proof {
        assert(out@ =~= start + head + trav_children(*tree, cs.take(0), *m, mb, (fuel - 1) as nat));
    }
    let mut i: usize = 0;
    while i < node.children.len()
        invariant
            *node == tree.node(k),
            tree.has(k),
            cs == node.children@,
            fuel > 0,
            start == old(out)@,
            hit == m.spec_matches(k, tree.node(k)),
            head == if hit { seq![k] } else { Seq::<DomNodeKey>::empty() },
            !(hit && mb == MatchBehavior::StopOnFistMatch),
            i <= cs.len(),
            out@ == start + head + trav_children(*tree, cs.take(i as int), *m, mb, (fuel - 1) as nat),
            mb == MatchBehavior::SearchChildrenOnMatch ==> trav_children(*tree, cs.take(i as int), *m, mb, (fuel - 1) as nat).len() == 0,
        decreases cs.len() - i,
    {
        let before = out.len();
        let ghost pre = trav_children(*tree, cs.take(i as int), *m, mb, (fuel - 1) as nat);
        traverse_inner(tree, node.children[i], m, mb, fuel - 1, out);
        proof {
            assert(cs.take(i as int + 1).drop_last() =~= cs.take(i as int));
            assert(cs.take(i as int + 1).last() == cs[i as int]);
            assert(out@ =~= start + head + trav_children(*tree, cs.take(i as int + 1), *m, mb, (fuel - 1) as nat));
        }
        if out.len() > before && mb == MatchBehavior::SearchChildrenOnMatch {
            proof {
                lemma_trav_children_settled(*tree, cs, i as int + 1, cs.len() as int, *m, (fuel - 1) as nat);
                assert(cs.take(cs.len() as int) =~= cs);
                assert(out@ =~= old(out)@ + trav(*tree, k, *m, mb, fuel as nat));
            }
            return;
        }
        i = i + 1;
    }
    proof {
        assert(cs.take(i as int) =~= cs);
        assert(out@ =~= old(out)@ + trav(*tree, k, *m, mb, fuel as nat));
    }
}

/// The matching nodes of the subtree of `key`, in the order a depth-first walk meets them.
pub fn traverse<M: NodeMatcher>(tree: &NodeTree, key: DomNodeKey, m: &M, mb: MatchBehavior) -> (r: Vec<DomNodeKey>)
    ensures
        r@ == trav(*tree, key, *m, mb, tree.nodes().dom().len()),
{
    let mut out: Vec<DomNodeKey> = Vec::new();
    traverse_inner(tree, key, m, mb, tree.len(), &mut out);
    proof {
        assert(out@ =~= trav(*tree, key, *m, mb, tree.nodes().dom().len()));
    }
    out
}

/// Matches the widgets that are shown and whose displayed rectangle holds `position`.
#[derive(Debug, Clone, Copy, PartialEq, Eq, Structural)]
pub struct WidgetAt {
    pub position: Position,
}

impl NodeMatcher for WidgetAt {
    open spec fn spec_matches(&self, key: DomNodeKey, node: NodeProperties) -> bool {
        &&& node.node_type is Widget
        &&& node.visible
        &&& rect_contains(displayed(node), self.position)
    }

    fn matches(&self, key: DomNodeKey, node: &NodeProperties) -> (r: bool) {
        let is_widget = match node.node_type {
            NodeType::Widget(_) => true,
            _ => false,
        };
        is_widget && node.visible && node.position().contains(self.position)
    }
}

/// The rectangle a node is drawn in: its own moved up and left by its scroll offsets.
pub open spec fn displayed(n: NodeProperties) -> Rect {
    Rect {
        x: sat_sub(sat_sub(n.rect.x, n.scroll_offset.x), n.ancestor_scroll_offset.x),
        y: sat_sub(sat_sub(n.rect.y, n.scroll_offset.y), n.ancestor_scroll_offset.y),
        ..n.rect
    }
}

/// Every node a traversal yields is a node of the tree.
/// Every node a search finds is in the tree and matches the matcher.
pub proof fn lemma_trav_sound<M: NodeMatcher>(t: NodeTree, k: DomNodeKey, m: M, mb: MatchBehavior, fuel: nat)
    ensures
        forall|i: int| 0 <= i < trav(t, k, m, mb, fuel).len() ==> t.has(#[trigger] trav(t, k, m, mb, fuel)[i])
            && m.spec_matches(trav(t, k, m, mb, fuel)[i], t.node(trav(t, k, m, mb, fuel)[i])),
    decreases fuel, 0nat, 0nat,
{
    if fuel > 0 && t.has(k) {
        let cs = t.node(k).children@;
        lemma_trav_children_sound(t, cs, m, mb, (fuel - 1) as nat);
        let s = trav(t, k, m, mb, fuel);
        let hit = m.spec_matches(k, t.node(k));
        let head = if hit { seq![k] } else { Seq::<DomNodeKey>::empty() };
        let tc = trav_children(t, cs, m, mb, (fuel - 1) as nat);
        assert forall|i: int| 0 <= i < s.len() implies t.has(#[trigger] s[i]) && m.spec_matches(s[i], t.node(s[i])) by {
            if !(hit && mb == MatchBehavior::StopOnFistMatch) {
                assert(s == head + tc);
                if i >= head.len() {
                    assert(s[i] == tc[i - head.len()]);
                }
            }
        }
    }
}

proof fn lemma_trav_children_sound<M: NodeMatcher>(t: NodeTree, cs: Seq<DomNodeKey>, m: M, mb: MatchBehavior, fuel: nat)
    ensures
        forall|i: int| 0 <= i < trav_children(t, cs, m, mb, fuel).len() ==> t.has(#[trigger] trav_children(t, cs, m, mb, fuel)[i])
            && m.spec_matches(trav_children(t, cs, m, mb, fuel)[i], t.node(trav_children(t, cs, m, mb, fuel)[i])),
    decreases fuel, 1nat, cs.len(),
{
    if cs.len() > 0 {
        lemma_trav_children_sound(t, cs.drop_last(), m, mb, fuel);
        lemma_trav_sound(t, cs.last(), m, mb, fuel);
        let pre = trav_children(t, cs.drop_last(), m, mb, fuel);
        let last = trav(t, cs.last(), m, mb, fuel);
        let s = trav_children(t, cs, m, mb, fuel);
        assert forall|i: int| 0 <= i < s.len() implies t.has(#[trigger] s[i]) && m.spec_matches(s[i], t.node(s[i])) by {
            if !(mb == MatchBehavior::SearchChildrenOnMatch && pre.len() > 0) {
                assert(s == pre + last);
                if i >= pre.len() {
                    assert(s[i] == last[i - pre.len()]);
                }
            }
        }
    }
}

/// A search that goes on past matches finds, among the children `cs`, everything the
/// search of each child finds.
proof fn lemma_trav_children_include<M: NodeMatcher>(t: NodeTree, cs: Seq<DomNodeKey>, j: int, x: DomNodeKey, m: M, fuel: nat)
    requires
        0 <= j < cs.len(),
        trav(t, cs[j], m, MatchBehavior::ContinueOnMatch, fuel).contains(x),
    ensures
        trav_children(t, cs, m, MatchBehavior::ContinueOnMatch, fuel).contains(x),
    decreases cs.len(),
{
    let mb = MatchBehavior::ContinueOnMatch;
    let pre = trav_children(t, cs.drop_last(), m, mb, fuel);
    let last = trav(t, cs.last(), m, mb, fuel);
    assert(trav_children(t, cs, m, mb, fuel) == pre + last);
    if j == cs.len() - 1 {
        let i = choose|i: int| 0 <= i < last.len() && last[i] == x;
        assert((pre + last)[pre.len() + i] == x);
    } else {
        assert(cs.drop_last()[j] == cs[j]);
        lemma_trav_children_include(t, cs.drop_last(), j, x, m, fuel);
        let i = choose|i: int| 0 <= i < pre.len() && pre[i] == x;
        assert((pre + last)[i] == x);
    }
}

/// A node other than `y` whose parents reach `y` within `e` steps lies under a child
/// of `y` whose parents it reaches within `e - 1` steps.
proof fn lemma_child_on_path(t: NodeTree, x: DomNodeKey, y: DomNodeKey, e: nat) -> (j: int)
    requires
        t.wf(),
        x != y,
        descends(t, x, y, e),
    ensures
        e > 0,
        t.has(y),
        0 <= j < t.node(y).children@.len(),
        descends(t, x, t.node(y).children@[j], (e - 1) as nat),
    decreases e,
{
    let p = t.node(x).parent.unwrap();
    NodeTree::lemma_wf_links(t, x);
    if p == y {
        let j = choose|j: int| 0 <= j < t.node(y).children@.len() && t.node(y).children@[j] == x;
        j
    } else {
        let j = lemma_child_on_path(t, p, y, (e - 1) as nat);
        assert(descends(t, x, t.node(y).children@[j], (e - 1) as nat));
        j
    }
}

proof fn lemma_trav_reaches<M: NodeMatcher>(t: NodeTree, y: DomNodeKey, x: DomNodeKey, m: M, fuel: nat, e: nat)
    requires
        t.wf(),
        t.has(x),
        descends(t, x, y, e),
        e < fuel,
        m.spec_matches(x, t.node(x)),
    ensures
        trav(t, y, m, MatchBehavior::ContinueOnMatch, fuel).contains(x),
    decreases e,
{
    let mb = MatchBehavior::ContinueOnMatch;
    if x == y {
        assert(trav(t, y, m, mb, fuel)[0] == x);
    } else {
        let j = lemma_child_on_path(t, x, y, e);
        let cs = t.node(y).children@;
        lemma_trav_reaches(t, cs[j], x, m, (fuel - 1) as nat, (e - 1) as nat);
        lemma_trav_children_include(t, cs, j, x, m, (fuel - 1) as nat);
        let hit = m.spec_matches(y, t.node(y));
        let head = if hit { seq![y] } else { Seq::<DomNodeKey>::empty() };
        let tc = trav_children(t, cs, m, mb, (fuel - 1) as nat);
        assert(trav(t, y, m, mb, fuel) == head + tc);
        let i = choose|i: int| 0 <= i < tc.len() && tc[i] == x;
        assert((head + tc)[head.len() + i] == x);
    }
}

/// A search that goes on past matches misses no matching node whose parents reach the
/// start of the search in fewer steps than the tree has nodes.
pub proof fn lemma_trav_complete<M: NodeMatcher>(t: NodeTree, k: DomNodeKey, x: DomNodeKey, m: M, e: nat)
    requires
        t.wf(),
        t.has(x),
        descends(t, x, k, e),
        e < t.nodes().dom().len(),
        m.spec_matches(x, t.node(x)),
    ensures
        trav(t, k, m, MatchBehavior::ContinueOnMatch, t.nodes().dom().len()).contains(x),
{
    lemma_trav_reaches(t, k, x, m, t.nodes().dom().len(), e);
}

/// The keys of the roots, highest z-index first.
pub open spec fn roots_desc_keys(t: NodeTree) -> Seq<DomNodeKey> {
    Seq::new(t.spec_roots().len(), |i: int| t.spec_roots()[t.spec_roots().len() - 1 - i].key)
}

/// The first match of the first of `keys` whose subtree yields one.
pub open spec fn first_found<M: NodeMatcher>(t: NodeTree, keys: Seq<DomNodeKey>, m: M, mb: MatchBehavior) -> Option<DomNodeKey>
    decreases keys.len(),
{
    if keys.len() == 0 {
        None
    } else {
        let f = trav(t, keys[0], m, mb, t.nodes().dom().len());
        if f.len() > 0 {
            Some(f[0])
        } else {
            first_found(t, keys.drop_first(), m, mb)
        }
    }
}

/// Searches the subtrees of the roots, highest z-index first, and gives the first match.
pub fn search_roots<M: NodeMatcher>(tree: &NodeTree, m: &M, mb: MatchBehavior) -> (r: Option<DomNodeKey>)
    ensures
        r == first_found(*tree, roots_desc_keys(*tree), *m, mb),
        r matches Some(k) ==> tree.has(k),
{
    let roots = tree.roots_desc();
    let ghost keys = roots_desc_keys(*tree);
    proof {
        assert(roots@ =~= keys);
        assert(keys.skip(0) =~= keys);
    }
    let mut i: usize = 0;
    while i < roots.len()
        invariant
            roots@ == keys,
            keys == roots_desc_keys(*tree),
            i <= keys.len(),
            first_found(*tree, keys, *m, mb) == first_found(*tree, keys.skip(i as int), *m, mb),
        decreases keys.len() - i,
    {
        let found = traverse(tree, roots[i], m, mb);
        proof {
            assert(keys.skip(i as int)[0] == keys[i as int]);
            assert(keys.skip(i as int).drop_first() =~= keys.skip(i as int + 1));
        }
        if found.len() > 0 {
            proof {
                lemma_trav_sound(*tree, roots@[i as int], *m, mb, tree.nodes().dom().len());
            }
            return Some(found[0]);
        }
        i = i + 1;
    }
    proof {
        assert(keys.skip(i as int).len() == 0);
    }
    None
}

/// What a move of the mouse did to the hover: the node it left and the node it entered.
#[derive(Debug, Clone, Copy, PartialEq, Eq, Structural)]
pub struct HoverChange {
    pub leave: Option<DomNodeKey>,
    pub enter: Option<DomNodeKey>,
}

/// The change from hovering `hovered` to hovering `current`.
pub open spec fn hover_change(hovered: Option<DomNodeKey>, current: Option<DomNodeKey>) -> HoverChange {
    match current {
        Some(c) => HoverChange {
            leave: if hovered is Some && hovered != Some(c) {
                hovered
            } else {
                None
            },
            enter: if hovered != Some(c) {
                Some(c)
            } else {
                None
            },
        },
        None => HoverChange { leave: hovered, enter: None },
    }
}

/// The widget under `position`: the first found searching the roots from the highest z-index down.
pub open spec fn widget_under(t: NodeTree, position: Position) -> Option<DomNodeKey> {
    first_found(t, roots_desc_keys(t), WidgetAt { position }, MatchBehavior::SearchChildrenOnMatch)
}

/// When the hover moves, the node left is the one that was hovered and the node entered is
/// the one now under the mouse; each is told only when the two differ.
pub proof fn lemma_hover_change_moves(hovered: Option<DomNodeKey>, current: Option<DomNodeKey>)
    ensures
        ({
            let r = hover_change(hovered, current);
            &&& (r.leave is Some) <==> (hovered is Some && hovered != current)
            &&& r.leave is Some ==> r.leave == hovered
            &&& (r.enter is Some) <==> (current is Some && current != hovered)
            &&& r.enter is Some ==> r.enter == current
        }),
{
}

/// Every match the first fruitful search over `keys` gives is a node of the tree that matches.
proof fn lemma_first_found_sound<M: NodeMatcher>(t: NodeTree, keys: Seq<DomNodeKey>, m: M, mb: MatchBehavior)
    ensures
        first_found(t, keys, m, mb) matches Some(k) ==> t.has(k) && m.spec_matches(k, t.node(k)),
    decreases keys.len(),
{
    if keys.len() > 0 {
        lemma_trav_sound(t, keys[0], m, mb, t.nodes().dom().len());
        lemma_first_found_sound(t, keys.drop_first(), m, mb);
    }
}

/// The widget under the mouse is a shown widget of the tree displayed over the position.
pub proof fn lemma_widget_under_shown(t: NodeTree, position: Position)
    ensures
        widget_under(t, position) matches Some(k) ==> {
            &&& t.has(k)
            &&& t.node(k).node_type is Widget
            &&& t.node(k).visible
            &&& rect_contains(displayed(t.node(k)), position)
        },
{
    lemma_first_found_sound(t, roots_desc_keys(t), WidgetAt { position }, MatchBehavior::SearchChildrenOnMatch);
}

/// Keeps the last position of the mouse, to hover again after a redraw.
#[derive(Debug, Clone, Copy, PartialEq, Eq, Structural)]
pub struct EventDispatcher {
    pub last_mouse_position: Position,
}

impl EventDispatcher {
    /// A dispatcher that has seen no mouse yet (its position is off every screen).
    pub fn new() -> (r: EventDispatcher)
        ensures
            r.last_mouse_position == (Position { x: u16::MAX, y: u16::MAX }),
    {
        EventDispatcher { last_mouse_position: Position { x: u16::MAX, y: u16::MAX } }
    }

    /// The mouse moved to `position`: the widget under it becomes the hovered node.
    /// The node that was hovered should hear that the mouse left it, and the new one that
    /// the mouse entered it, as the result tells.
    pub fn dispatch_mouse_moved(&mut self, tree: &mut NodeTree, position: Position) -> (r: HoverChange)
        requires
            old(tree).wf(),
        ensures
            final(self).last_mouse_position == position,
            final(tree).wf(),
            r == hover_change(old(tree).spec_hovered_key(), widget_under(*old(tree), position)),
            final(tree).spec_hovered_key() == widget_under(*old(tree), position),
            final(tree).nodes() == old(tree).nodes(),
            final(tree).spec_roots() == old(tree).spec_roots(),
            final(tree).spec_next_root_id() == old(tree).spec_next_root_id(),
            final(tree).spec_viewport() == old(tree).spec_viewport(),
            final(tree).spec_focused() == old(tree).spec_focused(),
            final(tree).spec_focused_key() == old(tree).spec_focused_key(),
            final(tree).focusables() == old(tree).focusables(),
            final(tree).spec_events() == old(tree).spec_events(),
    {
        self.last_mouse_position = position;
        let current = search_roots(tree, &WidgetAt { position }, MatchBehavior::SearchChildrenOnMatch);
        let hovered = tree.hovered_key();
        match current {
            Some(c) => {
                let leave = match hovered {
                    Some(h) => if h != c {
                        Some(h)
                    } else {
                        None
                    },
                    None => None,
                };
                let changed = match hovered {
                    Some(h) => h != c,
                    None => true,
                };
                if changed {
                    tree.set_hovered(c);
                }
                HoverChange { leave, enter: if changed { Some(c) } else { None } }
            },
            None => {
                if hovered.is_some() {
                    tree.remove_hovered();
                }
                HoverChange { leave: hovered, enter: None }
            },
        }
    }

    /// Moves the mouse again to where it last was, so that the hover follows a redraw.
    pub fn reset_mouse_position(&mut self, tree: &mut NodeTree) -> (r: HoverChange)
        requires
            old(tree).wf(),
        ensures
            *final(self) == *old(self),
            final(tree).wf(),
            r == hover_change(old(tree).spec_hovered_key(), widget_under(*old(tree), old(self).last_mouse_position)),
            final(tree).spec_hovered_key() == widget_under(*old(tree), old(self).last_mouse_position),
            final(tree).nodes() == old(tree).nodes(),
            final(tree).spec_roots() == old(tree).spec_roots(),
            final(tree).spec_next_root_id() == old(tree).spec_next_root_id(),
            final(tree).spec_viewport() == old(tree).spec_viewport(),
            final(tree).spec_focused() == old(tree).spec_focused(),
            final(tree).spec_focused_key() == old(tree).spec_focused_key(),
            final(tree).focusables() == old(tree).focusables(),
            final(tree).spec_events() == old(tree).spec_events(),
    {
        let p = self.last_mouse_position;
        self.dispatch_mouse_moved(tree, p)
    }
}

/// The mouse button of a click.
#[derive(Debug, Clone, Copy, PartialEq, Eq, Structural)]
pub enum ClickButton {
    Left,
    Right,
    Middle,
}

/// Matches the enabled nodes at `position` that can take focus or have a handler for
/// clicks of `button`.
#[derive(Debug, Clone, Copy, PartialEq, Eq, Structural)]
pub struct ClickTarget {
    pub position: Position,
    pub button: ClickButton,
}

/// Whether the node has a handler for clicks of `button`.
pub open spec fn handles_button(n: NodeProperties, button: ClickButton) -> bool {
    match button {
        ClickButton::Left => n.click_handlers.left,
        ClickButton::Right => n.click_handlers.right,
        ClickButton::Middle => n.click_handlers.middle,
    }
}

impl NodeMatcher for ClickTarget {
    open spec fn spec_matches(&self, key: DomNodeKey, node: NodeProperties) -> bool {
        &&& node.spec_enabled()
        &&& node.spec_focusable() || handles_button(node, self.button)
        &&& rect_contains(displayed(node), self.position)
    }

    fn matches(&self, key: DomNodeKey, node: &NodeProperties) -> (r: bool) {
        if !node.is_enabled() {
            return false;
        }
        let handles = match self.button {
            ClickButton::Left => node.click_handlers.left,
            ClickButton::Right => node.click_handlers.right,
            ClickButton::Middle => node.click_handlers.middle,
        };
        if !(node.is_focusable() || handles) {
            return false;
        }
        node.position().contains(self.position)
    }
}

/// All the matches of the first of `keys` whose subtree yields any.
pub open spec fn first_nonempty<M: NodeMatcher>(t: NodeTree, keys: Seq<DomNodeKey>, m: M, mb: MatchBehavior) -> Seq<DomNodeKey>
    decreases keys.len(),
{
    if keys.len() == 0 {
        Seq::empty()
    } else {
        let f = trav(t, keys[0], m, mb, t.nodes().dom().len());
        if f.len() > 0 {
            f
        } else {
            first_nonempty(t, keys.drop_first(), m, mb)
        }
    }
}

/// Every node the first fruitful search over `keys` finds is in the tree and matches.
proof fn lemma_first_nonempty_sound<M: NodeMatcher>(t: NodeTree, keys: Seq<DomNodeKey>, m: M, mb: MatchBehavior)
    ensures
        forall|i: int| 0 <= i < first_nonempty(t, keys, m, mb).len() ==> t.has(#[trigger] first_nonempty(t, keys, m, mb)[i])
            && m.spec_matches(first_nonempty(t, keys, m, mb)[i], t.node(first_nonempty(t, keys, m, mb)[i])),
    decreases keys.len(),
{
    if keys.len() > 0 {
        lemma_trav_sound(t, keys[0], m, mb, t.nodes().dom().len());
        lemma_first_nonempty_sound(t, keys.drop_first(), m, mb);
    }
}

/// With `SearchChildrenOnMatch`, the search of a list of children yields nothing or the
/// matches of exactly one child's subtree.
proof fn lemma_trav_children_one<M: NodeMatcher>(t: NodeTree, cs: Seq<DomNodeKey>, m: M, fuel: nat)
    ensures
        trav_children(t, cs, m, MatchBehavior::SearchChildrenOnMatch, fuel).len() == 0 || exists|c: int|
            0 <= c < cs.len() && trav_children(t, cs, m, MatchBehavior::SearchChildrenOnMatch, fuel) == trav(
                t,
                #[trigger] cs[c],
                m,
                MatchBehavior::SearchChildrenOnMatch,
                fuel,
            ),
    decreases cs.len(),
{
    if cs.len() > 0 {
        let mb = MatchBehavior::SearchChildrenOnMatch;
        lemma_trav_children_one(t, cs.drop_last(), m, fuel);
        let pre = trav_children(t, cs.drop_last(), m, mb, fuel);
        if pre.len() > 0 {
            let c = choose|c: int| 0 <= c < cs.drop_last().len() && pre == trav(t, #[trigger] cs.drop_last()[c], m, mb, fuel);
            assert(cs.drop_last()[c] == cs[c]);
        } else {
            assert(pre + trav(t, cs.last(), m, mb, fuel) =~= trav(t, cs.last(), m, mb, fuel));
            assert(cs.last() == cs[cs.len() - 1]);
        }
    }
}

/// With `SearchChildrenOnMatch`, the matches of a search from `k` lie on one path down from
/// `k`: each lies below `k`, and each lies below every match found before it.
proof fn lemma_trav_chain<M: NodeMatcher>(t: NodeTree, k: DomNodeKey, m: M, fuel: nat)
    requires
        t.wf(),
    ensures
        ({
            let s = trav(t, k, m, MatchBehavior::SearchChildrenOnMatch, fuel);
            &&& forall|i: int| 0 <= i < s.len() ==> descends(t, #[trigger] s[i], k, fuel)
            &&& forall|i: int, j: int| 0 <= i < j < s.len() ==> descends(t, #[trigger] s[j], #[trigger] s[i], fuel)
        }),
    decreases fuel,
{
    let mb = MatchBehavior::SearchChildrenOnMatch;
    let s = trav(t, k, m, mb, fuel);
    if fuel > 0 && t.has(k) {
        let cs = t.node(k).children@;
        let hit = m.spec_matches(k, t.node(k));
        let head: Seq<DomNodeKey> = if hit { seq![k] } else { Seq::empty() };
        let rest = trav_children(t, cs, m, mb, (fuel - 1) as nat);
        assert(s == head + rest);
        lemma_trav_children_one(t, cs, m, (fuel - 1) as nat);
        if rest.len() > 0 {
            let ci = choose|ci: int| 0 <= ci < cs.len() && rest == trav(t, #[trigger] cs[ci], m, mb, (fuel - 1) as nat);
            let c = cs[ci];
            NodeTree::lemma_wf_links(t, k);
            assert(t.has(c) && t.node(c).parent == Some(k));
            lemma_trav_chain(t, c, m, (fuel - 1) as nat);
            assert forall|i: int| 0 <= i < rest.len() implies descends(t, #[trigger] rest[i], k, fuel) by {
                lemma_descends_parent(t, rest[i], c, k, (fuel - 1) as nat);
            }
            assert forall|i: int| 0 <= i < s.len() implies descends(t, #[trigger] s[i], k, fuel) by {
                if i >= head.len() {
                    assert(s[i] == rest[i - head.len()]);
                }
            }
            assert forall|i: int, j: int| 0 <= i < j < s.len() implies descends(t, #[trigger] s[j], #[trigger] s[i], fuel) by {
                assert(s[j] == rest[j - head.len()]);
                if i >= head.len() {
                    assert(s[i] == rest[i - head.len()]);
                    lemma_descends_mono(t, rest[j - head.len()], rest[i - head.len()], (fuel - 1) as nat, fuel);
                } else {
                    assert(s[i] == k);
                }
            }
        } else {
            assert(s =~= head);
        }
    }
}

/// With `SearchChildrenOnMatch`, the first fruitful search over `keys` yields nothing or
/// the matches of the search from exactly one of them.
proof fn lemma_first_nonempty_one<M: NodeMatcher>(t: NodeTree, keys: Seq<DomNodeKey>, m: M)
    ensures
        first_nonempty(t, keys, m, MatchBehavior::SearchChildrenOnMatch).len() == 0 || exists|c: int|
            0 <= c < keys.len() && first_nonempty(t, keys, m, MatchBehavior::SearchChildrenOnMatch) == trav(
                t,
                #[trigger] keys[c],
                m,
                MatchBehavior::SearchChildrenOnMatch,
                t.nodes().dom().len(),
            ),
    decreases keys.len(),
{
    if keys.len() > 0 {
        let f = trav(t, keys[0], m, MatchBehavior::SearchChildrenOnMatch, t.nodes().dom().len());
        if f.len() == 0 {
            lemma_first_nonempty_one(t, keys.drop_first(), m);
            let rest = first_nonempty(t, keys.drop_first(), m, MatchBehavior::SearchChildrenOnMatch);
            if rest.len() > 0 {
                let c = choose|c: int| 0 <= c < keys.drop_first().len() && rest == trav(t, #[trigger] keys.drop_first()[c], m,
                    MatchBehavior::SearchChildrenOnMatch, t.nodes().dom().len());
                assert(keys.drop_first()[c] == keys[c + 1]);
            }
        }
    }
}

/// The nodes a click at `position` lands on: the matches of the first root, highest
/// z-index first, whose subtree has any.
pub fn hit_test(tree: &NodeTree, position: Position, button: ClickButton) -> (r: Vec<DomNodeKey>)
    ensures
        r@ == first_nonempty(*tree, roots_desc_keys(*tree), ClickTarget { position, button }, MatchBehavior::SearchChildrenOnMatch),
        forall|i: int| 0 <= i < r@.len() ==> tree.has(#[trigger] r@[i]),
{
    let m = ClickTarget { position, button };
    let mb = MatchBehavior::SearchChildrenOnMatch;
    let roots = tree.roots_desc();
    let ghost keys = roots_desc_keys(*tree);
    proof {
        assert(roots@ =~= keys);
        assert(keys.skip(0) =~= keys);
    }
    let mut i: usize = 0;
    while i < roots.len()
        invariant
            m == (ClickTarget { position, button }),
            mb == MatchBehavior::SearchChildrenOnMatch,
            roots@ == keys,
            keys == roots_desc_keys(*tree),
            i <= keys.len(),
            first_nonempty(*tree, keys, m, mb) == first_nonempty(*tree, keys.skip(i as int), m, mb),
        decreases keys.len() - i,
    {
        let found = traverse(tree, roots[i], &m, mb);
        proof {
            assert(keys.skip(i as int)[0] == keys[i as int]);
            assert(keys.skip(i as int).drop_first() =~= keys.skip(i as int + 1));
        }
        if found.len() > 0 {
            proof {
                lemma_trav_sound(*tree, roots@[i as int], m, mb, tree.nodes().dom().len());
            }
            return found;
        }
        i = i + 1;
    }
    proof {
        assert(keys.skip(i as int).len() == 0);
    }
    Vec::new()
}

/// What a click does along `keys` (the nodes hit, innermost first), given what the
/// handlers that run answer in `outs` (whether they stopped the click): the first
/// focusable node takes focus, and the handlers of each node run until one stops the
/// click; a node that takes focus after the click was stopped ends it. The result is the
/// node that takes focus and the nodes whose handlers run, in order.
pub open spec fn click_plan(focusable: spec_fn(DomNodeKey) -> bool, keys: Seq<DomNodeKey>, outs: Seq<bool>, focus_set: bool,
    stopped: bool) -> (Option<DomNodeKey>, Seq<DomNodeKey>)
    decreases keys.len(),
{
    if keys.len() == 0 {
        (None, Seq::empty())
    } else {
        let k = keys[0];
        let focus_here = !focus_set && focusable(k);
        let fs = focus_set || focus_here;
        let focus = if focus_here { Some(k) } else { None };
        if focus_here && stopped {
            (focus, Seq::empty())
        } else if !stopped {
            let o = outs[0];
            if fs && o {
                (focus, seq![k])
            } else {
                let (f, ran) = click_plan(focusable, keys.drop_first(), outs.drop_first(), fs, o);
                (if focus_here { focus } else { f }, seq![k] + ran)
            }
        } else {
            let (f, ran) = click_plan(focusable, keys.drop_first(), outs, fs, stopped);
            (if focus_here { focus } else { f }, ran)
        }
    }
}

/// `new` is `old` after focusing `focus` when it is not focused yet, and `old` itself otherwise.
pub open spec fn focused_by_click(old: NodeTree, new: NodeTree, focus: Option<DomNodeKey>) -> bool {
    match focus {
        Some(k) => if old.spec_focused_key() != Some(k) {
            focus_moved(old, new, Some(k))
        } else {
            new == old
        },
        None => new == old,
    }
}

fn click_from<F: Fn(DomNodeKey) -> bool>(tree: &mut NodeTree, keys: &Vec<DomNodeKey>, j: usize, focus_set: bool, stopped: bool,
    run: &F, Ghost(focusable): Ghost<spec_fn(DomNodeKey) -> bool>) -> (r: Ghost<(Option<DomNodeKey>, Seq<DomNodeKey>, Seq<bool>)>)
    requires
        old(tree).wf(),
        j <= keys@.len(),
        forall|i: int| 0 <= i < keys@.len() ==> old(tree).has(#[trigger] keys@[i]),
        forall|k: DomNodeKey| run.requires((k,)),
        forall|k: DomNodeKey| old(tree).has(k) ==> focusable(k) == #[trigger] old(tree).node(k).spec_focusable(),
    ensures
        final(tree).wf(),
        final(tree).nodes() == old(tree).nodes(),
        (r@.0, r@.1) == click_plan(focusable, keys@.skip(j as int), r@.2, focus_set, stopped),
        r@.1.len() == r@.2.len(),
        forall|i: int| 0 <= i < r@.1.len() ==> run.ensures((r@.1[i],), #[trigger] r@.2[i]),
        focused_by_click(*old(tree), *final(tree), r@.0),
    decreases keys@.len() - j,
{
    let ghost rest = keys@.skip(j as int);
    if j == keys.len() {
        return Ghost((None, Seq::empty(), Seq::empty()));
    }
    let k = keys[j];
    proof {
        assert(rest[0] == k);
        assert(rest.drop_first() =~= keys@.skip(j as int + 1));
    }
    let focus_here = !focus_set && tree.get(k).is_focusable();
    let fs = focus_set || focus_here;
    if focus_here {
        if tree.focused_key() != Some(k) {
            tree.set_focused(Some(k));
        }
        if stopped {
            return Ghost((Some(k), Seq::empty(), Seq::empty()));
        }
    }
    let ghost focus: Option<DomNodeKey> = if focus_here { Some(k) } else { None };
    if !stopped {
        let o = run(k);
        if fs && o {
            let ghost outs = seq![o];
            proof {
                assert(outs.drop_first() =~= Seq::<bool>::empty());
            }
            return Ghost((focus, seq![k], seq![o]));
        }
        let ghost mid = *tree;
        let r = click_from(tree, keys, j + 1, fs, o, run, Ghost(focusable));
        let ghost outs = seq![o] + r@.2;
        let ghost ran = seq![k] + r@.1;
        proof {
            assert(outs[0] == o);
            assert(outs.drop_first() =~= r@.2);
            assert forall|i: int| 0 <= i < ran.len() implies run.ensures((ran[i],), #[trigger] outs[i]) by {
                if i > 0 {
                    assert(ran[i] == r@.1[i - 1]);
                    assert(outs[i] == r@.2[i - 1]);
                }
            }
            if focus_here {
                lemma_click_plan_focus_once(focusable, keys@.skip(j as int + 1), r@.2, o);
            }
        }
        Ghost((if focus_here { focus } else { r@.0 }, ran, outs))
    } else {
        let r = click_from(tree, keys, j + 1, fs, stopped, run, Ghost(focusable));
        proof {
            if focus_here {
                lemma_click_plan_focus_once(focusable, keys@.skip(j as int + 1), r@.2, stopped);
            }
        }
        Ghost((if focus_here { focus } else { r@.0 }, r@.1, r@.2))
    }
}

/// A click of `button` at `position`: over the nodes hit, innermost first, the first
/// that can take focus takes it, and `run` runs the click handlers of each node and
/// tells whether they stopped the click, as `click_plan` lays out.
pub fn dispatch_mouse_button<F: Fn(DomNodeKey) -> bool>(tree: &mut NodeTree, position: Position, button: ClickButton, run: F)
    requires
        old(tree).wf(),
        forall|k: DomNodeKey| run.requires((k,)),
    ensures
        final(tree).wf(),
        exists|outs: Seq<bool>|
            #![trigger click_plan(focusable_in(*old(tree)), hit_test_spec(*old(tree), position, button).reverse(), outs, false, false)]
            {
                let (focus, ran) = click_plan(focusable_in(*old(tree)),
                    hit_test_spec(*old(tree), position, button).reverse(), outs, false, false);
                &&& ran.len() == outs.len()
                &&& forall|i: int| 0 <= i < ran.len() ==> run.ensures((ran[i],), #[trigger] outs[i])
                &&& focused_by_click(*old(tree), *final(tree), focus)
            },
{
    let found = hit_test(tree, position, button);
    let mut keys: Vec<DomNodeKey> = Vec::new();
    let mut i: usize = found.len();
    while i > 0
        invariant
            i <= found@.len(),
            keys@ == found@.subrange(i as int, found@.len() as int).reverse(),
        decreases i,
    {
        i = i - 1;
        keys.push(found[i]);
        proof {
            assert(keys@ =~= found@.subrange(i as int, found@.len() as int).reverse());
        }
    }
    proof {
        assert(found@.subrange(0, found@.len() as int) =~= found@);
        assert(keys@.skip(0) =~= keys@);
    }
    let ghost focusable = focusable_in(*old(tree));
    let r = click_from(tree, &keys, 0, false, false, &run, Ghost(focusable));
    proof {
        assert(keys@ =~= hit_test_spec(*old(tree), position, button).reverse());
        let outs = r@.2;
        let (focus, ran) = click_plan(focusable_in(*old(tree)), hit_test_spec(*old(tree), position, button).reverse(), outs, false, false);
        assert(focus == r@.0 && ran == r@.1);
    }
}

/// Once a node took focus, no other node takes it.
proof fn lemma_click_plan_focus_once(focusable: spec_fn(DomNodeKey) -> bool, keys: Seq<DomNodeKey>, outs: Seq<bool>, stopped: bool)
    ensures
        click_plan(focusable, keys, outs, true, stopped).0 is None,
    decreases keys.len(),
{
    if keys.len() > 0 {
        if !stopped {
            lemma_click_plan_focus_once(focusable, keys.drop_first(), outs.drop_first(), outs[0]);
        } else {
            lemma_click_plan_focus_once(focusable, keys.drop_first(), outs, stopped);
        }
    }
}

/// A click focuses the innermost node hit that can take focus, whatever the handlers that
/// ran before it answered: handlers that stop the click do not keep focus from moving.
pub proof fn lemma_click_focuses_innermost_focusable(focusable: spec_fn(DomNodeKey) -> bool, keys: Seq<DomNodeKey>,
    outs: Seq<bool>, stopped: bool, i: int)
    requires
        0 <= i < keys.len(),
        focusable(keys[i]),
        forall|j: int| 0 <= j < i ==> !focusable(#[trigger] keys[j]),
    ensures
        click_plan(focusable, keys, outs, false, stopped).0 == Some(keys[i]),
    decreases i,
{
    if i > 0 {
        assert forall|j: int| 0 <= j < i - 1 implies !focusable(#[trigger] keys.drop_first()[j]) by {
            assert(keys.drop_first()[j] == keys[j + 1]);
        }
        assert(keys.drop_first()[i - 1] == keys[i]);
        assert(!focusable(keys[0]));
        if !stopped {
            lemma_click_focuses_innermost_focusable(focusable, keys.drop_first(), outs.drop_first(), outs[0], i - 1);
        } else {
            lemma_click_focuses_innermost_focusable(focusable, keys.drop_first(), outs, stopped, i - 1);
        }
    }
}

/// The click handlers run on the nodes hit in order, innermost first, with none skipped,
/// and the run ends early only at a node whose handlers stopped the click: every node but
/// the last that ran let it go on. A click already stopped runs no more handlers. (`outs`
/// holds what the handlers of the nodes answer, in the order they run.)
pub proof fn lemma_click_runs_until_stopped(focusable: spec_fn(DomNodeKey) -> bool, keys: Seq<DomNodeKey>,
    outs: Seq<bool>, focus_set: bool, stopped: bool)
    requires
        keys.len() <= outs.len(),
    ensures
        ({
            let ran = click_plan(focusable, keys, outs, focus_set, stopped).1;
            &&& ran.len() <= keys.len()
            &&& ran == keys.take(ran.len() as int)
            &&& stopped ==> ran.len() == 0
            &&& forall|j: int| 0 <= j < ran.len() - 1 ==> !#[trigger] outs[j]
            &&& !stopped && ran.len() < keys.len() ==> ran.len() > 0 && outs[ran.len() - 1]
        }),
    decreases keys.len(),
{
    if keys.len() > 0 {
        let k = keys[0];
        let focus_here = !focus_set && focusable(k);
        let fs = focus_set || focus_here;
        if focus_here && stopped {
        } else if !stopped {
            let o = outs[0];
            if fs && o {
                assert(seq![k] =~= keys.take(1));
            } else {
                lemma_click_runs_until_stopped(focusable, keys.drop_first(), outs.drop_first(), fs, o);
                let sub = click_plan(focusable, keys.drop_first(), outs.drop_first(), fs, o).1;
                let ran = seq![k] + sub;
                assert(ran =~= keys.take(ran.len() as int)) by {
                    assert forall|j: int| 0 <= j < ran.len() implies ran[j] == keys.take(ran.len() as int)[j] by {
                        if j > 0 {
                            assert(sub[j - 1] == keys.drop_first().take(sub.len() as int)[j - 1]);
                        }
                    }
                }
                assert forall|j: int| 0 <= j < ran.len() - 1 implies !#[trigger] outs[j] by {
                    if j > 0 {
                        assert(outs.drop_first()[j - 1] == outs[j]);
                    }
                }
                if ran.len() < keys.len() {
                    if sub.len() > 0 {
                        assert(outs.drop_first()[sub.len() - 1] == outs[ran.len() - 1]);
                    }
                }
            }
        } else {
            lemma_click_runs_until_stopped(focusable, keys.drop_first(), outs, fs, stopped);
        }
    }
}

/// A click on nodes none of which can take focus focuses nothing.
pub proof fn lemma_click_without_focusable_focuses_nothing(focusable: spec_fn(DomNodeKey) -> bool, keys: Seq<DomNodeKey>,
    outs: Seq<bool>, focus_set: bool, stopped: bool)
    requires
        forall|j: int| 0 <= j < keys.len() ==> !focusable(#[trigger] keys[j]),
    ensures
        click_plan(focusable, keys, outs, focus_set, stopped).0 is None,
    decreases keys.len(),
{
    if keys.len() > 0 {
        assert forall|j: int| 0 <= j < keys.drop_first().len() implies !focusable(#[trigger] keys.drop_first()[j]) by {
            assert(keys.drop_first()[j] == keys[j + 1]);
        }
        assert(!focusable(keys[0]));
        if !stopped {
            lemma_click_without_focusable_focuses_nothing(focusable, keys.drop_first(), outs.drop_first(), focus_set, outs[0]);
        } else {
            lemma_click_without_focusable_focuses_nothing(focusable, keys.drop_first(), outs, focus_set, stopped);
        }
    }
}

/// Whether a node of `t` can take focus.
pub open spec fn focusable_in(t: NodeTree) -> spec_fn(DomNodeKey) -> bool {
    |k: DomNodeKey| t.node(k).spec_focusable()
}

/// The nodes a click at `position` lands on.
pub open spec fn hit_test_spec(t: NodeTree, position: Position, button: ClickButton) -> Seq<DomNodeKey> {
    first_nonempty(t, roots_desc_keys(t), ClickTarget { position, button }, MatchBehavior::SearchChildrenOnMatch)
}

/// Where a key event went.
#[derive(Debug, Clone, Copy, PartialEq, Eq, Structural)]
pub enum KeyOutcome {
    /// Control and `x`: the printed document is shown or hidden instead.
    TogglePrintDom,
    /// It bubbled up from the focused node; whether some node handled it.
    Focused(bool),
    /// Nothing was focused, so the roots heard it, highest first, until one handled it;
    /// whether one did.
    Roots(bool),
}

/// Every node a click at `position` lands on is an enabled node of the tree, displayed over
/// `position`, that can take focus or has a handler for the button.
pub proof fn lemma_click_hits_enabled(t: NodeTree, position: Position, button: ClickButton, i: int)
    requires
        0 <= i < hit_test_spec(t, position, button).len(),
    ensures
        t.has(hit_test_spec(t, position, button)[i]),
        t.node(hit_test_spec(t, position, button)[i]).enabled,
        t.node(hit_test_spec(t, position, button)[i]).parent_enabled,
        t.node(hit_test_spec(t, position, button)[i]).focusable || handles_button(t.node(hit_test_spec(t, position, button)[i]), button),
        rect_contains(displayed(t.node(hit_test_spec(t, position, button)[i])), position),
{
    lemma_first_nonempty_sound(t, roots_desc_keys(t), ClickTarget { position, button }, MatchBehavior::SearchChildrenOnMatch);
}

/// The nodes a click lands on lie on one path down the tree: each lies below every node
/// found before it, so that reversed they run from the innermost node outward.
pub proof fn lemma_click_hits_nested(t: NodeTree, position: Position, button: ClickButton, i: int, j: int)
    requires
        t.wf(),
        0 <= i < j < hit_test_spec(t, position, button).len(),
    ensures
        descends(t, hit_test_spec(t, position, button)[j], hit_test_spec(t, position, button)[i], t.nodes().dom().len()),
{
    let m = ClickTarget { position, button };
    let hits = hit_test_spec(t, position, button);
    lemma_first_nonempty_one(t, roots_desc_keys(t), m);
    let c = choose|c: int| 0 <= c < roots_desc_keys(t).len() && hits == trav(t, #[trigger] roots_desc_keys(t)[c], m,
        MatchBehavior::SearchChildrenOnMatch, t.nodes().dom().len());
    lemma_trav_chain(t, roots_desc_keys(t)[c], m, t.nodes().dom().len());
}

/// Whether the event is control and `x`.
pub open spec fn is_print_toggle(e: KeyEvent) -> bool {
    e.code == KeyCode::Char('x') && e.modifiers.bits & CONTROL_BIT == CONTROL_BIT
}

/// `traces` lists how a key event bubbled from each of `roots` in turn: it went on to
/// the next root only while no node handled it.
pub open spec fn roots_trace<F: Fn(DomNodeKey) -> HandlerOutcome>(t: NodeTree, roots: Seq<DomNodeKey>,
    traces: Seq<Seq<(DomNodeKey, HandlerOutcome)>>, run: F, handled: bool) -> bool {
    &&& traces.len() <= roots.len()
    &&& forall|i: int| 0 <= i < traces.len() ==> bubble_trace(t, roots[i], AllowDisabled::Disallow, #[trigger] traces[i],
        t.nodes().dom().len())
    &&& forall|i: int, j: int| 0 <= i < traces.len() && 0 <= j < traces[i].len() ==> run.ensures((traces[i][j].0,),
        #[trigger] traces[i][j].1)
    &&& forall|i: int| 0 <= i < traces.len() - 1 ==> !trace_handled(#[trigger] traces[i])
    &&& handled == (traces.len() > 0 && trace_handled(traces.last()))
    &&& !handled ==> traces.len() == roots.len()
}

/// Hands a key event to the document: control and `x` toggles the printed document;
/// otherwise the event bubbles up from the focused node, or, with nothing focused,
/// from each root in turn, highest first, until a node handles it. `run` runs the key
/// handlers of a node and tells what they did.
pub fn dispatch_key_event<F: Fn(DomNodeKey) -> HandlerOutcome>(tree: &NodeTree, key_event: &KeyEvent, run: F) -> (r: KeyOutcome)
    requires
        forall|k: DomNodeKey| run.requires((k,)),
    ensures
        is_print_toggle(*key_event) <==> r == KeyOutcome::TogglePrintDom,
        !is_print_toggle(*key_event) ==> match tree.spec_focused_key() {
            Some(k) => exists|trace: Seq<(DomNodeKey, HandlerOutcome)>|
                #![trigger bubble_trace(*tree, k, AllowDisabled::Disallow, trace, tree.nodes().dom().len())]
                {
                    &&& bubble_trace(*tree, k, AllowDisabled::Disallow, trace, tree.nodes().dom().len())
                    &&& forall|i: int| 0 <= i < trace.len() ==> run.ensures((trace[i].0,), #[trigger] trace[i].1)
                    &&& r == KeyOutcome::Focused(trace_handled(trace))
                },
            None => exists|traces: Seq<Seq<(DomNodeKey, HandlerOutcome)>>, handled: bool|
                #![trigger roots_trace(*tree, roots_desc_keys(*tree), traces, run, handled)]
                roots_trace(*tree, roots_desc_keys(*tree), traces, run, handled) && r == KeyOutcome::Roots(handled),
        },
{
    let is_x = match key_event.code {
        KeyCode::Char(c) => c == 'x',
        _ => false,
    };
    if is_x && key_event.modifiers.contains(KeyModifiers::from_bits_retain(CONTROL_BIT)) {
        return KeyOutcome::TogglePrintDom;
    }
    match tree.focused_key() {
        Some(k) => KeyOutcome::Focused(bubble_event(tree, k, AllowDisabled::Disallow, run)),
        None => {
            let roots = tree.roots_desc();
            let ghost keys = roots_desc_keys(*tree);
            proof {
                assert(roots@ =~= keys);
            }
            let ghost mut traces: Seq<Seq<(DomNodeKey, HandlerOutcome)>> = Seq::empty();
            let mut i: usize = 0;
            while i < roots.len()
                invariant
                    !is_print_toggle(*key_event),
                    tree.spec_focused_key() is None,
                    roots@ == keys,
                    keys == roots_desc_keys(*tree),
                    forall|k: DomNodeKey| run.requires((k,)),
                    i <= keys.len(),
                    traces.len() == i,
                    forall|j: int| 0 <= j < traces.len() ==> bubble_trace(*tree, keys[j], AllowDisabled::Disallow,
                        #[trigger] traces[j], tree.nodes().dom().len()),
                    forall|a: int, b: int| 0 <= a < traces.len() && 0 <= b < traces[a].len() ==> run.ensures((traces[a][b].0,),
                        #[trigger] traces[a][b].1),
                    forall|j: int| 0 <= j < traces.len() ==> !trace_handled(#[trigger] traces[j]),
                decreases keys.len() - i,
            {
                let fuel = tree.len();
                let (handled, Ghost(trace)) = bubble_from(tree, roots[i], AllowDisabled::Disallow, &run, fuel);
                let ghost prev = traces;
                proof {
                    traces = traces.push(trace);
                    assert forall|j: int| 0 <= j < traces.len() implies bubble_trace(*tree, keys[j], AllowDisabled::Disallow,
                        #[trigger] traces[j], tree.nodes().dom().len()) by {
                        if j < prev.len() {
                            assert(traces[j] == prev[j]);
                        }
                    }
                    assert forall|a: int, b: int| 0 <= a < traces.len() && 0 <= b < traces[a].len() implies run.ensures(
                        (traces[a][b].0,),
                        #[trigger] traces[a][b].1,
                    ) by {
                        if a < prev.len() {
                            assert(traces[a] == prev[a]);
                        }
                    }
                }
                if handled {
                    proof {
                        assert forall|j: int| 0 <= j < traces.len() - 1 implies !trace_handled(#[trigger] traces[j]) by {
                            assert(traces[j] == prev[j]);
                        }
                        assert(traces.last() == trace);
                        assert(roots_trace(*tree, roots_desc_keys(*tree), traces, run, true));
                    }
                    return KeyOutcome::Roots(true);
                }
                proof {
                    assert forall|j: int| 0 <= j < traces.len() implies !trace_handled(#[trigger] traces[j]) by {
                        if j < prev.len() {
                            assert(traces[j] == prev[j]);
                        }
                    }
                }
                i = i + 1;
            }
            proof {
                assert(roots_trace(*tree, roots_desc_keys(*tree), traces, run, false));
            }
            KeyOutcome::Roots(false)
        },
    }
}

/// Matches the enabled nodes at `position` whose content can scroll.
#[derive(Debug, Clone, Copy, PartialEq, Eq, Structural)]
pub struct ScrollTarget {
    pub position: Position,
}

impl NodeMatcher for ScrollTarget {
    open spec fn spec_matches(&self, key: DomNodeKey, node: NodeProperties) -> bool {
        &&& node.spec_enabled()
        &&& node.max_scroll_offset != (Position { x: 0, y: 0 })
        &&& rect_contains(displayed(node), self.position)
    }

    fn matches(&self, key: DomNodeKey, node: &NodeProperties) -> (r: bool) {
        node.is_enabled() && node.max_scroll_offset != Position::origin() && node.position().contains(self.position)
    }
}

/// The nodes under `position` whose content can scroll, found as the hit test finds nodes.
pub open spec fn scroll_hits(t: NodeTree, position: Position) -> Seq<DomNodeKey> {
    first_nonempty(t, roots_desc_keys(t), ScrollTarget { position }, MatchBehavior::SearchChildrenOnMatch)
}

/// Every node a turn of the wheel at `position` may scroll is a node of the tree that is
/// enabled (neither it nor an ancestor was disabled), whose content can scroll, and that
/// is displayed over `position`.
pub proof fn lemma_scroll_hits_enabled(t: NodeTree, position: Position, i: int)
    requires
        0 <= i < scroll_hits(t, position).len(),
    ensures
        t.has(scroll_hits(t, position)[i]),
        t.node(scroll_hits(t, position)[i]).enabled,
        t.node(scroll_hits(t, position)[i]).parent_enabled,
        t.node(scroll_hits(t, position)[i]).max_scroll_offset != (Position { x: 0, y: 0 }),
        rect_contains(displayed(t.node(scroll_hits(t, position)[i])), position),
{
    lemma_first_nonempty_sound(t, roots_desc_keys(t), ScrollTarget { position }, MatchBehavior::SearchChildrenOnMatch);
}

/// The node a turn of the wheel scrolls, the last scrollable node found at `position`, is
/// the innermost: it lies below every other scrollable node found there.
pub proof fn lemma_scroll_target_innermost(t: NodeTree, position: Position, i: int)
    requires
        t.wf(),
        0 <= i < scroll_hits(t, position).len(),
    ensures
        descends(t, scroll_hits(t, position).last(), scroll_hits(t, position)[i], t.nodes().dom().len()),
{
    let m = ScrollTarget { position };
    let hits = scroll_hits(t, position);
    lemma_first_nonempty_one(t, roots_desc_keys(t), m);
    let c = choose|c: int| 0 <= c < roots_desc_keys(t).len() && hits == trav(t, #[trigger] roots_desc_keys(t)[c], m,
        MatchBehavior::SearchChildrenOnMatch, t.nodes().dom().len());
    lemma_trav_chain(t, roots_desc_keys(t)[c], m, t.nodes().dom().len());
    if i < hits.len() - 1 {
        assert(descends(t, hits[hits.len() - 1], hits[i], t.nodes().dom().len()));
    } else {
        assert(descends(t, hits[i], hits[i], t.nodes().dom().len()));
    }
}

/// A turn of the wheel at `position`: the innermost node there whose content can scroll
/// is scrolled, and handed back so that its scroll handlers can run.
pub fn dispatch_scroll_event(tree: &mut NodeTree, position: Position, direction: ScrollDirection) -> (r: Option<DomNodeKey>)
    requires
        old(tree).wf(),
    ensures
        final(tree).wf(),
        scroll_hits(*old(tree), position).len() == 0 ==> r is None && *final(tree) == *old(tree),
        r matches Some(k) ==> old(tree).has(k) && old(tree).node(k).enabled && old(tree).node(k).parent_enabled
            && old(tree).node(k).max_scroll_offset != (Position { x: 0, y: 0 }),
        scroll_hits(*old(tree), position).len() > 0 ==> {
            let k = scroll_hits(*old(tree), position).last();
            &&& r == Some(k)
            &&& final(tree).same_state(*old(tree))
            &&& final(tree).spec_events() == old(tree).spec_events()
            &&& final(tree).nodes() == old(tree).nodes().insert(k@, final(tree).node(k))
            &&& final(tree).node(k) == (NodeProperties { scroll_offset: final(tree).node(k).scroll_offset, ..old(tree).node(k) })
            &&& final(tree).node(k).scroll_offset.x == clamp_offset(old(tree).node(k).scroll_offset.x
                - scroll_delta(direction).0, old(tree).node(k).max_scroll_offset.x)
            &&& final(tree).node(k).scroll_offset.y == clamp_offset(old(tree).node(k).scroll_offset.y
                - scroll_delta(direction).1, old(tree).node(k).max_scroll_offset.y)
        },
{
    let m = ScrollTarget { position };
    let mb = MatchBehavior::SearchChildrenOnMatch;
    let roots = tree.roots_desc();
    let ghost keys = roots_desc_keys(*tree);
    proof {
        assert(roots@ =~= keys);
        assert(keys.skip(0) =~= keys);
    }
    let mut i: usize = 0;
    let mut found: Vec<DomNodeKey> = Vec::new();
    while i < roots.len()
        invariant
            *tree == *old(tree),
            tree.wf(),
            m == (ScrollTarget { position }),
            mb == MatchBehavior::SearchChildrenOnMatch,
            roots@ == keys,
            keys == roots_desc_keys(*tree),
            i <= keys.len(),
            found@.len() == 0,
            first_nonempty(*tree, keys, m, mb) == first_nonempty(*tree, keys.skip(i as int), m, mb),
        decreases keys.len() - i,
    {
        let hits = traverse(tree, roots[i], &m, mb);
        proof {
            assert(keys.skip(i as int)[0] == keys[i as int]);
            assert(keys.skip(i as int).drop_first() =~= keys.skip(i as int + 1));
        }
        if hits.len() > 0 {
            proof {
                lemma_trav_sound(*tree, roots@[i as int], m, mb, tree.nodes().dom().len());
            }
            let k = hits[hits.len() - 1];
            proof {
                assert(tree.has(hits@[hits@.len() - 1]));
            }
            proof {
                lemma_scroll_hits_enabled(*old(tree), position, hits@.len() - 1);
            }
            tree.scroll(k, direction);
            return Some(k);
        }
        i = i + 1;
    }
    proof {
        assert(keys.skip(i as int).len() == 0);
    }
    None
}

} // verus!
