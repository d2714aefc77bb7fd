use vstd::prelude::*;

use super::node_properties::{fresh_node, Display, FlexDirection, NodeProperties, NodeType};
use super::node_tree::{attached, first_index_of, inserted_before, moved_before, is_root_pos, node_replaced, roots_after_insert, roots_sorted, DomNodeKey, NodeTree, RootEntry, RootId, TreeEvent};
use super::{child_unmounted, unmount_child};

verus! {

#[derive(Debug)]
enum NodeIdInner {
    Auto(u32),
    Manual(String),
}

/// The id of a node: a number handed out by an [`IdCounter`], or a name chosen by the user.
#[derive(Debug)]
pub struct NodeId(NodeIdInner);

/// Whether two node ids name the same node: both numbers and equal, or both names with equal text.
pub open spec fn node_id_eq(a: NodeId, b: NodeId) -> bool {
    a.spec_auto() == b.spec_auto() && (a.spec_auto() is None ==> a.spec_manual() == b.spec_manual())
}

impl NodeId {
    /// The number of an automatic id.
    pub closed spec fn spec_auto(self) -> Option<u32> {
        match self.0 {
            NodeIdInner::Auto(n) => Some(n),
            NodeIdInner::Manual(_) => None,
        }
    }

    /// The text of a manual id (empty for an automatic one).
    pub closed spec fn spec_manual(self) -> Seq<char> {
        match self.0 {
            NodeIdInner::Auto(_) => Seq::empty(),
            NodeIdInner::Manual(s) => s@,
        }
    }

    /// A fresh automatic id drawn from `counter`.
    pub fn new_auto(counter: &mut IdCounter) -> (r: NodeId)
        ensures
            r.spec_auto() == Some(old(counter).next),
            final(counter).next == old(counter).next.wrapping_add(1),
    {
        NodeId(NodeIdInner::Auto(counter.next_id()))
    }

    /// The id named `id`.
    pub fn new(id: String) -> (r: NodeId)
        ensures
            r.spec_auto() is None,
            r.spec_manual() == id@,
    {
        NodeId(NodeIdInner::Manual(id))
    }

    /// The id named by the text `id`.
    pub fn from_str(id: &str) -> (r: NodeId)
        ensures
            r.spec_auto() is None,
            r.spec_manual() == id@,
    {
        NodeId(NodeIdInner::Manual(id.to_owned()))
    }
}

impl From<String> for NodeId {
    /// The id named `val`.
    fn from(val: String) -> (r: NodeId) {
        NodeId(NodeIdInner::Manual(val))
    }
}

impl vstd::std_specs::convert::FromSpecImpl<String> for NodeId {
    open spec fn obeys_from_spec() -> bool {
        true
    }

    closed spec fn from_spec(v: String) -> NodeId {
        NodeId(NodeIdInner::Manual(v))
    }
}

/// The decimal digits of `n`, most significant first, with no leading zero.
pub open spec fn decimal(n: nat) -> Seq<char>
    decreases n,
{
    let d = seq!['0', '1', '2', '3', '4', '5', '6', '7', '8', '9'][(n % 10) as int];
    if n < 10 {
        seq![d]
    } else {
        decimal(n / 10).push(d)
    }
}

/// `u32::to_string` (its `Display`): the decimal digits of `n`.
#[verifier::external_body]
fn u32_to_string(n: u32) -> (r: String)
    ensures
        r@ == decimal(n as nat),
{
    n.to_string()
}

/// An id made from a string names that string, and gives it back as its text: the same
/// id `NodeId::new` makes.
pub proof fn lemma_id_from_string(v: String)
    ensures
        <NodeId as vstd::std_specs::convert::FromSpec<String>>::from_spec(v).spec_auto() is None,
        <NodeId as vstd::std_specs::convert::FromSpec<String>>::from_spec(v).spec_manual() == v@,
        <NodeId as vstd::std_specs::convert::FromSpec<String>>::from_spec(v).spec_text() == v@,
{
}

impl NodeId {
    /// The text of the id: its number in decimal digits, or its name.
    pub open spec fn spec_text(self) -> Seq<char> {
        match self.spec_auto() {
            Some(n) => decimal(n as nat),
            None => self.spec_manual(),
        }
    }

    /// The text of the id: its number in decimal digits, or its name.
    pub fn to_string(&self) -> (r: String)
        ensures
            r@ == self.spec_text(),
    {
        match &self.0 {
            NodeIdInner::Auto(n) => u32_to_string(*n),
            NodeIdInner::Manual(s) => s.clone(),
        }
    }
}

impl Clone for NodeId {
    fn clone(&self) -> (r: NodeId)
        ensures
            r == *self,
    {
        match &self.0 {
            NodeIdInner::Auto(n) => NodeId(NodeIdInner::Auto(*n)),
            NodeIdInner::Manual(s) => NodeId(NodeIdInner::Manual(s.clone())),
        }
    }
}

impl PartialEq for NodeId {
    fn eq(&self, other: &NodeId) -> (r: bool) {
        match (&self.0, &other.0) {
            (NodeIdInner::Auto(a), NodeIdInner::Auto(b)) => *a == *b,
            (NodeIdInner::Manual(a), NodeIdInner::Manual(b)) => {
                let r = a.eq(b);
                assert(r == (a@ == b@));
                r
            },
            _ => false,
        }
    }
}

impl vstd::std_specs::cmp::PartialEqSpecImpl for NodeId {
    open spec fn obeys_eq_spec() -> bool {
        true
    }

    open spec fn eq_spec(&self, other: &NodeId) -> bool {
        node_id_eq(*self, *other)
    }
}

impl Eq for NodeId {}

/// A counter that hands out the numbers of automatic ids, wrapping around after `u32::MAX`.
#[derive(Debug)]
pub struct IdCounter {
    pub next: u32,
}

impl IdCounter {
    /// A counter whose first number is 1.
    pub fn new() -> (r: IdCounter)
        ensures
            r.next == 1,
    {
        IdCounter { next: 1 }
    }

    /// The next number; the counter moves on by one.
    pub fn next_id(&mut self) -> (r: u32)
        ensures
            r == old(self).next,
            final(self).next == old(self).next.wrapping_add(1),
    {
        let r = self.next;
        self.next = self.next.wrapping_add(1);
        r
    }
}

/// Clones an optional node id.
pub fn clone_node_id(id: &Option<NodeId>) -> (r: Option<NodeId>)
    ensures
        r == *id,
{
    match id {
        Some(i) => Some(i.clone()),
        None => None,
    }
}

/// `new` is `old` with one more detached node under `k`, fresh with the given name,
/// kind, display and direction.
pub open spec fn node_created(old: NodeTree, new: NodeTree, k: DomNodeKey, name: Seq<char>, node_type: NodeType,
    display: Display, direction: FlexDirection) -> bool {
    &&& !old.has(k)
    &&& new.nodes() == old.nodes().insert(k@, new.node(k))
    &&& fresh_node(name, node_type, display, direction)(new.node(k))
    &&& new.same_state(old)
    &&& new.spec_events() == old.spec_events()
}

/// A handle on a node of a document.
#[derive(Debug, Clone, Copy, PartialEq, Eq, Structural)]
pub struct DomNode {
    key: DomNodeKey,
}

impl View for DomNode {
    type V = DomNodeKey;

    /// The key of the node.
    closed spec fn view(&self) -> DomNodeKey {
        self.key
    }
}

impl DomNode {
    /// The handle on the node under `key`.
    pub fn from_existing(key: DomNodeKey) -> (r: DomNode)
        ensures
            r@ == key,
    {
        DomNode { key }
    }

    /// Adds a fresh detached node to the tree and gives its handle.
    fn create(tree: &mut NodeTree, name: String, node_type: NodeType, display: Display, direction: FlexDirection) -> (r: DomNode)
        requires
            old(tree).wf(),
            old(tree).nodes().dom().len() < u32::MAX - 1,
        ensures
            final(tree).wf(),
            node_created(*old(tree), *final(tree), r@, name@, node_type, display, direction),
    {
        let ghost n = name@;
        let ghost t = node_type;
        let props = NodeProperties::new(name, node_type, display, direction);
        let key = tree.insert(props);
        DomNode { key }
    }

    /// A new node that takes no room and shows nothing.
    pub fn placeholder(tree: &mut NodeTree) -> (r: DomNode)
        requires
            old(tree).wf(),
            old(tree).nodes().dom().len() < u32::MAX - 1,
        ensures
            final(tree).wf(),
            node_created(*old(tree), *final(tree), r@, "placeholder"@, NodeType::Placeholder, Display::Hidden, FlexDirection::Row),
    {
        Self::create(tree, "placeholder".to_owned(), NodeType::Placeholder, Display::Hidden, FlexDirection::Row)
    }

    /// A new node that shows a widget of type `widget_type`, named after it.
    pub fn widget(tree: &mut NodeTree, widget_type: String) -> (r: DomNode)
        requires
            old(tree).wf(),
            old(tree).nodes().dom().len() < u32::MAX - 1,
        ensures
            final(tree).wf(),
            node_created(*old(tree), *final(tree), r@, widget_type@, NodeType::Widget(widget_type), Display::Block, FlexDirection::Row),
    {
        let name = widget_type.clone();
        Self::create(tree, name, NodeType::Widget(widget_type), Display::Block, FlexDirection::Row)
    }

    /// A new container that lays its children out in a row.
    pub fn flex_row(tree: &mut NodeTree) -> (r: DomNode)
        requires
            old(tree).wf(),
            old(tree).nodes().dom().len() < u32::MAX - 1,
        ensures
            final(tree).wf(),
            node_created(*old(tree), *final(tree), r@, "flex_row"@, NodeType::Layout, Display::Flex, FlexDirection::Row),
    {
        Self::create(tree, "flex_row".to_owned(), NodeType::Layout, Display::Flex, FlexDirection::Row)
    }

    /// A new container that stacks its children as blocks.
    pub fn div(tree: &mut NodeTree) -> (r: DomNode)
        requires
            old(tree).wf(),
            old(tree).nodes().dom().len() < u32::MAX - 1,
        ensures
            final(tree).wf(),
            node_created(*old(tree), *final(tree), r@, "div"@, NodeType::Layout, Display::Block, FlexDirection::Row),
    {
        Self::create(tree, "div".to_owned(), NodeType::Layout, Display::Block, FlexDirection::Row)
    }

    /// A new container that lays its children out in a column.
    pub fn flex_col(tree: &mut NodeTree) -> (r: DomNode)
        requires
            old(tree).wf(),
            old(tree).nodes().dom().len() < u32::MAX - 1,
        ensures
            final(tree).wf(),
            node_created(*old(tree), *final(tree), r@, "flex_col"@, NodeType::Layout, Display::Flex, FlexDirection::Column),
    {
        Self::create(tree, "flex_col".to_owned(), NodeType::Layout, Display::Flex, FlexDirection::Column)
    }

    /// Moves the properties of this node onto `node`, removes this node with its
    /// subtree, and makes this handle point at `node`.
    pub fn replace_node(&mut self, tree: &mut NodeTree, node: &DomNode)
        requires
            old(tree).wf(),
            old(tree).has(old(self)@),
            old(tree).has(node@),
        ensures
            final(tree).wf(),
            final(self)@ == node@,
            exists|mid: NodeTree| #![trigger node_replaced(*old(tree), mid, old(self)@, node@)]
                node_replaced(*old(tree), mid, old(self)@, node@) && child_unmounted(mid, *final(tree), old(self)@, true),
    {
        let ghost o = *tree;
        tree.replace_node(self.key, node.key);
        let ghost mid = *tree;
        proof {
            assert(mid.nodes().dom() =~= o.nodes().dom());
            assert(mid.has(self@));
        }
        unmount_child(tree, self.key, true);
        self.key = node.key;
        proof {
            assert(node_replaced(o, mid, old(self)@, node@));
        }
    }

    /// Turns the node into a fresh widget node of type `widget_type` that keeps its parent;
    /// the node must have no children, as the fresh node has none.
    pub fn replace_widget(&self, tree: &mut NodeTree, widget_type: String)
        requires
            old(tree).wf(),
            old(tree).has(self@),
            old(tree).node(self@).children@.len() == 0,
        ensures
            final(tree).wf(),
            final(tree).nodes() == old(tree).nodes().insert(self@@, final(tree).node(self@)),
            fresh_node(widget_type@, NodeType::Widget(widget_type), Display::Block, FlexDirection::Row)(NodeProperties {
                parent: None,
                ..final(tree).node(self@)
            }),
            final(tree).node(self@).parent == old(tree).node(self@).parent,
            final(tree).same_state(*old(tree)),
            final(tree).spec_events() == old(tree).spec_events(),
    {
        let parent = self.get_parent_key(tree);
        let name = widget_type.clone();
        let mut inner = NodeProperties::new(name, NodeType::Widget(widget_type), Display::Block, FlexDirection::Row);
        inner.parent = parent;
        proof {
            assert(inner.children@ =~= tree.node(self@).children@);
        }
        tree.replace_inner(self.key, inner);
    }

    /// The key of the parent of the node, if it has one.
    pub fn get_parent_key(&self, tree: &NodeTree) -> (r: Option<DomNodeKey>)
        requires
            tree.has(self@),
        ensures
            r == tree.node(self@).parent,
    {
        tree.get(self.key).parent
    }

    /// Gives the node its own z-index, which makes it a root drawn at that z-index.
    pub fn z_index(self, tree: &mut NodeTree, z_index: i32) -> (r: DomNode)
        requires
            old(tree).wf(),
            old(tree).has(self@),
        ensures
            r == self,
            final(tree).wf(),
            final(tree).nodes() == old(tree).nodes().insert(self@@, NodeProperties { z_index: Some(z_index), ..old(tree).node(self@) }),
            final(tree).spec_next_root_id() == old(tree).spec_next_root_id().wrapping_add(1),
            exists|i: int| #![trigger is_root_pos(old(tree).spec_roots(), RootId { z_index, id: old(tree).spec_next_root_id() }, i)]
                is_root_pos(old(tree).spec_roots(), RootId { z_index, id: old(tree).spec_next_root_id() }, i)
                && final(tree).spec_roots() == roots_after_insert(old(tree).spec_roots(),
                    RootEntry { root_id: RootId { z_index, id: old(tree).spec_next_root_id() }, key: self@ }, i),
            roots_sorted(old(tree).spec_roots()) ==> roots_sorted(final(tree).spec_roots()),
            final(tree).spec_viewport() == old(tree).spec_viewport(),
            final(tree).spec_focused() == old(tree).spec_focused(),
            final(tree).spec_focused_key() == old(tree).spec_focused_key(),
            final(tree).spec_hovered_key() == old(tree).spec_hovered_key(),
            final(tree).focusables() == old(tree).focusables(),
            final(tree).spec_events() == old(tree).spec_events(),
    {
        tree.set_z_index(self.key, z_index);
        self
    }

    /// The key of the node.
    pub fn get_key(&self) -> (r: DomNodeKey)
        ensures
            r == self@,
    {
        self.key
    }

    /// Gives the node the id `id`.
    pub fn id(self, tree: &mut NodeTree, id: NodeId) -> (r: DomNode)
        requires
            old(tree).wf(),
            old(tree).has(self@),
        ensures
            r == self,
            final(tree).wf(),
            final(tree).nodes() == old(tree).nodes().insert(self@@, NodeProperties { id: Some(id), ..old(tree).node(self@) }),
            final(tree).same_state(*old(tree)),
            final(tree).spec_events() == old(tree).spec_events(),
    {
        tree.set_id(self.key, id);
        self
    }

    /// Gives the node the class `class`.
    pub fn class(self, tree: &mut NodeTree, class: String) -> (r: DomNode)
        requires
            old(tree).wf(),
            old(tree).has(self@),
        ensures
            r == self,
            final(tree).wf(),
            final(tree).nodes() == old(tree).nodes().insert(self@@, NodeProperties { class: Some(class), ..old(tree).node(self@) }),
            final(tree).same_state(*old(tree)),
            final(tree).spec_events() == old(tree).spec_events(),
    {
        tree.set_class(self.key, class);
        self
    }

    /// Sets whether the node can take focus.
    pub fn focusable(self, tree: &mut NodeTree, focusable: bool) -> (r: DomNode)
        requires
            old(tree).wf(),
            old(tree).has(self@),
        ensures
            r == self,
            final(tree).wf(),
            final(tree).nodes() == old(tree).nodes().insert(self@@, NodeProperties { focusable, ..old(tree).node(self@) }),
            final(tree).same_state(*old(tree)),
            final(tree).spec_events() == old(tree).spec_events().push(TreeEvent::Refresh),
    {
        tree.set_focusable(self.key, focusable);
        self
    }

    /// The handle on the parent of the node, if it has one.
    pub fn get_parent(&self, tree: &NodeTree) -> (r: Option<DomNode>)
        requires
            tree.has(self@),
        ensures
            r matches Some(p) ==> tree.node(self@).parent == Some(p@),
            r is None ==> tree.node(self@).parent is None,
    {
        match tree.get(self.key).parent {
            Some(k) => Some(DomNode { key: k }),
            None => None,
        }
    }

    /// The handle on the first child of the node, if it has one.
    pub fn get_first_child(&self, tree: &NodeTree) -> (r: Option<DomNode>)
        requires
            tree.has(self@),
        ensures
            r matches Some(c) ==> tree.node(self@).children@.len() > 0 && c@ == tree.node(self@).children@[0],
            r is None ==> tree.node(self@).children@.len() == 0,
    {
        let n = tree.get(self.key);
        if n.children.len() > 0 {
            Some(DomNode { key: n.children[0] })
        } else {
            None
        }
    }

    /// The handle on the sibling right after the node, if there is one.
    pub fn get_next_sibling(&self, tree: &NodeTree) -> (r: Option<DomNode>)
        requires
            tree.wf(),
            tree.has(self@),
        ensures
            match tree.node(self@).parent {
                Some(p) => {
                    let cs = tree.node(p).children@;
                    let pos = first_index_of(cs, self@);
                    if pos < cs.len() - 1 {
                        r matches Some(s) && s@ == cs[pos + 1]
                    } else {
                        r is None
                    }
                },
                None => r is None,
            },
    {
        proof {
            NodeTree::lemma_wf_links(*tree, self.key);
        }
        match tree.get(self.key).parent {
            Some(p) => {
                proof {
                    NodeTree::lemma_wf_links(*tree, p);
                }
                let cs = &tree.get(p).children;
                let mut i: usize = 0;
                while i < cs.len()
                    invariant
                        *cs == tree.node(p).children,
                        tree.has(self@),
                        tree.node(self@).parent == Some(p),
                        cs@.contains(self@),
                        i <= cs@.len(),
                        forall|j: int| 0 <= j < i ==> cs@[j] != self@,
                    decreases cs@.len() - i,
                {
                    if cs[i] == self.key {
                        proof {
                            super::node_tree::lemma_first_index_of(cs@, self@, i as int);
                        }
                        if i < cs.len() - 1 {
                            return Some(DomNode { key: cs[i + 1] });
                        } else {
                            return None;
                        }
                    }
                    i = i + 1;
                }
                proof {
                    let w = choose|w: int| 0 <= w < cs@.len() && cs@[w] == self@;
                }
                None
            },
            None => None,
        }
    }

    /// Puts `child` among the children of this node: before `reference` when that is a
    /// child, last when there is no reference; a child that has a parent (this node too)
    /// leaves its place first, so that no node is listed twice.
    pub fn insert_before(&self, tree: &mut NodeTree, child: &DomNode, reference: Option<&DomNode>)
        requires
            old(tree).wf(),
            old(tree).has(self@),
            old(tree).has(child@),
            self@ != child@,
        ensures
            final(tree).wf(),
            moved_before(*old(tree), *final(tree), self@, child@, match reference {
                Some(r) => Some(r@),
                None => None,
            }),
    {
        let r = match reference {
            Some(r) => Some(r.key),
            None => None,
        };
        tree.insert_before(self.key, child.key, r)
    }

    /// Puts `child` last among the children of this node; a child that has a parent
    /// leaves it first.
    pub fn append(&self, tree: &mut NodeTree, child: &DomNode)
        requires
            old(tree).wf(),
            old(tree).has(self@),
            old(tree).has(child@),
            self@ != child@,
        ensures
            final(tree).wf(),
            moved_before(*old(tree), *final(tree), self@, child@, None),
    {
        self.insert_before(tree, child, None)
    }
}

/// Something that stands for a node of the document.
pub trait AsDomNode {
    /// The node it stands for.
    fn as_dom_node(&self) -> &DomNode;
}

impl AsDomNode for DomNode {
    fn as_dom_node(&self) -> (r: &DomNode)
        ensures
            *r == *self,
    {
        self
    }
}

/// Something that can be mounted into the document as a node.
pub trait Mountable {
    /// The node to mount.
    fn get_mountable_node(&self) -> DomNode;
}

impl Mountable for DomNode {
    fn get_mountable_node(&self) -> (r: DomNode)
        ensures
            r == *self,
    {
        *self
    }
}

} // verus!
