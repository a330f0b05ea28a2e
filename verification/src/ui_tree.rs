//! UI trees: nodes built bottom up, where a scope groups the nodes attached
//! while it was open under a new node, and a tree renders as one line per
//! node, indented by depth.

use vstd::prelude::*;
use vstd::string::StringExecFns;

use crate::action_tree::id_is_key;
use crate::collections::{ui_node_map, ui_slots_get, ui_slots_get_mut, ui_slots_insert, ui_slots_len, ui_slots_new, UiSlots};

verus! {

/// Identifies a node of a UI tree.
#[derive(Clone, Copy, PartialEq, Eq, Hash, Debug, Structural)]
pub struct NodeKey {
    pub(crate) ffi: u64,
}

impl NodeKey {
    /// Keys are made by the slot map.
    #[verifier::type_invariant]
    pub open(crate) spec fn wf(self) -> bool {
        id_is_key(self.ffi)
    }
}

/// A node: its parent, if a group took it, and its children, first to
/// last.
#[derive(Debug)]
pub struct Node {
    parent: Option<NodeKey>,
    children: Vec<NodeKey>,
}

impl Node {
    pub closed spec fn parent_of(self) -> Option<NodeKey> {
        self.parent
    }

    pub closed spec fn children_of(self) -> Seq<NodeKey> {
        self.children@
    }

    /// A node as new ones are: no parent, no children.
    pub open spec fn is_fresh(self) -> bool {
        self.parent_of() is None && self.children_of().len() == 0
    }

    /// A node with no parent and no children.
    pub fn new() -> (res: Self)
        ensures
            res.is_fresh(),
    {
        Node { parent: None, children: Vec::new() }
    }

    pub fn parent(&self) -> (res: Option<NodeKey>)
        ensures
            res == self.parent_of(),
    {
        self.parent
    }

    pub fn child_keys(&self) -> (res: &[NodeKey])
        ensures
            res@ == self.children_of(),
    {
        self.children.as_slice()
    }

    pub fn child_count(&self) -> (res: usize)
        ensures
            res == self.children_of().len(),
    {
        self.children.len()
    }

    /// The child at `index`, if there is one.
    pub fn child_key(&self, index: usize) -> (res: Option<NodeKey>)
        ensures
            res == if index < self.children_of().len() {
                Some(self.children_of()[index as int])
            } else {
                None::<NodeKey>
            },
    {
        if index < self.children.len() {
            Some(self.children[index])
        } else {
            None
        }
    }

    pub fn has_children(&self) -> (res: bool)
        ensures
            res == (self.children_of().len() > 0),
    {
        self.children.len() > 0
    }
}

impl Default for Node {
    fn default() -> (res: Self)
        ensures
            res.is_fresh(),
    {
        Node::new()
    }
}

/// A node that no group has taken yet: attach it, or drop it and leave it
/// unreachable in storage.
#[must_use]
#[derive(Debug)]
pub struct DetachedNode {
    key: NodeKey,
}

impl DetachedNode {
    pub closed spec fn key_of(self) -> NodeKey {
        self.key
    }
}

/// A UI tree: its nodes, and the node it renders from.
pub struct UiTree {
    root: Option<NodeKey>,
    nodes: UiSlots,
    /// The order nodes were added in: a group comes after its children.
    rank: Ghost<Map<NodeKey, nat>>,
}

impl UiTree {
    pub closed spec fn node_map(self) -> Map<NodeKey, Node> {
        ui_node_map(self.nodes)
    }

    pub closed spec fn root_of(self) -> Option<NodeKey> {
        self.root
    }

    /// How many nodes were ever added, which bounds the depth of a walk.
    pub closed spec fn count(self) -> nat {
        self.node_map().dom().len()
    }

    pub closed spec fn rank_of(self, key: NodeKey) -> nat {
        self.rank@[key]
    }

    /// Nodes are only added, each after its children: every child is a
    /// node, added before its parent, and the root is a node.
    pub closed spec fn wf(self) -> bool {
        let m = self.node_map();
        &&& m.dom().finite()
        &&& m.dom().len() < 0xffff_fffe
        &&& self.rank@.dom() == m.dom()
        &&& forall|k: NodeKey| #[trigger] m.contains_key(k) ==> k.wf() && self.rank@[k] < m.dom().len()
        &&& forall|k: NodeKey, i: int|
            #![trigger m[k].children_of()[i]]
            m.contains_key(k) && 0 <= i < m[k].children_of().len() ==> {
                &&& m.contains_key(m[k].children_of()[i])
                &&& self.rank@[m[k].children_of()[i]] < self.rank@[k]
            }
        &&& self.root matches Some(r) ==> m.contains_key(r)
    }

    /// Room for one more node.
    pub open spec fn has_room(self) -> bool {
        self.node_map().dom().len() + 1 < 0xffff_fffe
    }

    /// An empty tree.
    pub fn new() -> (res: Self)
        ensures
            res.wf(),
            res.node_map().dom().len() == 0,
            res.root_of() is None,
    {
        let res = UiTree { root: None, nodes: ui_slots_new(), rank: Ghost(Map::empty()) };
        proof {
            assert(res.rank@.dom() =~= res.node_map().dom());
        }
        res
    }

    /// Adds `node`, which no group has taken, as a node of its own.
    fn add_node(&mut self, node: Node) -> (res: NodeKey)
        requires
            old(self).wf(),
            old(self).has_room(),
            node.is_fresh(),
        ensures
            final(self).wf(),
            !old(self).node_map().contains_key(res),
            final(self).node_map() == old(self).node_map().insert(res, node),
            final(self).root_of() == old(self).root_of(),
            forall|k: NodeKey| #[trigger] old(self).node_map().contains_key(k) ==> final(self).rank_of(k)
                == old(self).rank_of(k),
            final(self).rank_of(res) == old(self).node_map().dom().len(),
    {
        let ghost m0 = self.node_map();
        let ghost n: nat = m0.dom().len();
        let key = ui_slots_insert(&mut self.nodes, node);
        proof {
            self.rank@ = self.rank@.insert(key, n);
            let m = self.node_map();
            assert(m.dom() =~= m0.dom().insert(key));
            assert(self.rank@.dom() =~= m.dom());
            assert forall|k: NodeKey, i: int|
                m.contains_key(k) && 0 <= i < m[k].children_of().len() implies {
                &&& m.contains_key(m[k].children_of()[i])
                &&& self.rank@[m[k].children_of()[i]] < self.rank@[k]
            } by {
                if k != key {
                    assert(m[k] == m0[k]);
                    assert(m0.contains_key(m0[k].children_of()[i]));
                }
            }
        }
        key
    }

    /// The node renders start from, if set.
    pub fn root(&self) -> (res: Option<NodeKey>)
        ensures
            res == self.root_of(),
    {
        self.root
    }

    /// The node at the root, if set.
    pub fn root_node(&self) -> (res: Option<&Node>)
        requires
            self.wf(),
        ensures
            match self.root_of() {
                Some(r) => res == Some(&self.node_map()[r]),
                None => res is None,
            },
    {
        match self.root {
            Some(key) => self.get(key),
            None => None,
        }
    }

    /// The number of nodes stored, taken or not.
    pub fn len(&self) -> (res: usize)
        requires
            self.wf(),
        ensures
            res == self.node_map().dom().len(),
    {
        ui_slots_len(&self.nodes)
    }

    pub fn is_empty(&self) -> (res: bool)
        requires
            self.wf(),
        ensures
            res == (self.node_map().dom().len() == 0),
    {
        self.len() == 0
    }

    /// The node at `key`, if there is one.
    pub fn get(&self, key: NodeKey) -> (res: Option<&Node>)
        ensures
            match res {
                Some(node) => self.node_map().contains_key(key) && *node == self.node_map()[key],
                None => !self.node_map().contains_key(key),
            },
    {
        proof {
            use_type_invariant(key);
        }
        ui_slots_get(&self.nodes, key)
    }

    /// Makes `parent` the parent of `key`.
    fn set_parent(&mut self, key: NodeKey, parent: NodeKey)
        requires
            old(self).wf(),
            old(self).node_map().contains_key(key),
        ensures
            final(self).wf(),
            final(self).node_map().dom() == old(self).node_map().dom(),
            final(self).node_map()[key].parent_of() == Some(parent),
            final(self).node_map()[key].children_of() == old(self).node_map()[key].children_of(),
            forall|k: NodeKey| #[trigger] old(self).node_map().contains_key(k) && k != key ==> final(self).node_map()[k]
                == old(self).node_map()[k],
            forall|k: NodeKey| #[trigger] old(self).node_map().contains_key(k) ==> final(self).rank_of(k) == old(self).rank_of(k),
            final(self).root_of() == old(self).root_of(),
    {
        let ghost m0 = self.node_map();
        proof {
            use_type_invariant(key);
        }
        let node = ui_slots_get_mut(&mut self.nodes, key);
        node.parent = Some(parent);
        proof {
            let m = self.node_map();
            assert(m.dom() =~= m0.dom());
            assert forall|k: NodeKey, i: int|
                m.contains_key(k) && 0 <= i < m[k].children_of().len() implies {
                &&& m.contains_key(m[k].children_of()[i])
                &&& self.rank@[m[k].children_of()[i]] < self.rank@[k]
            } by {
                assert(m[k].children_of() == m0[k].children_of());
                assert(m0.contains_key(m0[k].children_of()[i]));
            }
        }
    }

    /// Makes `children` the children of `key`; each is a node added before
    /// it.
    fn set_children(&mut self, key: NodeKey, children: Vec<NodeKey>)
        requires
            old(self).wf(),
            old(self).node_map().contains_key(key),
            forall|i: int| 0 <= i < children@.len() ==> old(self).node_map().contains_key(#[trigger] children@[i])
                && old(self).rank_of(children@[i]) < old(self).rank_of(key),
        ensures
            final(self).wf(),
            final(self).node_map().dom() == old(self).node_map().dom(),
            final(self).node_map()[key].children_of() == children@,
            final(self).node_map()[key].parent_of() == old(self).node_map()[key].parent_of(),
            forall|k: NodeKey| #[trigger] old(self).node_map().contains_key(k) && k != key ==> final(self).node_map()[k]
                == old(self).node_map()[k],
            forall|k: NodeKey| #[trigger] old(self).node_map().contains_key(k) ==> final(self).rank_of(k) == old(self).rank_of(k),
            final(self).root_of() == old(self).root_of(),
    {
        let ghost m0 = self.node_map();
        proof {
            use_type_invariant(key);
        }
        let node = ui_slots_get_mut(&mut self.nodes, key);
        node.children = children;
        proof {
            let m = self.node_map();
            assert(m.dom() =~= m0.dom());
            assert forall|k: NodeKey, i: int|
                m.contains_key(k) && 0 <= i < m[k].children_of().len() implies {
                &&& m.contains_key(m[k].children_of()[i])
                &&& self.rank@[m[k].children_of()[i]] < self.rank@[k]
            } by {
                if k != key {
                    assert(m[k] == m0[k]);
                    assert(m0.contains_key(m0[k].children_of()[i]));
                } else {
                    assert(m[k].children_of()[i] == children@[i]);
                }
            }
        }
    }

    /// Makes `key` the root.
    fn set_root(&mut self, key: NodeKey)
        requires
            old(self).wf(),
            old(self).node_map().contains_key(key),
        ensures
            final(self).wf(),
            final(self).node_map() == old(self).node_map(),
            final(self).root_of() == Some(key),
    {
        self.root = Some(key);
    }

    /// The depths of the nodes a walk from `key` at `depth` writes, each
    /// node before its children; a key that is no node writes nothing. The
    /// walk stops after `fuel` levels, which a walk from the root with the
    /// node count as fuel never reaches: each child was added before its
    /// parent.
    pub closed spec fn walk_depths(self, key: NodeKey, depth: usize, fuel: nat) -> Seq<usize>
        decreases fuel, 0nat,
    {
        if fuel == 0 || !self.node_map().contains_key(key) {
            Seq::empty()
        } else {
            seq![depth] + self.forest_depths(self.node_map()[key].children_of(), (depth + 1) as usize, (fuel - 1) as nat)
        }
    }

    /// The walks of the nodes of `s`, one after the other.
    pub closed spec fn forest_depths(self, s: Seq<NodeKey>, depth: usize, fuel: nat) -> Seq<usize>
        decreases fuel, s.len(),
    {
        if s.len() == 0 {
            Seq::empty()
        } else {
            self.walk_depths(s[0], depth, fuel) + self.forest_depths(s.drop_first(), depth, fuel)
        }
    }

    /// The depths of the nodes the tree renders, from the root down.
    pub open spec fn rendered(self) -> Seq<usize> {
        match self.root_of() {
            Some(r) => self.walk_depths(r, 0, self.count()),
            None => Seq::empty(),
        }
    }

    proof fn lemma_forest_push(self, s: Seq<NodeKey>, x: NodeKey, depth: usize, fuel: nat)
        ensures
            self.forest_depths(s.push(x), depth, fuel) == self.forest_depths(s, depth, fuel) + self.walk_depths(
                x,
                depth,
                fuel,
            ),
        decreases s.len(),
    {
        if s.len() == 0 {
            assert(s.push(x).drop_first() =~= Seq::<NodeKey>::empty());
            assert(self.forest_depths(s.push(x).drop_first(), depth, fuel) =~= Seq::<usize>::empty());
            assert(self.forest_depths(s.push(x), depth, fuel) =~= self.walk_depths(x, depth, fuel));
            assert(self.forest_depths(s, depth, fuel) =~= Seq::<usize>::empty());
        } else {
            assert(s.push(x).drop_first() =~= s.drop_first().push(x));
            self.lemma_forest_push(s.drop_first(), x, depth, fuel);
            assert(s.push(x)[0] == s[0]);
        }
    }

    /// Appends the depths of the walk from `key` at `depth` to `out`.
    fn write_node(&self, key: NodeKey, depth: usize, Ghost(fuel): Ghost<nat>, out: &mut Vec<usize>)
        requires
            self.wf(),
            self.node_map().contains_key(key) ==> fuel > self.rank_of(key),
            depth + fuel <= self.count(),
        ensures
            final(out)@ == old(out)@ + self.walk_depths(key, depth, fuel),
        decreases fuel,
    {
        let node = match self.get(key) {
            Some(node) => node,
            None => {
                proof {
                    assert(old(out)@ + self.walk_depths(key, depth, fuel) =~= old(out)@);
                }
                return;
            },
        };
        let ghost start = out@;
        out.push(depth);
        let children = node.child_keys();
        let ghost cs = children@;
        let n = children.len();
        let mut i: usize = 0;
        proof {
            assert(cs.take(0) =~= Seq::<NodeKey>::empty());
            assert(self.forest_depths(cs.take(0), (depth + 1) as usize, (fuel - 1) as nat) =~= Seq::<usize>::empty());
            assert(out@ =~= start + seq![depth] + self.forest_depths(cs.take(0), (depth + 1) as usize, (fuel - 1) as nat));
        }
        while i < n
            invariant
                0 <= i <= n,
                n == cs.len(),
                children@ == cs,
                cs == self.node_map()[key].children_of(),
                self.wf(),
                self.node_map().contains_key(key),
                fuel > self.rank_of(key),
                depth + fuel <= self.count(),
                out@ == start + seq![depth] + self.forest_depths(cs.take(i as int), (depth + 1) as usize, (fuel - 1) as nat),
            decreases n - i,
        {
            let child = children[i];
            proof {
                assert(self.node_map().contains_key(cs[i as int]));
                assert(self.rank_of(cs[i as int]) < self.rank_of(key));
                assert(cs.take(i + 1) =~= cs.take(i as int).push(child));
                self.lemma_forest_push(cs.take(i as int), child, (depth + 1) as usize, (fuel - 1) as nat);
            }
            self.write_node(child, depth + 1, Ghost((fuel - 1) as nat), out);
            proof {
                assert(out@ =~= start + seq![depth] + self.forest_depths(cs.take(i + 1), (depth + 1) as usize, (fuel - 1) as nat));
            }
            i = i + 1;
        }
        proof {
            assert(cs.take(n as int) =~= cs);
            assert(out@ =~= old(out)@ + self.walk_depths(key, depth, fuel));
        }
    }

    /// The depths of the nodes the tree renders, from the root down.
    pub fn render_depths(&self) -> (res: Vec<usize>)
        requires
            self.wf(),
        ensures
            res@ == self.rendered(),
    {
        let mut out: Vec<usize> = Vec::new();
        if let Some(root) = self.root {
            self.write_node(root, 0, Ghost(self.count()), &mut out);
            proof {
                assert(out@ =~= self.rendered());
            }
        }
        out
    }

    /// The tree as text: a line `*` for each node it renders, indented by
    /// one tab per level.
    pub fn to_tree_string(&self) -> (res: String)
        requires
            self.wf(),
        ensures
            res@ == text(self.rendered()),
    {
        let depths = self.render_depths();
        let mut out = String::new();
        let n = depths.len();
        let mut i: usize = 0;
        proof {
            reveal_strlit("\t");
            reveal_strlit("*\n");
        }
        while i < n
            invariant
                0 <= i <= n,
                n == depths@.len(),
                depths@ == self.rendered(),
                out@ == text(depths@.take(i as int)),
                "\t"@ == seq!['\t'],
                "*\n"@ == seq!['*', '\n'],
            decreases n - i,
        {
            let d = depths[i];
            let ghost before = out@;
            let mut j: usize = 0;
            while j < d
                invariant
                    0 <= j <= d,
                    out@ == before + tabs(j as nat),
                    "\t"@ == seq!['\t'],
                decreases d - j,
            {
                out.append("\t");
                proof {
                    assert(tabs((j + 1) as nat) =~= tabs(j as nat).push('\t'));
                }
                j = j + 1;
            }
            out.append("*\n");
            proof {
                assert(depths@.take(i + 1).drop_last() =~= depths@.take(i as int));
                assert(out@ =~= text(depths@.take(i + 1)));
            }
            i = i + 1;
        }
        proof {
            assert(depths@.take(n as int) =~= depths@);
        }
        out
    }
}

/// An element a UI tree can hold.
pub trait CreateElement: Sized {
    /// The element can be added as it is.
    spec fn can_insert(&self) -> bool;

    /// Adds the element to `tree` as a node no group has taken.
    fn insert_element(self, tree: &mut UiTree) -> (res: DetachedNode)
        requires
            old(tree).wf(),
            old(tree).has_room(),
            self.can_insert(),
        ensures
            node_inserted(*old(tree), *final(tree), res.key_of()),
    ;
}

/// What adding one node to `a` gives `b`: `key`, which is new.
pub open spec fn node_inserted(a: UiTree, b: UiTree, key: NodeKey) -> bool {
    &&& b.wf()
    &&& !a.node_map().contains_key(key)
    &&& b.node_map().dom() == a.node_map().dom().insert(key)
    &&& forall|k: NodeKey| #[trigger] a.node_map().contains_key(k) ==> b.node_map()[k] == a.node_map()[k]
    &&& b.node_map()[key].is_fresh()
    &&& b.root_of() == a.root_of()
    &&& b.rank_of(key) == a.node_map().dom().len()
    &&& forall|k: NodeKey| #[trigger] a.node_map().contains_key(k) ==> b.rank_of(k) == a.rank_of(k)
}

/// An element that can group children under it.
pub trait CanContainChildren: CreateElement {}

impl CanContainChildren for Node {}

/// A container element: an empty node that groups children.
#[derive(Debug, Default)]
pub struct Group;

impl CreateElement for Group {
    open spec fn can_insert(&self) -> bool {
        true
    }

    fn insert_element(self, tree: &mut UiTree) -> (res: DetachedNode) {
        let key = tree.add_node(Node::new());
        DetachedNode { key }
    }
}

impl CanContainChildren for Group {}

impl CreateElement for Node {
    open spec fn can_insert(&self) -> bool {
        self.is_fresh()
    }

    fn insert_element(self, tree: &mut UiTree) -> (res: DetachedNode) {
        let key = tree.add_node(self);
        DetachedNode { key }
    }
}

/// A leaf element: a node that can't hold children.
#[derive(Debug, Default)]
pub struct Item;

impl CreateElement for Item {
    open spec fn can_insert(&self) -> bool {
        true
    }

    fn insert_element(self, tree: &mut UiTree) -> (res: DetachedNode) {
        let key = tree.add_node(Node::new());
        DetachedNode { key }
    }
}

/// An open scope: what was attached before it began.
pub struct OpenScope {
    outer: Vec<NodeKey>,
}

impl OpenScope {
    pub closed spec fn outer_of(self) -> Seq<NodeKey> {
        self.outer@
    }
}

/// Builds a UI tree: nodes are attached to the innermost open scope, and
/// closing a scope groups what it collected under a new node.
pub struct UiTreeBuilder {
    tree: UiTree,
    attached: Vec<NodeKey>,
}

impl UiTreeBuilder {
    pub closed spec fn tree_of(self) -> UiTree {
        self.tree
    }

    /// The nodes attached to the innermost open scope, first to last.
    pub closed spec fn attached_of(self) -> Seq<NodeKey> {
        self.attached@
    }

    /// The tree is well formed and holds every attached node.
    pub open spec fn wf(self) -> bool {
        &&& self.tree_of().wf()
        &&& forall|i: int| 0 <= i < self.attached_of().len() ==> self.tree_of().node_map().contains_key(
            #[trigger] self.attached_of()[i],
        )
    }

    /// Starts an empty tree, with the scope of its root open.
    pub fn new() -> (res: Self)
        ensures
            res.wf(),
            res.tree_of().node_map().dom().len() == 0,
            res.tree_of().root_of() is None,
            res.attached_of().len() == 0,
    {
        UiTreeBuilder { tree: UiTree::new(), attached: Vec::new() }
    }

    /// Adds `element` as a node no group has taken.
    pub fn detached_node<E: CreateElement>(&mut self, element: E) -> (res: DetachedNode)
        requires
            old(self).wf(),
            old(self).tree_of().has_room(),
            element.can_insert(),
        ensures
            final(self).wf(),
            final(self).tree_of().node_map().contains_key(res.key_of()),
            !old(self).tree_of().node_map().contains_key(res.key_of()),
            final(self).tree_of().node_map().dom() == old(self).tree_of().node_map().dom().insert(res.key_of()),
            node_inserted(old(self).tree_of(), final(self).tree_of(), res.key_of()),
            final(self).attached_of() == old(self).attached_of(),
    {
        let ghost t0 = self.tree;
        let mut tree = UiTree::new();
        std::mem::swap(&mut tree, &mut self.tree);
        let node = element.insert_element(&mut tree);
        self.tree = tree;
        proof {
            assert forall|i: int| 0 <= i < self.attached_of().len() implies self.tree_of().node_map().contains_key(
                #[trigger] self.attached_of()[i],
            ) by {
                assert(old(self).attached_of()[i] == self.attached_of()[i]);
                assert(t0.node_map().contains_key(old(self).attached_of()[i]));
            }
        }
        node
    }

    /// Attaches `node` to the innermost open scope.
    pub fn attach_node(&mut self, node: DetachedNode)
        requires
            old(self).wf(),
            old(self).tree_of().node_map().contains_key(node.key_of()),
        ensures
            final(self).wf(),
            final(self).tree_of() == old(self).tree_of(),
            final(self).attached_of() == old(self).attached_of().push(node.key_of()),
    {
        self.attached.push(node.key);
        proof {
            assert forall|i: int| 0 <= i < self.attached_of().len() implies self.tree_of().node_map().contains_key(
                #[trigger] self.attached_of()[i],
            ) by {
                if i < old(self).attached_of().len() {
                    assert(old(self).attached_of()[i] == self.attached_of()[i]);
                }
            }
        }
    }

    /// Adds `element` and attaches it to the innermost open scope.
    pub fn node<E: CreateElement>(&mut self, element: E)
        requires
            old(self).wf(),
            old(self).tree_of().has_room(),
            element.can_insert(),
        ensures
            final(self).wf(),
            final(self).tree_of().node_map().dom().len() == old(self).tree_of().node_map().dom().len() + 1,
            final(self).attached_of().len() == old(self).attached_of().len() + 1,
            exists|key: NodeKey| #[trigger] node_inserted(old(self).tree_of(), final(self).tree_of(), key)
                && final(self).attached_of() == old(self).attached_of().push(key),
    {
        let node = self.detached_node(element);
        self.attach_node(node);
        proof {
            assert(node_inserted(old(self).tree_of(), self.tree_of(), node.key_of()));
        }
    }

    /// Opens a scope: what is attached from now on is collected by it.
    pub fn open_scope(&mut self) -> (res: OpenScope)
        requires
            old(self).wf(),
        ensures
            final(self).wf(),
            final(self).tree_of() == old(self).tree_of(),
            final(self).attached_of().len() == 0,
            res.outer_of() == old(self).attached_of(),
    {
        let mut outer: Vec<NodeKey> = Vec::new();
        std::mem::swap(&mut outer, &mut self.attached);
        OpenScope { outer }
    }

    /// Closes `scope`: adds `element` as a group whose children are the
    /// nodes attached while the scope was open, each taken by the group,
    /// and goes back to attaching to the enclosing scope.
    pub fn close_scope<E: CanContainChildren>(&mut self, scope: OpenScope, element: E) -> (res: DetachedNode)
        requires
            old(self).wf(),
            old(self).tree_of().has_room(),
            element.can_insert(),
            forall|i: int| 0 <= i < scope.outer_of().len() ==> old(self).tree_of().node_map().contains_key(
                #[trigger] scope.outer_of()[i],
            ),
        ensures
            final(self).wf(),
            !old(self).tree_of().node_map().contains_key(res.key_of()),
            final(self).tree_of().node_map().dom() == old(self).tree_of().node_map().dom().insert(res.key_of()),
            final(self).tree_of().node_map()[res.key_of()].children_of() == old(self).attached_of(),
            final(self).tree_of().node_map()[res.key_of()].parent_of() is None,
            forall|i: int| 0 <= i < old(self).attached_of().len() ==> final(self).tree_of().node_map()[
                #[trigger] old(self).attached_of()[i]].parent_of() == Some(res.key_of()),
            final(self).attached_of() == scope.outer_of(),
            final(self).tree_of().root_of() == old(self).tree_of().root_of(),
            forall|i: int| 0 <= i < old(self).attached_of().len() ==> final(self).tree_of().node_map()[
                #[trigger] old(self).attached_of()[i]].children_of() == old(self).tree_of().node_map()[old(self).attached_of()[i]].children_of(),
            forall|k: NodeKey| #[trigger] old(self).tree_of().node_map().contains_key(k) && !old(self).attached_of().contains(k)
                ==> final(self).tree_of().node_map()[k] == old(self).tree_of().node_map()[k],
    {
        let mut children: Vec<NodeKey> = scope.outer;
        std::mem::swap(&mut children, &mut self.attached);
        let ghost t0 = self.tree;
        let group = element.insert_element(&mut self.tree).key;
        let n = children.len();
        let mut i: usize = 0;
        while i < n
            invariant
                0 <= i <= n,
                n == children@.len(),
                children@ == old(self).attached_of(),
                self.tree.wf(),
                !t0.node_map().contains_key(group),
                self.tree.node_map().dom() == t0.node_map().dom().insert(group),
                self.tree.root_of() == t0.root_of(),
                self.tree.rank_of(group) == t0.node_map().dom().len(),
                forall|k: NodeKey| #[trigger] t0.node_map().contains_key(k) ==> self.tree.rank_of(k) == t0.rank_of(k),
                forall|k: NodeKey| #[trigger] t0.node_map().contains_key(k) ==> self.tree.node_map()[k].children_of()
                    == t0.node_map()[k].children_of(),
                self.tree.node_map()[group].is_fresh(),
                t0 == old(self).tree_of(),
                forall|k: NodeKey| #[trigger] t0.node_map().contains_key(k) && !children@.contains(k)
                    ==> self.tree.node_map()[k] == t0.node_map()[k],
                forall|j: int| 0 <= j < n ==> t0.node_map().contains_key(#[trigger] children@[j]),
                forall|j: int| 0 <= j < i ==> self.tree.node_map()[#[trigger] children@[j]].parent_of() == Some(group),
                self.attached@ == scope.outer_of(),
                forall|j: int| 0 <= j < scope.outer_of().len() ==> t0.node_map().contains_key(#[trigger] scope.outer_of()[j]),
                t0.wf(),
            decreases n - i,
        {
            let child = children[i];
            proof {
                assert(t0.node_map().contains_key(children@[i as int]));
                assert(self.tree.node_map().contains_key(group));
            }
            let ghost before = self.tree;
            self.tree.set_parent(child, group);
            proof {
                assert(before.node_map().contains_key(group));
                assert(self.tree.rank_of(group) == before.rank_of(group));
                assert forall|k: NodeKey| #[trigger] t0.node_map().contains_key(k) implies self.tree.rank_of(k) == t0.rank_of(k)
                    && self.tree.node_map()[k].children_of() == t0.node_map()[k].children_of() by {
                    assert(before.node_map().contains_key(k));
                }
                assert forall|k: NodeKey| #[trigger] t0.node_map().contains_key(k) && !children@.contains(k)
                    implies self.tree.node_map()[k] == t0.node_map()[k] by {
                    assert(children@.contains(children@[i as int]));
                    assert(before.node_map().contains_key(k));
                }
                assert forall|j: int| 0 <= j < i + 1 implies self.tree.node_map()[#[trigger] children@[j]].parent_of() == Some(group) by {
                    if j < i {
                        assert(before.node_map().contains_key(children@[j]));
                    }
                }
            }
            i = i + 1;
        }
        proof {
            assert forall|j: int| 0 <= j < children@.len() implies self.tree.node_map().contains_key(#[trigger] children@[j])
                && self.tree.rank_of(children@[j]) < self.tree.rank_of(group) by {
                assert(t0.node_map().contains_key(children@[j]));
            }
        }
        let ghost before = self.tree;
        self.tree.set_children(group, children);
        proof {
            assert forall|j: int| 0 <= j < old(self).attached_of().len() implies self.tree_of().node_map()[
                #[trigger] old(self).attached_of()[j]].parent_of() == Some(group) by {
                assert(before.node_map().contains_key(old(self).attached_of()[j]));
                assert(old(self).attached_of()[j] != group);
            }
            assert forall|j: int| 0 <= j < old(self).attached_of().len() implies self.tree_of().node_map()[
                #[trigger] old(self).attached_of()[j]].children_of() == old(self).tree_of().node_map()[old(self).attached_of()[j]].children_of() by {
                assert(t0.node_map().contains_key(old(self).attached_of()[j]));
                assert(before.node_map().contains_key(old(self).attached_of()[j]));
                assert(old(self).attached_of()[j] != group);
            }
            assert forall|k: NodeKey| #[trigger] old(self).tree_of().node_map().contains_key(k) && !old(self).attached_of().contains(k)
                implies self.tree_of().node_map()[k] == old(self).tree_of().node_map()[k] by {
                assert(before.node_map().contains_key(k));
                assert(k != group);
            }
            assert forall|j: int| 0 <= j < self.attached_of().len() implies self.tree_of().node_map().contains_key(
                #[trigger] self.attached_of()[j],
            ) by {
                assert(self.attached@ == scope.outer_of());
                assert(t0.node_map().contains_key(scope.outer_of()[j]));
            }
        }
        DetachedNode { key: group }
    }

    /// Closes the scope of the root: adds `element` as the root, holding
    /// every node attached to it, and hands the tree over.
    pub fn finish<E: CanContainChildren>(self, element: E) -> (res: UiTree)
        requires
            self.wf(),
            self.tree_of().has_room(),
            element.can_insert(),
        ensures
            res.wf(),
            res.root_of() is Some,
            res.node_map()[res.root_of()->0].children_of() == self.attached_of(),
            res.node_map().dom().len() == self.tree_of().node_map().dom().len() + 1,
            !self.tree_of().node_map().contains_key(res.root_of()->0),
            res.node_map().dom() == self.tree_of().node_map().dom().insert(res.root_of()->0),
            res.node_map()[res.root_of()->0].parent_of() is None,
            forall|i: int| 0 <= i < self.attached_of().len() ==> res.node_map()[#[trigger] self.attached_of()[i]].parent_of()
                == Some(res.root_of()->0),
            forall|i: int| 0 <= i < self.attached_of().len() ==> res.node_map()[#[trigger] self.attached_of()[i]].children_of()
                == self.tree_of().node_map()[self.attached_of()[i]].children_of(),
            forall|k: NodeKey| #[trigger] self.tree_of().node_map().contains_key(k) && !self.attached_of().contains(k)
                ==> res.node_map()[k] == self.tree_of().node_map()[k],
    {
        let mut builder = self;
        let ghost attached = builder.attached_of();
        let ghost n0 = builder.tree_of().node_map().dom().len();
        let ghost d0 = builder.tree_of().node_map().dom();
        let root = builder.close_scope(OpenScope { outer: Vec::new() }, element);
        proof {
            assert(d0.insert(root.key_of()).len() == n0 + 1);
        }
        let mut tree = builder.tree;
        tree.set_root(root.key);
        tree
    }
}

/// `n` tabs.
pub open spec fn tabs(n: nat) -> Seq<char> {
    Seq::new(n, |i: int| '\t')
}

/// The line of a node at depth `d`: `d` tabs, then `*`.
pub open spec fn line(d: usize) -> Seq<char> {
    tabs(d as nat) + seq!['*', '\n']
}

/// The lines of nodes at `depths`, one after the other.
pub open spec fn text(depths: Seq<usize>) -> Seq<char>
    decreases depths.len(),
{
    if depths.len() == 0 {
        Seq::empty()
    } else {
        text(depths.drop_last()) + line(depths.last())
    }
}

} // verus!
