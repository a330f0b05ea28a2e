//! The action tree: the shape of the tree of action nodes. Per-node data
//! lives in other parts of the context, keyed by [`ActionNodeKey`].

use vstd::prelude::*;

use crate::context::{Context, Core};
use crate::current::NotExecuting;
use crate::collections::{
    child_keys_as_slice, child_keys_new, child_keys_push, child_seq, node_map, node_slots_contains,
    node_slots_get, node_slots_get_mut, node_slots_insert, node_slots_new, node_slots_remove,
    child_keys_clear, child_keys_remove, ChildKeys, NodeSlots,
};

verus! {

/// Identifies an action node. Keys are handed out by the tree and are never
/// reused while their node is alive.
#[derive(Clone, Copy, PartialEq, Eq, Hash, Debug, Structural)]
pub struct ActionNodeKey {
    pub(crate) ffi: u64,
}

impl ActionNodeKey {
    /// Keys are made by the slot map: their version half is odd and their
    /// slot half is never the null slot.
    #[verifier::type_invariant]
    pub open(crate) spec fn wf(self) -> bool {
        id_is_key(self.ffi)
    }

    /// The slot of the key.
    pub open(crate) spec fn idx(self) -> int {
        (self.ffi % 0x1_0000_0000) as int
    }

    /// The key as a number, unique among keys.
    pub open(crate) spec fn id(self) -> u64 {
        self.ffi
    }

    /// The key whose number is `id`.
    pub open(crate) spec fn with_id(id: u64) -> ActionNodeKey {
        ActionNodeKey { ffi: id }
    }

    pub proof fn lemma_with_id(self)
        ensures
            ActionNodeKey::with_id(self.id()) == self,
            ActionNodeKey::with_id(self.id()).id() == self.id(),
    {
    }

    /// The key whose number is `id`, a number of a key.
    pub(crate) fn from_id(id: u64) -> (res: ActionNodeKey)
        requires
            id_is_key(id),
        ensures
            res == ActionNodeKey::with_id(id),
    {
        ActionNodeKey { ffi: id }
    }

    /// The key as a number, unique among keys.
    pub fn to_id(&self) -> (res: u64)
        ensures
            res == self.id(),
    {
        self.ffi
    }

    pub proof fn lemma_id_injective(self, other: ActionNodeKey)
        ensures
            self.id() == other.id() <==> self == other,
    {
    }
}

/// Whether `id` is the number of a key made by the slot map.
pub open(crate) spec fn id_is_key(id: u64) -> bool {
    &&& (id / 0x1_0000_0000) % 2 == 1
    &&& id % 0x1_0000_0000 != 0xffff_ffff
}

/// One more element of `s` adds `s[i]` to what the prefix contains.
pub proof fn lemma_take_one_more<A>(s: Seq<A>, i: int, x: A)
    requires
        0 <= i < s.len(),
    ensures
        s.take(i + 1).contains(x) <==> (s.take(i).contains(x) || x == s[i]),
        s.take(i + 1).to_set() == s.take(i).to_set().insert(s[i]),
{
    let t1 = s.take(i + 1);
    let t0 = s.take(i);
    assert(t1 =~= t0.push(s[i]));
    if t1.contains(x) {
        let j = choose|j: int| 0 <= j < t1.len() && t1[j] == x;
        if j < i {
            assert(t0[j] == x);
        }
    }
    if t0.contains(x) {
        let j = choose|j: int| 0 <= j < t0.len() && t0[j] == x;
        assert(t1[j] == x);
    }
    assert(t1[i] == s[i]);
    assert forall|y: A| t1.to_set().contains(y) == t0.to_set().insert(s[i]).contains(y) by {
        if t1.contains(y) {
            let j = choose|j: int| 0 <= j < t1.len() && t1[j] == y;
            if j < i {
                assert(t0[j] == y);
            }
        }
        if t0.contains(y) {
            let j = choose|j: int| 0 <= j < t0.len() && t0[j] == y;
            assert(t1[j] == y);
        }
    }
    assert(t1.to_set() =~= t0.to_set().insert(s[i]));
}

/// `key` isn't in the action tree.
#[derive(Clone, Copy, PartialEq, Eq, Debug, Structural)]
pub struct UnknownNode(pub ActionNodeKey);

/// `key` is executing.
#[derive(Clone, Copy, PartialEq, Eq, Debug, Structural)]
pub struct NodeExecuting(pub ActionNodeKey);

/// `key` has an executing descendant.
#[derive(Clone, Copy, PartialEq, Eq, Debug, Structural)]
pub struct ExecutingDescendant(pub ActionNodeKey);

#[derive(Clone, Copy, PartialEq, Eq, Debug, Structural)]
pub enum ClearChildrenError {
    UnknownNode(UnknownNode),
    ExecutingDescendant(ExecutingDescendant),
}

#[derive(Clone, Copy, PartialEq, Eq, Debug, Structural)]
pub enum RemoveNodeError {
    UnknownNode(UnknownNode),
    NodeExecuting(NodeExecuting),
}

/// A node of the tree: its children, first to last, and its parent.
pub struct ActionNode {
    pub(crate) sub_actions: ChildKeys,
    pub(crate) parent: Option<ActionNodeKey>,
}

impl ActionNode {
    pub closed spec fn children(self) -> Seq<ActionNodeKey> {
        child_seq(self.sub_actions)
    }
}

/// The action tree resource. It holds only the shape of the tree.
pub struct ActionTree {
    nodes: NodeSlots,
    /// The number of ancestors of each node.
    depth: Ghost<Map<ActionNodeKey, nat>>,
    /// No node is deeper than this.
    depth_bound: Ghost<nat>,
}

/// `s`, or `s` last to first when `rev`.
pub open spec fn sibling_order(s: Seq<ActionNodeKey>, rev: bool) -> Seq<ActionNodeKey> {
    if rev {
        s.reverse()
    } else {
        s
    }
}

impl ActionTree {
    pub closed spec fn node_map(self) -> Map<ActionNodeKey, ActionNode> {
        node_map(self.nodes)
    }

    /// The nodes in the tree.
    pub closed spec fn keys(self) -> Set<ActionNodeKey> {
        node_map(self.nodes).dom()
    }

    pub open spec fn has(self, key: ActionNodeKey) -> bool {
        self.keys().contains(key)
    }

    /// The parent of `key`, `None` for a root.
    pub closed spec fn parent_of(self, key: ActionNodeKey) -> Option<ActionNodeKey> {
        node_map(self.nodes)[key].parent
    }

    /// The children of `key`, first to last.
    pub closed spec fn children_of(self, key: ActionNodeKey) -> Seq<ActionNodeKey> {
        node_map(self.nodes)[key].children()
    }

    pub closed spec fn depth_of(self, key: ActionNodeKey) -> nat {
        self.depth@[key]
    }

    /// The tree is well formed: parents and children mirror each other,
    /// every node is one deeper than its parent, and slots are unique.
    #[verifier::opaque]
    pub closed spec fn wf(self) -> bool {
        let m = node_map(self.nodes);
        &&& m.dom().finite()
        &&& m.dom().len() < 0xffff_fffe
        &&& self.depth@.dom() == m.dom()
        &&& forall|k: ActionNodeKey| #[trigger] m.contains_key(k) ==> k.wf()
        &&& forall|k: ActionNodeKey| #[trigger]
            m.contains_key(k) ==> self.depth@[k] <= self.depth_bound@
        &&& forall|k: ActionNodeKey, j: ActionNodeKey|
            #[trigger] m.contains_key(k) && #[trigger] m.contains_key(j) && k.idx() == j.idx()
                ==> k == j
        &&& forall|k: ActionNodeKey| #[trigger]
            m.contains_key(k) ==> match m[k].parent {
                Some(p) => {
                    &&& m.contains_key(p)
                    &&& m[p].children().contains(k)
                    &&& self.depth@[k] == self.depth@[p] + 1
                },
                None => self.depth@[k] == 0,
            }
        &&& forall|k: ActionNodeKey, i: int|
            #![trigger m[k].children()[i]]
            m.contains_key(k) && 0 <= i < m[k].children().len() ==> {
                &&& m.contains_key(m[k].children()[i])
                &&& m[m[k].children()[i]].parent == Some(k)
            }
        &&& forall|k: ActionNodeKey| #[trigger]
            m.contains_key(k) ==> m[k].children().no_duplicates()
    }

    /// Room for one more node.
    pub open spec fn has_room(self) -> bool {
        self.keys().len() + 1 < 0xffff_fffe
    }

    pub fn new() -> (res: Self)
        ensures
            res.wf(),
            res.keys() == Set::<ActionNodeKey>::empty(),
    {
        reveal(ActionTree::wf);
        let nodes = node_slots_new();
        let res = ActionTree { nodes, depth: Ghost(Map::empty()), depth_bound: Ghost(0) };
        assert(res.keys() =~= Set::<ActionNodeKey>::empty());
        res
    }

    pub(crate) fn contains(&self, key: ActionNodeKey) -> (res: bool)
        ensures
            res == self.has(key),
    {
        proof {
            use_type_invariant(key);
        }
        node_slots_contains(&self.nodes, key)
    }

    /// The node of `key`.
    pub(crate) fn node(&self, key: ActionNodeKey) -> (res: Result<&ActionNode, UnknownNode>)
        ensures
            match res {
                Ok(node) => self.has(key) && *node == self.node_map()[key],
                Err(e) => !self.has(key) && e == UnknownNode(key),
            },
    {
        proof {
            use_type_invariant(key);
        }
        match node_slots_get(&self.nodes, key) {
            Some(node) => Ok(node),
            None => Err(UnknownNode(key)),
        }
    }

    pub(crate) fn parent(&self, key: ActionNodeKey) -> (res: Result<
        Option<ActionNodeKey>,
        UnknownNode,
    >)
        ensures
            match res {
                Ok(p) => self.has(key) && p == self.parent_of(key),
                Err(e) => !self.has(key) && e == UnknownNode(key),
            },
    {
        let node = self.node(key)?;
        Ok(node.parent)
    }

    pub(crate) fn children(&self, key: ActionNodeKey) -> (res: Result<
        &[ActionNodeKey],
        UnknownNode,
    >)
        ensures
            match res {
                Ok(c) => self.has(key) && c@ == self.children_of(key),
                Err(e) => !self.has(key) && e == UnknownNode(key),
            },
    {
        let node = self.node(key)?;
        Ok(child_keys_as_slice(&node.sub_actions))
    }

    /// Adds a node under `parent`, or a root when `parent` is `None`. Only
    /// fresh nodes are attached, so parenting can't create cycles.
    pub(crate) fn insert(&mut self, parent: Option<ActionNodeKey>) -> (res: ActionNodeKey)
        requires
            old(self).wf(),
            old(self).has_room(),
            parent matches Some(p) ==> old(self).has(p),
        ensures
            final(self).wf(),
            !old(self).has(res),
            final(self).keys() == old(self).keys().insert(res),
            final(self).parent_of(res) == parent,
            final(self).children_of(res).len() == 0,
            forall|k: ActionNodeKey| #[trigger]
                old(self).has(k) ==> final(self).parent_of(k) == old(self).parent_of(k),
            forall|k: ActionNodeKey| #[trigger]
                old(self).has(k) && Some(k) != parent ==> final(self).children_of(k)
                    == old(self).children_of(k),
            parent matches Some(p) ==> final(self).children_of(p) == old(self).children_of(
                p,
            ).push(res),
            forall|k: ActionNodeKey| #[trigger]
                old(self).has(k) ==> final(self).depth_of(k) == old(self).depth_of(k),
    {
        reveal(ActionTree::wf);
        let ghost old_tree = *self;
        let ghost m0 = node_map(self.nodes);
        let node = ActionNode { sub_actions: child_keys_new(), parent };
        let key = node_slots_insert(&mut self.nodes, node);
        let ghost new_depth: nat = match parent {
            Some(p) => self.depth@[p] + 1,
            None => 0,
        };
        proof {
            self.depth@ = self.depth@.insert(key, new_depth);
            self.depth_bound@ = self.depth_bound@ + 1;
        }
        if let Some(p) = parent {
            proof {
                use_type_invariant(p);
                assert(m0.contains_key(p));
                assert(m0[p].children().len() < 0xffff_ffff) by {
                    old_tree.lemma_children_len(m0, p);
                }
            }
            let pnode = node_slots_get_mut(&mut self.nodes, p);
            child_keys_push(&mut pnode.sub_actions, key);
        }
        proof {
            let m = node_map(self.nodes);
            assert(m.dom() =~= m0.dom().insert(key));
            assert forall|k: ActionNodeKey, i: int|
                m.contains_key(k) && 0 <= i < m[k].children().len() implies {
                &&& m.contains_key(m[k].children()[i])
                &&& m[m[k].children()[i]].parent == Some(k)
            } by {
                if k != key && Some(k) != parent {
                    assert(m[k] == m0[k]);
                    assert(m0[k].children()[i] != key);
                } else if Some(k) == parent {
                    if i < m0[k].children().len() {
                        assert(m[k].children()[i] == m0[k].children()[i]);
                        assert(m0[k].children()[i] != key);
                    }
                }
            }
            assert forall|k: ActionNodeKey| #[trigger] m.contains_key(k) implies m[k].children().no_duplicates() by {
                if Some(k) == parent {
                    assert(!m0[k].children().contains(key));
                    assert(m[k].children() == m0[k].children().push(key));
                }
            }
            assert forall|k: ActionNodeKey| #[trigger] m.contains_key(k) implies match m[k].parent {
                Some(p) => {
                    &&& m.contains_key(p)
                    &&& m[p].children().contains(k)
                    &&& self.depth@[k] == self.depth@[p] + 1
                },
                None => self.depth@[k] == 0,
            } by {
                if k != key {
                    if let Some(p) = m[k].parent {
                        assert(m0[p].children().contains(k));
                        if Some(p) == parent {
                            let i = choose|i: int| 0 <= i < m0[p].children().len() && m0[p].children()[i] == k;
                            assert(m[p].children()[i] == k);
                        }
                    }
                } else {
                    if let Some(p) = parent {
                        assert(m[p].children()[m[p].children().len() - 1] == key);
                    }
                }
            }
            assert forall|k: ActionNodeKey| #[trigger] m.contains_key(k) implies self.depth@[k] <= self.depth_bound@ by {
                if k != key {
                    assert(old_tree.depth@[k] <= old_tree.depth_bound@);
                } else if let Some(p) = parent {
                    assert(old_tree.depth@[p] <= old_tree.depth_bound@);
                }
            }
            assert(self.depth@.dom() =~= m.dom());
        }
        key
    }

    /// The fuel that lets the walk of `key` reach every node below it.
    pub closed spec fn fuel_of(self, key: ActionNodeKey) -> nat {
        (self.depth_bound@ + 1 - self.depth@[key]) as nat
    }

    /// The walk of `key`'s subtree, with `fuel` levels left: `key` comes
    /// before its descendants, or after them when `post`, and siblings come
    /// last to first when `rev`.
    pub closed spec fn walk_fuel(
        self,
        key: ActionNodeKey,
        rev: bool,
        post: bool,
        fuel: nat,
    ) -> Seq<ActionNodeKey>
        decreases fuel, 0nat,
    {
        if fuel == 0 {
            seq![key]
        } else {
            let below = self.walk_forest(
                sibling_order(self.children_of(key), rev),
                rev,
                post,
                (fuel - 1) as nat,
            );
            if post {
                below.push(key)
            } else {
                seq![key] + below
            }
        }
    }

    /// The walks of the nodes of `s`, one after the other.
    pub closed spec fn walk_forest(
        self,
        s: Seq<ActionNodeKey>,
        rev: bool,
        post: bool,
        fuel: nat,
    ) -> Seq<ActionNodeKey>
        decreases fuel, s.len() + 1,
    {
        if s.len() == 0 {
            Seq::empty()
        } else {
            self.walk_fuel(s[0], rev, post, fuel) + self.walk_forest(s.drop_first(), rev, post, fuel)
        }
    }

    /// `key` and its descendants, each before its own descendants (or after
    /// them when `post`), siblings last to first when `rev`.
    pub closed spec fn walk(self, key: ActionNodeKey, rev: bool, post: bool) -> Seq<ActionNodeKey> {
        self.walk_fuel(key, rev, post, self.fuel_of(key))
    }

    /// The walks of the nodes of `s`, one after the other.
    pub closed spec fn walk_list(self, s: Seq<ActionNodeKey>, rev: bool, post: bool) -> Seq<
        ActionNodeKey,
    >
        decreases s.len(),
    {
        if s.len() == 0 {
            Seq::empty()
        } else {
            self.walk(s[0], rev, post) + self.walk_list(s.drop_first(), rev, post)
        }
    }

    /// Top down: `key`, then its descendants.
    pub open spec fn top_down(self, key: ActionNodeKey, rev: bool) -> Seq<ActionNodeKey> {
        self.walk(key, rev, false)
    }

    /// Bottom up: the descendants of `key`, then `key`.
    pub open spec fn bottom_up(self, key: ActionNodeKey, rev: bool) -> Seq<ActionNodeKey> {
        self.walk(key, rev, true)
    }

    proof fn lemma_forest_is_list(self, s: Seq<ActionNodeKey>, rev: bool, post: bool, fuel: nat)
        requires
            self.wf(),
            forall|i: int| 0 <= i < s.len() ==> self.has(#[trigger] s[i]) && self.fuel_of(s[i]) == fuel,
        ensures
            self.walk_forest(s, rev, post, fuel) == self.walk_list(s, rev, post),
        decreases s.len(),
    {
        if s.len() > 0 {
            assert(self.has(s[0]) && self.fuel_of(s[0]) == fuel);
            self.lemma_forest_is_list(s.drop_first(), rev, post, fuel);
        }
    }

    /// One level of a walk: `key` and the walks of its children.
    pub proof fn lemma_walk_unfold(self, key: ActionNodeKey, rev: bool, post: bool)
        requires
            self.wf(),
            self.has(key),
        ensures
            self.walk(key, rev, post) == if post {
                self.walk_list(sibling_order(self.children_of(key), rev), rev, post).push(key)
            } else {
                seq![key] + self.walk_list(sibling_order(self.children_of(key), rev), rev, post)
            },
    {
        reveal(ActionTree::wf);
        let m = node_map(self.nodes);
        let f = self.fuel_of(key);
        assert(self.depth@[key] <= self.depth_bound@);
        assert(f >= 1);
        let ch = self.children_of(key);
        let s = sibling_order(ch, rev);
        assert forall|i: int| 0 <= i < s.len() implies self.has(#[trigger] s[i]) && self.fuel_of(s[i]) == (f - 1) as nat by {
            let j = if rev { ch.len() - 1 - i } else { i };
            assert(s[i] == ch[j]);
            assert(m.contains_key(m[key].children()[j]));
            assert(m[m[key].children()[j]].parent == Some(key));
            assert(self.depth@[s[i]] <= self.depth_bound@);
        }
        self.lemma_forest_is_list(s, rev, post, (f - 1) as nat);
    }

    pub proof fn lemma_walk_list_append(
        self,
        a: Seq<ActionNodeKey>,
        b: Seq<ActionNodeKey>,
        rev: bool,
        post: bool,
    )
        ensures
            self.walk_list(a + b, rev, post) == self.walk_list(a, rev, post) + self.walk_list(
                b,
                rev,
                post,
            ),
        decreases a.len(),
    {
        if a.len() == 0 {
            assert(a + b =~= b);
        } else {
            assert((a + b).drop_first() =~= a.drop_first() + b);
            self.lemma_walk_list_append(a.drop_first(), b, rev, post);
            assert((a + b)[0] == a[0]);
        }
    }

    /// A bottom-up walk is the top-down walk with siblings in the other
    /// order, read backwards.
    pub proof fn lemma_post_is_reversed_pre(self, key: ActionNodeKey, rev: bool)
        requires
            self.wf(),
            self.has(key),
        ensures
            self.walk(key, rev, true) == self.walk(key, !rev, false).reverse(),
        decreases self.fuel_of(key), 0nat, 0nat,
    {
        reveal(ActionTree::wf);
        let ch = self.children_of(key);
        self.lemma_walk_unfold(key, rev, true);
        self.lemma_walk_unfold(key, !rev, false);
        self.lemma_children_present(key, rev);
        assert(self.depth@[key] <= self.depth_bound@);
        let s = sibling_order(ch, rev);
        assert(sibling_order(ch, !rev) =~= s.reverse());
        assert forall|i: int| 0 <= i < s.len() implies #[trigger] self.has(s[i]) && self.fuel_of(s[i]) == (self.fuel_of(
            key,
        ) - 1) as nat by {
            assert(self.has(s[i]) && self.parent_of(s[i]) == Some(key));
            assert(self.depth@[s[i]] <= self.depth_bound@);
        }
        self.lemma_post_list_is_reversed_pre(s, rev, (self.fuel_of(key) - 1) as nat);
        let below = self.walk_list(s.reverse(), !rev, false);
        assert((seq![key] + below).reverse() =~= below.reverse().push(key));
    }

    /// The list form of [`lemma_post_is_reversed_pre`](Self::lemma_post_is_reversed_pre),
    /// for nodes `f` levels above the bottom of the tree.
    proof fn lemma_post_list_is_reversed_pre(self, s: Seq<ActionNodeKey>, rev: bool, f: nat)
        requires
            self.wf(),
            forall|i: int| 0 <= i < s.len() ==> #[trigger] self.has(s[i]) && self.fuel_of(s[i]) == f,
        ensures
            self.walk_list(s, rev, true) == self.walk_list(s.reverse(), !rev, false).reverse(),
        decreases f, 1nat, s.len(),
    {
        if s.len() > 0 {
            assert(self.has(s[0]) && self.fuel_of(s[0]) == f);
            self.lemma_post_is_reversed_pre(s[0], rev);
            let rest = s.drop_first();
            assert forall|i: int| 0 <= i < rest.len() implies #[trigger] self.has(rest[i]) && self.fuel_of(rest[i]) == f by {
                assert(rest[i] == s[i + 1]);
                assert(self.has(s[i + 1]) && self.fuel_of(s[i + 1]) == f);
            }
            self.lemma_post_list_is_reversed_pre(rest, rev, f);
            assert(s.reverse() =~= rest.reverse() + seq![s[0]]);
            self.lemma_walk_list_append(rest.reverse(), seq![s[0]], !rev, false);
            let single = seq![s[0]];
            assert(self.walk_list(single, !rev, false) =~= self.walk(s[0], !rev, false)) by {
                assert(single.drop_first() =~= Seq::<ActionNodeKey>::empty());
                assert(single[0] == s[0]);
                assert(self.walk_list(single.drop_first(), !rev, false) =~= Seq::<ActionNodeKey>::empty());
            }
            let a = self.walk_list(rest.reverse(), !rev, false);
            let b = self.walk(s[0], !rev, false);
            assert((a + b).reverse() =~= b.reverse() + a.reverse());
        }
    }

    pub proof fn lemma_children_present(self, key: ActionNodeKey, rev: bool)
        requires
            self.wf(),
            self.has(key),
        ensures
            forall|i: int|
                0 <= i < sibling_order(self.children_of(key), rev).len() ==> #[trigger] self.has(
                    sibling_order(self.children_of(key), rev)[i],
                ) && self.parent_of(sibling_order(self.children_of(key), rev)[i]) == Some(key),
            sibling_order(self.children_of(key), rev).len() == self.children_of(key).len(),
    {
        reveal(ActionTree::wf);
        let m = node_map(self.nodes);
        let ch = self.children_of(key);
        let s = sibling_order(ch, rev);
        assert forall|i: int| 0 <= i < s.len() implies #[trigger] self.has(s[i]) && self.parent_of(s[i]) == Some(key) by {
            let j = if rev { ch.len() - 1 - i } else { i };
            assert(s[i] == ch[j]);
            assert(m.contains_key(m[key].children()[j]));
        }
    }

    /// What a top-down walk still has to return: the descendants of the
    /// node returned last, if they are still to be queued, then the walks of
    /// the queued nodes.
    pub closed spec fn cursor_rest(self, c: TopDownCursor) -> Seq<ActionNodeKey> {
        (match c.last() {
            Some(l) => self.walk_list(
                sibling_order(self.children_of(l), c.siblings_rev()),
                c.siblings_rev(),
                false,
            ),
            None => Seq::empty(),
        }) + self.walk_list(c.pending().reverse(), c.siblings_rev(), false)
    }

    /// The cursor only holds nodes of the tree.
    pub closed spec fn cursor_inside(self, c: TopDownCursor) -> bool {
        &&& forall|i: int| 0 <= i < c.pending().len() ==> self.has(#[trigger] c.pending()[i])
        &&& c.last() matches Some(l) ==> self.has(l)
    }

    proof fn lemma_cursor_queue(self, c: TopDownCursor)
        requires
            self.wf(),
            self.cursor_inside(c),
        ensures
            self.walk_list(c.stack_in(self).reverse(), c.siblings_rev(), false) == self.cursor_rest(c),
            forall|i: int| 0 <= i < c.stack_in(self).len() ==> self.has(#[trigger] c.stack_in(self)[i]),
    {
        let rev = c.siblings_rev();
        let stack = c.stack_in(self);
        match c.last() {
            Some(l) => {
                self.lemma_children_present(l, rev);
                let so = sibling_order(self.children_of(l), rev);
                assert(queued_children(self, c.last(), rev) =~= so.reverse());
                assert(stack.reverse() =~= so + c.pending().reverse());
                self.lemma_walk_list_append(so, c.pending().reverse(), rev, false);
                assert forall|i: int| 0 <= i < stack.len() implies self.has(#[trigger] stack[i]) by {
                    if i >= c.pending().len() {
                        assert(stack[i] == so[so.len() - 1 - (i - c.pending().len())]);
                    }
                }
            },
            None => {
                assert(stack =~= c.pending());
                assert(Seq::<ActionNodeKey>::empty() + self.walk_list(c.pending().reverse(), rev, false)
                    =~= self.walk_list(c.pending().reverse(), rev, false));
            },
        }
    }

    proof fn lemma_cursor_pop(self, stack: Seq<ActionNodeKey>, c: TopDownCursor, x: ActionNodeKey)
        requires
            self.wf(),
            forall|i: int| 0 <= i < stack.len() ==> self.has(#[trigger] stack[i]),
            stack.len() > 0,
            x == stack.last(),
            c.pending() == stack.drop_last(),
            c.last() == Some(x),
        ensures
            self.walk_list(stack.reverse(), c.siblings_rev(), false) == seq![x] + self.cursor_rest(c),
            self.cursor_inside(c),
    {
        let rev = c.siblings_rev();
        assert(self.has(stack[stack.len() - 1]));
        assert(stack.reverse()[0] == x);
        assert(stack.reverse().drop_first() =~= stack.drop_last().reverse());
        self.lemma_walk_unfold(x, rev, false);
        assert(seq![x] + self.cursor_rest(c) =~= self.walk(x, rev, false) + self.walk_list(
            c.pending().reverse(),
            rev,
            false,
        ));
        assert forall|i: int| 0 <= i < c.pending().len() implies self.has(#[trigger] c.pending()[i]) by {
            assert(c.pending()[i] == stack[i]);
        }
    }

    /// A cursor that starts at `key` has the top-down walk of `key` ahead.
    pub proof fn lemma_cursor_start(self, c: TopDownCursor, key: ActionNodeKey)
        requires
            self.wf(),
            self.has(key),
            c.pending() == seq![key],
            c.last() is None,
        ensures
            self.cursor_inside(c),
            self.cursor_rest(c) == self.top_down(key, c.siblings_rev()),
    {
        let rev = c.siblings_rev();
        assert(c.pending().reverse() =~= seq![key]);
        assert(seq![key][0] == key);
        assert(seq![key].drop_first() =~= Seq::<ActionNodeKey>::empty());
        assert(self.walk_list(Seq::<ActionNodeKey>::empty(), rev, false) =~= Seq::<ActionNodeKey>::empty());
        assert(self.walk_list(seq![key], rev, false) == self.walk(key, rev, false) + self.walk_list(
            seq![key].drop_first(),
            rev,
            false,
        ));
        assert(self.cursor_rest(c) =~= self.top_down(key, rev));
    }

    /// On a tree that doesn't change, a step of a cursor returns the first
    /// node of the walk ahead of it and leaves the rest ahead, or returns
    /// nothing when nothing is ahead.
    pub proof fn lemma_cursor_step(self, c: TopDownCursor, after: TopDownCursor, res: Option<ActionNodeKey>)
        requires
            self.wf(),
            self.cursor_inside(c),
            after.pending() == pop_present(self, c.stack_in(self)).0,
            res == pop_present(self, c.stack_in(self)).1,
            after.last() == res,
            after.siblings_rev() == c.siblings_rev(),
        ensures
            match res {
                None => self.cursor_rest(c).len() == 0,
                Some(x) => self.cursor_rest(c) == seq![x] + self.cursor_rest(after) && self.cursor_inside(after),
            },
    {
        let stack = c.stack_in(self);
        self.lemma_cursor_queue(c);
        if stack.len() == 0 {
            assert(stack.reverse() =~= Seq::<ActionNodeKey>::empty());
        } else {
            assert(self.has(stack[stack.len() - 1]));
            self.lemma_cursor_pop(stack, after, res.unwrap());
        }
    }

    /// Skipping the children of the node returned last drops its
    /// descendants from the walk ahead, and nothing else.
    pub proof fn lemma_cursor_skip(self, c: TopDownCursor, after: TopDownCursor)
        requires
            after.pending() == c.pending(),
            after.last() is None,
            after.siblings_rev() == c.siblings_rev(),
        ensures
            self.cursor_rest(c) == (match c.last() {
                Some(l) => self.walk_list(sibling_order(self.children_of(l), c.siblings_rev()), c.siblings_rev(), false),
                None => Seq::empty(),
            }) + self.cursor_rest(after),
    {
        assert(Seq::<ActionNodeKey>::empty() + self.walk_list(after.pending().reverse(), after.siblings_rev(), false)
            =~= self.walk_list(after.pending().reverse(), after.siblings_rev(), false));
    }

    /// Iterates `key` and its descendants, each before its own descendants,
    /// siblings last to first when `siblings_rev`.
    pub(crate) fn parents_first(&self, key: ActionNodeKey, siblings_rev: bool) -> (res: Vec<
        ActionNodeKey,
    >)
        requires
            self.wf(),
            self.has(key),
        ensures
            res@ == self.top_down(key, siblings_rev),
    {
        let ghost w = self.top_down(key, siblings_rev);
        let mut cursor = TopDownCursor::start(key, siblings_rev);
        let mut out: Vec<ActionNodeKey> = Vec::new();
        proof {
            assert(cursor.pending().reverse() =~= seq![key]);
            assert(seq![key][0] == key);
            assert(seq![key].drop_first() =~= Seq::<ActionNodeKey>::empty());
            assert(self.walk_list(Seq::<ActionNodeKey>::empty(), siblings_rev, false) =~= Seq::<ActionNodeKey>::empty());
            assert(self.walk_list(seq![key], siblings_rev, false) == self.walk(key, siblings_rev, false) + self.walk_list(seq![key].drop_first(), siblings_rev, false));
            assert(self.walk_list(seq![key], siblings_rev, false) =~= w);
            assert(out@ + self.cursor_rest(cursor) =~= w);
        }
        loop
            invariant
                self.wf(),
                w == self.top_down(key, siblings_rev),
                cursor.siblings_rev() == siblings_rev,
                self.cursor_inside(cursor),
                out@ + self.cursor_rest(cursor) == w,
            decreases w.len() - out@.len(),
        {
            let ghost stack = cursor.stack_in(*self);
            proof {
                self.lemma_cursor_queue(cursor);
            }
            let next = cursor.next_in(self);
            match next {
                None => {
                    proof {
                        assert(stack.len() == 0);
                        assert(stack.reverse() =~= Seq::<ActionNodeKey>::empty());
                        assert(out@ =~= w);
                    }
                    return out;
                },
                Some(x) => {
                    proof {
                        assert(stack.len() > 0);
                        assert(self.has(stack[stack.len() - 1]));
                        self.lemma_cursor_pop(stack, cursor, x);
                    }
                    out.push(x);
                    proof {
                        assert(out@ + self.cursor_rest(cursor) =~= w);
                    }
                },
            }
        }
    }

    /// What an entry of the bottom-up stack stands for: the node alone once
    /// its children are queued, else its whole bottom-up walk.
    pub closed spec fn item_walk(self, item: (ActionNodeKey, bool), rev: bool) -> Seq<ActionNodeKey> {
        if item.1 {
            seq![item.0]
        } else {
            self.walk(item.0, rev, true)
        }
    }

    pub closed spec fn items_walk(self, s: Seq<(ActionNodeKey, bool)>, rev: bool) -> Seq<ActionNodeKey>
        decreases s.len(),
    {
        if s.len() == 0 {
            Seq::empty()
        } else {
            self.item_walk(s[0], rev) + self.items_walk(s.drop_first(), rev)
        }
    }

    pub closed spec fn count_expanded(s: Seq<(ActionNodeKey, bool)>) -> nat
        decreases s.len(),
    {
        if s.len() == 0 {
            0
        } else {
            (if s[0].1 {
                1nat
            } else {
                0nat
            }) + Self::count_expanded(s.drop_first())
        }
    }

    proof fn lemma_items_append(self, a: Seq<(ActionNodeKey, bool)>, b: Seq<(ActionNodeKey, bool)>, rev: bool)
        ensures
            self.items_walk(a + b, rev) == self.items_walk(a, rev) + self.items_walk(b, rev),
            Self::count_expanded(a + b) == Self::count_expanded(a) + Self::count_expanded(b),
        decreases a.len(),
    {
        if a.len() == 0 {
            assert(a + b =~= b);
        } else {
            assert((a + b).drop_first() =~= a.drop_first() + b);
            assert((a + b)[0] == a[0]);
            self.lemma_items_append(a.drop_first(), b, rev);
        }
    }

    proof fn lemma_items_fresh(self, s: Seq<ActionNodeKey>, rev: bool)
        ensures
            self.items_walk(s.map_values(|k: ActionNodeKey| (k, false)), rev) == self.walk_list(
                s,
                rev,
                true,
            ),
            Self::count_expanded(s.map_values(|k: ActionNodeKey| (k, false))) == 0,
        decreases s.len(),
    {
        let t = s.map_values(|k: ActionNodeKey| (k, false));
        if s.len() > 0 {
            assert(t.drop_first() =~= s.drop_first().map_values(|k: ActionNodeKey| (k, false)));
            self.lemma_items_fresh(s.drop_first(), rev);
        }
    }

    proof fn lemma_count_le(self, s: Seq<(ActionNodeKey, bool)>, rev: bool)
        ensures
            Self::count_expanded(s) <= self.items_walk(s, rev).len(),
        decreases s.len(),
    {
        if s.len() > 0 {
            self.lemma_count_le(s.drop_first(), rev);
            if !s[0].1 {
                let k = s[0].0;
                let f = self.fuel_of(k);
                assert(self.walk_fuel(k, rev, true, f).len() >= 1);
            }
        }
    }

    proof fn lemma_items_single(self, item: (ActionNodeKey, bool), rev: bool)
        ensures
            self.items_walk(seq![item], rev) == self.item_walk(item, rev),
            Self::count_expanded(seq![item]) == if item.1 {
                1nat
            } else {
                0nat
            },
    {
        assert(seq![item].drop_first() =~= Seq::<(ActionNodeKey, bool)>::empty());
        assert(self.items_walk(Seq::<(ActionNodeKey, bool)>::empty(), rev) =~= Seq::<ActionNodeKey>::empty());
        assert(Self::count_expanded(Seq::<(ActionNodeKey, bool)>::empty()) == 0);
        assert(self.items_walk(seq![item], rev) =~= self.item_walk(item, rev));
    }

    /// Popping the top of the bottom-up stack.
    proof fn lemma_items_pop(self, before: Seq<(ActionNodeKey, bool)>, rev: bool)
        requires
            before.len() > 0,
        ensures
            self.items_walk(before.reverse(), rev) == self.item_walk(before.last(), rev)
                + self.items_walk(before.drop_last().reverse(), rev),
            Self::count_expanded(before.reverse()) == (if before.last().1 {
                1nat
            } else {
                0nat
            }) + Self::count_expanded(before.drop_last().reverse()),
    {
        let item = before.last();
        let rest = before.drop_last();
        assert(before.reverse() =~= seq![item] + rest.reverse());
        self.lemma_items_append(seq![item], rest.reverse(), rev);
        self.lemma_items_single(item, rev);
    }

    proof fn lemma_items_expand_shape(
        k: ActionNodeKey,
        rest: Seq<(ActionNodeKey, bool)>,
        so: Seq<ActionNodeKey>,
    )
        ensures
            ({
                let fresh = so.map_values(|c: ActionNodeKey| (c, false));
                (rest + seq![(k, true)] + fresh.reverse()).reverse() == fresh + (seq![(k, true)]
                    + rest.reverse())
            }),
    {
        let fresh = so.map_values(|c: ActionNodeKey| (c, false));
        assert((rest + seq![(k, true)] + fresh.reverse()).reverse() =~= fresh + (seq![(k, true)]
            + rest.reverse()));
    }

    proof fn lemma_items_expand_walk(
        self,
        k: ActionNodeKey,
        rest: Seq<(ActionNodeKey, bool)>,
        rev: bool,
    )
        requires
            self.wf(),
            self.has(k),
        ensures
            ({
                let fresh = sibling_order(self.children_of(k), rev).map_values(
                    |c: ActionNodeKey| (c, false),
                );
                let r = fresh + (seq![(k, true)] + rest.reverse());
                &&& self.items_walk(r, rev) == self.walk(k, rev, true) + self.items_walk(
                    rest.reverse(),
                    rev,
                )
                &&& Self::count_expanded(r) == 1 + Self::count_expanded(rest.reverse())
            }),
    {
        let so = sibling_order(self.children_of(k), rev);
        let fresh = so.map_values(|c: ActionNodeKey| (c, false));
        self.lemma_items_append(fresh, seq![(k, true)] + rest.reverse(), rev);
        self.lemma_items_append(seq![(k, true)], rest.reverse(), rev);
        self.lemma_items_single((k, true), rev);
        self.lemma_items_fresh(so, rev);
        self.lemma_walk_unfold(k, rev, true);
        assert(self.items_walk(fresh + (seq![(k, true)] + rest.reverse()), rev) =~= self.walk(
            k,
            rev,
            true,
        ) + self.items_walk(rest.reverse(), rev));
    }

    /// Replacing an unexpanded node by itself, expanded, under its children.
    proof fn lemma_items_expand(self, k: ActionNodeKey, rest: Seq<(ActionNodeKey, bool)>, rev: bool)
        requires
            self.wf(),
            self.has(k),
        ensures
            ({
                let fresh = sibling_order(self.children_of(k), rev).map_values(
                    |c: ActionNodeKey| (c, false),
                );
                let after = rest + seq![(k, true)] + fresh.reverse();
                &&& self.items_walk(after.reverse(), rev) == self.walk(k, rev, true)
                    + self.items_walk(rest.reverse(), rev)
                &&& Self::count_expanded(after.reverse()) == 1 + Self::count_expanded(rest.reverse())
                &&& forall|i: int| 0 <= i < fresh.len() ==> self.has(#[trigger] fresh[i].0)
            }),
    {
        let so = sibling_order(self.children_of(k), rev);
        self.lemma_children_present(k, rev);
        let fresh = so.map_values(|c: ActionNodeKey| (c, false));
        Self::lemma_items_expand_shape(k, rest, so);
        self.lemma_items_expand_walk(k, rest, rev);
        assert forall|i: int| 0 <= i < fresh.len() implies self.has(#[trigger] fresh[i].0) by {
            assert(fresh[i].0 == so[i]);
        }
    }

    /// Pushes the children of `key` as unexpanded entries, so that they pop
    /// in sibling order.
    fn push_children(&self, pending: &mut Vec<(ActionNodeKey, bool)>, key: ActionNodeKey, siblings_rev: bool)
        requires
            self.wf(),
            self.has(key),
        ensures
            final(pending)@ == old(pending)@ + sibling_order(self.children_of(key), siblings_rev).map_values(
                |c: ActionNodeKey| (c, false),
            ).reverse(),
    {
        let node = self.node(key).unwrap();
        let children = child_keys_as_slice(&node.sub_actions);
        let n = children.len();
        let ghost fresh = sibling_order(self.children_of(key), siblings_rev).map_values(
            |c: ActionNodeKey| (c, false),
        );
        if siblings_rev {
            let mut i: usize = 0;
            while i < n
                invariant
                    0 <= i <= n,
                    n == children@.len(),
                    pending@ == old(pending)@ + children@.take(i as int).map_values(
                        |c: ActionNodeKey| (c, false),
                    ),
                decreases n - i,
            {
                pending.push((children[i], false));
                i = i + 1;
                assert(children@.take(i as int).map_values(|c: ActionNodeKey| (c, false))
                    =~= children@.take(i - 1).map_values(|c: ActionNodeKey| (c, false)).push(
                    (children@[i - 1], false),
                ));
            }
            assert(children@.take(n as int) =~= children@);
            assert(children@.map_values(|c: ActionNodeKey| (c, false)) =~= fresh.reverse());
        } else {
            let mut i: usize = n;
            while i > 0
                invariant
                    0 <= i <= n,
                    n == children@.len(),
                    pending@ == old(pending)@ + children@.reverse().take(n - i).map_values(
                        |c: ActionNodeKey| (c, false),
                    ),
                decreases i,
            {
                i = i - 1;
                pending.push((children[i], false));
                assert(children@.reverse().take(n - i).map_values(|c: ActionNodeKey| (c, false))
                    =~= children@.reverse().take(n - i - 1).map_values(
                    |c: ActionNodeKey| (c, false),
                ).push((children@[i as int], false)));
            }
            assert(children@.reverse().take(n as int) =~= children@.reverse());
            assert(children@.reverse().map_values(|c: ActionNodeKey| (c, false)) =~= fresh.reverse());
        }
    }

    /// Iterates `key` and its descendants, each after its own descendants,
    /// siblings last to first when `siblings_rev`.
    pub(crate) fn children_first(&self, key: ActionNodeKey, siblings_rev: bool) -> (res: Vec<
        ActionNodeKey,
    >)
        requires
            self.wf(),
            self.has(key),
        ensures
            res@ == self.bottom_up(key, siblings_rev),
    {
        let ghost w = self.bottom_up(key, siblings_rev);
        // `true` once a node's children have been pushed above it.
        let mut pending: Vec<(ActionNodeKey, bool)> = Vec::new();
        pending.push((key, false));
        let mut out: Vec<ActionNodeKey> = Vec::new();
        proof {
            assert(pending@.reverse() =~= seq![(key, false)]);
            self.lemma_items_single((key, false), siblings_rev);
            assert(out@ + self.items_walk(pending@.reverse(), siblings_rev) =~= w);
        }
        loop
            invariant
                self.wf(),
                w == self.bottom_up(key, siblings_rev),
                forall|i: int| 0 <= i < pending@.len() ==> self.has(#[trigger] pending@[i].0),
                out@ + self.items_walk(pending@.reverse(), siblings_rev) == w,
            decreases 2 * (w.len() - out@.len()) - Self::count_expanded(pending@.reverse()),
        {
            let ghost before = pending@;
            proof {
                self.lemma_count_le(before.reverse(), siblings_rev);
            }
            match pending.pop() {
                None => {
                    proof {
                        assert(before.reverse() =~= Seq::<(ActionNodeKey, bool)>::empty());
                        assert(out@ =~= w);
                    }
                    return out;
                },
                Some(item) => {
                    let (k, expanded) = item;
                    let ghost rest = pending@;
                    proof {
                        assert(rest =~= before.drop_last());
                        self.lemma_items_pop(before, siblings_rev);
                        assert(self.has(before[before.len() - 1].0));
                        self.lemma_count_le(rest.reverse(), siblings_rev);
                    }
                    if expanded {
                        out.push(k);
                        proof {
                            assert(out@ + self.items_walk(pending@.reverse(), siblings_rev) =~= w);
                        }
                    } else {
                        pending.push((k, true));
                        self.push_children(&mut pending, k, siblings_rev);
                        proof {
                            self.lemma_items_expand(k, rest, siblings_rev);
                            let fresh = sibling_order(self.children_of(k), siblings_rev).map_values(
                                |c: ActionNodeKey| (c, false),
                            );
                            assert(pending@ =~= rest + seq![(k, true)] + fresh.reverse());
                            assert(out@ + self.items_walk(pending@.reverse(), siblings_rev) =~= w);
                            assert forall|i: int| 0 <= i < pending@.len() implies self.has(#[trigger] pending@[i].0) by {
                                if i < rest.len() {
                                    assert(pending@[i] == before[i]);
                                } else if i > rest.len() {
                                    let j = i - rest.len() - 1;
                                    assert(pending@[i] == fresh.reverse()[j]);
                                    assert(fresh.reverse()[j] == fresh[fresh.len() - 1 - j]);
                                }
                            }
                        }
                    }
                },
            }
        }
    }

    proof fn lemma_walk_list_contains(self, s: Seq<ActionNodeKey>, rev: bool, post: bool, x: ActionNodeKey)
        ensures
            self.walk_list(s, rev, post).contains(x) <==> exists|i: int|
                0 <= i < s.len() && #[trigger] self.walk(s[i], rev, post).contains(x),
        decreases s.len(),
    {
        if s.len() > 0 {
            self.lemma_walk_list_contains(s.drop_first(), rev, post, x);
            let a = self.walk(s[0], rev, post);
            let b = self.walk_list(s.drop_first(), rev, post);
            if (a + b).contains(x) {
                let j = choose|j: int| 0 <= j < (a + b).len() && (a + b)[j] == x;
                if j < a.len() {
                    assert(a[j] == x);
                    assert(self.walk(s[0], rev, post).contains(x));
                } else {
                    assert(b[j - a.len()] == x);
                    let i = choose|i: int| 0 <= i < s.drop_first().len() && #[trigger] self.walk(s.drop_first()[i], rev, post).contains(x);
                    assert(s.drop_first()[i] == s[i + 1]);
                    assert(self.walk(s[i + 1], rev, post).contains(x));
                }
            }
            if exists|i: int| 0 <= i < s.len() && #[trigger] self.walk(s[i], rev, post).contains(x) {
                let i = choose|i: int| 0 <= i < s.len() && #[trigger] self.walk(s[i], rev, post).contains(x);
                if i == 0 {
                    let j = choose|j: int| 0 <= j < a.len() && a[j] == x;
                    assert((a + b)[j] == x);
                } else {
                    assert(s.drop_first()[i - 1] == s[i]);
                    assert(self.walk(s.drop_first()[i - 1], rev, post).contains(x));
                    let j = choose|j: int| 0 <= j < b.len() && b[j] == x;
                    assert((a + b)[a.len() + j] == x);
                }
            }
        }
    }

    /// Every node of the walk of `key` is `key` or one of its descendants:
    /// it's deeper than `key`, its parent is in the walk too, and so are
    /// its children.
    #[verifier::rlimit(60)]
    pub proof fn lemma_walk_facts(self, key: ActionNodeKey, rev: bool, post: bool)
        requires
            self.wf(),
            self.has(key),
        ensures
            self.walk(key, rev, post).contains(key),
            forall|x: ActionNodeKey| #[trigger]
                self.walk(key, rev, post).contains(x) ==> {
                    &&& self.has(x)
                    &&& self.depth_of(x) >= self.depth_of(key)
                    &&& x != key ==> {
                        &&& self.depth_of(x) > self.depth_of(key)
                        &&& self.parent_of(x) is Some
                        &&& self.walk(key, rev, post).contains(self.parent_of(x).unwrap())
                    }
                    &&& forall|i: int|
                        0 <= i < self.children_of(x).len() ==> self.walk(key, rev, post).contains(
                            #[trigger] self.children_of(x)[i],
                        )
                },
        decreases self.fuel_of(key),
    {
        reveal(ActionTree::wf);
        let w = self.walk(key, rev, post);
        let so = sibling_order(self.children_of(key), rev);
        let wl = self.walk_list(so, rev, post);
        self.lemma_walk_unfold(key, rev, post);
        self.lemma_children_present(key, rev);
        assert(self.depth@[key] <= self.depth_bound@);
        assert forall|y: ActionNodeKey| wl.contains(y) implies w.contains(y) by {
            let j = choose|j: int| 0 <= j < wl.len() && wl[j] == y;
            if post {
                assert(w[j] == y);
            } else {
                assert(w[j + 1] == y);
            }
        }
        assert forall|y: ActionNodeKey| w.contains(y) && y != key implies wl.contains(y) by {
            let j = choose|j: int| 0 <= j < w.len() && w[j] == y;
            if post {
                assert(wl[j] == y);
            } else {
                assert(wl[j - 1] == y);
            }
        }
        if post {
            assert(w[w.len() - 1] == key);
        } else {
            assert(w[0] == key);
        }
        assert forall|i: int| 0 <= i < so.len() implies ({
            let c = #[trigger] so[i];
            &&& self.depth_of(c) == self.depth_of(key) + 1
            &&& self.walk(c, rev, post).contains(c)
            &&& forall|x: ActionNodeKey| #[trigger]
                self.walk(c, rev, post).contains(x) ==> {
                    &&& self.has(x)
                    &&& self.depth_of(x) >= self.depth_of(c)
                    &&& x != c ==> {
                        &&& self.parent_of(x) is Some
                        &&& self.walk(c, rev, post).contains(self.parent_of(x).unwrap())
                    }
                    &&& forall|j: int|
                        0 <= j < self.children_of(x).len() ==> self.walk(c, rev, post).contains(
                            #[trigger] self.children_of(x)[j],
                        )
                }
        }) by {
            let c = so[i];
            assert(self.has(c) && self.parent_of(c) == Some(key));
            assert(self.depth@[c] <= self.depth_bound@);
            self.lemma_walk_facts(c, rev, post);
        }
        assert forall|x: ActionNodeKey| #[trigger] w.contains(x) implies {
            &&& self.has(x)
            &&& self.depth_of(x) >= self.depth_of(key)
            &&& x != key ==> {
                &&& self.depth_of(x) > self.depth_of(key)
                &&& self.parent_of(x) is Some
                &&& w.contains(self.parent_of(x).unwrap())
            }
            &&& forall|i: int| 0 <= i < self.children_of(x).len() ==> w.contains(#[trigger] self.children_of(x)[i])
        } by {
            if x == key {
                assert forall|i: int| 0 <= i < self.children_of(x).len() implies w.contains(#[trigger] self.children_of(x)[i]) by {
                    let c = self.children_of(x)[i];
                    let j = if rev { so.len() - 1 - i } else { i };
                    assert(so[j] == c);
                    self.lemma_walk_list_contains(so, rev, post, c);
                    assert(self.walk(so[j], rev, post).contains(c));
                }
            } else {
                self.lemma_walk_list_contains(so, rev, post, x);
                let i = choose|i: int| 0 <= i < so.len() && #[trigger] self.walk(so[i], rev, post).contains(x);
                let c = so[i];
                if x != c {
                    let p = self.parent_of(x).unwrap();
                    self.lemma_walk_list_contains(so, rev, post, p);
                }
                assert forall|j: int| 0 <= j < self.children_of(x).len() implies w.contains(#[trigger] self.children_of(x)[j]) by {
                    let y = self.children_of(x)[j];
                    assert(self.walk(c, rev, post).contains(y));
                    self.lemma_walk_list_contains(so, rev, post, y);
                }
            }
        }
    }

    /// The nodes of `old` are the nodes of `self` except `gone`, and every
    /// node left keeps its parent, children and depth, but `key`, which
    /// keeps its parent and loses its children.
    pub open(crate) spec fn removed_from(self, old: ActionTree, gone: Set<ActionNodeKey>, key: ActionNodeKey) -> bool {
        &&& self.keys() == old.keys().difference(gone)
        &&& forall|k: ActionNodeKey| #[trigger]
            self.has(k) ==> self.parent_of(k) == old.parent_of(k) && self.depth_of(k) == old.depth_of(k)
        &&& forall|k: ActionNodeKey| #[trigger]
            self.has(k) && k != key ==> self.children_of(k) == old.children_of(k)
    }

    /// Removes every descendant of `key`, returning the removed keys bottom
    /// up.
    #[verifier::rlimit(60)]
    #[verifier::spinoff_prover]
    pub(crate) fn remove_descendants(&mut self, key: ActionNodeKey) -> (res: Result<
        Vec<ActionNodeKey>,
        UnknownNode,
    >)
        requires
            old(self).wf(),
        ensures
            final(self).wf(),
            match res {
                Ok(removed) => {
                    &&& old(self).has(key)
                    &&& removed@ == old(self).bottom_up(key, false).drop_last()
                    &&& final(self).removed_from(*old(self), removed@.to_set(), key)
                    &&& final(self).has(key)
                    &&& final(self).children_of(key).len() == 0
                },
                Err(e) => !old(self).has(key) && e == UnknownNode(key) && *final(self) == *old(self),
            },
    {
        reveal(ActionTree::wf);
        self.node(key)?;
        let ghost old_tree = *self;
        let ghost m0 = node_map(self.nodes);
        let mut removed = self.children_first(key, false);
        let ghost w = removed@;
        proof {
            old_tree.lemma_walk_facts(key, false, true);
            old_tree.lemma_walk_unfold(key, false, true);
        }
        // `key` comes last, and stays.
        removed.pop();
        let ghost gone = removed@;
        proof {
            assert(gone =~= w.drop_last());
            assert forall|y: ActionNodeKey| gone.contains(y) <==> (w.contains(y) && y != key) by {
                if gone.contains(y) {
                    let j = choose|j: int| 0 <= j < gone.len() && gone[j] == y;
                    assert(w[j] == y);
                    old_tree.lemma_walk_list_contains(sibling_order(old_tree.children_of(key), false), false, true, y);
                    if y == key {
                        let i = choose|i: int| 0 <= i < sibling_order(old_tree.children_of(key), false).len()
                            && #[trigger] old_tree.walk(sibling_order(old_tree.children_of(key), false)[i], false, true).contains(y);
                        let c = sibling_order(old_tree.children_of(key), false)[i];
                        old_tree.lemma_children_present(key, false);
                        old_tree.lemma_walk_facts(c, false, true);
                    }
                }
                if w.contains(y) && y != key {
                    let j = choose|j: int| 0 <= j < w.len() && w[j] == y;
                    assert(j != w.len() - 1);
                    assert(gone[j] == y);
                }
            }
        }
        let n = removed.len();
        let mut i: usize = 0;
        while i < n
            invariant
                0 <= i <= n,
                n == removed@.len(),
                removed@ == gone,
                forall|y: ActionNodeKey| #[trigger] gone.contains(y) ==> old_tree.has(y),
                forall|k: ActionNodeKey| #[trigger] node_map(self.nodes).contains_key(k) <==> (m0.contains_key(k) && !gone.take(i as int).contains(k)),
                forall|k: ActionNodeKey| #[trigger] node_map(self.nodes).contains_key(k) ==> node_map(self.nodes)[k] == m0[k],
                self.depth == old_tree.depth,
                self.depth_bound == old_tree.depth_bound,
                old_tree.wf(),
                m0 == node_map(old_tree.nodes),
            decreases n - i,
        {
            proof {
                reveal(ActionTree::wf);
                assert(gone.contains(gone[i as int]));
                assert(m0.contains_key(gone[i as int]));
            }
            let ghost before = node_map(self.nodes);
            let _ = node_slots_remove(&mut self.nodes, removed[i]);
            proof {
                assert forall|k: ActionNodeKey| #[trigger] node_map(self.nodes).contains_key(k) <==> (m0.contains_key(k) && !gone.take(i + 1).contains(k)) by {
                    let t0 = gone.take(i as int);
                    let t1 = gone.take(i + 1);
                    if t1.contains(k) {
                        let j = choose|j: int| 0 <= j < t1.len() && t1[j] == k;
                        if j < i {
                            assert(t0[j] == k);
                        }
                    }
                    if t0.contains(k) {
                        let j = choose|j: int| 0 <= j < t0.len() && t0[j] == k;
                        assert(t1[j] == k);
                    }
                    assert(t1[i as int] == gone[i as int]);
                    assert(before.contains_key(k) <==> (m0.contains_key(k) && !t0.contains(k)));
                }
            }
            i = i + 1;
        }
        proof {
            assert(gone.take(n as int) =~= gone);
            assert(!gone.contains(key));
            assert(node_map(self.nodes).contains_key(key));
            use_type_invariant(key);
        }
        let knode = node_slots_get_mut(&mut self.nodes, key);
        child_keys_clear(&mut knode.sub_actions);
        proof {
            let m = node_map(self.nodes);
            let d = old_tree.depth@;
            self.depth@ = d.restrict(m.dom());
            assert(m.dom() =~= m0.dom().difference(gone.to_set()));
            assert(self.depth@.dom() =~= m.dom());
            vstd::set_lib::lemma_len_subset(m.dom(), m0.dom());
            assert forall|k: ActionNodeKey| #[trigger] m.contains_key(k) implies match m[k].parent {
                Some(p) => {
                    &&& m.contains_key(p)
                    &&& m[p].children().contains(k)
                    &&& self.depth@[k] == self.depth@[p] + 1
                },
                None => self.depth@[k] == 0,
            } by {
                assert(old_tree.has(k));
                if let Some(p) = m[k].parent {
                    assert(m0[k].parent == Some(p));
                    assert(m0.contains_key(p));
                    if k == key {
                        assert(old_tree.depth_of(p) < old_tree.depth_of(key));
                        assert(!w.contains(p));
                    } else {
                        assert(!w.contains(k));
                        if w.contains(p) {
                            let j = choose|j: int| 0 <= j < m0[p].children().len() && m0[p].children()[j] == k;
                            assert(old_tree.children_of(p)[j] == k);
                            assert(w.contains(old_tree.children_of(p)[j]));
                        }
                    }
                    assert(!gone.contains(p));
                    assert(m.contains_key(p));
                    if p == key {
                        let j = choose|j: int| 0 <= j < m0[p].children().len() && m0[p].children()[j] == k;
                        assert(old_tree.children_of(key)[j] == k);
                        assert(w.contains(old_tree.children_of(key)[j]));
                        assert(false);
                    }
                    assert(m[p] == m0[p]);
                }
            }
            assert forall|k: ActionNodeKey, j: int|
                m.contains_key(k) && 0 <= j < m[k].children().len() implies {
                &&& m.contains_key(m[k].children()[j])
                &&& m[m[k].children()[j]].parent == Some(k)
            } by {
                assert(k != key);
                assert(m[k] == m0[k]);
                let c = m0[k].children()[j];
                assert(m0.contains_key(c));
                assert(old_tree.children_of(k)[j] == c);
                if gone.contains(c) {
                    assert(w.contains(c) && c != key);
                    assert(w.contains(old_tree.parent_of(c).unwrap()));
                    assert(old_tree.parent_of(c) == Some(k));
                    assert(k != key ==> gone.contains(k));
                }
            }
            assert forall|k: ActionNodeKey| #[trigger] m.contains_key(k) implies m[k].children().no_duplicates() by {
                if k != key {
                    assert(m[k] == m0[k]);
                }
            }
            assert forall|k: ActionNodeKey| #[trigger] m.contains_key(k) implies self.depth@[k] <= self.depth_bound@ by {
                assert(m0.contains_key(k));
            }
            assert forall|k: ActionNodeKey, j: ActionNodeKey|
                #[trigger] m.contains_key(k) && #[trigger] m.contains_key(j) && k.idx() == j.idx() implies k == j by {
                assert(m0.contains_key(k) && m0.contains_key(j));
            }
            assert forall|k: ActionNodeKey| #[trigger] m.contains_key(k) implies k.wf() by {
                assert(m0.contains_key(k));
            }
            assert(self.keys() =~= old_tree.keys().difference(gone.to_set()));
        }
        Ok(removed)
    }

    /// Removes `key` and its descendants, returning the removed keys bottom
    /// up, so `key` comes last.
    pub(crate) fn remove_branch(&mut self, key: ActionNodeKey) -> (res: Result<
        Vec<ActionNodeKey>,
        UnknownNode,
    >)
        requires
            old(self).wf(),
        ensures
            final(self).wf(),
            match res {
                Ok(removed) => {
                    &&& old(self).has(key)
                    &&& removed@ == old(self).bottom_up(key, false)
                    &&& final(self).keys() == old(self).keys().difference(removed@.to_set())
                    &&& forall|k: ActionNodeKey| #[trigger]
                        final(self).has(k) ==> final(self).parent_of(k) == old(self).parent_of(k)
                            && final(self).depth_of(k) == old(self).depth_of(k)
                    &&& forall|k: ActionNodeKey| #[trigger]
                        final(self).has(k) && Some(k) != old(self).parent_of(key) ==> final(self).children_of(k)
                            == old(self).children_of(k)
                    &&& old(self).parent_of(key) matches Some(p) ==> final(self).children_of(p)
                        == old(self).children_of(p).remove(old(self).children_of(p).index_of(key))
                },
                Err(e) => !old(self).has(key) && e == UnknownNode(key) && *final(self) == *old(self),
            },
    {
        reveal(ActionTree::wf);
        let ghost t0 = *self;
        let mut removed = self.remove_descendants(key)?;
        let ghost t1 = *self;
        let ghost gone = removed@;
        proof {
            use_type_invariant(key);
            t0.lemma_walk_facts(key, false, true);
            t0.lemma_walk_unfold(key, false, true);
        }
        let node = node_slots_remove(&mut self.nodes, key).unwrap();
        let ghost t2 = *self;
        if let Some(p) = node.parent {
            proof {
                use_type_invariant(p);
                assert(node_map(t1.nodes).contains_key(p));
                assert(p != key);
            }
            let pnode = node_slots_get_mut(&mut self.nodes, p);
            let children = child_keys_as_slice(&pnode.sub_actions);
            let ghost cs = children@;
            proof {
                assert(cs == t1.children_of(p));
                assert(cs.contains(key));
            }
            let mut idx: usize = 0;
            while idx < children.len() && children[idx] != key
                invariant
                    0 <= idx <= children@.len(),
                    children@ == cs,
                    cs.contains(key),
                    forall|j: int| 0 <= j < idx ==> cs[j] != key,
                decreases children@.len() - idx,
            {
                idx = idx + 1;
            }
            proof {
                if idx == cs.len() {
                    let j = choose|j: int| 0 <= j < cs.len() && cs[j] == key;
                    assert(false);
                }
                assert(cs.no_duplicates());
                assert(cs.index_of(key) == idx) by {
                    let j = cs.index_of(key);
                    assert(0 <= j < cs.len() && cs[j] == key);
                }
            }
            let _ = child_keys_remove(&mut pnode.sub_actions, idx);
        }
        let ghost m = node_map(self.nodes);
        let ghost m1 = node_map(t1.nodes);
        proof {
            self.depth@ = t1.depth@.remove(key);
            assert(m.dom() =~= m1.dom().remove(key));
            ActionTree::lemma_detach_leaf(t1, *self, key);
        }
        removed.push(key);
        proof {
            let w = t0.bottom_up(key, false);
            assert(w[w.len() - 1] == key);
            assert(removed@ =~= w);
            assert forall|y: ActionNodeKey| w.to_set().contains(y) <==> (gone.to_set().contains(y) || y == key) by {
                if w.contains(y) && y != key {
                    let j = choose|j: int| 0 <= j < w.len() && w[j] == y;
                    assert(gone[j] == y);
                }
                if gone.contains(y) {
                    let j = choose|j: int| 0 <= j < gone.len() && gone[j] == y;
                    assert(w[j] == y);
                }
            }
            assert(self.keys() =~= t0.keys().difference(removed@.to_set()));
            assert forall|k: ActionNodeKey| #[trigger] self.has(k) implies self.parent_of(k) == t0.parent_of(k)
                && self.depth_of(k) == t0.depth_of(k) by {
                assert(t1.has(k));
                assert(m[k].parent == m1[k].parent);
            }
            assert forall|k: ActionNodeKey| #[trigger] self.has(k) && Some(k) != t0.parent_of(key) implies self.children_of(k)
                == t0.children_of(k) by {
                assert(t1.has(k));
                assert(k != key);
                assert(m[k] == m1[k]);
            }
            if let Some(p) = t0.parent_of(key) {
                assert(t1.parent_of(key) == Some(p));
                assert(t0.depth_of(p) < t0.depth_of(key));
                if gone.contains(p) {
                    let j = choose|j: int| 0 <= j < gone.len() && gone[j] == p;
                    assert(w[j] == p);
                }
                assert(t1.has(p));
                assert(t1.children_of(p) == t0.children_of(p));
            }
        }
        Ok(removed)
    }

    /// Taking a childless node out of a well-formed tree, and out of its
    /// parent's children, leaves a well-formed tree.
    #[verifier::rlimit(80)]
    #[verifier::spinoff_prover]
    proof fn lemma_detach_leaf(t1: ActionTree, t: ActionTree, key: ActionNodeKey)
        requires
            t1.wf(),
            t1.has(key),
            t1.children_of(key).len() == 0,
            node_map(t.nodes).dom() == node_map(t1.nodes).dom().remove(key),
            t.depth@ == t1.depth@.remove(key),
            t.depth_bound@ == t1.depth_bound@,
            forall|k: ActionNodeKey| #[trigger] node_map(t.nodes).contains_key(k) && Some(k) != t1.parent_of(key)
                ==> node_map(t.nodes)[k] == node_map(t1.nodes)[k],
            t1.parent_of(key) matches Some(p) ==> {
                &&& node_map(t.nodes)[p].parent == node_map(t1.nodes)[p].parent
                &&& node_map(t.nodes)[p].children() == t1.children_of(p).remove(t1.children_of(p).index_of(key))
                &&& 0 <= t1.children_of(p).index_of(key) < t1.children_of(p).len()
                &&& t1.children_of(p)[t1.children_of(p).index_of(key)] == key
            },
        ensures
            t.wf(),
    {
        reveal(ActionTree::wf);
        let m = node_map(t.nodes);
        let m1 = node_map(t1.nodes);
            let rm = m1[key];
            assert(rm.children().len() == 0);
            assert(m.dom() =~= m1.dom().remove(key));
            assert(t.depth@.dom() =~= m.dom());
            assert forall|k: ActionNodeKey| #[trigger] m.contains_key(k) implies match m[k].parent {
                Some(q) => {
                    &&& m.contains_key(q)
                    &&& m[q].children().contains(k)
                    &&& t.depth@[k] == t.depth@[q] + 1
                },
                None => t.depth@[k] == 0,
            } by {
                assert(m1.contains_key(k));
                if let Some(q) = m1[k].parent {
                    assert(m1[q].children().contains(k));
                    if q == key {
                        assert(false);
                    }
                    if Some(q) == rm.parent {
                        let c = m1[q].children();
                        let i = choose|i: int| 0 <= i < c.len() && c[i] == k;
                        let ix = c.index_of(key);
                        assert(k != key);
                        if i < ix {
                            assert(m[q].children()[i] == k);
                        } else {
                            assert(i != ix);
                            assert(m[q].children()[i - 1] == k);
                        }
                    } else {
                        assert(m[q] == m1[q]);
                    }
                }
            }
            assert forall|k: ActionNodeKey, j: int|
                m.contains_key(k) && 0 <= j < m[k].children().len() implies {
                &&& m.contains_key(m[k].children()[j])
                &&& m[m[k].children()[j]].parent == Some(k)
            } by {
                if Some(k) == rm.parent {
                    let c = m1[k].children();
                    let ix = c.index_of(key);
                    if j < ix {
                        assert(m[k].children()[j] == c[j]);
                        assert(c[j] != key);
                    } else {
                        assert(m[k].children()[j] == c[j + 1]);
                        assert(c[j + 1] != key) by {
                            assert(c.no_duplicates());
                        }
                    }
                } else {
                    assert(m[k] == m1[k]);
                    assert(m1[k].children()[j] != key);
                }
            }
            assert forall|k: ActionNodeKey| #[trigger] m.contains_key(k) implies m[k].children().no_duplicates() by {
                if Some(k) == rm.parent {
                    let c = m1[k].children();
                    let ix = c.index_of(key);
                    assert forall|a: int, b: int| 0 <= a < b < m[k].children().len() implies m[k].children()[a] != m[k].children()[b] by {
                        let a1 = if a < ix { a } else { a + 1 };
                        let b1 = if b < ix { b } else { b + 1 };
                        assert(m[k].children()[a] == c[a1]);
                        assert(m[k].children()[b] == c[b1]);
                    }
                }
            }
            assert forall|k: ActionNodeKey| #[trigger] m.contains_key(k) implies t.depth@[k] <= t.depth_bound@ by {
                assert(m1.contains_key(k));
            }
            assert forall|k: ActionNodeKey, j: ActionNodeKey|
                #[trigger] m.contains_key(k) && #[trigger] m.contains_key(j) && k.idx() == j.idx() implies k == j by {
                assert(m1.contains_key(k) && m1.contains_key(j));
            }
            assert forall|k: ActionNodeKey| #[trigger] m.contains_key(k) implies k.wf() by {
                assert(m1.contains_key(k));
            }
            vstd::set_lib::lemma_len_subset(m.dom(), m1.dom());
            }

    pub closed spec fn ancestors_fuel(self, key: ActionNodeKey, fuel: nat) -> Seq<ActionNodeKey>
        decreases fuel,
    {
        if fuel == 0 {
            Seq::empty()
        } else {
            match self.parent_of(key) {
                Some(p) => seq![p] + self.ancestors_fuel(p, (fuel - 1) as nat),
                None => Seq::empty(),
            }
        }
    }

    /// The ancestors of `key`, from its parent up to its root.
    pub closed spec fn ancestors_of(self, key: ActionNodeKey) -> Seq<ActionNodeKey> {
        self.ancestors_fuel(key, self.depth_of(key))
    }

    pub proof fn lemma_ancestors_unfold(self, key: ActionNodeKey)
        requires
            self.wf(),
            self.has(key),
        ensures
            self.ancestors_of(key) == match self.parent_of(key) {
                Some(p) => seq![p] + self.ancestors_of(p),
                None => Seq::empty(),
            },
            self.parent_of(key) matches Some(p) ==> self.has(p) && self.depth_of(key) == self.depth_of(p) + 1,
    {
        reveal(ActionTree::wf);
        if let Some(p) = self.parent_of(key) {
            assert(self.depth_of(key) == self.depth_of(p) + 1);
        }
    }

    /// The ancestors of `key` are nodes one level apart, from one level
    /// above `key` up to a root.
    pub proof fn lemma_ancestor_depths(self, key: ActionNodeKey)
        requires
            self.wf(),
            self.has(key),
        ensures
            self.ancestors_of(key).len() == self.depth_of(key),
            forall|i: int| 0 <= i < self.ancestors_of(key).len() ==> self.has(#[trigger] self.ancestors_of(key)[i])
                && self.depth_of(self.ancestors_of(key)[i]) + 1 + i == self.depth_of(key),
        decreases self.depth_of(key),
    {
        self.lemma_ancestors_unfold(key);
        match self.parent_of(key) {
            None => {
                reveal(ActionTree::wf);
            },
            Some(p) => {
                self.lemma_ancestor_depths(p);
                let a = self.ancestors_of(key);
                assert forall|i: int| 0 <= i < a.len() implies self.has(#[trigger] a[i])
                    && self.depth_of(a[i]) + 1 + i == self.depth_of(key) by {
                    if i > 0 {
                        assert(a[i] == self.ancestors_of(p)[i - 1]);
                    }
                }
            },
        }
    }

    /// Going up from a node of the walk of `root`, the ancestors at least as
    /// deep as `root` are in the walk, and the one as deep is `root`.
    pub proof fn lemma_ancestors_in_walk(self, root: ActionNodeKey, rev: bool, post: bool, key: ActionNodeKey)
        requires
            self.wf(),
            self.has(root),
            self.walk(root, rev, post).contains(key),
        ensures
            forall|i: int| 0 <= i < self.ancestors_of(key).len()
                && self.depth_of(#[trigger] self.ancestors_of(key)[i]) >= self.depth_of(root)
                ==> self.walk(root, rev, post).contains(self.ancestors_of(key)[i]),
            forall|i: int| 0 <= i < self.ancestors_of(key).len()
                && self.depth_of(#[trigger] self.ancestors_of(key)[i]) == self.depth_of(root)
                ==> self.ancestors_of(key)[i] == root,
        decreases self.depth_of(key),
    {
        self.lemma_walk_facts(root, rev, post);
        assert(self.walk(root, rev, post).contains(key));
        self.lemma_ancestor_depths(key);
        self.lemma_ancestors_unfold(key);
        if key != root {
            let p = self.parent_of(key).unwrap();
            self.lemma_ancestors_in_walk(root, rev, post, p);
            self.lemma_ancestor_depths(p);
            let a = self.ancestors_of(key);
            assert forall|i: int| 0 <= i < a.len() && self.depth_of(#[trigger] a[i]) >= self.depth_of(root)
                implies self.walk(root, rev, post).contains(a[i]) by {
                if i > 0 {
                    assert(a[i] == self.ancestors_of(p)[i - 1]);
                }
            }
            assert forall|i: int| 0 <= i < a.len() && self.depth_of(#[trigger] a[i]) == self.depth_of(root)
                implies a[i] == root by {
                if i > 0 {
                    assert(a[i] == self.ancestors_of(p)[i - 1]);
                } else {
                    assert(self.walk(root, rev, post).contains(p));
                }
            }
        }
    }

    /// The walk of `key` holds exactly `key` and the nodes it is an
    /// ancestor of.
    pub proof fn lemma_walk_is_subtree(self, key: ActionNodeKey, rev: bool, post: bool, x: ActionNodeKey)
        requires
            self.wf(),
            self.has(key),
        ensures
            self.walk(key, rev, post).contains(x) <==> (x == key || (self.has(x) && self.ancestors_of(x).contains(key))),
        decreases self.depth_of(x),
    {
        self.lemma_walk_facts(key, rev, post);
        let w = self.walk(key, rev, post);
        if self.has(x) && x != key {
            self.lemma_ancestors_unfold(x);
            if let Some(p) = self.parent_of(x) {
                self.lemma_walk_is_subtree(key, rev, post, p);
                assert(self.ancestors_of(x) == seq![p] + self.ancestors_of(p));
                assert(self.ancestors_of(x)[0] == p);
                if w.contains(x) {
                    assert(w.contains(p));
                }
                if self.ancestors_of(p).contains(key) {
                    let i = choose|i: int| 0 <= i < self.ancestors_of(p).len() && self.ancestors_of(p)[i] == key;
                    assert(self.ancestors_of(x)[i + 1] == key);
                }
                if self.ancestors_of(x).contains(key) && p != key {
                    let i = choose|i: int| 0 <= i < self.ancestors_of(x).len() && self.ancestors_of(x)[i] == key;
                    assert(self.ancestors_of(p)[i - 1] == key);
                }
                if w.contains(p) {
                    reveal(ActionTree::wf);
                    let m = node_map(self.nodes);
                    assert(m[p].children().contains(x));
                    let j = choose|j: int| 0 <= j < m[p].children().len() && m[p].children()[j] == x;
                    assert(self.children_of(p)[j] == x);
                }
            } else {
                assert(self.ancestors_of(x).len() == 0);
                if w.contains(x) {
                    assert(self.parent_of(x) is Some);
                }
            }
        }
    }

    /// A node without children walks to itself alone.
    pub proof fn lemma_leaf_walk(self, key: ActionNodeKey, rev: bool, post: bool)
        requires
            self.wf(),
            self.has(key),
            self.children_of(key).len() == 0,
        ensures
            self.walk(key, rev, post) == seq![key],
    {
        self.lemma_walk_unfold(key, rev, post);
        let s = sibling_order(self.children_of(key), rev);
        assert(s.len() == 0);
        assert(self.walk_list(s, rev, post) =~= Seq::<ActionNodeKey>::empty());
        assert(seq![key] + Seq::<ActionNodeKey>::empty() =~= seq![key]);
        assert(Seq::<ActionNodeKey>::empty().push(key) =~= seq![key]);
    }

    /// A node without children is no node's ancestor.
    pub proof fn lemma_leaf_not_ancestor(self, leaf: ActionNodeKey, key: ActionNodeKey)
        requires
            self.wf(),
            self.has(leaf),
            self.has(key),
            self.children_of(leaf).len() == 0,
        ensures
            !self.ancestors_of(key).contains(leaf),
        decreases self.depth_of(key),
    {
        self.lemma_ancestors_unfold(key);
        if let Some(p) = self.parent_of(key) {
            reveal(ActionTree::wf);
            if p == leaf {
                assert(node_map(self.nodes)[p].children().contains(key));
                assert(false);
            }
            self.lemma_leaf_not_ancestor(leaf, p);
            assert(self.ancestors_of(key) == seq![p] + self.ancestors_of(p));
            if self.ancestors_of(key).contains(leaf) {
                let i = choose|i: int| 0 <= i < self.ancestors_of(key).len() && self.ancestors_of(key)[i] == leaf;
                assert(self.ancestors_of(p)[i - 1] == leaf);
            }
        }
    }

    /// Walks up from the parent of `key` to its root.
    pub(crate) fn ancestors(&self, key: ActionNodeKey) -> (res: Result<Vec<ActionNodeKey>, UnknownNode>)
        requires
            self.wf(),
        ensures
            match res {
                Ok(v) => self.has(key) && v@ == self.ancestors_of(key),
                Err(e) => !self.has(key) && e == UnknownNode(key),
            },
    {
        let mut cur = self.parent(key)?;
        let mut out: Vec<ActionNodeKey> = Vec::new();
        proof {
            self.lemma_ancestors_unfold(key);
            assert(out@ + self.ancestors_of(key) =~= self.ancestors_of(key));
        }
        loop
            invariant
                self.wf(),
                self.has(key),
                cur matches Some(p) ==> self.has(p),
                out@ + (match cur {
                    Some(p) => seq![p] + self.ancestors_of(p),
                    None => Seq::empty(),
                }) == self.ancestors_of(key),
            decreases (match cur {
                Some(p) => self.depth_of(p) + 1,
                None => 0,
            }),
        {
            match cur {
                None => {
                    assert(out@ =~= self.ancestors_of(key));
                    return Ok(out);
                },
                Some(p) => {
                    out.push(p);
                    let next = self.parent(p).unwrap();
                    proof {
                        self.lemma_ancestors_unfold(p);
                        assert(out@ + (match next {
                            Some(q) => seq![q] + self.ancestors_of(q),
                            None => Seq::empty(),
                        }) =~= self.ancestors_of(key));
                        if let Some(q) = next {
                            assert(self.depth_of(p) == self.depth_of(q) + 1);
                        }
                    }
                    cur = next;
                },
            }
        }
    }

    /// The nodes of a well-formed tree have keys made by the slot map, in
    /// slots of their own.
    pub proof fn lemma_keys(self)
        requires
            self.wf(),
        ensures
            forall|k: ActionNodeKey| #[trigger] self.has(k) ==> k.wf(),
            forall|k: ActionNodeKey, j: ActionNodeKey|
                #[trigger] self.has(k) && #[trigger] self.has(j) && k.idx() == j.idx() ==> k == j,
            self.keys().finite(),
    {
        reveal(ActionTree::wf);
    }

    /// The children of a node are distinct nodes of the tree, so there are
    /// fewer of them than nodes.
    proof fn lemma_children_len(self, m: Map<ActionNodeKey, ActionNode>, p: ActionNodeKey)
        requires
            self.wf(),
            m == node_map(self.nodes),
            m.contains_key(p),
        ensures
            m[p].children().len() <= m.dom().len(),
    {
        reveal(ActionTree::wf);
        let c = m[p].children();
        assert(c.to_set().subset_of(m.dom())) by {
            assert forall|x: ActionNodeKey| c.to_set().contains(x) implies m.dom().contains(x) by {
                let i = choose|i: int| 0 <= i < c.len() && c[i] == x;
                assert(m.contains_key(m[p].children()[i]));
            }
        }
        c.unique_seq_to_set();
        vstd::set_lib::lemma_len_subset(c.to_set(), m.dom());
    }
}


/// The children of `last` that a top-down walk queues after returning it:
/// pushed on the stack so that they pop in sibling order.
pub open spec fn queued_children(tree: ActionTree, last: Option<ActionNodeKey>, rev: bool) -> Seq<
    ActionNodeKey,
> {
    match last {
        Some(l) => if tree.has(l) {
            sibling_order(tree.children_of(l), !rev)
        } else {
            Seq::empty()
        },
        None => Seq::empty(),
    }
}

/// Pops `stack` until a node of `tree` is on top, and pops that one too.
/// Returns what is left and the node, `None` if none was found.
pub open spec fn pop_present(tree: ActionTree, stack: Seq<ActionNodeKey>) -> (Seq<ActionNodeKey>, Option<ActionNodeKey>)
    decreases stack.len(),
{
    if stack.len() == 0 {
        (stack, None)
    } else if tree.has(stack.last()) {
        (stack.drop_last(), Some(stack.last()))
    } else {
        pop_present(tree, stack.drop_last())
    }
}

/// A walk over a node and its descendants, each before its own
/// descendants, that doesn't borrow the tree: each [`next`](Self::next)
/// takes the context, so the context can change between calls.
///
/// A node's children are read on the `next` call after it's returned, so a
/// node rerun in between has its new children walked, unless
/// [`skip_children`](Self::skip_children) is called. Nodes removed in
/// between are skipped.
pub struct TopDownCursor {
    pending: Vec<ActionNodeKey>,
    /// The node returned last, whose children haven't been queued yet.
    last: Option<ActionNodeKey>,
    siblings_rev: bool,
}

impl TopDownCursor {
    /// The nodes still to visit, the next on top (last).
    pub closed spec fn pending(self) -> Seq<ActionNodeKey> {
        self.pending@
    }

    /// The node returned last, if its children are still to be queued.
    pub closed spec fn last(self) -> Option<ActionNodeKey> {
        self.last
    }

    /// Whether siblings are visited last to first.
    pub closed spec fn siblings_rev(self) -> bool {
        self.siblings_rev
    }

    /// The stack once the children of the last node are queued.
    pub open spec fn stack_in(self, tree: ActionTree) -> Seq<ActionNodeKey> {
        self.pending() + queued_children(tree, self.last(), self.siblings_rev())
    }

    /// A walk of `key` and its descendants.
    pub(crate) fn start(key: ActionNodeKey, siblings_rev: bool) -> (res: Self)
        ensures
            res.pending() == seq![key],
            res.last() == None::<ActionNodeKey>,
            res.siblings_rev() == siblings_rev,
    {
        let mut pending = Vec::new();
        pending.push(key);
        TopDownCursor { pending, last: None, siblings_rev }
    }

    /// Skips the descendants of the node `next` returned last. Does nothing
    /// before the first `next`, or when called twice in a row.
    pub fn skip_children(&mut self)
        ensures
            final(self).pending() == old(self).pending(),
            final(self).last() == None::<ActionNodeKey>,
            final(self).siblings_rev() == old(self).siblings_rev(),
    {
        self.last = None;
    }

    /// The next node of the walk over `tree`.
    pub(crate) fn next_in(&mut self, tree: &ActionTree) -> (res: Option<ActionNodeKey>)
        requires
            tree.wf(),
        ensures
            final(self).pending() == pop_present(*tree, old(self).stack_in(*tree)).0,
            res == pop_present(*tree, old(self).stack_in(*tree)).1,
            final(self).last() == res,
            final(self).siblings_rev() == old(self).siblings_rev(),
    {
        let ghost stack = old(self).stack_in(*tree);
        let last = self.last.take();
        if let Some(l) = last {
            if let Ok(node) = tree.node(l) {
                let children = child_keys_as_slice(&node.sub_actions);
                let n = children.len();
                if self.siblings_rev {
                    let mut i: usize = 0;
                    while i < n
                        invariant
                            0 <= i <= n,
                            n == children@.len(),
                            self.pending@ == old(self).pending() + children@.take(i as int),
                            self.last == None::<ActionNodeKey>,
                            self.siblings_rev == old(self).siblings_rev(),
                        decreases n - i,
                    {
                        self.pending.push(children[i]);
                        i = i + 1;
                        assert(children@.take(i as int) =~= children@.take(i - 1).push(children@[i - 1]));
                    }
                    assert(children@.take(n as int) =~= children@);
                } else {
                    let mut i: usize = n;
                    while i > 0
                        invariant
                            0 <= i <= n,
                            n == children@.len(),
                            self.pending@ == old(self).pending() + children@.reverse().take(n - i),
                            self.last == None::<ActionNodeKey>,
                            self.siblings_rev == old(self).siblings_rev(),
                        decreases i,
                    {
                        i = i - 1;
                        self.pending.push(children[i]);
                        assert(children@.reverse().take(n - i) =~= children@.reverse().take(n - i - 1).push(children@[i as int]));
                    }
                    assert(children@.reverse().take(n as int) =~= children@.reverse());
                }
            }
        }
        assert(self.pending@ =~= stack);
        loop
            invariant
                tree.wf(),
                pop_present(*tree, self.pending@) == pop_present(*tree, stack),
                stack == old(self).stack_in(*tree),
                self.last == None::<ActionNodeKey>,
                self.siblings_rev == old(self).siblings_rev(),
            decreases self.pending@.len(),
        {
            let ghost before = self.pending@;
            match self.pending.pop() {
                None => {
                    assert(before.len() == 0);
                    assert(pop_present(*tree, before) == (before, None::<ActionNodeKey>));
                    assert(self.pending@ =~= before);
                    return None;
                },
                Some(key) => {
                    if tree.contains(key) {
                        self.last = Some(key);
                        assert(self.pending@ =~= before.drop_last());
                        assert(before.last() == key);
                        assert(pop_present(*tree, before) == (before.drop_last(), Some(key)));
                        return Some(key);
                    }
                    assert(self.pending@ =~= before.drop_last());
                },
            }
        }
    }
}


impl TopDownCursor {
    /// The next node of the walk, or `None` once it's done.
    pub fn next(&mut self, ctx: &Context) -> (res: Option<ActionNodeKey>)
        ensures
            final(self).pending() == pop_present(ctx.tree(), old(self).stack_in(ctx.tree())).0,
            res == pop_present(ctx.tree(), old(self).stack_in(ctx.tree())).1,
            final(self).last() == res,
            final(self).siblings_rev() == old(self).siblings_rev(),
    {
        proof {
            use_type_invariant(ctx);
        }
        self.next_in(&ctx.core.tree)
    }
}

/// Whether `key` is an ancestor of the executing action. Actions only run
/// nested inside the current one, so these are the executing actions
/// besides the current one. A current action that has left the tree has
/// none.
pub open spec fn executing_below(ctx: Context, key: ActionNodeKey) -> bool {
    match ctx.current() {
        Some(c) => ctx.tree().has(c) && ctx.tree().ancestors_of(c).contains(key),
        None => false,
    }
}

/// The executing action is in the tree, or none is executing.
pub open spec fn current_in_tree(ctx: Context) -> bool {
    ctx.current() matches Some(c) ==> ctx.tree().has(c)
}

/// What a change of the tree leaves alone: the executing action, the
/// groups, the stored actions and the queue.
pub open spec fn same_resources(a: Context, b: Context) -> bool {
    &&& a.current() == b.current()
    &&& a.groups() == b.groups()
    &&& a.next_group_id() == b.next_group_id()
    &&& a.syncs() == b.syncs()
    &&& a.next_sync_key() == b.next_sync_key()
    &&& a.stored() == b.stored()
    &&& a.queued() == b.queued()
    &&& a.rewind_ids() == b.rewind_ids()
}

/// The tree of `b` is the tree of `a` with `key` added under `parent`.
pub open spec fn node_added(a: Context, b: Context, key: ActionNodeKey, parent: Option<ActionNodeKey>) -> bool {
    &&& !a.tree().has(key)
    &&& b.tree().keys() == a.tree().keys().insert(key)
    &&& b.tree().keys().len() == a.tree().keys().len() + 1
    &&& b.tree().parent_of(key) == parent
    &&& b.tree().children_of(key).len() == 0
    &&& forall|k: ActionNodeKey| #[trigger]
        a.tree().has(k) ==> b.tree().parent_of(k) == a.tree().parent_of(k)
    &&& forall|k: ActionNodeKey| #[trigger]
        a.tree().has(k) && Some(k) != parent ==> b.tree().children_of(k) == a.tree().children_of(k)
    &&& parent matches Some(p) ==> b.tree().children_of(p) == a.tree().children_of(p).push(key)
}

/// `b` is `a` without the nodes of `removed`, which leave their groups
/// and lose their stored actions.
pub open spec fn nodes_removed(a: Context, b: Context, removed: Seq<ActionNodeKey>) -> bool {
    &&& b.tree().keys() == a.tree().keys().difference(removed.to_set())
    &&& b.tree().keys().len() <= a.tree().keys().len()
    &&& forall|k: ActionNodeKey| #[trigger]
        b.tree().has(k) ==> b.tree().parent_of(k) == a.tree().parent_of(k)
    &&& b.groups().dom() == a.groups().dom()
    &&& forall|g: u64| #[trigger] b.groups().contains_key(g) ==> b.groups()[g]
        == a.groups()[g].difference(removed.map_values(|k: ActionNodeKey| k.id()).to_set())
    &&& b.syncs().dom() == a.syncs().dom()
    &&& forall|g: u64| #[trigger] b.syncs().contains_key(g) ==> b.syncs()[g]
        == a.syncs()[g].difference(removed.map_values(|k: ActionNodeKey| k.id()).to_set())
    &&& b.next_group_id() == a.next_group_id()
    &&& b.next_sync_key() == a.next_sync_key()
    &&& b.stored() == a.stored().difference(removed.to_set())
    &&& b.current() == a.current()
    &&& b.queued() == a.queued()
}

pub trait ActionTreeExt: Sized {
    /// There is room for one more node.
    spec fn can_add_node(&self) -> bool;

    /// The executing action, if any, is in the tree.
    spec fn current_in_tree(&self) -> bool;

    /// Whether `key` is in the action tree.
    fn contains_node(&self, key: ActionNodeKey) -> bool;

    /// The parent of `key`, or `None` for a root.
    fn parent(&self, key: ActionNodeKey) -> Result<Option<ActionNodeKey>, UnknownNode>;

    fn children(&self, key: ActionNodeKey) -> Result<&[ActionNodeKey], UnknownNode>;

    /// Walks up from the parent of `key` to its root.
    fn ancestors(&self, key: ActionNodeKey) -> Result<Vec<ActionNodeKey>, UnknownNode>;

    /// `key` and its descendants, each before its own descendants, so `key`
    /// comes first.
    fn subtree_top_down(&self, key: ActionNodeKey) -> Result<Vec<ActionNodeKey>, UnknownNode>;

    /// [`subtree_top_down`](Self::subtree_top_down) with siblings last to
    /// first.
    fn subtree_top_down_rev(&self, key: ActionNodeKey) -> Result<Vec<ActionNodeKey>, UnknownNode>;

    /// `key` and its descendants, each after its own descendants, so `key`
    /// comes last.
    fn subtree_bottom_up(&self, key: ActionNodeKey) -> Result<Vec<ActionNodeKey>, UnknownNode>;

    /// [`subtree_bottom_up`](Self::subtree_bottom_up) with siblings last to
    /// first.
    fn subtree_bottom_up_rev(&self, key: ActionNodeKey) -> Result<Vec<ActionNodeKey>, UnknownNode>;

    /// A top-down walk of `key` and its descendants that takes the context
    /// at each step, so the context can change while walking.
    fn subtree_cursor(&self, key: ActionNodeKey, siblings_rev: bool) -> Result<TopDownCursor, UnknownNode>;

    /// Creates a root, even when another action is executing.
    fn create_root(&mut self) -> ActionNodeKey
        requires
            old(self).can_add_node(),
    ;

    /// Creates a child of the executing action.
    fn create_child(&mut self) -> Result<ActionNodeKey, NotExecuting>
        requires
            old(self).can_add_node(),
            old(self).current_in_tree(),
    ;

    /// Creates a child of the executing action, or a root outside
    /// execution.
    fn create_branch(&mut self) -> ActionNodeKey
        requires
            old(self).can_add_node(),
            old(self).current_in_tree(),
    ;

    /// Whether `key` is the current action or one of its ancestors.
    fn has_executing(&self, key: ActionNodeKey) -> bool;

    /// Whether the current action is a strict descendant of `key`.
    fn has_executing_descendant(&self, key: ActionNodeKey) -> bool;

    /// Removes every descendant of `key`, returning the removed keys bottom
    /// up.
    fn clear_children(&mut self, key: ActionNodeKey) -> Result<Vec<ActionNodeKey>, ClearChildrenError>;

    /// Removes `key` and its descendants, returning the removed keys bottom
    /// up.
    fn remove_node(&mut self, key: ActionNodeKey) -> Result<Vec<ActionNodeKey>, RemoveNodeError>;
}

impl ActionTreeExt for Context {
    open spec fn can_add_node(&self) -> bool {
        self.has_room()
    }

    open spec fn current_in_tree(&self) -> bool {
        current_in_tree(*self)
    }

    fn contains_node(&self, key: ActionNodeKey) -> (res: bool)
        ensures
            res == self.tree().has(key),
    {
        self.core.tree.contains(key)
    }

    fn parent(&self, key: ActionNodeKey) -> (res: Result<Option<ActionNodeKey>, UnknownNode>)
        ensures
            match res {
                Ok(p) => self.tree().has(key) && p == self.tree().parent_of(key),
                Err(e) => !self.tree().has(key) && e == UnknownNode(key),
            },
    {
        self.core.tree.parent(key)
    }

    fn children(&self, key: ActionNodeKey) -> (res: Result<&[ActionNodeKey], UnknownNode>)
        ensures
            match res {
                Ok(c) => self.tree().has(key) && c@ == self.tree().children_of(key),
                Err(e) => !self.tree().has(key) && e == UnknownNode(key),
            },
    {
        self.core.tree.children(key)
    }

    fn ancestors(&self, key: ActionNodeKey) -> (res: Result<Vec<ActionNodeKey>, UnknownNode>)
        ensures
            match res {
                Ok(v) => self.tree().has(key) && v@ == self.tree().ancestors_of(key),
                Err(e) => !self.tree().has(key) && e == UnknownNode(key),
            },
    {
        proof {
            use_type_invariant(self);
        }
        self.core.tree.ancestors(key)
    }

    fn subtree_top_down(&self, key: ActionNodeKey) -> (res: Result<Vec<ActionNodeKey>, UnknownNode>)
        ensures
            match res {
                Ok(v) => self.tree().has(key) && v@ == self.tree().top_down(key, false),
                Err(e) => !self.tree().has(key) && e == UnknownNode(key),
            },
    {
        proof {
            use_type_invariant(self);
        }
        self.core.tree.node(key)?;
        Ok(self.core.tree.parents_first(key, false))
    }

    fn subtree_top_down_rev(&self, key: ActionNodeKey) -> (res: Result<Vec<ActionNodeKey>, UnknownNode>)
        ensures
            match res {
                Ok(v) => self.tree().has(key) && v@ == self.tree().top_down(key, true),
                Err(e) => !self.tree().has(key) && e == UnknownNode(key),
            },
    {
        proof {
            use_type_invariant(self);
        }
        self.core.tree.node(key)?;
        Ok(self.core.tree.parents_first(key, true))
    }

    fn subtree_bottom_up(&self, key: ActionNodeKey) -> (res: Result<Vec<ActionNodeKey>, UnknownNode>)
        ensures
            match res {
                Ok(v) => self.tree().has(key) && v@ == self.tree().bottom_up(key, false),
                Err(e) => !self.tree().has(key) && e == UnknownNode(key),
            },
    {
        proof {
            use_type_invariant(self);
        }
        self.core.tree.node(key)?;
        Ok(self.core.tree.children_first(key, false))
    }

    fn subtree_bottom_up_rev(&self, key: ActionNodeKey) -> (res: Result<Vec<ActionNodeKey>, UnknownNode>)
        ensures
            match res {
                Ok(v) => self.tree().has(key) && v@ == self.tree().bottom_up(key, true),
                Err(e) => !self.tree().has(key) && e == UnknownNode(key),
            },
    {
        proof {
            use_type_invariant(self);
        }
        self.core.tree.node(key)?;
        Ok(self.core.tree.children_first(key, true))
    }

    fn subtree_cursor(&self, key: ActionNodeKey, siblings_rev: bool) -> (res: Result<TopDownCursor, UnknownNode>)
        ensures
            match res {
                Ok(c) => {
                    &&& self.tree().has(key)
                    &&& c.pending() == seq![key]
                    &&& c.last() == None::<ActionNodeKey>
                    &&& c.siblings_rev() == siblings_rev
                },
                Err(e) => !self.tree().has(key) && e == UnknownNode(key),
            },
    {
        self.core.tree.node(key)?;
        Ok(TopDownCursor::start(key, siblings_rev))
    }

    fn create_root(&mut self) -> (res: ActionNodeKey)
        ensures
            node_added(*old(self), *final(self), res, None),
            same_resources(*old(self), *final(self)),
    {
        proof {
            use_type_invariant(&*self);
        }
        let mut core = Core::new();
        std::mem::swap(&mut core, &mut self.core);
        let key = core.insert_node(None);
        self.core = core;
        key
    }

    fn create_child(&mut self) -> (res: Result<ActionNodeKey, NotExecuting>)
        ensures
            match res {
                Ok(key) => old(self).current() matches Some(p) && node_added(*old(self), *final(self), key, Some(p)),
                Err(e) => old(self).current() is None && e == NotExecuting && *final(self) == *old(self),
            },
            same_resources(*old(self), *final(self)),
    {
        proof {
            use_type_invariant(&*self);
        }
        let parent = match self.current {
            Some(p) => p,
            None => {
                return Err(NotExecuting);
            },
        };
        let mut core = Core::new();
        std::mem::swap(&mut core, &mut self.core);
        let key = core.insert_node(Some(parent));
        self.core = core;
        Ok(key)
    }

    fn create_branch(&mut self) -> (res: ActionNodeKey)
        ensures
            node_added(*old(self), *final(self), res, old(self).current()),
            same_resources(*old(self), *final(self)),
    {
        proof {
            use_type_invariant(&*self);
        }
        let parent = self.current;
        let mut core = Core::new();
        std::mem::swap(&mut core, &mut self.core);
        let key = core.insert_node(parent);
        self.core = core;
        key
    }

    fn has_executing(&self, key: ActionNodeKey) -> (res: bool)
        ensures
            res == (self.current() == Some(key) || executing_below(*self, key)),
    {
        self.current == Some(key) || self.has_executing_descendant(key)
    }

    fn has_executing_descendant(&self, key: ActionNodeKey) -> (res: bool)
        ensures
            res == executing_below(*self, key),
    {
        proof {
            use_type_invariant(self);
        }
        let current = match self.current {
            Some(c) => c,
            None => {
                return false;
            },
        };
        match self.core.tree.ancestors(current) {
            Ok(ancestors) => {
                let n = ancestors.len();
                let mut i: usize = 0;
                while i < n
                    invariant
                        0 <= i <= n,
                        n == ancestors@.len(),
                        forall|j: int| 0 <= j < i ==> ancestors@[j] != key,
                        ancestors@ == self.tree().ancestors_of(current),
                        self.current() == Some(current),
                        self.tree().has(current),
                    decreases n - i,
                {
                    if ancestors[i] == key {
                        assert(ancestors@.contains(ancestors@[i as int]));
                        return true;
                    }
                    i = i + 1;
                }
                false
            },
            Err(_) => false,
        }
    }

    fn clear_children(&mut self, key: ActionNodeKey) -> (res: Result<Vec<ActionNodeKey>, ClearChildrenError>)
        ensures
            final(self).rewind_ids() == old(self).rewind_ids(),
            final(self).current() == old(self).current(),
            match res {
                Ok(removed) => {
                    &&& old(self).tree().has(key)
                    &&& !executing_below(*old(self), key)
                    &&& removed@ == old(self).tree().bottom_up(key, false).drop_last()
                    &&& nodes_removed(*old(self), *final(self), removed@)
                    &&& final(self).tree().removed_from(old(self).tree(), removed@.to_set(), key)
                    &&& final(self).tree().has(key)
                    &&& final(self).tree().children_of(key).len() == 0
                    &&& forall|k: ActionNodeKey| #[trigger]
                        final(self).tree().has(k) && k != key ==> final(self).tree().children_of(k) == old(self).tree().children_of(k)
                },
                Err(ClearChildrenError::ExecutingDescendant(e)) => executing_below(*old(self), key) && e == ExecutingDescendant(key)
                    && *final(self) == *old(self),
                Err(ClearChildrenError::UnknownNode(e)) => !executing_below(*old(self), key) && !old(self).tree().has(key)
                    && e == UnknownNode(key) && *final(self) == *old(self),
            },
    {
        proof {
            use_type_invariant(&*self);
        }
        // An unknown node can't be executing, so it reaches the tree's check.
        if self.has_executing_descendant(key) {
            return Err(ClearChildrenError::ExecutingDescendant(ExecutingDescendant(key)));
        }
        let mut core = Core::new();
        std::mem::swap(&mut core, &mut self.core);
        let res = core.remove_descendants(key);
        self.core = core;
        match res {
            Ok(removed) => Ok(removed),
            Err(e) => Err(ClearChildrenError::UnknownNode(e)),
        }
    }

    fn remove_node(&mut self, key: ActionNodeKey) -> (res: Result<Vec<ActionNodeKey>, RemoveNodeError>)
        ensures
            match res {
                Ok(removed) => {
                    &&& old(self).tree().has(key)
                    &&& old(self).current() != Some(key) && !executing_below(*old(self), key)
                    &&& removed@ == old(self).tree().bottom_up(key, false)
                    &&& nodes_removed(*old(self), *final(self), removed@)
                    &&& forall|k: ActionNodeKey| #[trigger]
                        final(self).tree().has(k) && Some(k) != old(self).tree().parent_of(key) ==> final(self).tree().children_of(k)
                            == old(self).tree().children_of(k)
                    &&& old(self).tree().parent_of(key) matches Some(p) ==> final(self).tree().children_of(p)
                        == old(self).tree().children_of(p).remove(old(self).tree().children_of(p).index_of(key))
                },
                Err(RemoveNodeError::NodeExecuting(e)) => (old(self).current() == Some(key) || executing_below(*old(self), key))
                    && e == NodeExecuting(key) && *final(self) == *old(self),
                Err(RemoveNodeError::UnknownNode(e)) => !(old(self).current() == Some(key) || executing_below(*old(self), key))
                    && !old(self).tree().has(key) && e == UnknownNode(key) && *final(self) == *old(self),
            },
    {
        proof {
            use_type_invariant(&*self);
        }
        // An unknown node can't be executing, so it reaches the tree's check.
        if self.has_executing(key) {
            return Err(RemoveNodeError::NodeExecuting(NodeExecuting(key)));
        }
        let mut core = Core::new();
        std::mem::swap(&mut core, &mut self.core);
        let res = core.remove_branch(key);
        self.core = core;
        match res {
            Ok(removed) => Ok(removed),
            Err(e) => Err(RemoveNodeError::UnknownNode(e)),
        }
    }
}

} // verus!
