//! Scheduling decisions of the executor that reruns action trees: the order
//! it walks a tree in, which actions a rewind reaches through sync keys,
//! which nodes it rewinds or runs, and which actions a batch of writes
//! marks for a rerun.

use std::collections::HashSet;

use vstd::prelude::*;

use crate::action_tree::{ActionNodeKey, ActionTree, ActionTreeExt, UnknownNode};
use crate::context::Context;
use crate::sync::{keys_of, same_but_syncs, synced_with, unsync, SyncKey};
use crate::tracking::ids_of;

verus! {

broadcast use vstd::std_specs::hash::group_hash_axioms;

/// The nodes of a tree, each before its descendants, first child first.
pub struct TreeOrder {
    nodes: Vec<ActionNodeKey>,
}

/// `m` occurs in `order` after the last occurrence of `n` (anywhere, when
/// `n` doesn't occur).
pub open spec fn comes_after(order: Seq<ActionNodeKey>, n: ActionNodeKey, m: ActionNodeKey) -> bool {
    exists|p: int| #![trigger order[p]]
        0 <= p < order.len() && order[p] == m && forall|q: int| p <= q < order.len() ==> order[q] != n
}

impl TreeOrder {
    pub closed spec fn view(self) -> Seq<ActionNodeKey> {
        self.nodes@
    }

    /// `root` and its descendants, each before its own descendants.
    pub fn new(ctx: &Context, root: ActionNodeKey) -> (res: Result<Self, UnknownNode>)
        ensures
            match res {
                Ok(order) => {
                    &&& ctx.tree().has(root)
                    &&& order@ == ctx.tree().top_down(root, false)
                    &&& forall|i: int| 0 <= i < order@.len() ==> ctx.tree().has(#[trigger] order@[i])
                },
                Err(e) => !ctx.tree().has(root) && e == UnknownNode(root),
            },
    {
        let nodes = ctx.subtree_top_down(root)?;
        proof {
            use_type_invariant(ctx);
            ctx.tree().lemma_walk_facts(root, false, false);
            assert forall|i: int| 0 <= i < nodes@.len() implies ctx.tree().has(#[trigger] nodes@[i]) by {
                assert(nodes@.contains(nodes@[i]));
            }
        }
        Ok(TreeOrder { nodes })
    }

    /// An order of no nodes.
    pub(crate) fn empty() -> (res: Self)
        ensures
            res@ == Seq::<ActionNodeKey>::empty(),
    {
        TreeOrder { nodes: Vec::new() }
    }

    /// The nodes, first to last.
    pub fn forward(&self) -> (res: Vec<ActionNodeKey>)
        ensures
            res@ == self@,
    {
        self.nodes.clone()
    }

    /// The nodes, last to first.
    pub fn backward(&self) -> (res: Vec<ActionNodeKey>)
        ensures
            res@ == self@.reverse(),
    {
        let mut res: Vec<ActionNodeKey> = Vec::new();
        let n = self.nodes.len();
        let mut i: usize = n;
        while i > 0
            invariant
                0 <= i <= n,
                n == self@.len(),
                res@ == self@.subrange(i as int, n as int).reverse(),
            decreases i,
        {
            i = i - 1;
            res.push(self.nodes[i]);
            assert(self@.subrange(i as int, n as int).reverse() =~= self@.subrange(i + 1, n as int).reverse().push(
                self@[i as int],
            ));
        }
        assert(self@.subrange(0, n as int) =~= self@);
        res
    }

    /// The nodes after the first occurrence of `node`, which must occur.
    pub fn after(&self, node: ActionNodeKey) -> (res: Vec<ActionNodeKey>)
        requires
            self@.contains(node),
        ensures
            exists|i: int| #![trigger self@[i]]
                0 <= i < self@.len() && self@[i] == node && (forall|j: int| 0 <= j < i ==> self@[j] != node)
                    && res@ == self@.skip(i + 1),
    {
        let n = self.nodes.len();
        let mut i: usize = 0;
        while i < n
            invariant
                0 <= i <= n,
                n == self@.len(),
                self@.contains(node),
                forall|j: int| 0 <= j < i ==> self@[j] != node,
            decreases n - i,
        {
            if self.nodes[i] == node {
                let mut res: Vec<ActionNodeKey> = Vec::new();
                let mut j: usize = i + 1;
                while j < n
                    invariant
                        i + 1 <= j <= n,
                        n == self@.len(),
                        res@ == self@.subrange(i + 1, j as int),
                    decreases n - j,
                {
                    res.push(self.nodes[j]);
                    assert(self@.subrange(i + 1, j + 1) =~= self@.subrange(i + 1, j as int).push(self@[j as int]));
                    j = j + 1;
                }
                assert(res@ =~= self@.skip(i + 1));
                return res;
            }
            i = i + 1;
        }
        proof {
            let k = choose|k: int| 0 <= k < self@.len() && self@[k] == node;
            assert(self@[k] != node);
        }
        vstd::pervasive::unreached()
    }
}

/// A rewind of `n` reaches `m` through a sync key: `m` comes after `n` in
/// `order` and is synced with a key `n` is synced with.
pub open spec fn sync_step(ctx: Context, order: Seq<ActionNodeKey>, n: ActionNodeKey, m: ActionNodeKey) -> bool {
    &&& comes_after(order, n, m)
    &&& exists|k: u64| #[trigger] keys_of(ctx, n).contains(k) && ctx.syncs()[k].contains(m.id())
}

/// Every sync step from a node numbered in `s` leads to a node numbered in
/// `s`.
pub open spec fn sync_closed(ctx: Context, order: Seq<ActionNodeKey>, s: Set<u64>) -> bool {
    forall|n: ActionNodeKey, m: ActionNodeKey|
        #[trigger] sync_step(ctx, order, n, m) && s.contains(n.id()) ==> s.contains(m.id())
}

/// What a rewind of `node` reaches: the numbers in every set that holds
/// `node` and is closed under sync steps.
pub open spec fn rewind_reach(ctx: Context, order: Seq<ActionNodeKey>, node: ActionNodeKey) -> Set<u64> {
    Set::new(|x: u64| forall|s: Set<u64>| #[trigger] sync_closed(ctx, order, s) && s.contains(node.id()) ==> s.contains(x))
}

/// The nodes a rewind of `node` within the tree of `tree_root` rewinds:
/// of the nodes it reaches, those no other one is above, last to first.
pub open spec fn rewind_targets(ctx: Context, tree_root: ActionNodeKey, node: ActionNodeKey) -> Seq<ActionNodeKey> {
    let reach = rewind_reach(ctx, ctx.tree().top_down(tree_root, false), node);
    ctx.tree().top_down(tree_root, true).filter(|n: ActionNodeKey| topmost_marked(ctx.tree(), tree_root, true, reach, n))
}

/// Keys without repeats, each `node` or a node of `order`, are at most one
/// more than `order` is long.
proof fn lemma_seen_bound(seen: Seq<ActionNodeKey>, order: Seq<ActionNodeKey>, node: ActionNodeKey)
    requires
        seen.no_duplicates(),
        forall|i: int| 0 <= i < seen.len() ==> #[trigger] seen[i] == node || order.contains(seen[i]),
    ensures
        seen.len() <= order.len() + 1,
{
    let a = seen.to_set();
    let b = order.to_set().insert(node);
    assert(a.subset_of(b)) by {
        assert forall|x: ActionNodeKey| a.contains(x) implies b.contains(x) by {
            let i = choose|i: int| 0 <= i < seen.len() && seen[i] == x;
            assert(seen[i] == node || order.contains(seen[i]));
        }
    }
    seen.unique_seq_to_set();
    order.lemma_cardinality_of_set();
    vstd::set_lib::lemma_len_subset(a, b);
}

/// The actions a rewind of `node` reaches: `node`, and every action a sync
/// step leads to from one of them. It is the least set closed under sync
/// steps that holds `node`.
pub fn rewind_set(ctx: &Context, order: &TreeOrder, node: ActionNodeKey) -> (res: HashSet<u64>)
    requires
        ctx.tree().has(node),
        forall|i: int| 0 <= i < order@.len() ==> ctx.tree().has(#[trigger] order@[i]),
    ensures
        res@.contains(node.id()),
        sync_closed(*ctx, order@, res@),
        forall|s: Set<u64>| #[trigger] sync_closed(*ctx, order@, s) && s.contains(node.id()) ==> res@.subset_of(s),
        res@ == rewind_reach(*ctx, order@, node),
{
    proof {
        use_type_invariant(ctx);
    }
    let back = order.backward();
    let len = back.len();
    let mut set: HashSet<u64> = HashSet::new();
    set.insert(node.to_id());
    let mut work: Vec<ActionNodeKey> = Vec::new();
    work.push(node);
    let ghost mut seen: Seq<ActionNodeKey> = seq![node];
    proof {
        assert forall|x: u64| set@.contains(x) <==> exists|j: int| 0 <= j < seen.len() && #[trigger] seen[j].id() == x by {
            if set@.contains(x) {
                assert(seen[0].id() == x);
            }
        }
    }
    while work.len() > 0
        invariant
            back@ == order@.reverse(),
            len == back@.len(),
            forall|i: int| 0 <= i < order@.len() ==> ctx.tree().has(#[trigger] order@[i]),
            ctx.tree().has(node),
            set@.contains(node.id()),
            seen.no_duplicates(),
            forall|i: int| 0 <= i < seen.len() ==> #[trigger] seen[i] == node || order@.contains(seen[i]),
            forall|x: u64| set@.contains(x) <==> exists|j: int| 0 <= j < seen.len() && #[trigger] seen[j].id() == x,
            seen.len() <= order@.len() + 1,
            forall|j: int| 0 <= j < work@.len() ==> ctx.tree().has(#[trigger] work@[j]) && set@.contains(work@[j].id()),
            forall|s: Set<u64>| #[trigger] sync_closed(*ctx, order@, s) && s.contains(node.id()) ==> set@.subset_of(s),
            forall|n: ActionNodeKey, m: ActionNodeKey|
                #[trigger] sync_step(*ctx, order@, n, m) && set@.contains(n.id()) && !work@.contains(n) ==> set@.contains(m.id()),
        decreases order@.len() + 1 - seen.len(), work@.len(),
    {
        let ghost wb = work@;
        let n = work.pop().unwrap();
        let keys = match synced_with(ctx, n) {
            Ok(keys) => keys,
            Err(_) => {
                return vstd::pervasive::unreached();
            },
        };
        let ghost seen0 = seen;
        let ghost work0 = work@;
        proof {
            assert forall|n2: ActionNodeKey, m: ActionNodeKey|
                #[trigger] sync_step(*ctx, order@, n2, m) && set@.contains(n2.id()) && !work@.contains(n2) && n2 != n
                    implies set@.contains(m.id()) by {
                assert(wb == work0.push(n));
                if wb.contains(n2) {
                    let j = choose|j: int| 0 <= j < wb.len() && wb[j] == n2;
                    if j < work0.len() {
                        assert(work0[j] == n2);
                        assert(work0.contains(n2));
                    }
                }
                assert(!wb.contains(n2));
            }
        }
        let nk = keys.len();
        let mut ki: usize = 0;
        while ki < nk
            invariant
                0 <= ki <= nk,
                nk == keys@.len(),
                forall|k: SyncKey| #[trigger] keys@.contains(k) <==> keys_of(*ctx, n).contains(k.id()),
                back@ == order@.reverse(),
                len == back@.len(),
                forall|i: int| 0 <= i < order@.len() ==> ctx.tree().has(#[trigger] order@[i]),
                ctx.tree().has(node),
                ctx.tree().has(n),
                set@.contains(node.id()),
                set@.contains(n.id()),
                seen.no_duplicates(),
                forall|i: int| 0 <= i < seen.len() ==> #[trigger] seen[i] == node || order@.contains(seen[i]),
                forall|x: u64| set@.contains(x) <==> exists|j: int| 0 <= j < seen.len() && #[trigger] seen[j].id() == x,
                seen.len() <= order@.len() + 1,
                seen.len() >= seen0.len(),
                seen.len() == seen0.len() ==> work@ == work0,
                forall|j: int| 0 <= j < work@.len() ==> ctx.tree().has(#[trigger] work@[j]) && set@.contains(work@[j].id()),
                forall|s: Set<u64>| #[trigger] sync_closed(*ctx, order@, s) && s.contains(node.id()) ==> set@.subset_of(s),
                forall|n2: ActionNodeKey, m: ActionNodeKey|
                    #[trigger] sync_step(*ctx, order@, n2, m) && set@.contains(n2.id()) && !work@.contains(n2) && n2 != n
                        ==> set@.contains(m.id()),
                forall|j: int, m: ActionNodeKey|
                    0 <= j < ki && comes_after(order@, n, m) && #[trigger] ctx.syncs()[keys@[j].id()].contains(m.id())
                        ==> set@.contains(m.id()),
            decreases nk - ki,
        {
            let key = keys[ki];
            proof {
                assert(keys@.contains(key));
            }
            let members = match ctx.core.syncs.members.get(&key.0) {
                Some(members) => members,
                None => {
                    return vstd::pervasive::unreached();
                },
            };
            let mut i: usize = 0;
            while i < len
                invariant
                    0 <= i <= len,
                    0 <= ki < nk,
                    nk == keys@.len(),
                    key == keys@[ki as int],
                    keys_of(*ctx, n).contains(key.id()),
                    members@ == ctx.syncs()[key.id()],
                    back@ == order@.reverse(),
                    len == back@.len(),
                    forall|l: int| 0 <= l < i ==> back@[l] != n,
                    forall|i2: int| 0 <= i2 < order@.len() ==> ctx.tree().has(#[trigger] order@[i2]),
                    ctx.tree().has(node),
                    ctx.tree().has(n),
                    set@.contains(node.id()),
                    set@.contains(n.id()),
                    seen.no_duplicates(),
                    forall|i2: int| 0 <= i2 < seen.len() ==> #[trigger] seen[i2] == node || order@.contains(seen[i2]),
                    forall|x: u64| set@.contains(x) <==> exists|j: int| 0 <= j < seen.len() && #[trigger] seen[j].id() == x,
                    seen.len() <= order@.len() + 1,
                    seen.len() >= seen0.len(),
                    seen.len() == seen0.len() ==> work@ == work0,
                    forall|j: int| 0 <= j < work@.len() ==> ctx.tree().has(#[trigger] work@[j]) && set@.contains(work@[j].id()),
                    forall|s: Set<u64>| #[trigger] sync_closed(*ctx, order@, s) && s.contains(node.id()) ==> set@.subset_of(s),
                    forall|n2: ActionNodeKey, m: ActionNodeKey|
                        #[trigger] sync_step(*ctx, order@, n2, m) && set@.contains(n2.id()) && !work@.contains(n2) && n2 != n
                            ==> set@.contains(m.id()),
                    forall|j: int, m: ActionNodeKey|
                        0 <= j < ki && comes_after(order@, n, m) && #[trigger] ctx.syncs()[keys@[j].id()].contains(m.id())
                            ==> set@.contains(m.id()),
                    forall|l: int| 0 <= l < i && members@.contains((#[trigger] back@[l]).id()) ==> set@.contains(back@[l].id()),
                ensures
                    i == len || (i < len && back@[i as int] == n),
                decreases len - i,
            {
                let m = back[i];
                if m == n {
                    break;
                }
                let mid = m.to_id();
                if members.contains(&mid) && !set.contains(&mid) {
                    let ghost set0 = set@;
                    proof {
                        // `m` is reached from `n`: it comes after `n` and is
                        // synced with one of `n`'s keys.
                        let p = len - 1 - i;
                        assert(order@[p] == m);
                        assert forall|q: int| p <= q < order@.len() implies order@[q] != n by {
                            assert(order@[q] == back@[len - 1 - q]);
                        }
                        assert(comes_after(order@, n, m));
                        assert(keys_of(*ctx, n).contains(key.id()) && ctx.syncs()[key.id()].contains(m.id()));
                        assert(sync_step(*ctx, order@, n, m));
                        assert forall|s: Set<u64>| #[trigger] sync_closed(*ctx, order@, s) && s.contains(node.id())
                            implies set0.insert(mid).subset_of(s) by {
                            assert(set0.subset_of(s));
                            assert(s.contains(n.id()));
                        }
                        assert(order@.contains(m));
                        assert forall|j: int| 0 <= j < seen.len() implies seen[j] != m by {
                            if seen[j] == m {
                                assert(set0.contains(seen[j].id()));
                            }
                        }
                    }
                    let ghost work_old = work@;
                    set.insert(mid);
                    work.push(m);
                    proof {
                        assert forall|n2: ActionNodeKey, m2: ActionNodeKey|
                            #[trigger] sync_step(*ctx, order@, n2, m2) && set@.contains(n2.id()) && !work@.contains(n2) && n2 != n
                                implies set@.contains(m2.id()) by {
                            assert(work@ == work_old.push(m));
                            assert(work@[work_old.len() as int] == m);
                            if n2.id() == mid {
                                n2.lemma_id_injective(m);
                            }
                            assert(set0.contains(n2.id()));
                            if work_old.contains(n2) {
                                let j = choose|j: int| 0 <= j < work_old.len() && work_old[j] == n2;
                                assert(work@[j] == n2);
                            }
                        }
                        let s_old = seen;
                        seen = seen.push(m);
                        lemma_seen_bound(seen, order@, node);
                        assert forall|x: u64| set@.contains(x) <==> exists|j: int| 0 <= j < seen.len() && #[trigger] seen[j].id() == x by {
                            if set@.contains(x) {
                                if x == mid {
                                    assert(seen[s_old.len() as int].id() == x);
                                } else {
                                    assert(set0.contains(x));
                                    let j = choose|j: int| 0 <= j < s_old.len() && #[trigger] s_old[j].id() == x;
                                    assert(seen[j] == s_old[j]);
                                    assert(seen[j].id() == x);
                                }
                            }
                            if exists|j: int| 0 <= j < seen.len() && #[trigger] seen[j].id() == x {
                                let j = choose|j: int| 0 <= j < seen.len() && #[trigger] seen[j].id() == x;
                                if j < s_old.len() {
                                    assert(s_old[j] == seen[j]);
                                    assert(s_old[j].id() == x);
                                    assert(set0.contains(x));
                                } else {
                                    assert(seen[j] == m);
                                }
                            }
                        }
                    }
                }
                i = i + 1;
            }
            proof {
                // Every node after the last `n` was scanned.
                assert forall|m: ActionNodeKey| comes_after(order@, n, m) && ctx.syncs()[key.id()].contains(m.id())
                    implies set@.contains(m.id()) by {
                    let p = choose|p: int| #![trigger order@[p]]
                        0 <= p < order@.len() && order@[p] == m && forall|q: int| p <= q < order@.len() ==> order@[q] != n;
                    let l = len - 1 - p;
                    assert(back@[l] == m);
                    if l >= i {
                        assert(i < len && back@[i as int] == n);
                        assert(order@[len - 1 - i] == n);
                    }
                }
                assert forall|j: int, m: ActionNodeKey|
                    0 <= j < ki + 1 && comes_after(order@, n, m) && #[trigger] ctx.syncs()[keys@[j].id()].contains(m.id())
                        implies set@.contains(m.id()) by {
                    if j == ki {
                        assert(keys@[j] == key);
                    }
                }
            }
            ki = ki + 1;
        }
        proof {
            assert forall|n2: ActionNodeKey, m: ActionNodeKey|
                #[trigger] sync_step(*ctx, order@, n2, m) && set@.contains(n2.id()) && !work@.contains(n2)
                    implies set@.contains(m.id()) by {
                if n2 == n {
                    let k = choose|k: u64| #[trigger] keys_of(*ctx, n).contains(k) && ctx.syncs()[k].contains(m.id());
                    assert(keys@.contains(SyncKey(k)));
                    let j = choose|j: int| 0 <= j < keys@.len() && keys@[j] == SyncKey(k);
                    assert(keys@[j].id() == k);
                }
            }
        }
    }
    proof {
        assert forall|n: ActionNodeKey, m: ActionNodeKey|
            #[trigger] sync_step(*ctx, order@, n, m) && set@.contains(n.id()) implies set@.contains(m.id()) by {
            assert(!work@.contains(n));
        }
        assert forall|x: u64| set@.contains(x) <==> #[trigger] rewind_reach(*ctx, order@, node).contains(x) by {
            if set@.contains(x) {
                assert forall|s: Set<u64>| sync_closed(*ctx, order@, s) && s.contains(node.id()) implies s.contains(x) by {
                    assert(set@.subset_of(s));
                }
            }
            if rewind_reach(*ctx, order@, node).contains(x) {
                assert(sync_closed(*ctx, order@, set@) && set@.contains(node.id()));
            }
        }
        assert(set@ =~= rewind_reach(*ctx, order@, node));
    }
    set
}

/// `n` is marked, and no node from `root` down to `n`'s parent is: a walk
/// from `root` that stops at marked nodes reaches `n` and stops there.
pub open spec fn topmost_marked(t: ActionTree, root: ActionNodeKey, rev: bool, marked: Set<u64>, n: ActionNodeKey) -> bool {
    &&& marked.contains(n.id())
    &&& forall|a: ActionNodeKey| #[trigger] t.ancestors_of(n).contains(a) && t.top_down(root, rev).contains(a)
        ==> !marked.contains(a.id())
}

/// Whether a node from `root` down to `n`'s parent is marked.
fn marked_above(ctx: &Context, root: ActionNodeKey, rev: bool, n: ActionNodeKey, marked: &HashSet<u64>) -> (res: bool)
    requires
        ctx.tree().has(root),
        ctx.tree().top_down(root, rev).contains(n),
    ensures
        res == exists|a: ActionNodeKey| #[trigger] ctx.tree().ancestors_of(n).contains(a)
            && ctx.tree().top_down(root, rev).contains(a) && marked@.contains(a.id()),
{
    proof {
        use_type_invariant(ctx);
    }
    let ghost t = ctx.tree();
    let ghost w = t.top_down(root, rev);
    proof {
        t.lemma_walk_facts(root, rev, false);
        t.lemma_ancestors_in_walk(root, rev, false, n);
        t.lemma_ancestor_depths(n);
    }
    let ghost anc = t.ancestors_of(n);
    if n == root {
        proof {
            assert forall|a: ActionNodeKey| #[trigger] anc.contains(a) implies !w.contains(a) by {
                let i = choose|i: int| 0 <= i < anc.len() && anc[i] == a;
                assert(t.depth_of(anc[i]) + 1 + i == t.depth_of(n));
            }
        }
        return false;
    }
    let ancestors = match ctx.ancestors(n) {
        Ok(ancestors) => ancestors,
        Err(_) => {
            return vstd::pervasive::unreached();
        },
    };
    let ghost d: int = t.depth_of(n) - t.depth_of(root) - 1;
    proof {
        assert(t.depth_of(n) > t.depth_of(root));
        assert(t.depth_of(anc[d]) == t.depth_of(root));
        assert(anc[d] == root);
        assert forall|i: int| 0 <= i < anc.len() implies (#[trigger] w.contains(anc[i]) <==> i <= d) by {
            assert(t.depth_of(anc[i]) + 1 + i == t.depth_of(n));
            if w.contains(anc[i]) {
                assert(t.depth_of(anc[i]) >= t.depth_of(root));
            }
        }
    }
    let len = ancestors.len();
    let mut j: usize = 0;
    while j < len
        invariant
            0 <= j <= len,
            len == anc.len(),
            ancestors@ == anc,
            t == ctx.tree(),
            anc == t.ancestors_of(n),
            w == t.top_down(root, rev),
            forall|i: int| 0 <= i < anc.len() ==> t.depth_of(#[trigger] anc[i]) + 1 + i == t.depth_of(n),
            d == t.depth_of(n) - t.depth_of(root) - 1,
            0 <= d < anc.len(),
            anc[d] == root,
            j <= d,
            forall|i: int| 0 <= i < anc.len() ==> (#[trigger] w.contains(anc[i]) <==> i <= d),
            forall|l: int| 0 <= l < j ==> !marked@.contains((#[trigger] anc[l]).id()),
        decreases len - j,
    {
        let a = ancestors[j];
        if marked.contains(&a.to_id()) {
            proof {
                assert(anc[j as int] == a);
                assert(anc.contains(a));
                assert(w.contains(anc[j as int]));
                assert(t.ancestors_of(n).contains(a) && t.top_down(root, rev).contains(a) && marked@.contains(a.id()));
            }
            return true;
        }
        if a == root {
            proof {
                assert(j == d) by {
                    if j < d {
                        assert(t.depth_of(anc[j as int]) + 1 + j == t.depth_of(n));
                        assert(t.depth_of(anc[d]) + 1 + d == t.depth_of(n));
                    }
                }
                assert forall|b: ActionNodeKey| #[trigger] anc.contains(b) && w.contains(b) implies !marked@.contains(b.id()) by {
                    let i = choose|i: int| 0 <= i < anc.len() && anc[i] == b;
                    assert(w.contains(anc[i]));
                }
            }
            return false;
        }
        proof {
            if j == d {
                assert(anc[j as int] == root);
            }
        }
        j = j + 1;
    }
    proof {
        assert(anc[d] == root);
    }
    vstd::pervasive::unreached()
}

/// The topmost marked nodes below `root`, in the order of a walk from
/// `root`: the nodes where a walk that stops at marked nodes stops.
pub fn first_marked(ctx: &Context, root: ActionNodeKey, rev: bool, marked: &HashSet<u64>) -> (res: Result<Vec<ActionNodeKey>, UnknownNode>)
    ensures
        match res {
            Ok(v) => ctx.tree().has(root) && v@ == ctx.tree().top_down(root, rev).filter(
                |n: ActionNodeKey| topmost_marked(ctx.tree(), root, rev, marked@, n),
            ),
            Err(e) => !ctx.tree().has(root) && e == UnknownNode(root),
        },
{
    let order = if rev {
        ctx.subtree_top_down_rev(root)?
    } else {
        ctx.subtree_top_down(root)?
    };
    let ghost t = ctx.tree();
    let ghost pred = |n: ActionNodeKey| topmost_marked(t, root, rev, marked@, n);
    let mut res: Vec<ActionNodeKey> = Vec::new();
    let n = order.len();
    let mut i: usize = 0;
    while i < n
        invariant
            0 <= i <= n,
            n == order@.len(),
            order@ == t.top_down(root, rev),
            t == ctx.tree(),
            t.has(root),
            pred == (|n: ActionNodeKey| topmost_marked(t, root, rev, marked@, n)),
            res@ == order@.take(i as int).filter(pred),
        decreases n - i,
    {
        let node = order[i];
        proof {
            assert(order@.take(i + 1).drop_last() =~= order@.take(i as int));
            reveal(Seq::filter);
            assert(order@.contains(node));
        }
        if marked.contains(&node.to_id()) && !marked_above(ctx, root, rev, node, marked) {
            res.push(node);
        }
        i = i + 1;
    }
    proof {
        assert(order@.take(n as int) =~= order@);
    }
    Ok(res)
}

/// Takes every node of `node`'s subtree out of every sync key, as a rewind
/// of `node` does before it runs the rewinds below it.
pub fn unsync_subtree(ctx: &mut Context, node: ActionNodeKey) -> (res: Result<(), UnknownNode>)
    ensures
        match res {
            Ok(()) => {
                &&& old(ctx).tree().has(node)
                &&& final(ctx).syncs().dom() == old(ctx).syncs().dom()
                &&& forall|k: u64| #[trigger] final(ctx).syncs().contains_key(k) ==> final(ctx).syncs()[k]
                    == old(ctx).syncs()[k].difference(ids_of(old(ctx).tree().top_down(node, false)))
            },
            Err(e) => !old(ctx).tree().has(node) && e == UnknownNode(node) && *final(ctx) == *old(ctx),
        },
        final(ctx).next_sync_key() == old(ctx).next_sync_key(),
        same_but_syncs(*old(ctx), *final(ctx)),
{
    let order = ctx.subtree_top_down(node)?;
    let ghost c0 = *ctx;
    let ghost s0 = ctx.syncs();
    let n = order.len();
    let mut i: usize = 0;
    proof {
        use_type_invariant(&*ctx);
        ctx.tree().lemma_walk_facts(node, false, false);
        assert forall|j: int| 0 <= j < order@.len() implies c0.tree().has(#[trigger] order@[j]) by {
            assert(order@.contains(order@[j]));
        }
    }
    while i < n
        invariant
            0 <= i <= n,
            n == order@.len(),
            order@ == c0.tree().top_down(node, false),
            forall|j: int| 0 <= j < order@.len() ==> c0.tree().has(#[trigger] order@[j]),
            same_but_syncs(c0, *ctx),
            ctx.next_sync_key() == c0.next_sync_key(),
            s0 == c0.syncs(),
            ctx.syncs().dom() == s0.dom(),
            forall|k: u64| #[trigger] ctx.syncs().contains_key(k) ==> ctx.syncs()[k] == s0[k].difference(
                ids_of(order@.take(i as int)),
            ),
        decreases n - i,
    {
        let key = order[i];
        proof {
            assert(order@.contains(key));
            assert(c0.tree().has(order@[i as int]));
        }
        let ghost before = ctx.syncs();
        match unsync(ctx, key) {
            Ok(()) => {},
            Err(_) => {
                return vstd::pervasive::unreached();
            },
        }
        proof {
            assert(ids_of(order@.take(i + 1)) =~= ids_of(order@.take(i as int)).insert(key.id())) by {
                assert(order@.take(i + 1) =~= order@.take(i as int).push(key));
                lemma_ids_of_push(order@.take(i as int), key);
            }
            assert forall|k: u64| #[trigger] ctx.syncs().contains_key(k) implies ctx.syncs()[k] == s0[k].difference(
                ids_of(order@.take(i + 1)),
            ) by {
                assert(ctx.syncs()[k] =~= s0[k].difference(ids_of(order@.take(i + 1))));
            }
        }
        i = i + 1;
    }
    proof {
        assert(order@.take(n as int) =~= order@);
    }
    Ok(())
}

proof fn lemma_ids_of_push(keys: Seq<ActionNodeKey>, key: ActionNodeKey)
    ensures
        ids_of(keys.push(key)) == ids_of(keys).insert(key.id()),
{
    let a = keys.push(key).map_values(|k: ActionNodeKey| k.id());
    let b = keys.map_values(|k: ActionNodeKey| k.id());
    assert(a =~= b.push(key.id()));
    assert forall|x: u64| a.to_set().contains(x) <==> b.to_set().insert(key.id()).contains(x) by {
        if a.to_set().contains(x) {
            let j = choose|j: int| 0 <= j < a.len() && a[j] == x;
            if j < b.len() {
                assert(b[j] == x);
            }
        }
        if b.to_set().contains(x) {
            let j = choose|j: int| 0 <= j < b.len() && b[j] == x;
            assert(a[j] == x);
        }
        if x == key.id() {
            assert(a[b.len() as int] == x);
        }
    }
    assert(a.to_set() =~= b.to_set().insert(key.id()));
}

/// The rewinds below `node` (and `node` itself, if it is one), last to
/// first in the order of a walk from `node`, as a rewind of `node` runs
/// them.
pub fn rewinds_to_run(ctx: &Context, node: ActionNodeKey, has_rewind: &HashSet<u64>) -> (res: Result<Vec<ActionNodeKey>, UnknownNode>)
    ensures
        match res {
            Ok(v) => ctx.tree().has(node) && v@ == ctx.tree().top_down(node, false).reverse().filter(
                |k: ActionNodeKey| has_rewind@.contains(k.id()),
            ),
            Err(e) => !ctx.tree().has(node) && e == UnknownNode(node),
        },
{
    let order = TreeOrder::new(ctx, node)?;
    let back = order.backward();
    let ghost pred = |k: ActionNodeKey| has_rewind@.contains(k.id());
    let mut res: Vec<ActionNodeKey> = Vec::new();
    let n = back.len();
    let mut i: usize = 0;
    while i < n
        invariant
            0 <= i <= n,
            n == back@.len(),
            back@ == ctx.tree().top_down(node, false).reverse(),
            pred == (|k: ActionNodeKey| has_rewind@.contains(k.id())),
            res@ == back@.take(i as int).filter(pred),
        decreases n - i,
    {
        let k = back[i];
        proof {
            assert(back@.take(i + 1).drop_last() =~= back@.take(i as int));
            reveal(Seq::filter);
        }
        if has_rewind.contains(&k.to_id()) {
            res.push(k);
        }
        i = i + 1;
    }
    proof {
        assert(back@.take(n as int) =~= back@);
    }
    Ok(res)
}

/// A write to a tracked value: the value's number, and whether only the
/// actions after the executing one rerun for it.
#[derive(Clone, Copy, PartialEq, Eq, Debug, Structural)]
pub struct TrackedWrite {
    pub value: u64,
    pub forward_only: bool,
}

/// An action and the numbers of the tracked values it read in its last run.
#[derive(Debug)]
pub struct Subscription {
    pub node: ActionNodeKey,
    pub values: Vec<u64>,
}

/// The values written by `writes` that are (or aren't) forward only.
pub open spec fn written(writes: Seq<TrackedWrite>, forward_only: bool) -> Set<u64> {
    Set::new(|v: u64| exists|i: int| 0 <= i < writes.len() && #[trigger] writes[i] == (TrackedWrite { value: v, forward_only }))
}

/// One of `values` is in `vs`.
pub open spec fn reads_any(values: Seq<u64>, vs: Set<u64>) -> bool {
    exists|j: int| 0 <= j < values.len() && vs.contains(#[trigger] values[j])
}

/// `m` isn't `root` and occurs in `order` after an occurrence of `root`.
pub open spec fn after_root(order: Seq<ActionNodeKey>, root: ActionNodeKey, m: ActionNodeKey) -> bool {
    &&& m != root
    &&& exists|i: int, p: int| #![trigger order[i], order[p]]
        0 <= i < p < order.len() && order[i] == root && order[p] == m
}

/// The actions a batch of writes marks for a rerun: those that read a value
/// written in full, and those after `root` in `order` that read a value
/// written forward only.
pub open spec fn affected(order: Seq<ActionNodeKey>, root: ActionNodeKey, subs: Seq<Subscription>, writes: Seq<TrackedWrite>) -> Set<u64> {
    Set::new(|x: u64| exists|i: int| 0 <= i < subs.len() && (#[trigger] subs[i]).node.id() == x && {
        ||| reads_any(subs[i].values@, written(writes, false))
        ||| reads_any(subs[i].values@, written(writes, true)) && after_root(order, root, subs[i].node)
    })
}

/// The values `writes` writes, those forward only or those in full.
fn written_values(writes: &Vec<TrackedWrite>, forward_only: bool) -> (res: HashSet<u64>)
    ensures
        res@ == written(writes@, forward_only),
{
    let mut res: HashSet<u64> = HashSet::new();
    let n = writes.len();
    let mut i: usize = 0;
    while i < n
        invariant
            0 <= i <= n,
            n == writes@.len(),
            res@ == written(writes@.take(i as int), forward_only),
        decreases n - i,
    {
        let w = writes[i];
        if w.forward_only == forward_only {
            res.insert(w.value);
        }
        proof {
            let before = writes@.take(i as int);
            let after = writes@.take(i + 1);
            assert forall|v: u64| res@.contains(v) <==> written(after, forward_only).contains(v) by {
                if written(after, forward_only).contains(v) {
                    let j = choose|j: int| 0 <= j < after.len() && #[trigger] after[j] == (TrackedWrite { value: v, forward_only });
                    if j < i {
                        assert(before[j] == after[j]);
                    }
                }
                if written(before, forward_only).contains(v) {
                    let j = choose|j: int| 0 <= j < before.len() && #[trigger] before[j] == (TrackedWrite { value: v, forward_only });
                    assert(after[j] == before[j]);
                }
                if w.forward_only == forward_only && v == w.value {
                    assert(after[i as int] == (TrackedWrite { value: v, forward_only }));
                }
            }
            assert(res@ =~= written(after, forward_only));
        }
        i = i + 1;
    }
    proof {
        assert(writes@.take(n as int) =~= writes@);
    }
    res
}

/// Whether one of `values` is in `vs`.
fn reads_any_of(values: &Vec<u64>, vs: &HashSet<u64>) -> (res: bool)
    ensures
        res == reads_any(values@, vs@),
{
    let n = values.len();
    let mut j: usize = 0;
    while j < n
        invariant
            0 <= j <= n,
            n == values@.len(),
            forall|l: int| 0 <= l < j ==> !vs@.contains(#[trigger] values@[l]),
        decreases n - j,
    {
        if vs.contains(&values[j]) {
            return true;
        }
        j = j + 1;
    }
    false
}

/// The numbers of the nodes after `root` in `order`, `root` left out.
fn ids_after_root(order: &TreeOrder, root: ActionNodeKey) -> (res: HashSet<u64>)
    ensures
        forall|m: ActionNodeKey| #[trigger] res@.contains(m.id()) <==> after_root(order@, root, m),
{
    let nodes = order.forward();
    let mut res: HashSet<u64> = HashSet::new();
    let mut is_forward = false;
    let ghost mut first: int = 0;
    let n = nodes.len();
    let mut p: usize = 0;
    while p < n
        invariant
            0 <= p <= n,
            n == nodes@.len(),
            nodes@ == order@,
            is_forward ==> 0 <= first < p && nodes@[first] == root,
            !is_forward ==> forall|i: int| 0 <= i < p ==> nodes@[i] != root,
            forall|m: ActionNodeKey| #[trigger] res@.contains(m.id()) <==> m != root && exists|i: int, q: int|
                #![trigger nodes@[i], nodes@[q]]
                0 <= i < q < p && nodes@[i] == root && nodes@[q] == m,
        decreases n - p,
    {
        let m = nodes[p];
        if m == root {
            if !is_forward {
                proof {
                    first = p as int;
                }
            }
            is_forward = true;
        } else if is_forward {
            res.insert(m.to_id());
        }
        proof {
            assert forall|m2: ActionNodeKey| #[trigger] res@.contains(m2.id()) <==> m2 != root && exists|i: int, q: int|
                #![trigger nodes@[i], nodes@[q]]
                0 <= i < q < p + 1 && nodes@[i] == root && nodes@[q] == m2 by {
                if m2 != root && exists|i: int, q: int| #![trigger nodes@[i], nodes@[q]]
                    0 <= i < q < p + 1 && nodes@[i] == root && nodes@[q] == m2 {
                    let (i, q) = choose|i: int, q: int| #![trigger nodes@[i], nodes@[q]]
                        0 <= i < q < p + 1 && nodes@[i] == root && nodes@[q] == m2;
                    if q == p {
                        assert(is_forward);
                        m.lemma_id_injective(m2);
                    }
                }
                if res@.contains(m2.id()) && m2.id() == m.id() && m != root && is_forward {
                    m.lemma_id_injective(m2);
                    assert(nodes@[first] == root && nodes@[p as int] == m2);
                }
            }
        }
        p = p + 1;
    }
    res
}

/// The actions that a batch of tracked writes marks for a rerun.
pub fn affected_nodes(
    order: &TreeOrder,
    execution_root: ActionNodeKey,
    subs: &Vec<Subscription>,
    writes: &Vec<TrackedWrite>,
) -> (res: HashSet<u64>)
    ensures
        res@ == affected(order@, execution_root, subs@, writes@),
{
    let full = written_values(writes, false);
    let forward = written_values(writes, true);
    let later = ids_after_root(order, execution_root);
    let mut res: HashSet<u64> = HashSet::new();
    let n = subs.len();
    let mut i: usize = 0;
    while i < n
        invariant
            0 <= i <= n,
            n == subs@.len(),
            full@ == written(writes@, false),
            forward@ == written(writes@, true),
            forall|m: ActionNodeKey| #[trigger] later@.contains(m.id()) <==> after_root(order@, execution_root, m),
            res@ == affected(order@, execution_root, subs@.take(i as int), writes@),
        decreases n - i,
    {
        let sub = &subs[i];
        let hit = reads_any_of(&sub.values, &full) || (later.contains(&sub.node.to_id()) && reads_any_of(
            &sub.values,
            &forward,
        ));
        if hit {
            res.insert(sub.node.to_id());
        }
        proof {
            let before = subs@.take(i as int);
            let after = subs@.take(i + 1);
            assert forall|x: u64| res@.contains(x) <==> affected(order@, execution_root, after, writes@).contains(x) by {
                if affected(order@, execution_root, after, writes@).contains(x) {
                    let j = choose|j: int| 0 <= j < after.len() && (#[trigger] after[j]).node.id() == x && {
                        ||| reads_any(after[j].values@, written(writes@, false))
                        ||| reads_any(after[j].values@, written(writes@, true)) && after_root(order@, execution_root, after[j].node)
                    };
                    if j < i {
                        assert(before[j] == after[j]);
                    } else {
                        assert(after[j] == *sub);
                    }
                }
                if affected(order@, execution_root, before, writes@).contains(x) {
                    let j = choose|j: int| 0 <= j < before.len() && (#[trigger] before[j]).node.id() == x && {
                        ||| reads_any(before[j].values@, written(writes@, false))
                        ||| reads_any(before[j].values@, written(writes@, true)) && after_root(order@, execution_root, before[j].node)
                    };
                    assert(after[j] == before[j]);
                }
                if hit && x == sub.node.id() {
                    assert(after[i as int] == *sub);
                }
            }
            assert(res@ =~= affected(order@, execution_root, after, writes@));
        }
        i = i + 1;
    }
    proof {
        assert(subs@.take(n as int) =~= subs@);
    }
    res
}

} // verus!
