//! The context: every resource of the library, in one place. Modules expose
//! their API as extension traits implemented for `Context`.

use std::collections::HashSet;

use vstd::prelude::*;

use crate::action_tree::{lemma_take_one_more, ActionNodeKey, ActionTree, UnknownNode};
use crate::collections::{action_map, actions_new, actions_remove, ActionSlots};
use crate::grouping::Groups;
use crate::tracking::ToNotify;

verus! {

broadcast use vstd::std_specs::hash::group_hash_axioms;

/// The resources whose consistency spans several of them: the tree and the
/// data kept per node.
pub(crate) struct Core {
    pub(crate) tree: ActionTree,
    pub(crate) groups: Groups,
    pub(crate) syncs: Groups,
    pub(crate) actions: ActionSlots,
}

impl Core {
    pub(crate) open(crate) spec fn wf(self) -> bool {
        &&& self.tree.wf()
        &&& self.groups.wf_in(self.tree)
        &&& self.syncs.wf_in(self.tree)
        &&& forall|k: ActionNodeKey| #[trigger]
            action_map(self.actions).contains_key(k) ==> self.tree.has(k)
    }

    pub(crate) fn new() -> (res: Self)
        ensures
            res.wf(),
            res.tree.keys() == Set::<ActionNodeKey>::empty(),
            res.groups.mv() == Map::<u64, Set<u64>>::empty(),
            res.groups.next_id == 0,
            res.syncs.mv() == Map::<u64, Set<u64>>::empty(),
            res.syncs.next_id == 0,
            action_map(res.actions).dom() == Set::<ActionNodeKey>::empty(),
    {
        let res = Core { tree: ActionTree::new(), groups: Groups::new(), syncs: Groups::new(), actions: actions_new() };
        proof {
            res.groups.lemma_empty_wf(res.tree);
            res.syncs.lemma_empty_wf(res.tree);
            assert(action_map(res.actions).dom() =~= Set::<ActionNodeKey>::empty());
        }
        res
    }

    /// Adds a node to the tree under `parent`, or a root.
    pub(crate) fn insert_node(&mut self, parent: Option<ActionNodeKey>) -> (res: ActionNodeKey)
        requires
            old(self).wf(),
            old(self).tree.has_room(),
            parent matches Some(p) ==> old(self).tree.has(p),
        ensures
            final(self).wf(),
            !old(self).tree.has(res),
            final(self).tree.keys() == old(self).tree.keys().insert(res),
            final(self).tree.keys().len() == old(self).tree.keys().len() + 1,
            final(self).tree.parent_of(res) == parent,
            final(self).tree.children_of(res).len() == 0,
            forall|k: ActionNodeKey| #[trigger]
                old(self).tree.has(k) ==> final(self).tree.parent_of(k) == old(self).tree.parent_of(k),
            forall|k: ActionNodeKey| #[trigger]
                old(self).tree.has(k) && Some(k) != parent ==> final(self).tree.children_of(k)
                    == old(self).tree.children_of(k),
            parent matches Some(p) ==> final(self).tree.children_of(p) == old(self).tree.children_of(
                p,
            ).push(res),
            final(self).groups == old(self).groups,
            final(self).syncs == old(self).syncs,
            final(self).actions == old(self).actions,
    {
        let ghost t0 = self.tree;
        let key = self.tree.insert(parent);
        proof {
            t0.lemma_keys();
            self.groups.lemma_wf_grow(t0, self.tree);
            self.syncs.lemma_wf_grow(t0, self.tree);
        }
        key
    }

    /// Drops the stored actions of `keys`, which are nodes of `t`.
    fn remove_actions(&mut self, Ghost(t): Ghost<ActionTree>, keys: &Vec<ActionNodeKey>)
        requires
            t.wf(),
            forall|i: int| 0 <= i < keys@.len() ==> t.has(#[trigger] keys@[i]),
        ensures
            final(self).tree == old(self).tree,
            final(self).groups == old(self).groups,
            final(self).syncs == old(self).syncs,
            action_map(final(self).actions).dom() == action_map(old(self).actions).dom().difference(keys@.to_set()),
    {
        let ghost d0 = action_map(self.actions).dom();
        proof {
            t.lemma_keys();
        }
        let n = keys.len();
        let mut i: usize = 0;
        while i < n
            invariant
                0 <= i <= n,
                n == keys@.len(),
                t.wf(),
                forall|j: int| 0 <= j < keys@.len() ==> t.has(#[trigger] keys@[j]),
                forall|k: ActionNodeKey| #[trigger] t.has(k) ==> k.wf(),
                self.tree == old(self).tree,
                self.groups == old(self).groups,
                self.syncs == old(self).syncs,
                d0 == action_map(old(self).actions).dom(),
                action_map(self.actions).dom() == d0.difference(keys@.take(i as int).to_set()),
            decreases n - i,
        {
            let key = keys[i];
            proof {
                assert(t.has(keys@[i as int]));
            }
            let _ = actions_remove(&mut self.actions, key);
            proof {
                lemma_take_one_more(keys@, i as int, key);
                assert(action_map(self.actions).dom() =~= d0.difference(keys@.take(i + 1).to_set()));
            }
            i = i + 1;
        }
        proof {
            assert(keys@.take(n as int) =~= keys@);
        }
    }

    /// Removes every descendant of `key`, returning the removed keys bottom
    /// up. The removed nodes leave their groups and lose their actions.
    pub(crate) fn remove_descendants(&mut self, key: ActionNodeKey) -> (res: Result<Vec<ActionNodeKey>, UnknownNode>)
        requires
            old(self).wf(),
        ensures
            final(self).wf(),
            match res {
                Ok(removed) => {
                    &&& old(self).tree.has(key)
                    &&& removed@ == old(self).tree.bottom_up(key, false).drop_last()
                    &&& final(self).tree.removed_from(old(self).tree, removed@.to_set(), key)
                    &&& final(self).tree.has(key)
                    &&& final(self).tree.children_of(key).len() == 0
                    &&& final(self).groups.mv().dom() == old(self).groups.mv().dom()
                    &&& forall|g: u64| #[trigger] final(self).groups.mv().contains_key(g) ==> final(self).groups.mv()[g]
                        == old(self).groups.mv()[g].difference(removed@.map_values(|k: ActionNodeKey| k.id()).to_set())
                    &&& final(self).syncs.mv().dom() == old(self).syncs.mv().dom()
                    &&& forall|g: u64| #[trigger] final(self).syncs.mv().contains_key(g) ==> final(self).syncs.mv()[g]
                        == old(self).syncs.mv()[g].difference(removed@.map_values(|k: ActionNodeKey| k.id()).to_set())
                    &&& final(self).syncs.next_id == old(self).syncs.next_id
                    &&& final(self).groups.next_id == old(self).groups.next_id
                    &&& action_map(final(self).actions).dom() == action_map(old(self).actions).dom().difference(removed@.to_set())
                    &&& final(self).tree.keys().len() <= old(self).tree.keys().len()
                },
                Err(e) => !old(self).tree.has(key) && e == UnknownNode(key) && *final(self) == *old(self),
            },
    {
        let ghost t0 = self.tree;
        let removed = self.tree.remove_descendants(key)?;
        proof {
            t0.lemma_walk_facts(key, false, true);
            assert forall|i: int| 0 <= i < removed@.len() implies t0.has(#[trigger] removed@[i]) by {
                assert(t0.bottom_up(key, false).contains(removed@[i]));
            }
        }
        self.groups.remove_nodes(Ghost(t0), Ghost(self.tree), &removed);
        self.syncs.remove_nodes(Ghost(t0), Ghost(self.tree), &removed);
        self.remove_actions(Ghost(t0), &removed);
        proof {
            assert forall|k: ActionNodeKey| #[trigger] action_map(self.actions).contains_key(k) implies self.tree.has(k) by {
                assert(t0.has(k));
            }
            t0.lemma_keys();
            vstd::set_lib::lemma_len_subset(self.tree.keys(), t0.keys());
        }
        Ok(removed)
    }

    /// Removes `key` and its descendants, returning the removed keys bottom
    /// up. The removed nodes leave their groups and lose their actions.
    pub(crate) fn remove_branch(&mut self, key: ActionNodeKey) -> (res: Result<Vec<ActionNodeKey>, UnknownNode>)
        requires
            old(self).wf(),
        ensures
            final(self).wf(),
            match res {
                Ok(removed) => {
                    &&& old(self).tree.has(key)
                    &&& removed@ == old(self).tree.bottom_up(key, false)
                    &&& final(self).tree.keys() == old(self).tree.keys().difference(removed@.to_set())
                    &&& forall|k: ActionNodeKey| #[trigger]
                        final(self).tree.has(k) ==> final(self).tree.parent_of(k) == old(self).tree.parent_of(k)
                    &&& forall|k: ActionNodeKey| #[trigger]
                        final(self).tree.has(k) && Some(k) != old(self).tree.parent_of(key) ==> final(self).tree.children_of(k)
                            == old(self).tree.children_of(k)
                    &&& old(self).tree.parent_of(key) matches Some(p) ==> final(self).tree.children_of(p)
                        == old(self).tree.children_of(p).remove(old(self).tree.children_of(p).index_of(key))
                    &&& final(self).groups.mv().dom() == old(self).groups.mv().dom()
                    &&& forall|g: u64| #[trigger] final(self).groups.mv().contains_key(g) ==> final(self).groups.mv()[g]
                        == old(self).groups.mv()[g].difference(removed@.map_values(|k: ActionNodeKey| k.id()).to_set())
                    &&& final(self).syncs.mv().dom() == old(self).syncs.mv().dom()
                    &&& forall|g: u64| #[trigger] final(self).syncs.mv().contains_key(g) ==> final(self).syncs.mv()[g]
                        == old(self).syncs.mv()[g].difference(removed@.map_values(|k: ActionNodeKey| k.id()).to_set())
                    &&& final(self).syncs.next_id == old(self).syncs.next_id
                    &&& final(self).groups.next_id == old(self).groups.next_id
                    &&& action_map(final(self).actions).dom() == action_map(old(self).actions).dom().difference(removed@.to_set())
                    &&& final(self).tree.keys().len() <= old(self).tree.keys().len()
                },
                Err(e) => !old(self).tree.has(key) && e == UnknownNode(key) && *final(self) == *old(self),
            },
    {
        let ghost t0 = self.tree;
        let removed = self.tree.remove_branch(key)?;
        proof {
            t0.lemma_walk_facts(key, false, true);
            assert forall|i: int| 0 <= i < removed@.len() implies t0.has(#[trigger] removed@[i]) by {
                assert(t0.bottom_up(key, false).contains(removed@[i]));
            }
        }
        self.groups.remove_nodes(Ghost(t0), Ghost(self.tree), &removed);
        self.syncs.remove_nodes(Ghost(t0), Ghost(self.tree), &removed);
        self.remove_actions(Ghost(t0), &removed);
        proof {
            assert forall|k: ActionNodeKey| #[trigger] action_map(self.actions).contains_key(k) implies self.tree.has(k) by {
                assert(t0.has(k));
            }
            t0.lemma_keys();
            vstd::set_lib::lemma_len_subset(self.tree.keys(), t0.keys());
        }
        Ok(removed)
    }
}

/// Everything caaqi keeps: the action tree, the executing action, groups,
/// tracking and stored actions.
///
/// Values survive reruns and descendant removal.
pub struct Context {
    pub(crate) core: Core,
    pub(crate) current: Option<ActionNodeKey>,
    pub(crate) to_notify: ToNotify,
    /// The numbers of the nodes that store a rewind: an undo that a rewind
    /// of an action above runs.
    pub(crate) rewinds: HashSet<u64>,
    /// The actions the last notification or round of a tracked run reran,
    /// in the order it ran them.
    pub(crate) reruns: Ghost<Seq<ActionNodeKey>>,
    /// The node of the last tracked run, and the tree right after its first
    /// run.
    pub(crate) tracked_run: Ghost<(ActionNodeKey, ActionTree)>,
}

impl Context {
    #[verifier::type_invariant]
    pub(crate) open(crate) spec fn inv(self) -> bool {
        self.core.wf()
    }

    /// The action tree.
    pub open(crate) spec fn tree(self) -> ActionTree {
        self.core.tree
    }

    /// The executing action, if any.
    pub open(crate) spec fn current(self) -> Option<ActionNodeKey> {
        self.current
    }

    /// Each group with the numbers of its members.
    pub open(crate) spec fn groups(self) -> Map<u64, Set<u64>> {
        self.core.groups.mv()
    }

    /// The number the next group gets.
    pub open(crate) spec fn next_group_id(self) -> u64 {
        self.core.groups.next_id
    }

    /// Each sync key with the numbers of the actions synced with it.
    pub open(crate) spec fn syncs(self) -> Map<u64, Set<u64>> {
        self.core.syncs.mv()
    }

    /// The number the next sync key gets.
    pub open(crate) spec fn next_sync_key(self) -> u64 {
        self.core.syncs.next_id
    }

    /// The nodes that store an action.
    pub open(crate) spec fn stored(self) -> Set<ActionNodeKey> {
        action_map(self.core.actions).dom()
    }

    /// The numbers of the nodes that store a rewind.
    pub open(crate) spec fn rewind_ids(self) -> Set<u64> {
        self.rewinds@
    }

    /// The actions the last notification (or round of a tracked run) reran,
    /// in order.
    pub open(crate) spec fn rerun_keys(self) -> Seq<ActionNodeKey> {
        self.reruns@
    }

    /// The node of the last tracked run.
    pub open(crate) spec fn tracked_node(self) -> ActionNodeKey {
        self.tracked_run@.0
    }

    /// The tree right after the first run of the node of the last tracked
    /// run: the one whose subtree that run settles.
    pub open(crate) spec fn tracked_tree(self) -> ActionTree {
        self.tracked_run@.1
    }

    /// The tracking ids waiting to be notified.
    pub open(crate) spec fn queued(self) -> Set<u64> {
        self.to_notify.view()
    }

    /// Room for one more node.
    pub open(crate) spec fn has_room(self) -> bool {
        self.core.tree.has_room()
    }

    /// An empty context: no nodes, no groups, nothing executing.
    pub fn new() -> (res: Self)
        ensures
            res.tree().keys() == Set::<ActionNodeKey>::empty(),
            res.current() == None::<ActionNodeKey>,
            res.groups() == Map::<u64, Set<u64>>::empty(),
            res.syncs() == Map::<u64, Set<u64>>::empty(),
            res.next_group_id() == 0,
            res.next_sync_key() == 0,
            res.has_room(),
            res.stored() == Set::<ActionNodeKey>::empty(),
            res.queued() == Set::<u64>::empty(),
            res.rewind_ids() == Set::<u64>::empty(),
    {
        Context {
            core: Core::new(),
            current: None,
            to_notify: ToNotify::new(),
            rewinds: HashSet::new(),
            reruns: Ghost(Seq::empty()),
            tracked_run: Ghost(vstd::pervasive::arbitrary()),
        }
    }

    /// Records `key` as a node that stores a rewind.
    pub(crate) fn mark_rewind_node(&mut self, key: ActionNodeKey)
        ensures
            final(self).core == old(self).core,
            final(self).current == old(self).current,
            final(self).to_notify == old(self).to_notify,
            final(self).rewind_ids() == old(self).rewind_ids().insert(key.id()),
    {
        proof {
            use_type_invariant(&*self);
        }
        let mut rewinds: HashSet<u64> = HashSet::new();
        std::mem::swap(&mut rewinds, &mut self.rewinds);
        rewinds.insert(key.to_id());
        self.rewinds = rewinds;
    }

    /// Records `ran` as the actions the last notification reran.
    pub(crate) fn note_reruns(&mut self, ran: Ghost<Seq<ActionNodeKey>>)
        ensures
            final(self).core == old(self).core,
            final(self).current == old(self).current,
            final(self).to_notify == old(self).to_notify,
            final(self).rewinds == old(self).rewinds,
            final(self).tracked_run == old(self).tracked_run,
            final(self).rerun_keys() == ran@,
    {
        proof {
            use_type_invariant(&*self);
        }
        self.reruns = ran;
    }

    /// Records `node` as the node of the last tracked run, and `tree` as
    /// the tree right after its first run.
    pub(crate) fn note_tracked_run(&mut self, node: ActionNodeKey, tree: Ghost<ActionTree>)
        ensures
            final(self).core == old(self).core,
            final(self).current == old(self).current,
            final(self).to_notify == old(self).to_notify,
            final(self).rewinds == old(self).rewinds,
            final(self).reruns == old(self).reruns,
            final(self).tracked_node() == node,
            final(self).tracked_tree() == tree@,
    {
        proof {
            use_type_invariant(&*self);
        }
        self.tracked_run = Ghost((node, tree@));
    }

    /// Sets the executing action.
    pub(crate) fn set_current(&mut self, current: Option<ActionNodeKey>)
        ensures
            final(self).current == current,
            final(self).core == old(self).core,
            final(self).to_notify == old(self).to_notify,
            final(self).rewinds == old(self).rewinds,
    {
        proof {
            use_type_invariant(&*self);
        }
        self.current = current;
    }
}

} // verus!
