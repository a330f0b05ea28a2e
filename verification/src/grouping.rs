//! Groups: sets of action nodes, each identified by a [`GroupId`].

use std::collections::{HashMap, HashSet};

use vstd::prelude::*;
use vstd::std_specs::iter::IteratorSpec;

use crate::action_tree::{id_is_key, lemma_take_one_more, same_resources, ActionNodeKey, ActionTree, UnknownNode};
use crate::context::{Context, Core};
use crate::collections::{
    membership_map, memberships_get, memberships_insert, memberships_new, memberships_remove,
    MembershipSlots,
};

verus! {

broadcast use vstd::std_specs::hash::group_hash_axioms;

/// Identifies a group.
#[derive(Clone, Copy, PartialEq, Eq, Hash, Debug, Structural)]
pub struct GroupId(pub(crate) u64);

impl GroupId {
    /// The group as a number, unique among the groups of a context.
    pub open(crate) spec fn id(self) -> u64 {
        self.0
    }
}

/// `group` doesn't exist.
#[derive(Clone, Copy, PartialEq, Eq, Debug, Structural)]
pub struct UnknownGroup(pub GroupId);

#[derive(Clone, Copy, PartialEq, Eq, Debug, Structural)]
pub enum AddToGroupError {
    UnknownGroup(UnknownGroup),
    UnknownNode(UnknownNode),
}

#[derive(Clone, Copy, PartialEq, Eq, Debug, Structural)]
pub enum GroupContainsError {
    UnknownGroup(UnknownGroup),
    UnknownNode(UnknownNode),
}

#[derive(Clone, Copy, PartialEq, Eq, Debug, Structural)]
pub enum RemoveFromGroupError {
    UnknownGroup(UnknownGroup),
    UnknownNode(UnknownNode),
}

/// The elements of `s`, each once, in no particular order.
pub(crate) fn set_to_vec(s: &HashSet<u64>) -> (v: Vec<u64>)
    ensures
        v@.to_set() == s@,
        v@.no_duplicates(),
{
    let mut v: Vec<u64> = Vec::new();
    let ghost keys = vstd::std_specs::hash::spec_hash_keys_iter(s).remaining();
    for x in it: s.iter()
        invariant
            v@ == keys.take(it.index() as int).unref(),
            it.seq() == keys,
    {
        v.push(*x);
        proof {
            assert(x == keys[it.index() as int]);
            assert(keys.take(it.index() + 1).unref() =~= keys.take(it.index() as int).unref().push(
                *x,
            ));
        }
    }
    proof {
        assert(v@.len() == keys.len());
        assert(keys.take(keys.len() as int) =~= keys);
    }
    v
}

/// The grouping resource.
///
/// Membership is stored both ways so a removed node can leave all its groups
/// without scanning every group. Nodes leave their groups when they are
/// removed from the tree.
pub struct Groups {
    pub(crate) members: HashMap<u64, HashSet<u64>>,
    pub(crate) memberships: MembershipSlots,
    pub(crate) next_id: u64,
}

impl Groups {
    /// Each group with the numbers of its members.
    pub open(crate) spec fn mv(self) -> Map<u64, Set<u64>> {
        Map::new(|g: u64| self.members@.contains_key(g), |g: u64| self.members@[g]@)
    }

    /// Each node that belongs to a group, with the numbers of its groups.
    pub open(crate) spec fn ms(self) -> Map<ActionNodeKey, Set<u64>> {
        Map::new(
            |k: ActionNodeKey| membership_map(self.memberships).contains_key(k),
            |k: ActionNodeKey| membership_map(self.memberships)[k]@,
        )
    }

    /// Both directions of membership mirror each other, members are nodes
    /// of `t`, and no node keeps an empty set of groups.
    pub(crate) open(crate) spec fn wf_in(self, t: ActionTree) -> bool {
        let mv = self.mv();
        let ms = self.ms();
        &&& forall|g: u64| #[trigger] mv.contains_key(g) ==> g < self.next_id
        &&& forall|g: u64, x: u64|
            mv.contains_key(g) && #[trigger] mv[g].contains(x) ==> {
                &&& id_is_key(x)
                &&& ms.contains_key(ActionNodeKey::with_id(x))
                &&& ms[ActionNodeKey::with_id(x)].contains(g)
            }
        &&& forall|k: ActionNodeKey| #[trigger]
            ms.contains_key(k) ==> t.has(k) && !ms[k].is_empty()
        &&& forall|k: ActionNodeKey, g: u64|
            ms.contains_key(k) && #[trigger] ms[k].contains(g) ==> {
                &&& mv.contains_key(g)
                &&& mv[g].contains(k.id())
            }
    }

    pub(crate) fn new() -> (res: Self)
        ensures
            res.mv() == Map::<u64, Set<u64>>::empty(),
            res.ms() == Map::<ActionNodeKey, Set<u64>>::empty(),
            res.next_id == 0,
    {
        let res = Groups { members: HashMap::new(), memberships: memberships_new(), next_id: 0 };
        assert(res.mv() =~= Map::<u64, Set<u64>>::empty());
        assert(res.ms() =~= Map::<ActionNodeKey, Set<u64>>::empty());
        res
    }


    /// Adds `g` to the groups of `key`.
    fn add_group_of(&mut self, Ghost(t): Ghost<ActionTree>, key: ActionNodeKey, g: u64)
        requires
            t.wf(),
            t.has(key),
            forall|k: ActionNodeKey| #[trigger] old(self).ms().contains_key(k) ==> t.has(k),
        ensures
            final(self).members == old(self).members,
            final(self).next_id == old(self).next_id,
            final(self).ms() == old(self).ms().insert(
                key,
                if old(self).ms().contains_key(key) {
                    old(self).ms()[key].insert(g)
                } else {
                    Set::empty().insert(g)
                },
            ),
    {
        proof {
            t.lemma_keys();
        }
        let mut gs = match memberships_remove(&mut self.memberships, key) {
            Some(gs) => gs,
            None => HashSet::new(),
        };
        gs.insert(g);
        proof {
            assert forall|k: ActionNodeKey| #[trigger]
                membership_map(self.memberships).contains_key(k) && k.idx() == key.idx() implies k == key by {
                assert(old(self).ms().contains_key(k));
            }
        }
        let _ = memberships_insert(&mut self.memberships, key, gs);
        proof {
            assert(self.ms() =~= old(self).ms().insert(
                key,
                if old(self).ms().contains_key(key) {
                    old(self).ms()[key].insert(g)
                } else {
                    Set::empty().insert(g)
                },
            ));
        }
    }

    /// Removes `g` from the groups of `key`, which has it, dropping the set
    /// once it's empty.
    fn remove_group_of(&mut self, Ghost(t): Ghost<ActionTree>, key: ActionNodeKey, g: u64)
        requires
            t.wf(),
            t.has(key),
            forall|k: ActionNodeKey| #[trigger] old(self).ms().contains_key(k) ==> t.has(k),
            old(self).ms().contains_key(key),
        ensures
            final(self).members == old(self).members,
            final(self).next_id == old(self).next_id,
            final(self).ms() == if old(self).ms()[key].remove(g).is_empty() {
                old(self).ms().remove(key)
            } else {
                old(self).ms().insert(key, old(self).ms()[key].remove(g))
            },
    {
        proof {
            t.lemma_keys();
        }
        let mut gs = memberships_remove(&mut self.memberships, key).unwrap();
        gs.remove(&g);
        if gs.is_empty() {
            proof {
                assert(self.ms() =~= old(self).ms().remove(key));
            }
        } else {
            proof {
                assert forall|k: ActionNodeKey| #[trigger]
                    membership_map(self.memberships).contains_key(k) && k.idx() == key.idx() implies k == key by {
                    assert(old(self).ms().contains_key(k));
                }
            }
            let _ = memberships_insert(&mut self.memberships, key, gs);
            proof {
                assert(self.ms() =~= old(self).ms().insert(key, old(self).ms()[key].remove(g)));
            }
        }
    }

    /// Adds `key` to group `g` in both directions. Returns `Ok(false)` if it
    /// was already a member.
    pub(crate) fn add_membership(&mut self, Ghost(t): Ghost<ActionTree>, g: u64, key: ActionNodeKey) -> (res: Result<bool, UnknownGroup>)
        requires
            old(self).wf_in(t),
            t.wf(),
            t.has(key),
        ensures
            final(self).wf_in(t),
            final(self).next_id == old(self).next_id,
            match res {
                Ok(added) => {
                    &&& old(self).mv().contains_key(g)
                    &&& added == !old(self).mv()[g].contains(key.id())
                    &&& final(self).mv() == old(self).mv().insert(g, old(self).mv()[g].insert(key.id()))
                },
                Err(e) => !old(self).mv().contains_key(g) && e == UnknownGroup(GroupId(g))
                    && final(self).mv() == old(self).mv() && final(self).ms() == old(self).ms(),
            },
    {
        let ghost mv0 = self.mv();
        let ghost ms0 = self.ms();
        proof {
            use_type_invariant(key);
        }
        match self.members.remove(&g) {
            None => {
                proof {
                    assert(self.mv() =~= mv0);
                }
                Err(UnknownGroup(GroupId(g)))
            },
            Some(mut set) => {
                let added = set.insert(key.to_id());
                self.members.insert(g, set);
                proof {
                    assert(self.mv() =~= mv0.insert(g, mv0[g].insert(key.id())));
                }
                if added {
                    self.add_group_of(Ghost(t), key, g);
                }
                proof {
                    let mv = self.mv();
                    let ms = self.ms();
                    assert forall|h: u64, x: u64| mv.contains_key(h) && #[trigger] mv[h].contains(x) implies {
                        &&& id_is_key(x)
                        &&& ms.contains_key(ActionNodeKey::with_id(x))
                        &&& ms[ActionNodeKey::with_id(x)].contains(h)
                    } by {
                        if h == g && x == key.id() {
                            assert(ActionNodeKey::with_id(x) == key);
                        } else {
                            assert(mv0[h].contains(x));
                        }
                    }
                    assert forall|k: ActionNodeKey, h: u64| ms.contains_key(k) && #[trigger] ms[k].contains(h) implies {
                        &&& mv.contains_key(h)
                        &&& mv[h].contains(k.id())
                    } by {
                        if !(k == key && h == g) {
                            assert(ms0[k].contains(h));
                        }
                    }
                    assert forall|h: u64| #[trigger] mv.contains_key(h) implies h < self.next_id by {
                        assert(mv0.contains_key(h));
                    }
                }
                Ok(added)
            },
        }
    }

    /// Removes `key` from group `g` in both directions. Returns `Ok(false)`
    /// if it wasn't a member.
    pub(crate) fn remove_membership(&mut self, Ghost(t): Ghost<ActionTree>, g: u64, key: ActionNodeKey) -> (res: Result<bool, UnknownGroup>)
        requires
            old(self).wf_in(t),
            t.wf(),
            t.has(key),
        ensures
            final(self).wf_in(t),
            final(self).next_id == old(self).next_id,
            match res {
                Ok(removed) => {
                    &&& old(self).mv().contains_key(g)
                    &&& removed == old(self).mv()[g].contains(key.id())
                    &&& final(self).mv() == old(self).mv().insert(g, old(self).mv()[g].remove(key.id()))
                    &&& final(self).ms().dom() == if old(self).ms().contains_key(key) && old(self).ms()[key].remove(g).is_empty() {
                        old(self).ms().dom().remove(key)
                    } else {
                        old(self).ms().dom()
                    }
                    &&& final(self).ms().contains_key(key) ==> final(self).ms()[key] == old(self).ms()[key].remove(g)
                    &&& forall|k: ActionNodeKey| #[trigger] final(self).ms().contains_key(k) && k != key
                        ==> final(self).ms()[k] == old(self).ms()[k]
                },
                Err(e) => !old(self).mv().contains_key(g) && e == UnknownGroup(GroupId(g))
                    && final(self).mv() == old(self).mv() && final(self).ms() == old(self).ms(),
            },
    {
        let ghost mv0 = self.mv();
        let ghost ms0 = self.ms();
        proof {
            use_type_invariant(key);
        }
        match self.members.remove(&g) {
            None => {
                proof {
                    assert(self.mv() =~= mv0);
                }
                Err(UnknownGroup(GroupId(g)))
            },
            Some(mut set) => {
                let removed = set.remove(&key.to_id());
                self.members.insert(g, set);
                proof {
                    assert(self.mv() =~= mv0.insert(g, mv0[g].remove(key.id())));
                }
                if removed {
                    proof {
                        use_type_invariant(key);
                        assert(ActionNodeKey::with_id(key.id()) == key);
                        assert(ms0.contains_key(key));
                    }
                    self.remove_group_of(Ghost(t), key, g);
                } else {
                    proof {
                        if ms0.contains_key(key) {
                            assert(!ms0[key].contains(g));
                            assert(ms0[key].remove(g) =~= ms0[key]);
                        }
                    }
                }
                proof {
                    let mv = self.mv();
                    let ms = self.ms();
                    assert forall|h: u64, x: u64| mv.contains_key(h) && #[trigger] mv[h].contains(x) implies {
                        &&& id_is_key(x)
                        &&& ms.contains_key(ActionNodeKey::with_id(x))
                        &&& ms[ActionNodeKey::with_id(x)].contains(h)
                    } by {
                        assert(mv0[h].contains(x));
                        if ActionNodeKey::with_id(x) == key {
                            assert(x == key.id());
                        }
                    }
                    assert forall|k: ActionNodeKey, h: u64| ms.contains_key(k) && #[trigger] ms[k].contains(h) implies {
                        &&& mv.contains_key(h)
                        &&& mv[h].contains(k.id())
                    } by {
                        assert(ms0[k].contains(h));
                    }
                    assert forall|h: u64| #[trigger] mv.contains_key(h) implies h < self.next_id by {
                        assert(mv0.contains_key(h));
                    }
                }
                Ok(removed)
            },
        }
    }


    /// Creates an empty group.
    pub(crate) fn create(&mut self, Ghost(t): Ghost<ActionTree>) -> (res: u64)
        requires
            old(self).wf_in(t),
            old(self).next_id < u64::MAX,
        ensures
            final(self).wf_in(t),
            final(self).next_id == old(self).next_id + 1,
            !old(self).mv().contains_key(res),
            final(self).mv() == old(self).mv().insert(res, Set::empty()),
            final(self).ms() == old(self).ms(),
    {
        let g = self.next_id;
        self.next_id = self.next_id + 1;
        let ghost mv0 = self.mv();
        assert(mv0 == old(self).mv());
        assert(self.ms() == old(self).ms());
        self.members.insert(g, HashSet::new());
        proof {
            assert(self.mv() =~= mv0.insert(g, Set::empty()));
            let mv = self.mv();
            assert forall|h: u64, x: u64| mv.contains_key(h) && #[trigger] mv[h].contains(x) implies {
                &&& id_is_key(x)
                &&& self.ms().contains_key(ActionNodeKey::with_id(x))
                &&& self.ms()[ActionNodeKey::with_id(x)].contains(h)
            } by {
                assert(h != g);
                assert(mv0[h].contains(x));
            }
            assert forall|k: ActionNodeKey, h: u64| self.ms().contains_key(k) && #[trigger] self.ms()[k].contains(h) implies {
                &&& mv.contains_key(h)
                &&& mv[h].contains(k.id())
            } by {
                assert(mv0.contains_key(h));
            }
        }
        g
    }

    /// Removes group `g`, returning the numbers of its members.
    pub(crate) fn remove_group(&mut self, Ghost(t): Ghost<ActionTree>, g: u64) -> (res: Option<Vec<u64>>)
        requires
            old(self).wf_in(t),
            t.wf(),
        ensures
            final(self).wf_in(t),
            final(self).next_id == old(self).next_id,
            match res {
                Some(v) => {
                    &&& old(self).mv().contains_key(g)
                    &&& v@.to_set() == old(self).mv()[g]
                    &&& v@.no_duplicates()
                    &&& final(self).mv() == old(self).mv().remove(g)
                },
                None => !old(self).mv().contains_key(g) && final(self).mv() == old(self).mv()
                    && final(self).ms() == old(self).ms(),
            },
    {
        let ghost mv0 = self.mv();
        let ghost ms0 = self.ms();
        let set = match self.members.remove(&g) {
            None => {
                proof {
                    assert(self.mv() =~= mv0);
                }
                return None;
            },
            Some(set) => set,
        };
        proof {
            assert(self.mv() =~= mv0.remove(g));
        }
        let ids = set_to_vec(&set);
        let n = ids.len();
        let mut i: usize = 0;
        while i < n
            invariant
                0 <= i <= n,
                n == ids@.len(),
                ids@.to_set() == mv0[g],
                ids@.no_duplicates(),
                mv0.contains_key(g),
                old(self).wf_in(t),
                t.wf(),
                mv0 == old(self).mv(),
                ms0 == old(self).ms(),
                self.mv() == mv0.remove(g),
                self.next_id == old(self).next_id,
                forall|k: ActionNodeKey| #[trigger] self.ms().contains_key(k) ==> ms0.contains_key(k),
                forall|k: ActionNodeKey| #[trigger] ms0.contains_key(k) ==> (self.ms().contains_key(k) <==> !(ids@.take(i as int).contains(k.id()) && ms0[k].remove(g).is_empty())),
                forall|k: ActionNodeKey| #[trigger] self.ms().contains_key(k) ==> self.ms()[k] == if ids@.take(i as int).contains(k.id()) { ms0[k].remove(g) } else { ms0[k] },
            decreases n - i,
        {
            let id = ids[i];
            proof {
                assert(mv0[g].contains(id)) by {
                    assert(ids@.contains(ids@[i as int]));
                }
                assert(ms0.contains_key(ActionNodeKey::with_id(id)));
                assert(!ids@.take(i as int).contains(id)) by {
                    if ids@.take(i as int).contains(id) {
                        let j = choose|j: int| 0 <= j < i && ids@.take(i as int)[j] == id;
                        assert(ids@[j] == ids@[i as int]);
                    }
                }
                assert(self.ms().contains_key(ActionNodeKey::with_id(id)));
            }
            let key = ActionNodeKey::from_id(id);
            let ghost before = self.ms();
            self.remove_group_of(Ghost(t), key, g);
            proof {
                assert(before[key] == ms0[key]);
                assert forall|k: ActionNodeKey| #[trigger] ms0.contains_key(k) implies (self.ms().contains_key(k) <==> !(ids@.take(i + 1).contains(k.id()) && ms0[k].remove(g).is_empty())) by {
                    lemma_take_one_more(ids@, i as int, k.id());
                    k.lemma_with_id();
                    if k != key {
                        assert(k.id() != id);
                        assert(self.ms().contains_key(k) == before.contains_key(k));
                    }
                }
                assert forall|k: ActionNodeKey| #[trigger] self.ms().contains_key(k) implies self.ms()[k] == if ids@.take(i + 1).contains(k.id()) { ms0[k].remove(g) } else { ms0[k] } by {
                    lemma_take_one_more(ids@, i as int, k.id());
                    k.lemma_with_id();
                    if k != key {
                        assert(k.id() != id);
                        assert(before.contains_key(k));
                        assert(self.ms()[k] == before[k]);
                    }
                }
            }
            i = i + 1;
        }
        proof {
            assert(ids@.take(n as int) =~= ids@);
            let mv = self.mv();
            let ms = self.ms();
            assert forall|k: ActionNodeKey| ms0.contains_key(k) && #[trigger] ms0[k].contains(g) implies ids@.contains(k.id()) by {
                assert(mv0[g].contains(k.id()));
                assert(ids@.to_set().contains(k.id()));
            }
            assert forall|h: u64, x: u64| mv.contains_key(h) && #[trigger] mv[h].contains(x) implies {
                &&& id_is_key(x)
                &&& ms.contains_key(ActionNodeKey::with_id(x))
                &&& ms[ActionNodeKey::with_id(x)].contains(h)
            } by {
                assert(mv0[h].contains(x));
                let k = ActionNodeKey::with_id(x);
                assert(ms0[k].contains(h));
                assert(ms0[k].remove(g).contains(h));
            }
            assert forall|k: ActionNodeKey, h: u64| ms.contains_key(k) && #[trigger] ms[k].contains(h) implies {
                &&& mv.contains_key(h)
                &&& mv[h].contains(k.id())
            } by {
                assert(ms0[k].contains(h));
                if h == g {
                    assert(ids@.contains(k.id()));
                }
            }
            assert forall|k: ActionNodeKey| #[trigger] ms.contains_key(k) implies t.has(k) && !ms[k].is_empty() by {
                if ids@.contains(k.id()) {
                    assert(!ms0[k].remove(g).is_empty());
                }
            }
            assert forall|h: u64| #[trigger] mv.contains_key(h) implies h < self.next_id by {
                assert(mv0.contains_key(h));
            }
        }
        Some(ids)
    }


    /// The numbers of the groups `key` belongs to, each once, in no
    /// particular order.
    pub(crate) fn groups_of_node(&self, Ghost(t): Ghost<ActionTree>, key: ActionNodeKey) -> (res: Vec<u64>)
        requires
            self.wf_in(t),
            t.wf(),
            t.has(key),
        ensures
            res@.no_duplicates(),
            res@.to_set() == Set::new(|g: u64| self.mv().contains_key(g) && self.mv()[g].contains(key.id())),
    {
        proof {
            use_type_invariant(key);
            key.lemma_with_id();
        }
        let ghost mv = self.mv();
        let ghost ms = self.ms();
        let ghost want = Set::new(|g: u64| mv.contains_key(g) && mv[g].contains(key.id()));
        match memberships_get(&self.memberships, key) {
            None => {
                let v: Vec<u64> = Vec::new();
                proof {
                    assert forall|g: u64| !want.contains(g) by {
                        if mv.contains_key(g) && mv[g].contains(key.id()) {
                            assert(ms.contains_key(ActionNodeKey::with_id(key.id())));
                        }
                    }
                    assert(v@.to_set() =~= want);
                }
                v
            },
            Some(set) => {
                let ids = set_to_vec(set);
                proof {
                    assert(ms[key] == set@);
                    assert(ids@.to_set() =~= want);
                }
                ids
            },
        }
    }

    /// Takes `key` out of every group it belongs to.
    pub(crate) fn remove_node(&mut self, Ghost(t): Ghost<ActionTree>, key: ActionNodeKey)
        requires
            old(self).wf_in(t),
            t.wf(),
            t.has(key),
        ensures
            final(self).wf_in(t),
            final(self).next_id == old(self).next_id,
            final(self).ms() == old(self).ms().remove(key),
            final(self).mv().dom() == old(self).mv().dom(),
            forall|g: u64| #[trigger] final(self).mv().contains_key(g) ==> final(self).mv()[g] == old(self).mv()[g].remove(key.id()),
    {
        let ghost mv0 = self.mv();
        let ghost ms0 = self.ms();
        proof {
            use_type_invariant(key);
            key.lemma_with_id();
        }
        let gs = match memberships_get(&self.memberships, key) {
            None => {
                proof {
                    assert(self.ms() =~= ms0.remove(key));
                    assert forall|g: u64| #[trigger] self.mv().contains_key(g) implies self.mv()[g] == mv0[g].remove(key.id()) by {
                        assert(!mv0[g].contains(key.id()));
                        assert(mv0[g].remove(key.id()) =~= mv0[g]);
                    }
                }
                return;
            },
            Some(set) => set_to_vec(set),
        };
        let n = gs.len();
        let mut i: usize = 0;
        while i < n
            invariant
                0 <= i <= n,
                n == gs@.len(),
                gs@.to_set() == ms0[key],
                gs@.no_duplicates(),
                ms0.contains_key(key),
                self.wf_in(t),
                t.wf(),
                t.has(key),
                key.wf(),
                mv0 == old(self).mv(),
                ms0 == old(self).ms(),
                old(self).wf_in(t),
                self.next_id == old(self).next_id,
                self.mv().dom() == mv0.dom(),
                forall|g: u64| #[trigger] self.mv().contains_key(g) ==> self.mv()[g] == if gs@.take(i as int).contains(g) { mv0[g].remove(key.id()) } else { mv0[g] },
                forall|k: ActionNodeKey| k != key ==> (#[trigger] self.ms().contains_key(k) == ms0.contains_key(k)),
                forall|k: ActionNodeKey| k != key && #[trigger] self.ms().contains_key(k) ==> self.ms()[k] == ms0[k],
                self.ms().contains_key(key) ==> self.ms()[key] == ms0[key].difference(gs@.take(i as int).to_set()),
                !self.ms().contains_key(key) ==> i == n || forall|h: u64| #[trigger] ms0[key].contains(h) ==> gs@.take(i as int).contains(h),
            decreases n - i,
        {
            let g = gs[i];
            let ghost ms_before = self.ms();
            let ghost mv_before = self.mv();
            proof {
                assert(gs@.to_set().contains(g)) by {
                    assert(gs@.contains(gs@[i as int]));
                }
                assert(!gs@.take(i as int).contains(g)) by {
                    if gs@.take(i as int).contains(g) {
                        let j = choose|j: int| 0 <= j < gs@.take(i as int).len() && gs@.take(i as int)[j] == g;
                        assert(gs@[j] == gs@[i as int]);
                    }
                }
                if !ms_before.contains_key(key) {
                    assert(ms0[key].contains(g));
                    assert(false);
                }
                assert(ms_before[key].contains(g));
            }
            let _ = self.remove_membership(Ghost(t), g, key);
            proof {
                lemma_take_one_more(gs@, i as int, g);
                assert forall|h: u64| #[trigger] self.mv().contains_key(h) implies self.mv()[h] == if gs@.take(i + 1).contains(h) { mv0[h].remove(key.id()) } else { mv0[h] } by {
                    lemma_take_one_more(gs@, i as int, h);
                    if h == g {
                        assert(mv_before[h] == mv0[h]);
                    }
                }
                assert(gs@.take(i + 1).to_set() =~= gs@.take(i as int).to_set().insert(g));
                if self.ms().contains_key(key) {
                    assert(self.ms()[key] =~= ms0[key].difference(gs@.take(i + 1).to_set()));
                } else {
                    assert forall|h: u64| #[trigger] ms0[key].contains(h) implies gs@.take(i + 1).contains(h) by {
                        lemma_take_one_more(gs@, i as int, h);
                        if !gs@.take(i as int).contains(h) && h != g {
                            assert(ms_before[key].contains(h));
                            assert(ms_before[key].remove(g).contains(h));
                        }
                    }
                }
            }
            i = i + 1;
        }
        proof {
            assert(gs@.take(n as int) =~= gs@);
            if self.ms().contains_key(key) {
                assert(self.ms()[key] =~= Set::<u64>::empty());
                assert(false);
            }
            assert(self.ms() =~= ms0.remove(key));
            assert forall|g: u64| #[trigger] self.mv().contains_key(g) implies self.mv()[g] == mv0[g].remove(key.id()) by {
                if !gs@.contains(g) {
                    if mv0[g].contains(key.id()) {
                        assert(ms0[ActionNodeKey::with_id(key.id())].contains(g));
                        assert(gs@.to_set().contains(g));
                    }
                    assert(mv0[g].remove(key.id()) =~= mv0[g]);
                }
            }
        }
    }

    /// Takes each of `keys` out of every group, as they leave the tree `t`
    /// for `t2`.
    pub(crate) fn remove_nodes(&mut self, Ghost(t): Ghost<ActionTree>, Ghost(t2): Ghost<ActionTree>, keys: &Vec<ActionNodeKey>)
        requires
            old(self).wf_in(t),
            t.wf(),
            forall|i: int| 0 <= i < keys@.len() ==> t.has(#[trigger] keys@[i]),
            t2.keys() == t.keys().difference(keys@.to_set()),
        ensures
            final(self).wf_in(t2),
            final(self).next_id == old(self).next_id,
            final(self).mv().dom() == old(self).mv().dom(),
            forall|g: u64| #[trigger] final(self).mv().contains_key(g) ==> final(self).mv()[g]
                == old(self).mv()[g].difference(keys@.map_values(|k: ActionNodeKey| k.id()).to_set()),
    {
        let ghost mv0 = self.mv();
        let ghost ids = keys@.map_values(|k: ActionNodeKey| k.id());
        let n = keys.len();
        let mut i: usize = 0;
        while i < n
            invariant
                0 <= i <= n,
                n == keys@.len(),
                ids == keys@.map_values(|k: ActionNodeKey| k.id()),
                self.wf_in(t),
                t.wf(),
                forall|j: int| 0 <= j < keys@.len() ==> t.has(#[trigger] keys@[j]),
                mv0 == old(self).mv(),
                self.next_id == old(self).next_id,
                self.mv().dom() == mv0.dom(),
                forall|g: u64| #[trigger] self.mv().contains_key(g) ==> self.mv()[g] == mv0[g].difference(ids.take(i as int).to_set()),
                forall|j: int| 0 <= j < i ==> !self.ms().contains_key(#[trigger] keys@[j]),
            decreases n - i,
        {
            let key = keys[i];
            let ghost ms_before = self.ms();
            self.remove_node(Ghost(t), key);
            proof {
                assert(ids[i as int] == key.id());
                assert forall|x: u64| ids.take(i + 1).to_set().contains(x) == ids.take(i as int).to_set().insert(key.id()).contains(x) by {
                    lemma_take_one_more(ids, i as int, x);
                }
                assert(ids.take(i + 1).to_set() =~= ids.take(i as int).to_set().insert(key.id()));
                assert forall|g: u64| #[trigger] self.mv().contains_key(g) implies self.mv()[g] == mv0[g].difference(ids.take(i + 1).to_set()) by {
                    assert(self.mv()[g] =~= mv0[g].difference(ids.take(i + 1).to_set()));
                }
                assert forall|j: int| 0 <= j < i + 1 implies !self.ms().contains_key(#[trigger] keys@[j]) by {
                    if j < i {
                        assert(!ms_before.contains_key(keys@[j]));
                    }
                }
            }
            i = i + 1;
        }
        proof {
            assert(ids.take(n as int) =~= ids);
            assert forall|k: ActionNodeKey| #[trigger] self.ms().contains_key(k) implies t2.has(k) && !self.ms()[k].is_empty() by {
                assert(t.has(k));
                if keys@.to_set().contains(k) {
                    let j = choose|j: int| 0 <= j < keys@.len() && keys@[j] == k;
                    assert(!self.ms().contains_key(keys@[j]));
                }
            }
        }
    }

    /// A well-formed empty resource holds in any tree.
    pub(crate) proof fn lemma_empty_wf(self, t: ActionTree)
        requires
            self.mv() == Map::<u64, Set<u64>>::empty(),
            self.ms() == Map::<ActionNodeKey, Set<u64>>::empty(),
        ensures
            self.wf_in(t),
    {
        assert forall|g: u64| #[trigger] self.mv().contains_key(g) implies g < self.next_id by {
            assert(!Map::<u64, Set<u64>>::empty().contains_key(g));
        }
    }

    /// Members stay members as nodes join the tree.
    pub(crate) proof fn lemma_wf_grow(self, t: ActionTree, t2: ActionTree)
        requires
            self.wf_in(t),
            forall|k: ActionNodeKey| #[trigger] t.has(k) ==> t2.has(k),
        ensures
            self.wf_in(t2),
    {
    }
}


/// The keys numbered `ids`, in order.
spec fn keys_with_ids(ids: Seq<u64>) -> Seq<ActionNodeKey> {
    ids.map_values(|x: u64| ActionNodeKey::with_id(x))
}

/// The groups numbered `ids`, in order.
spec fn groups_with_ids(ids: Seq<u64>) -> Seq<GroupId> {
    ids.map_values(|x: u64| GroupId(x))
}

/// The keys whose numbers are `ids`, numbers of keys.
fn keys_of(ids: &Vec<u64>) -> (res: Vec<ActionNodeKey>)
    requires
        forall|i: int| 0 <= i < ids@.len() ==> id_is_key(#[trigger] ids@[i]),
    ensures
        res@ == keys_with_ids(ids@),
{
    let mut res: Vec<ActionNodeKey> = Vec::new();
    let n = ids.len();
    let mut i: usize = 0;
    while i < n
        invariant
            0 <= i <= n,
            n == ids@.len(),
            forall|j: int| 0 <= j < ids@.len() ==> id_is_key(#[trigger] ids@[j]),
            res@ == keys_with_ids(ids@.take(i as int)),
        decreases n - i,
    {
        res.push(ActionNodeKey::from_id(ids[i]));
        assert(keys_with_ids(ids@.take(i + 1)) =~= keys_with_ids(ids@.take(i as int)).push(
            ActionNodeKey::with_id(ids@[i as int]),
        ));
        i = i + 1;
    }
    assert(ids@.take(n as int) =~= ids@);
    res
}

/// The groups whose numbers are `ids`.
fn group_ids_of(ids: &Vec<u64>) -> (res: Vec<GroupId>)
    ensures
        res@ == groups_with_ids(ids@),
{
    let mut res: Vec<GroupId> = Vec::new();
    let n = ids.len();
    let mut i: usize = 0;
    while i < n
        invariant
            0 <= i <= n,
            n == ids@.len(),
            res@ == groups_with_ids(ids@.take(i as int)),
        decreases n - i,
    {
        res.push(GroupId(ids[i]));
        assert(groups_with_ids(ids@.take(i + 1)) =~= groups_with_ids(ids@.take(i as int)).push(
            GroupId(ids@[i as int]),
        ));
        i = i + 1;
    }
    assert(ids@.take(n as int) =~= ids@);
    res
}

/// Mapping distinct numbers to keys keeps them distinct, and a key is
/// among them when its number is.
proof fn lemma_keys_of(ids: Seq<u64>)
    requires
        ids.no_duplicates(),
    ensures
        keys_with_ids(ids).no_duplicates(),
        forall|k: ActionNodeKey| #[trigger] keys_with_ids(ids).contains(k) <==> ids.contains(k.id()),
{
    let ks = keys_with_ids(ids);
    assert forall|k: ActionNodeKey| #[trigger] ks.contains(k) <==> ids.contains(k.id()) by {
        k.lemma_with_id();
        if ks.contains(k) {
            let j = choose|j: int| 0 <= j < ks.len() && ks[j] == k;
            assert(ids[j] == k.id());
        }
        if ids.contains(k.id()) {
            let j = choose|j: int| 0 <= j < ids.len() && ids[j] == k.id();
            assert(ks[j] == k);
        }
    }
}

proof fn lemma_group_ids_of(ids: Seq<u64>)
    requires
        ids.no_duplicates(),
    ensures
        groups_with_ids(ids).no_duplicates(),
        forall|g: GroupId| #[trigger] groups_with_ids(ids).contains(g) <==> ids.contains(g.id()),
{
    let gs = groups_with_ids(ids);
    assert forall|g: GroupId| #[trigger] gs.contains(g) <==> ids.contains(g.id()) by {
        if gs.contains(g) {
            let j = choose|j: int| 0 <= j < gs.len() && gs[j] == g;
            assert(ids[j] == g.id());
        }
        if ids.contains(g.id()) {
            let j = choose|j: int| 0 <= j < ids.len() && ids[j] == g.id();
            assert(gs[j] == g);
        }
    }
}

pub trait GroupingExt: Sized {
    /// A fresh group id is left.
    spec fn can_create_group(&self) -> bool;

    /// Whether `group` exists.
    fn group_exists(&self, group: GroupId) -> bool;

    /// Whether `key` is a member of `group`.
    fn group_contains(&self, group: GroupId, key: ActionNodeKey) -> Result<bool, GroupContainsError>;

    /// The members of `group`, in no particular order.
    fn group_members(&self, group: GroupId) -> Result<Vec<ActionNodeKey>, UnknownGroup>;

    /// The groups `key` belongs to, in no particular order.
    fn groups_of(&self, key: ActionNodeKey) -> Result<Vec<GroupId>, UnknownNode>;

    /// Creates an empty group.
    fn create_group(&mut self) -> GroupId
        requires
            old(self).can_create_group(),
    ;

    /// Removes `group`, returning its members.
    fn remove_group(&mut self, group: GroupId) -> Result<Vec<ActionNodeKey>, UnknownGroup>;

    /// Adds `key` to `group`. Returns `Ok(false)` if it was already a member.
    fn add_to_group(&mut self, group: GroupId, key: ActionNodeKey) -> Result<bool, AddToGroupError>;

    /// Removes `key` from `group`. Returns `Ok(false)` if it wasn't a member.
    fn remove_from_group(&mut self, group: GroupId, key: ActionNodeKey) -> Result<bool, RemoveFromGroupError>;
}

/// What a change of the groups leaves alone.
pub open spec fn same_but_groups(a: Context, b: Context) -> bool {
    &&& a.tree() == b.tree()
    &&& a.syncs() == b.syncs()
    &&& a.next_sync_key() == b.next_sync_key()
    &&& a.current() == b.current()
    &&& a.stored() == b.stored()
    &&& a.queued() == b.queued()
    &&& a.rewind_ids() == b.rewind_ids()
}

impl GroupingExt for Context {
    open spec fn can_create_group(&self) -> bool {
        self.next_group_id() < u64::MAX
    }

    fn group_exists(&self, group: GroupId) -> (res: bool)
        ensures
            res == self.groups().contains_key(group.id()),
    {
        self.core.groups.members.contains_key(&group.0)
    }

    fn group_contains(&self, group: GroupId, key: ActionNodeKey) -> (res: Result<bool, GroupContainsError>)
        ensures
            match res {
                Ok(b) => self.tree().has(key) && self.groups().contains_key(group.id())
                    && b == self.groups()[group.id()].contains(key.id()),
                Err(GroupContainsError::UnknownNode(e)) => !self.tree().has(key) && e == UnknownNode(key),
                Err(GroupContainsError::UnknownGroup(e)) => self.tree().has(key)
                    && !self.groups().contains_key(group.id()) && e == UnknownGroup(group),
            },
    {
        if !self.core.tree.contains(key) {
            return Err(GroupContainsError::UnknownNode(UnknownNode(key)));
        }
        match self.core.groups.members.get(&group.0) {
            None => Err(GroupContainsError::UnknownGroup(UnknownGroup(group))),
            Some(set) => Ok(set.contains(&key.to_id())),
        }
    }

    fn group_members(&self, group: GroupId) -> (res: Result<Vec<ActionNodeKey>, UnknownGroup>)
        ensures
            match res {
                Ok(v) => {
                    &&& self.groups().contains_key(group.id())
                    &&& v@.no_duplicates()
                    &&& forall|k: ActionNodeKey| #[trigger] v@.contains(k) <==> self.groups()[group.id()].contains(k.id())
                },
                Err(e) => !self.groups().contains_key(group.id()) && e == UnknownGroup(group),
            },
    {
        proof {
            use_type_invariant(self);
        }
        match self.core.groups.members.get(&group.0) {
            None => Err(UnknownGroup(group)),
            Some(set) => {
                let ids = set_to_vec(set);
                proof {
                    assert forall|i: int| 0 <= i < ids@.len() implies id_is_key(#[trigger] ids@[i]) by {
                        assert(ids@.to_set().contains(ids@[i]));
                        assert(self.core.groups.mv()[group.0].contains(ids@[i]));
                    }
                    lemma_keys_of(ids@);
                }
                Ok(keys_of(&ids))
            },
        }
    }

    fn groups_of(&self, key: ActionNodeKey) -> (res: Result<Vec<GroupId>, UnknownNode>)
        ensures
            match res {
                Ok(v) => {
                    &&& self.tree().has(key)
                    &&& v@.no_duplicates()
                    &&& forall|g: GroupId| #[trigger] v@.contains(g) <==> (self.groups().contains_key(g.id())
                        && self.groups()[g.id()].contains(key.id()))
                },
                Err(e) => !self.tree().has(key) && e == UnknownNode(key),
            },
    {
        proof {
            use_type_invariant(self);
            use_type_invariant(key);
            key.lemma_with_id();
        }
        if !self.core.tree.contains(key) {
            return Err(UnknownNode(key));
        }
        let ghost mv = self.core.groups.mv();
        let ghost ms = self.core.groups.ms();
        match memberships_get(&self.core.groups.memberships, key) {
            None => {
                let v: Vec<GroupId> = Vec::new();
                proof {
                    assert forall|g: GroupId| #[trigger] v@.contains(g) <==> (mv.contains_key(g.id())
                        && mv[g.id()].contains(key.id())) by {
                        if mv.contains_key(g.id()) && mv[g.id()].contains(key.id()) {
                            assert(ms.contains_key(ActionNodeKey::with_id(key.id())));
                        }
                    }
                }
                Ok(v)
            },
            Some(set) => {
                let ids = set_to_vec(set);
                proof {
                    lemma_group_ids_of(ids@);
                    assert forall|g: GroupId| ids@.contains(g.id()) <==> (mv.contains_key(g.id())
                        && mv[g.id()].contains(key.id())) by {
                        assert(ids@.contains(g.id()) <==> ids@.to_set().contains(g.id()));
                        assert(ms[key] == set@);
                    }
                }
                Ok(group_ids_of(&ids))
            },
        }
    }

    fn create_group(&mut self) -> (res: GroupId)
        ensures
            !old(self).groups().contains_key(res.id()),
            final(self).groups() == old(self).groups().insert(res.id(), Set::empty()),
            final(self).next_group_id() == old(self).next_group_id() + 1,
            same_but_groups(*old(self), *final(self)),
    {
        proof {
            use_type_invariant(&*self);
        }
        let mut core = Core::new();
        std::mem::swap(&mut core, &mut self.core);
        let g = core.groups.create(Ghost(core.tree));
        self.core = core;
        GroupId(g)
    }

    fn remove_group(&mut self, group: GroupId) -> (res: Result<Vec<ActionNodeKey>, UnknownGroup>)
        ensures
            match res {
                Ok(v) => {
                    &&& old(self).groups().contains_key(group.id())
                    &&& v@.no_duplicates()
                    &&& forall|k: ActionNodeKey| #[trigger] v@.contains(k) <==> old(self).groups()[group.id()].contains(k.id())
                    &&& final(self).groups() == old(self).groups().remove(group.id())
                },
                Err(e) => !old(self).groups().contains_key(group.id()) && e == UnknownGroup(group)
                    && final(self).groups() == old(self).groups(),
            },
            same_but_groups(*old(self), *final(self)),
            final(self).next_group_id() == old(self).next_group_id(),
    {
        proof {
            use_type_invariant(&*self);
        }
        let mut core = Core::new();
        std::mem::swap(&mut core, &mut self.core);
        let ghost mv0 = core.groups.mv();
        let removed = core.groups.remove_group(Ghost(core.tree), group.0);
        self.core = core;
        match removed {
            None => Err(UnknownGroup(group)),
            Some(ids) => {
                proof {
                    assert forall|i: int| 0 <= i < ids@.len() implies id_is_key(#[trigger] ids@[i]) by {
                        assert(ids@.to_set().contains(ids@[i]));
                        assert(mv0[group.0].contains(ids@[i]));
                    }
                    lemma_keys_of(ids@);
                    assert forall|x: u64| ids@.contains(x) <==> mv0[group.0].contains(x) by {
                        assert(ids@.contains(x) <==> ids@.to_set().contains(x));
                    }
                }
                Ok(keys_of(&ids))
            },
        }
    }

    fn add_to_group(&mut self, group: GroupId, key: ActionNodeKey) -> (res: Result<bool, AddToGroupError>)
        ensures
            match res {
                Ok(added) => {
                    &&& old(self).tree().has(key)
                    &&& old(self).groups().contains_key(group.id())
                    &&& added == !old(self).groups()[group.id()].contains(key.id())
                    &&& final(self).groups() == old(self).groups().insert(group.id(), old(self).groups()[group.id()].insert(key.id()))
                },
                Err(AddToGroupError::UnknownNode(e)) => !old(self).tree().has(key) && e == UnknownNode(key)
                    && final(self).groups() == old(self).groups(),
                Err(AddToGroupError::UnknownGroup(e)) => old(self).tree().has(key)
                    && !old(self).groups().contains_key(group.id()) && e == UnknownGroup(group)
                    && final(self).groups() == old(self).groups(),
            },
            same_but_groups(*old(self), *final(self)),
            final(self).next_group_id() == old(self).next_group_id(),
    {
        proof {
            use_type_invariant(&*self);
        }
        if !self.core.tree.contains(key) {
            return Err(AddToGroupError::UnknownNode(UnknownNode(key)));
        }
        let mut core = Core::new();
        std::mem::swap(&mut core, &mut self.core);
        let res = core.groups.add_membership(Ghost(core.tree), group.0, key);
        self.core = core;
        match res {
            Ok(added) => Ok(added),
            Err(e) => Err(AddToGroupError::UnknownGroup(e)),
        }
    }

    fn remove_from_group(&mut self, group: GroupId, key: ActionNodeKey) -> (res: Result<bool, RemoveFromGroupError>)
        ensures
            match res {
                Ok(removed) => {
                    &&& old(self).tree().has(key)
                    &&& old(self).groups().contains_key(group.id())
                    &&& removed == old(self).groups()[group.id()].contains(key.id())
                    &&& final(self).groups() == old(self).groups().insert(group.id(), old(self).groups()[group.id()].remove(key.id()))
                },
                Err(RemoveFromGroupError::UnknownNode(e)) => !old(self).tree().has(key) && e == UnknownNode(key)
                    && final(self).groups() == old(self).groups(),
                Err(RemoveFromGroupError::UnknownGroup(e)) => old(self).tree().has(key)
                    && !old(self).groups().contains_key(group.id()) && e == UnknownGroup(group)
                    && final(self).groups() == old(self).groups(),
            },
            same_but_groups(*old(self), *final(self)),
            final(self).next_group_id() == old(self).next_group_id(),
    {
        proof {
            use_type_invariant(&*self);
        }
        if !self.core.tree.contains(key) {
            return Err(RemoveFromGroupError::UnknownNode(UnknownNode(key)));
        }
        let mut core = Core::new();
        std::mem::swap(&mut core, &mut self.core);
        let res = core.groups.remove_membership(Ghost(core.tree), group.0, key);
        self.core = core;
        match res {
            Ok(removed) => Ok(removed),
            Err(e) => Err(RemoveFromGroupError::UnknownGroup(e)),
        }
    }
}

} // verus!
