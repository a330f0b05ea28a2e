//! Tracking: sets of actions that depend on a tracking id, rerun when the id
//! is notified.

use std::collections::HashSet;

use vstd::prelude::*;

use crate::action::{stored_at, Action, ActionExt, RunActionError};
use crate::action_tree::{node_added, ActionNodeKey, ActionTree, ActionTreeExt, ClearChildrenError, UnknownNode};
use crate::context::Context;
use crate::current::{CurrentActionExt, NotExecuting};
use crate::grouping::{same_but_groups, set_to_vec, GroupId, GroupingExt};

verus! {

broadcast use vstd::std_specs::hash::group_hash_axioms;

/// Identifies a set of tracked actions that can be rerun together. Backed by
/// a group, which stays private so tracking controls its membership.
#[derive(Clone, Copy, PartialEq, Eq, Hash, Debug, Structural)]
pub struct TrackingId(pub(crate) GroupId);

impl TrackingId {
    /// The number of the group behind the id.
    pub open(crate) spec fn id(self) -> u64 {
        self.0.id()
    }
}

/// `0` doesn't exist.
#[derive(Clone, Copy, PartialEq, Eq, Debug, Structural)]
pub struct UnknownTrackingId(pub TrackingId);

#[derive(Clone, Copy, PartialEq, Eq, Debug, Structural)]
pub enum TrackError {
    NotExecuting(NotExecuting),
    UnknownTrackingId(UnknownTrackingId),
    UnknownNode(UnknownNode),
}

#[derive(Clone, Copy, PartialEq, Eq, Debug)]
pub enum RunTrackedError {
    NotExecuting(NotExecuting),
    RunActionError(RunActionError),
    UnknownTrackingId(UnknownTrackingId),
    ClearChildrenError(ClearChildrenError),
    /// The reruns kept queuing ids for `u64::MAX` rounds.
    Unsettled,
}

/// Self adjustment: a rerun of `id` reached an executing action, so every
/// action up to `handler` has to return early. Once they have unwound,
/// `handler`'s tracked run reruns everything tracking `id`.
///
/// The fields are private so only the library can create one.
#[derive(Clone, Copy, PartialEq, Eq, Debug, Structural)]
pub struct RerunNeeded {
    id: TrackingId,
    /// The topmost executing action tracking `id`.
    handler: ActionNodeKey,
}

impl RerunNeeded {
    pub closed spec fn spec_id(self) -> TrackingId {
        self.id
    }

    pub closed spec fn spec_handler(self) -> ActionNodeKey {
        self.handler
    }

    /// The tracking id whose rerun caused the early return.
    pub fn id(&self) -> (res: TrackingId)
        ensures
            res == self.spec_id(),
    {
        self.id
    }
}

/// The tracking ids waiting to be notified.
pub struct ToNotify {
    ids: HashSet<u64>,
}

impl ToNotify {
    pub closed spec fn view(self) -> Set<u64> {
        self.ids@
    }

    pub(crate) fn new() -> (res: Self)
        ensures
            res.view() == Set::<u64>::empty(),
    {
        ToNotify { ids: HashSet::new() }
    }

    fn insert(&mut self, id: u64)
        ensures
            final(self).view() == old(self).view().insert(id),
    {
        self.ids.insert(id);
    }

    fn remove(&mut self, id: u64) -> (res: bool)
        ensures
            res == old(self).view().contains(id),
            final(self).view() == old(self).view().remove(id),
    {
        self.ids.remove(&id)
    }

    /// The queued ids, each once, in no particular order.
    fn to_vec(&self) -> (res: Vec<u64>)
        ensures
            res@.to_set() == self.view(),
            res@.no_duplicates(),
    {
        set_to_vec(&self.ids)
    }
}

/// What a change of the queue leaves alone.
pub open spec fn same_but_queue(a: Context, b: Context) -> bool {
    &&& a.tree() == b.tree()
    &&& a.current() == b.current()
    &&& a.groups() == b.groups()
    &&& a.next_group_id() == b.next_group_id()
    &&& a.syncs() == b.syncs()
    &&& a.next_sync_key() == b.next_sync_key()
    &&& a.stored() == b.stored()
    &&& a.rewind_ids() == b.rewind_ids()
}

/// The numbers of the keys of `keys`.
pub open spec fn ids_of(keys: Seq<ActionNodeKey>) -> Set<u64> {
    keys.map_values(|k: ActionNodeKey| k.id()).to_set()
}

/// Every action tracking the queued id `g` is in `branch`: a tracked run
/// whose actions are `branch` reruns them.
pub open spec fn handled_by(ctx: Context, g: u64, branch: Seq<ActionNodeKey>) -> bool {
    ctx.groups().contains_key(g) && ctx.groups()[g].subset_of(ids_of(branch))
}

/// No queued id is left for a tracked run over `branch`: each exists and is
/// tracked by an action outside `branch`.
pub open spec fn settled(ctx: Context, branch: Seq<ActionNodeKey>) -> bool {
    forall|g: u64| #[trigger] ctx.queued().contains(g) ==> ctx.groups().contains_key(g)
        && !handled_by(ctx, g, branch)
}

/// The queued ids that only actions of `branch` track.
pub open spec fn handled_ids(ctx: Context, branch: Seq<ActionNodeKey>) -> Set<u64> {
    Set::new(|g: u64| ctx.queued().contains(g) && handled_by(ctx, g, branch))
}

/// The executing actions: the current one, then its ancestors up to its
/// root.
pub open spec fn executing_chain(ctx: Context) -> Seq<ActionNodeKey> {
    match ctx.current() {
        Some(c) => if ctx.tree().has(c) {
            seq![c] + ctx.tree().ancestors_of(c)
        } else {
            seq![c]
        },
        None => Seq::empty(),
    }
}

/// `key` tracks the id numbered `g`.
pub open spec fn tracks(ctx: Context, g: u64, key: ActionNodeKey) -> bool {
    ctx.groups().contains_key(g) && ctx.groups()[g].contains(key.id())
}

/// Some executing action tracks the id numbered `g`.
pub open spec fn tracker_executing(ctx: Context, g: u64) -> bool {
    exists|i: int| 0 <= i < executing_chain(ctx).len() && #[trigger] tracks(ctx, g, executing_chain(ctx)[i])
}

/// `h` is the executing action tracking the id numbered `g` that is nearest
/// the root.
pub open spec fn topmost_tracker(ctx: Context, g: u64, h: ActionNodeKey) -> bool {
    exists|i: int| {
        &&& 0 <= i < executing_chain(ctx).len()
        &&& executing_chain(ctx)[i] == h
        &&& #[trigger] tracks(ctx, g, executing_chain(ctx)[i])
        &&& forall|j: int| i < j < executing_chain(ctx).len() ==> !tracks(ctx, g, #[trigger] executing_chain(ctx)[j])
    }
}

impl Context {
    /// Runs the action stored at `key`, handing back, for the record, the
    /// key it ran and the context right after.
    fn run_noted(&mut self, key: ActionNodeKey) -> (res: (Result<(), RunActionError>, Ghost<ActionNodeKey>, Ghost<Context>))
        ensures
            res.1@ == key,
            res.2@ == *final(self),
            final(self).current() == old(self).current(),
    {
        let r = self.run_action(key);
        (r, Ghost(key), Ghost(*self))
    }

    /// The executing actions, from the current one up to its root.
    fn executing_chain_vec(&self) -> (res: Vec<ActionNodeKey>)
        ensures
            res@ == executing_chain(*self),
    {
        let mut res: Vec<ActionNodeKey> = Vec::new();
        let c = match self.current {
            Some(c) => c,
            None => {
                return res;
            },
        };
        res.push(c);
        if let Ok(above) = self.ancestors(c) {
            let n = above.len();
            let mut i: usize = 0;
            while i < n
                invariant
                    0 <= i <= n,
                    n == above@.len(),
                    res@ == seq![c] + above@.take(i as int),
                decreases n - i,
            {
                res.push(above[i]);
                proof {
                    assert(above@.take(i + 1) =~= above@.take(i as int).push(above@[i as int]));
                }
                i = i + 1;
            }
            proof {
                assert(above@.take(n as int) =~= above@);
            }
        }
        res
    }

    /// Queues `id` to be notified.
    fn queue_notify(&mut self, id: TrackingId) -> (res: Result<(), UnknownTrackingId>)
        ensures
            match res {
                Ok(()) => old(self).groups().contains_key(id.id()) && final(self).queued()
                    == old(self).queued().insert(id.id()),
                Err(e) => !old(self).groups().contains_key(id.id()) && e == UnknownTrackingId(id)
                    && *final(self) == *old(self),
            },
            same_but_queue(*old(self), *final(self)),
    {
        proof {
            use_type_invariant(&*self);
        }
        if !self.group_exists(id.0) {
            return Err(UnknownTrackingId(id));
        }
        let mut queue = ToNotify::new();
        std::mem::swap(&mut queue, &mut self.to_notify);
        queue.insert(id.0.0);
        self.to_notify = queue;
        Ok(())
    }

    /// The queued tracking ids, each once, in no particular order. The
    /// vector is a copy of the queue, so it doesn't borrow the context.
    fn iter_to_notify(&self) -> (res: Vec<TrackingId>)
        ensures
            res@.no_duplicates(),
            forall|t: TrackingId| #[trigger] res@.contains(t) <==> self.queued().contains(t.id()),
    {
        let ids = self.to_notify.to_vec();
        let mut res: Vec<TrackingId> = Vec::new();
        let n = ids.len();
        let mut i: usize = 0;
        while i < n
            invariant
                0 <= i <= n,
                n == ids@.len(),
                ids@.no_duplicates(),
                res@.len() == i,
                forall|j: int| 0 <= j < i ==> (#[trigger] res@[j]).id() == ids@[j],
            decreases n - i,
        {
            res.push(TrackingId(GroupId(ids[i])));
            i = i + 1;
        }
        proof {
            assert forall|t: TrackingId| #[trigger] res@.contains(t) <==> self.queued().contains(t.id()) by {
                if res@.contains(t) {
                    let j = choose|j: int| 0 <= j < res@.len() && res@[j] == t;
                    assert(ids@.to_set().contains(ids@[j]));
                }
                if self.queued().contains(t.id()) {
                    assert(ids@.to_set().contains(t.id()));
                    let j = choose|j: int| 0 <= j < ids@.len() && ids@[j] == t.id();
                    assert(res@[j] == t);
                }
            }
            assert forall|a: int, b: int| 0 <= a < b < res@.len() implies res@[a] != res@[b] by {
                assert(ids@[a] != ids@[b]);
            }
        }
        res
    }

    /// Removes `id` from the queue. Returns `Ok(false)` if it wasn't queued.
    fn unqueue_notify(&mut self, id: TrackingId) -> (res: Result<bool, UnknownTrackingId>)
        ensures
            match res {
                Ok(b) => old(self).groups().contains_key(id.id()) && b == old(self).queued().contains(id.id())
                    && final(self).queued() == old(self).queued().remove(id.id()),
                Err(e) => !old(self).groups().contains_key(id.id()) && e == UnknownTrackingId(id)
                    && *final(self) == *old(self),
            },
            same_but_queue(*old(self), *final(self)),
    {
        proof {
            use_type_invariant(&*self);
        }
        if !self.group_exists(id.0) {
            return Err(UnknownTrackingId(id));
        }
        let mut queue = ToNotify::new();
        std::mem::swap(&mut queue, &mut self.to_notify);
        let removed = queue.remove(id.0.0);
        self.to_notify = queue;
        Ok(removed)
    }
}

/// Whether `key` is one of `keys`.
pub(crate) fn key_listed(keys: &Vec<ActionNodeKey>, key: ActionNodeKey) -> (res: bool)
    ensures
        res == keys@.contains(key),
{
    let n = keys.len();
    let mut i: usize = 0;
    while i < n
        invariant
            0 <= i <= n,
            n == keys@.len(),
            forall|j: int| 0 <= j < i ==> keys@[j] != key,
        decreases n - i,
    {
        if keys[i] == key {
            assert(keys@.contains(keys@[i as int]));
            return true;
        }
        i = i + 1;
    }
    false
}

/// Whether every key of `members` is in `branch`.
fn all_within(members: &Vec<ActionNodeKey>, branch: &Vec<ActionNodeKey>) -> (res: bool)
    ensures
        res == (forall|i: int| 0 <= i < members@.len() ==> branch@.contains(#[trigger] members@[i])),
{
    let n = members.len();
    let mut i: usize = 0;
    while i < n
        invariant
            0 <= i <= n,
            n == members@.len(),
            forall|j: int| 0 <= j < i ==> branch@.contains(#[trigger] members@[j]),
        decreases n - i,
    {
        let m = members[i];
        let mut found = false;
        let len = branch.len();
        let mut j: usize = 0;
        while j < len
            invariant
                0 <= j <= len,
                len == branch@.len(),
                found == (exists|l: int| 0 <= l < j && branch@[l] == m),
            decreases len - j,
        {
            if branch[j] == m {
                found = true;
            }
            j = j + 1;
        }
        if !found {
            assert(!branch@.contains(members@[i as int]));
            return false;
        }
        i = i + 1;
    }
    true
}

/// The members of a group, listed as `members`, are all in `branch` exactly
/// when the group is within the numbers of `branch`.
proof fn lemma_within(members: Seq<ActionNodeKey>, group: Set<u64>, branch: Seq<ActionNodeKey>)
    requires
        forall|k: ActionNodeKey| #[trigger] members.contains(k) <==> group.contains(k.id()),
    ensures
        (forall|i: int| 0 <= i < members.len() ==> branch.contains(#[trigger] members[i]))
            <==> group.subset_of(ids_of(branch)),
{
    let ids = branch.map_values(|k: ActionNodeKey| k.id());
    if forall|i: int| 0 <= i < members.len() ==> branch.contains(#[trigger] members[i]) {
        assert forall|x: u64| group.contains(x) implies #[trigger] ids_of(branch).contains(x) by {
            let k = ActionNodeKey::with_id(x);
            assert(k.id() == x);
            assert(members.contains(k));
            let i = choose|i: int| 0 <= i < members.len() && members[i] == k;
            assert(branch.contains(members[i]));
            let j = choose|j: int| 0 <= j < branch.len() && branch[j] == k;
            assert(ids[j] == x);
            assert(ids.contains(x));
        }
    }
    if group.subset_of(ids_of(branch)) {
        assert forall|i: int| 0 <= i < members.len() implies branch.contains(#[trigger] members[i]) by {
            let k = members[i];
            assert(members.contains(k));
            assert(group.contains(k.id()));
            assert(ids.to_set().contains(k.id()));
            let j = choose|j: int| 0 <= j < ids.len() && ids[j] == k.id();
            k.lemma_with_id();
            branch[j].lemma_with_id();
            assert(branch[j] == k);
        }
    }
}

pub trait TrackingExt: GroupingExt + ActionExt {
    /// Creates a tracking id with nothing tracking it yet.
    fn create_tracking_id(&mut self) -> TrackingId
        requires
            old(self).can_create_group(),
    ;

    /// Runs `action` as a new child of the executing action, so that the
    /// [`track`](Self::track_checked) calls it makes can rerun it, then
    /// reruns the actions of every queued id that only actions of its
    /// branch track, until none is left.
    fn run_tracked_checked<A: Action<Output = ()> + 'static>(&mut self, action: A) -> Result<(), RunTrackedError>
        requires
            old(self).can_add_node(),
            old(self).current_in_tree(),
    ;

    /// Marks the executing action as depending on `id`, so a notification
    /// of `id` reruns it.
    ///
    /// The executing action must exist and `id` too. Use
    /// [`track_checked`](Self::track_checked) to get the error instead.
    fn track(&mut self, id: TrackingId)
        requires
            old(self).tracking_allowed(id),
    ;

    /// [`track`](Self::track), returning the error.
    fn track_checked(&mut self, id: TrackingId) -> Result<(), TrackError>;

    /// Reruns every action tracking `id`, each with its descendants
    /// removed first.
    ///
    /// If one of them is executing, returns [`RerunNeeded`] instead and
    /// queues `id`. The caller must return it, so the rerun happens once the
    /// actions have unwound.
    ///
    /// `id` must exist. Use [`notify_checked`](Self::notify_checked) to get
    /// the error instead.
    fn notify(&mut self, id: TrackingId) -> Result<(), RerunNeeded>
        requires
            old(self).tracking_exists(id),
    ;

    /// [`notify`](Self::notify), returning an unknown `id` as the outer
    /// error. The inner `Result` is the early return.
    fn notify_checked(&mut self, id: TrackingId) -> Result<Result<(), RerunNeeded>, UnknownTrackingId>;

    /// `id` exists.
    spec fn tracking_exists(&self, id: TrackingId) -> bool;

    /// An action is executing, it is in the tree, and `id` exists.
    spec fn tracking_allowed(&self, id: TrackingId) -> bool;
}

impl TrackingExt for Context {
    open spec fn tracking_exists(&self, id: TrackingId) -> bool {
        self.groups().contains_key(id.id())
    }

    open spec fn tracking_allowed(&self, id: TrackingId) -> bool {
        &&& self.current() is Some
        &&& self.tree().has(self.current()->0)
        &&& self.groups().contains_key(id.id())
    }

    fn create_tracking_id(&mut self) -> (res: TrackingId)
        ensures
            !old(self).groups().contains_key(res.id()),
            final(self).groups() == old(self).groups().insert(res.id(), Set::empty()),
            final(self).next_group_id() == old(self).next_group_id() + 1,
            same_but_groups(*old(self), *final(self)),
    {
        let group = self.create_group();
        TrackingId(group)
    }

    fn track_checked(&mut self, id: TrackingId) -> (res: Result<(), TrackError>)
        ensures
            match res {
                Ok(()) => {
                    &&& old(self).tracking_allowed(id)
                    &&& final(self).groups() == old(self).groups().insert(
                        id.id(),
                        old(self).groups()[id.id()].insert(old(self).current()->0.id()),
                    )
                    &&& same_but_groups(*old(self), *final(self))
                },
                Err(TrackError::NotExecuting(e)) => old(self).current() is None && e == NotExecuting
                    && *final(self) == *old(self),
                Err(TrackError::UnknownTrackingId(e)) => old(self).current() is Some
                    && !old(self).tracking_allowed(id) && e == UnknownTrackingId(id)
                    && final(self).groups() == old(self).groups() && same_but_groups(*old(self), *final(self)),
                Err(TrackError::UnknownNode(_)) => false,
            },
            final(self).next_group_id() == old(self).next_group_id(),
    {
        let current = match self.current_action() {
            Ok(c) => c,
            Err(e) => {
                return Err(TrackError::NotExecuting(e));
            },
        };
        match self.add_to_group(id.0, current) {
            Ok(_) => Ok(()),
            Err(_) => Err(TrackError::UnknownTrackingId(UnknownTrackingId(id))),
        }
    }

    fn track(&mut self, id: TrackingId)
        ensures
            final(self).groups() == old(self).groups().insert(
                id.id(),
                old(self).groups()[id.id()].insert(old(self).current()->0.id()),
            ),
            same_but_groups(*old(self), *final(self)),
            final(self).next_group_id() == old(self).next_group_id(),
    {
        match self.track_checked(id) {
            Ok(()) => {},
            Err(_) => {
                vstd::pervasive::unreached::<()>();
            },
        }
    }

    fn notify_checked(&mut self, id: TrackingId) -> (res: Result<Result<(), RerunNeeded>, UnknownTrackingId>)
        ensures
            final(self).current() == old(self).current(),
            match res {
                Err(e) => !old(self).tracking_exists(id) && e == UnknownTrackingId(id) && *final(self) == *old(self),
                Ok(Err(r)) => {
                    &&& old(self).tracking_exists(id)
                    &&& r.spec_id() == id
                    &&& topmost_tracker(*old(self), id.id(), r.spec_handler())
                    &&& final(self).queued() == old(self).queued().insert(id.id())
                    &&& same_but_queue(*old(self), *final(self))
                },
                Ok(Ok(())) => {
                    &&& old(self).tracking_exists(id)
                    &&& !tracker_executing(*old(self), id.id())
                    &&& final(self).rerun_keys().no_duplicates()
                    &&& forall|k: ActionNodeKey| #[trigger] final(self).rerun_keys().contains(k) <==> tracks(
                        *old(self),
                        id.id(),
                        k,
                    )
                },
            },
    {
        let members = match self.group_members(id.0) {
            Ok(members) => members,
            Err(_) => {
                return Err(UnknownTrackingId(id));
            },
        };
        let chain = self.executing_chain_vec();
        let ghost c0 = *self;
        let mut handler: Option<ActionNodeKey> = None;
        let ghost mut at: int = 0;
        let n = chain.len();
        let mut i: usize = 0;
        while i < n
            invariant
                0 <= i <= n,
                n == chain@.len(),
                chain@ == executing_chain(c0),
                forall|k: ActionNodeKey| #[trigger] members@.contains(k) <==> tracks(c0, id.id(), k),
                handler is None ==> forall|j: int| 0 <= j < i ==> !tracks(c0, id.id(), #[trigger] chain@[j]),
                handler matches Some(h) ==> {
                    &&& 0 <= at < i
                    &&& chain@[at] == h
                    &&& tracks(c0, id.id(), chain@[at])
                    &&& forall|j: int| at < j < i ==> !tracks(c0, id.id(), #[trigger] chain@[j])
                },
            decreases n - i,
        {
            if key_listed(&members, chain[i]) {
                handler = Some(chain[i]);
                proof {
                    at = i as int;
                }
            }
            i = i + 1;
        }
        match handler {
            Some(h) => {
                proof {
                    assert(tracks(c0, id.id(), executing_chain(c0)[at]));
                }
                match self.queue_notify(id) {
                    Ok(()) => {},
                    Err(_) => {
                        return vstd::pervasive::unreached();
                    },
                }
                Ok(Err(RerunNeeded { id, handler: h }))
            },
            None => {
                proof {
                    assert forall|j: int| 0 <= j < executing_chain(c0).len() implies !#[trigger] tracks(
                        c0,
                        id.id(),
                        executing_chain(c0)[j],
                    ) by {
                        assert(chain@[j] == executing_chain(c0)[j]);
                    }
                }
                let m = members.len();
                let mut j: usize = 0;
                let ghost mut ran: Seq<ActionNodeKey> = Seq::empty();
                while j < m
                    invariant
                        0 <= j <= m,
                        m == members@.len(),
                        self.current() == c0.current(),
                        ran == members@.take(j as int),
                    decreases m - j,
                {
                    // A member that an earlier rerun removed, or that stores
                    // no action, is passed over.
                    let (_, noted, _) = self.run_noted(members[j]);
                    proof {
                        ran = ran.push(noted@);
                        assert(members@.take(j + 1) =~= members@.take(j as int).push(members@[j as int]));
                    }
                    j = j + 1;
                }
                proof {
                    assert(members@.take(m as int) =~= members@);
                }
                self.note_reruns(Ghost(ran));
                Ok(Ok(()))
            },
        }
    }

    fn notify(&mut self, id: TrackingId) -> (res: Result<(), RerunNeeded>)
        ensures
            final(self).current() == old(self).current(),
            match res {
                Err(r) => {
                    &&& r.spec_id() == id
                    &&& topmost_tracker(*old(self), id.id(), r.spec_handler())
                    &&& final(self).queued() == old(self).queued().insert(id.id())
                    &&& same_but_queue(*old(self), *final(self))
                },
                Ok(()) => {
                    &&& !tracker_executing(*old(self), id.id())
                    &&& final(self).rerun_keys().no_duplicates()
                    &&& forall|k: ActionNodeKey| #[trigger] final(self).rerun_keys().contains(k) <==> tracks(
                        *old(self),
                        id.id(),
                        k,
                    )
                },
            },
    {
        match self.notify_checked(id) {
            Ok(r) => r,
            Err(_) => vstd::pervasive::unreached(),
        }
    }

    fn run_tracked_checked<A: Action<Output = ()> + 'static>(&mut self, action: A) -> (res: Result<(), RunTrackedError>)
        ensures
            final(self).current() == old(self).current(),
            res matches Err(RunTrackedError::NotExecuting(e)) ==> e == NotExecuting && *final(self) == *old(self),
            (res matches Err(RunTrackedError::NotExecuting(_))) <==> old(self).current() is None,
            res is Ok ==> exists|t: ActionTree, node: ActionNodeKey| #[trigger] t.has(node) && !old(self).tree().has(node)
                && settled(*final(self), t.top_down(node, false)),
            res is Ok ==> {
                &&& !old(self).tree().has(final(self).tracked_node())
                &&& final(self).tracked_tree().has(final(self).tracked_node())
                &&& settled(*final(self), final(self).tracked_tree().top_down(final(self).tracked_node(), false))
            },
    {
        let node = match self.create_child_action(action) {
            Ok(node) => node,
            Err(e) => {
                return Err(RunTrackedError::NotExecuting(e));
            },
        };
        let (r, _, after_run) = self.run_noted(node);
        if let Err(e) = r {
            return Err(RunTrackedError::RunActionError(e));
        }
        let branch = match self.subtree_top_down(node) {
            Ok(branch) => branch,
            Err(e) => {
                return Err(RunTrackedError::RunActionError(RunActionError::UnknownNode(e)));
            },
        };
        let ghost t = self.tree();
        // Every round that reruns something can queue more ids; the count
        // only stops a run that never settles.
        let mut rounds: u64 = 0;
        while rounds < u64::MAX
            invariant
                self.current() == old(self).current(),
                old(self).current() is Some,
                t.has(node),
                !old(self).tree().has(node),
                branch@ == t.top_down(node, false),
                t == after_run@.tree(),
            decreases u64::MAX - rounds,
        {
            match self.notify_round(&branch) {
                Ok(true) => {},
                Ok(false) => {
                    let ghost before = *self;
                    self.note_tracked_run(node, Ghost(after_run@.tree()));
                    proof {
                        assert(settled(before, branch@));
                        assert(self.queued() == before.queued());
                        assert(self.groups() == before.groups());
                        assert(settled(*self, t.top_down(node, false)));
                    }
                    return Ok(());
                },
                Err(e) => {
                    return Err(e);
                },
            }
            rounds = rounds + 1;
        }
        Err(RunTrackedError::Unsettled)
    }
}

impl Context {
    /// Creates a child of the executing action storing `action`, without
    /// running it.
    fn create_child_action<A: Action<Output = ()> + 'static>(&mut self, action: A) -> (res: Result<ActionNodeKey, NotExecuting>)
        requires
            old(self).can_add_node(),
            old(self).current_in_tree(),
        ensures
            final(self).current() == old(self).current(),
            match res {
                Ok(key) => old(self).current() is Some && node_added(*old(self), *final(self), key, old(self).current())
                    && stored_at(*old(self), *final(self), key),
                Err(e) => old(self).current() is None && e == NotExecuting && *final(self) == *old(self),
            },
    {
        if self.current.is_none() {
            return Err(NotExecuting);
        }
        Ok(self.create_branch_action(action))
    }

    /// Takes out of the queue every id that only actions of `branch` track,
    /// returning their members (a member of several such ids once per id)
    /// and whether any id was taken. A queued id that doesn't exist stops
    /// the pass with an error.
    pub fn take_handled(&mut self, branch: &Vec<ActionNodeKey>) -> (res: Result<(Vec<ActionNodeKey>, bool), RunTrackedError>)
        ensures
            same_but_queue(*old(self), *final(self)),
            final(self).queued().subset_of(old(self).queued()),
            match res {
                Ok((members, any)) => {
                    &&& forall|g: u64| #[trigger] old(self).queued().contains(g) ==> old(self).groups().contains_key(g)
                    &&& final(self).queued() == old(self).queued().difference(handled_ids(*old(self), branch@))
                    &&& any == exists|g: u64| #[trigger] handled_ids(*old(self), branch@).contains(g)
                    &&& !any ==> *final(self) == *old(self)
                    &&& forall|k: ActionNodeKey| #[trigger] members@.contains(k) <==> exists|g: u64|
                        #[trigger] handled_ids(*old(self), branch@).contains(g) && old(self).groups()[g].contains(k.id())
                },
                Err(RunTrackedError::UnknownTrackingId(e)) => old(self).queued().contains(e.0.id())
                    && !old(self).groups().contains_key(e.0.id()),
                Err(_) => false,
            },
    {
        let ids = self.iter_to_notify();
        let ghost c0 = *self;
        let ghost handled = handled_ids(c0, branch@);
        let mut members: Vec<ActionNodeKey> = Vec::new();
        let mut any = false;
        let n = ids.len();
        let mut i: usize = 0;
        while i < n
            invariant
                0 <= i <= n,
                n == ids@.len(),
                ids@.no_duplicates(),
                forall|t: TrackingId| #[trigger] ids@.contains(t) <==> c0.queued().contains(t.id()),
                c0 == *old(self),
                handled == handled_ids(c0, branch@),
                same_but_queue(c0, *self),
                !any ==> *self == c0,
                forall|j: int| 0 <= j < i ==> c0.groups().contains_key((#[trigger] ids@[j]).id()),
                self.queued() == c0.queued().difference(
                    Set::new(|g: u64| exists|j: int| 0 <= j < i && ids@[j].id() == g && handled.contains(g)),
                ),
                any == exists|j: int| 0 <= j < i && #[trigger] handled.contains(ids@[j].id()),
                forall|k: ActionNodeKey| #[trigger] members@.contains(k) <==> exists|j: int|
                    0 <= j < i && #[trigger] handled.contains(ids@[j].id()) && c0.groups()[ids@[j].id()].contains(k.id()),
            decreases n - i,
        {
            let id = ids[i];
            proof {
                assert(ids@.contains(id));
            }
            let group = match self.group_members(id.0) {
                Ok(group) => group,
                Err(_) => {
                    return Err(RunTrackedError::UnknownTrackingId(UnknownTrackingId(id)));
                },
            };
            proof {
                lemma_within(group@, c0.groups()[id.id()], branch@);
            }
            let ghost q_before = self.queued();
            let ghost m_before = members@;
            if all_within(&group, branch) {
                any = true;
                let _ = self.unqueue_notify(id);
                let gn = group.len();
                let mut l: usize = 0;
                while l < gn
                    invariant
                        0 <= l <= gn,
                        gn == group@.len(),
                        members@ == m_before + group@.take(l as int),
                    decreases gn - l,
                {
                    members.push(group[l]);
                    proof {
                        assert(group@.take(l + 1) =~= group@.take(l as int).push(group@[l as int]));
                    }
                    l = l + 1;
                }
                proof {
                    assert(group@.take(gn as int) =~= group@);
                    assert(handled.contains(id.id()));
                }
            }
            proof {
                let ii = i as int;
                assert forall|j: int| 0 <= j < ii + 1 implies c0.groups().contains_key((#[trigger] ids@[j]).id()) by {}
                let prev = Set::new(|g: u64| exists|j: int| 0 <= j < ii && ids@[j].id() == g && handled.contains(g));
                let next = Set::new(|g: u64| exists|j: int| 0 <= j < ii + 1 && ids@[j].id() == g && handled.contains(g));
                assert forall|g: u64| #[trigger] next.contains(g) <==> prev.contains(g) || (g == id.id() && handled.contains(g)) by {
                    if next.contains(g) {
                        let j = choose|j: int| 0 <= j < ii + 1 && ids@[j].id() == g && handled.contains(g);
                        if j < ii {
                            assert(prev.contains(g));
                        }
                    }
                    if prev.contains(g) {
                        let j = choose|j: int| 0 <= j < ii && ids@[j].id() == g && handled.contains(g);
                        assert(next.contains(g));
                    }
                    if g == id.id() && handled.contains(g) {
                        assert(ids@[ii].id() == g);
                    }
                }
                assert(self.queued() =~= c0.queued().difference(next));
                assert(any == exists|j: int| 0 <= j < ii + 1 && #[trigger] handled.contains(ids@[j].id())) by {
                    if exists|j: int| 0 <= j < ii + 1 && #[trigger] handled.contains(ids@[j].id()) {
                        let j = choose|j: int| 0 <= j < ii + 1 && #[trigger] handled.contains(ids@[j].id());
                        if j < ii {
                            assert(handled.contains(ids@[j].id()));
                        }
                    }
                }
                assert forall|k: ActionNodeKey| #[trigger] members@.contains(k) <==> exists|j: int|
                    0 <= j < ii + 1 && #[trigger] handled.contains(ids@[j].id()) && c0.groups()[ids@[j].id()].contains(k.id()) by {
                    if members@.contains(k) {
                        let p = choose|p: int| 0 <= p < members@.len() && members@[p] == k;
                        if p < m_before.len() {
                            assert(m_before[p] == k);
                            assert(m_before.contains(k));
                        } else {
                            assert(group@[p - m_before.len()] == k);
                            assert(group@.contains(k));
                            assert(handled.contains(ids@[ii].id()));
                        }
                    }
                    if exists|j: int| 0 <= j < ii + 1 && #[trigger] handled.contains(ids@[j].id()) && c0.groups()[ids@[j].id()].contains(k.id()) {
                        let j = choose|j: int| 0 <= j < ii + 1 && #[trigger] handled.contains(ids@[j].id()) && c0.groups()[ids@[j].id()].contains(k.id());
                        if j < ii {
                            assert(m_before.contains(k));
                            let p = choose|p: int| 0 <= p < m_before.len() && m_before[p] == k;
                            assert(members@[p] == k);
                        } else {
                            assert(group@.contains(k));
                            let p = choose|p: int| 0 <= p < group@.len() && group@[p] == k;
                            assert(members@[m_before.len() + p] == k);
                        }
                    }
                }
            }
            i = i + 1;
        }
        proof {
            let done = Set::new(|g: u64| exists|j: int| 0 <= j < n && ids@[j].id() == g && handled.contains(g));
            assert forall|g: u64| #[trigger] handled.contains(g) implies done.contains(g) && (exists|j: int|
                0 <= j < n && ids@[j].id() == g) by {
                let t = TrackingId(GroupId(g));
                assert(ids@.contains(t));
                let j = choose|j: int| 0 <= j < ids@.len() && ids@[j] == t;
                assert(ids@[j].id() == g);
            }
            assert(done =~= handled);
            assert forall|g: u64| #[trigger] c0.queued().contains(g) implies c0.groups().contains_key(g) by {
                let t = TrackingId(GroupId(g));
                assert(ids@.contains(t));
                let j = choose|j: int| 0 <= j < ids@.len() && ids@[j] == t;
                assert(ids@[j].id() == g);
            }
            if any {
                let j = choose|j: int| 0 <= j < n && #[trigger] handled.contains(ids@[j].id());
                assert(handled.contains(ids@[j].id()));
            }
            if exists|g: u64| #[trigger] handled.contains(g) {
                let g = choose|g: u64| #[trigger] handled.contains(g);
                let j = choose|j: int| 0 <= j < n && ids@[j].id() == g;
                assert(handled.contains(ids@[j].id()));
            }
            assert forall|k: ActionNodeKey| #[trigger] members@.contains(k) <==> exists|g: u64|
                #[trigger] handled.contains(g) && c0.groups()[g].contains(k.id()) by {
                if members@.contains(k) {
                    let j = choose|j: int| 0 <= j < n && #[trigger] handled.contains(ids@[j].id()) && c0.groups()[ids@[j].id()].contains(k.id());
                    assert(handled.contains(ids@[j].id()));
                }
                if exists|g: u64| #[trigger] handled.contains(g) && c0.groups()[g].contains(k.id()) {
                    let g = choose|g: u64| #[trigger] handled.contains(g) && c0.groups()[g].contains(k.id());
                    let j = choose|j: int| 0 <= j < n && ids@[j].id() == g;
                    assert(handled.contains(ids@[j].id()));
                }
            }
        }
        Ok((members, any))
    }

    /// One pass over the queued ids: each id that only actions of `branch`
    /// track leaves the queue, then the actions tracking those ids rerun,
    /// each with its descendants removed first. Returns whether any id was
    /// taken.
    pub fn notify_round(&mut self, branch: &Vec<ActionNodeKey>) -> (res: Result<bool, RunTrackedError>)
        ensures
            final(self).current() == old(self).current(),
            !(res matches Err(RunTrackedError::NotExecuting(_))),
            !(res matches Err(RunTrackedError::Unsettled)),
            res == Ok::<bool, RunTrackedError>(false) ==> *final(self) == *old(self) && settled(*old(self), branch@),
            res == Ok::<bool, RunTrackedError>(true) ==> exists|g: u64| #[trigger] old(self).queued().contains(g)
                && handled_by(*old(self), g, branch@),
            res == Ok::<bool, RunTrackedError>(true) ==> forall|k: ActionNodeKey| #[trigger] final(self).rerun_keys().contains(k)
                <==> exists|g: u64| #[trigger] handled_ids(*old(self), branch@).contains(g) && old(self).groups()[g].contains(
                k.id(),
            ),
    {
        let (members, any) = self.take_handled(branch)?;
        if !any {
            proof {
                assert forall|g: u64| #[trigger] old(self).queued().contains(g) implies old(self).groups().contains_key(g)
                    && !handled_by(*old(self), g, branch@) by {
                    if handled_by(*old(self), g, branch@) {
                        assert(handled_ids(*old(self), branch@).contains(g));
                    }
                }
            }
            return Ok(false);
        }
        proof {
            let g = choose|g: u64| #[trigger] handled_ids(*old(self), branch@).contains(g);
            assert(old(self).queued().contains(g) && handled_by(*old(self), g, branch@));
        }
        let m = members.len();
        let mut j: usize = 0;
        let ghost mut ran: Seq<ActionNodeKey> = Seq::empty();
        while j < m
            invariant
                0 <= j <= m,
                m == members@.len(),
                self.current() == old(self).current(),
                ran == members@.take(j as int),
            decreases m - j,
        {
            let member = members[j];
            if let Err(e) = self.clear_children(member) {
                return Err(RunTrackedError::ClearChildrenError(e));
            }
            let (r, noted, _) = self.run_noted(member);
            if let Err(e) = r {
                return Err(RunTrackedError::RunActionError(e));
            }
            proof {
                ran = ran.push(noted@);
                assert(members@.take(j + 1) =~= members@.take(j as int).push(members@[j as int]));
            }
            j = j + 1;
        }
        proof {
            assert(members@.take(m as int) =~= members@);
        }
        self.note_reruns(Ghost(ran));
        Ok(true)
    }
}

} // verus!
