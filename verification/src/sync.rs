//! Sync keys: actions synced with a key are rewound together. Each key
//! lists the actions synced with it, and each action the keys it is synced
//! with; an action leaves its keys when it is rewound or removed.

use vstd::prelude::*;

use crate::action::{Action, ActionExt};
use crate::action_tree::{ActionNodeKey, ActionTreeExt, UnknownNode};
use crate::context::{Context, Core};
use crate::current::NotExecuting;
use crate::grouping::set_to_vec;

verus! {

/// Identifies a sync key.
#[derive(Clone, Copy, PartialEq, Eq, Hash, Debug, Structural)]
pub struct SyncKey(pub(crate) u64);

impl SyncKey {
    /// The key as a number, unique among the sync keys of a context.
    pub open(crate) spec fn id(self) -> u64 {
        self.0
    }
}

/// What a change of the sync keys leaves alone.
pub open spec fn same_but_syncs(a: Context, b: Context) -> bool {
    &&& a.tree() == b.tree()
    &&& a.current() == b.current()
    &&& a.groups() == b.groups()
    &&& a.next_group_id() == b.next_group_id()
    &&& a.stored() == b.stored()
    &&& a.queued() == b.queued()
    &&& a.rewind_ids() == b.rewind_ids()
}

/// The numbers of the sync keys `node` is synced with.
pub open spec fn keys_of(ctx: Context, node: ActionNodeKey) -> Set<u64> {
    Set::new(|k: u64| ctx.syncs().contains_key(k) && ctx.syncs()[k].contains(node.id()))
}

/// Creates a sync key with no action synced with it yet.
pub fn create_sync_key(ctx: &mut Context) -> (res: SyncKey)
    requires
        old(ctx).next_sync_key() < u64::MAX,
    ensures
        !old(ctx).syncs().contains_key(res.id()),
        final(ctx).syncs() == old(ctx).syncs().insert(res.id(), Set::empty()),
        final(ctx).next_sync_key() == old(ctx).next_sync_key() + 1,
        same_but_syncs(*old(ctx), *final(ctx)),
{
    proof {
        use_type_invariant(&*ctx);
    }
    let mut core = Core::new();
    std::mem::swap(&mut core, &mut ctx.core);
    let k = core.syncs.create(Ghost(core.tree));
    ctx.core = core;
    SyncKey(k)
}

/// Drops `key`, which no action may be synced with any more.
pub fn drop_sync_key(ctx: &mut Context, key: SyncKey)
    requires
        old(ctx).syncs().contains_key(key.id()),
        old(ctx).syncs()[key.id()].is_empty(),
    ensures
        final(ctx).syncs() == old(ctx).syncs().remove(key.id()),
        final(ctx).next_sync_key() == old(ctx).next_sync_key(),
        same_but_syncs(*old(ctx), *final(ctx)),
{
    proof {
        use_type_invariant(&*ctx);
    }
    let mut core = Core::new();
    std::mem::swap(&mut core, &mut ctx.core);
    let _ = core.syncs.remove_group(Ghost(core.tree), key.0);
    ctx.core = core;
}

/// Drops `key` if it exists and no action is synced with it. Returns
/// whether it did.
pub fn try_drop_sync_key(ctx: &mut Context, key: SyncKey) -> (res: bool)
    ensures
        res == (old(ctx).syncs().contains_key(key.id()) && old(ctx).syncs()[key.id()].is_empty()),
        res ==> final(ctx).syncs() == old(ctx).syncs().remove(key.id()),
        !res ==> *final(ctx) == *old(ctx),
        final(ctx).next_sync_key() == old(ctx).next_sync_key(),
        same_but_syncs(*old(ctx), *final(ctx)),
{
    proof {
        use_type_invariant(&*ctx);
    }
    let droppable = match ctx.core.syncs.members.get(&key.0) {
        Some(actions) => {
            let listed = set_to_vec(actions);
            proof {
                if listed@.len() == 0 {
                    assert(actions@ =~= listed@.to_set());
                } else {
                    assert(listed@.to_set().contains(listed@[0]));
                }
            }
            listed.len() == 0
        },
        None => false,
    };
    if droppable {
        drop_sync_key(ctx, key);
    }
    droppable
}

/// Syncs the action `node` with each of `keys`.
pub fn sync_with(ctx: &mut Context, node: ActionNodeKey, keys: &Vec<SyncKey>)
    requires
        old(ctx).tree().has(node),
        forall|i: int| 0 <= i < keys@.len() ==> old(ctx).syncs().contains_key((#[trigger] keys@[i]).id()),
    ensures
        final(ctx).syncs().dom() == old(ctx).syncs().dom(),
        forall|k: u64| #[trigger] final(ctx).syncs().contains_key(k) ==> final(ctx).syncs()[k] == if (exists|i: int|
            0 <= i < keys@.len() && keys@[i].id() == k) {
            old(ctx).syncs()[k].insert(node.id())
        } else {
            old(ctx).syncs()[k]
        },
        final(ctx).next_sync_key() == old(ctx).next_sync_key(),
        same_but_syncs(*old(ctx), *final(ctx)),
{
    proof {
        use_type_invariant(&*ctx);
    }
    let ghost s0 = ctx.syncs();
    let mut core = Core::new();
    std::mem::swap(&mut core, &mut ctx.core);
    let n = keys.len();
    let mut i: usize = 0;
    while i < n
        invariant
            0 <= i <= n,
            n == keys@.len(),
            core.wf(),
            core.tree == old(ctx).tree(),
            core.groups == old(ctx).core.groups,
            core.actions == old(ctx).core.actions,
            core.syncs.next_id == old(ctx).next_sync_key(),
            s0 == old(ctx).syncs(),
            core.tree.has(node),
            forall|j: int| 0 <= j < keys@.len() ==> s0.contains_key((#[trigger] keys@[j]).id()),
            core.syncs.mv().dom() == s0.dom(),
            forall|k: u64| #[trigger] core.syncs.mv().contains_key(k) ==> core.syncs.mv()[k] == if (exists|j: int|
                0 <= j < i && keys@[j].id() == k) {
                s0[k].insert(node.id())
            } else {
                s0[k]
            },
        decreases n - i,
    {
        let key = keys[i];
        let ghost before = core.syncs.mv();
        let _ = core.syncs.add_membership(Ghost(core.tree), key.0, node);
        proof {
            assert(keys@[i as int] == key);
            assert forall|k: u64| #[trigger] core.syncs.mv().contains_key(k) implies core.syncs.mv()[k] == if (exists|j: int|
                0 <= j < i + 1 && keys@[j].id() == k) {
                s0[k].insert(node.id())
            } else {
                s0[k]
            } by {
                if k == key.0 {
                    assert(keys@[i as int].id() == k);
                    if exists|j: int| 0 <= j < i && keys@[j].id() == k {
                        assert(before[k] == s0[k].insert(node.id()));
                        assert(before[k].insert(node.id()) =~= before[k]);
                    }
                } else {
                    if exists|j: int| 0 <= j < i + 1 && keys@[j].id() == k {
                        let j = choose|j: int| 0 <= j < i + 1 && keys@[j].id() == k;
                        assert(j != i);
                    }
                }
            }
        }
        i = i + 1;
    }
    ctx.core = core;
}

/// `node` leaves every sync key it is synced with.
pub fn unsync(ctx: &mut Context, node: ActionNodeKey) -> (res: Result<(), UnknownNode>)
    ensures
        match res {
            Ok(()) => {
                &&& old(ctx).tree().has(node)
                &&& final(ctx).syncs().dom() == old(ctx).syncs().dom()
                &&& forall|k: u64| #[trigger] final(ctx).syncs().contains_key(k) ==> final(ctx).syncs()[k]
                    == old(ctx).syncs()[k].remove(node.id())
            },
            Err(e) => !old(ctx).tree().has(node) && e == UnknownNode(node) && *final(ctx) == *old(ctx),
        },
        final(ctx).next_sync_key() == old(ctx).next_sync_key(),
        same_but_syncs(*old(ctx), *final(ctx)),
{
    proof {
        use_type_invariant(&*ctx);
    }
    if !ctx.core.tree.contains(node) {
        return Err(UnknownNode(node));
    }
    let mut core = Core::new();
    std::mem::swap(&mut core, &mut ctx.core);
    core.syncs.remove_node(Ghost(core.tree), node);
    ctx.core = core;
    Ok(())
}

/// The sync keys `node` is synced with, each once, in no particular order.
pub fn synced_with(ctx: &Context, node: ActionNodeKey) -> (res: Result<Vec<SyncKey>, UnknownNode>)
    ensures
        match res {
            Ok(v) => {
                &&& ctx.tree().has(node)
                &&& v@.no_duplicates()
                &&& forall|k: SyncKey| #[trigger] v@.contains(k) <==> keys_of(*ctx, node).contains(k.id())
            },
            Err(e) => !ctx.tree().has(node) && e == UnknownNode(node),
        },
{
    proof {
        use_type_invariant(ctx);
    }
    if !ctx.core.tree.contains(node) {
        return Err(UnknownNode(node));
    }
    let ids = ctx.core.syncs.groups_of_node(Ghost(ctx.core.tree), node);
    let mut res: Vec<SyncKey> = Vec::new();
    let n = ids.len();
    let mut i: usize = 0;
    while i < n
        invariant
            0 <= i <= n,
            n == ids@.len(),
            ids@.no_duplicates(),
            res@.len() == i,
            forall|j: int| 0 <= j < i ==> (#[trigger] res@[j]).id() == ids@[j],
        decreases n - i,
    {
        res.push(SyncKey(ids[i]));
        i = i + 1;
    }
    proof {
        assert forall|k: SyncKey| #[trigger] res@.contains(k) <==> keys_of(*ctx, node).contains(k.id()) by {
            if res@.contains(k) {
                let j = choose|j: int| 0 <= j < res@.len() && res@[j] == k;
                assert(ids@.to_set().contains(ids@[j]));
            }
            if keys_of(*ctx, node).contains(k.id()) {
                assert(ids@.to_set().contains(k.id()));
                let j = choose|j: int| 0 <= j < ids@.len() && ids@[j] == k.id();
                assert(res@[j] == k);
            }
        }
        assert forall|a: int, b: int| 0 <= a < b < res@.len() implies res@[a] != res@[b] by {
            assert(ids@[a] != ids@[b]);
        }
    }
    Ok(res)
}

} // verus!
