# caaqi

A self-adjusting computation library, verified with Verus: a tree of
rerunnable actions, groups and tracking ids that rerun the actions depending
on them, sync keys that tie rewinds together, and the scheduling decisions of
an executor that rewinds and reruns actions after writes.

## Layout

- `src/action_tree.rs` — action nodes, top-down and bottom-up walks, the
  cursor, node creation and removal.
- `src/context.rs` — the context that holds every resource, with the
  invariant that ties them to the tree.
- `src/current.rs`, `src/action.rs` — the executing action, stored actions
  and their reruns.
- `src/grouping.rs`, `src/tracking.rs`, `src/sync.rs` — groups, tracking ids
  and sync keys.
- `src/builder.rs`, `src/runner.rs`, `src/routine.rs` — building actions,
  rewinds and sync keys from running actions.
- `src/schedule.rs`, `src/executor.rs` — tree orders, rewind sets, which
  nodes to rewind or run, which actions writes mark.
- `src/scope.rs`, `src/ui_tree.rs` — scoped collection and UI trees.
- `src/collections.rs` — the slot maps and small vectors the state lives in.
- `src/laws.rs` — properties that relate several operations.
- `app/` — displayable errors and the loop that executes trees until they
  settle.
