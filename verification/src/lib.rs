//! A library for self-adjusting computation: a tree of rerunnable actions,
//! groups of action nodes, and tracking ids that rerun the actions that
//! depend on them.

pub mod action;
pub mod action_tree;
pub mod builder;
pub mod collections;
pub mod context;
pub mod current;
pub mod executor;
pub mod grouping;
pub mod laws;
pub mod layout;
pub mod routine;
pub mod runner;
pub mod schedule;
pub mod scope;
pub mod sync;
pub mod tracking;
pub mod ui_tree;
