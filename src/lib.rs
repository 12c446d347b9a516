//! A multiplexer over a changing set of asynchronous sources.
//!
//! [`pending_set::PendingSet`] is an arena of suspended units with a ready
//! queue: only units that were woken (or freshly pushed) are handed out for
//! resumption. [`select_all::SelectAll`] merges the items of many sources on
//! top of it, re-arming each source after every item it yields.

pub mod pending_set;
pub mod select_all;
