//! The list of toplevels that taskbars and docks see.
//!
//! Two protocols show the same list: the wlr management protocol, where every manager that a
//! client binds gets a handle per toplevel, and the ext list. Both are brought up to date together
//! by [`crate::state::State::foreign_toplevel_refresh`].

pub mod announce;
pub mod data;
pub mod encoding;
pub mod heard_laws;
pub mod laws;
pub mod manager;
pub mod refresh;
pub mod list_laws;
pub mod replay_laws;
