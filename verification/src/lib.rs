//! A plugin host for an investigative graph-building tool: modules run
//! in a sandboxed execution environment, receive graph data over a
//! binary wire format, and hand back graph fragments to merge.
//!
//! The crate holds the graph data model, the wire codec both sides of
//! the sandbox boundary agree on, the typed contract a module must
//! expose, and the lifecycle state machine of one loaded module.

pub mod codec;
pub mod config;
pub mod graph;
pub mod plugin;
pub mod types;
