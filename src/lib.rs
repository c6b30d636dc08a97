//! Decision engine of a process-monitoring agent: the process snapshot model,
//! the parent/child tree, the allowlist policy, the anomaly detector, the
//! enforcement cycle and the export record rendering.
pub mod config;
pub mod enforce;
pub mod export;
pub mod monitor;
pub mod platform;
pub mod policy;
pub mod text;
pub mod tree;
