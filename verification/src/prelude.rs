//! The item that a host application needs.

pub use crate::DiagnosticExplorerAgentPlugin;
