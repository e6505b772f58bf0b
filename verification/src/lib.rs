//! Verified core of Zed Workspace Dock: the rules for workspace files,
//! link and workspace names, docks and their locks, and the Zed tasks file.

pub mod dock;
pub mod edit;
pub mod encoding;
pub mod error;
pub mod install;
pub mod lifecycle;
pub mod order;
pub mod paths;
pub mod text;
pub mod workspace;
