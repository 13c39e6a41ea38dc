//! Resolution and orchestration of a directory of playbooks.
//!
//! The library works on snapshots: the names a directory listing gave and
//! the text that reading a file gave. From these it builds the playbook
//! index, resolves selection tokens, extracts playbook metadata, renders the
//! reports and decides, step by step, how the external engine is driven.

pub mod commands;
pub mod directory;
pub mod error;
pub mod index;
pub mod selection;
pub mod text;
pub mod utilities;
pub mod yaml;
