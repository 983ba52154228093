//! A personal command launcher: named shell-command snippets are loaded from
//! structured text files into a registry, offered to an external picker
//! program, and the chosen one is run through the host shell.

pub mod text;
pub mod types;
pub mod registry;
pub mod selector;
pub mod exec;
pub mod config;
pub mod clipboard;
