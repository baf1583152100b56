//! Workspace-based power controls for existing Lima and Azure dev machines:
//! the configuration model, its validation and workspace selection, the
//! provider commands that Fleet runs, and the parsing of their replies.

pub mod error;
pub mod text;
pub mod command;
pub mod path;
pub mod config;
pub mod backend;
pub mod import;
pub mod cli;
