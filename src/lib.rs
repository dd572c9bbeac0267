//! Scaffolding a directory from bricks: template directories with an ordered list of
//! actions that insert files, edit them around a selector, or run a command.
pub mod actions;
pub mod brick;
pub mod cli;
pub mod config;
pub mod context;
pub mod error;
pub mod resolve;
pub mod text;
pub mod workspace;
