//! Verified core of `embd`, a tool that embeds the sources of git
//! repositories into another repository.

pub mod add;
pub mod cache;
pub mod color;
pub mod command;
pub mod config;
pub mod filter;
pub mod git;
pub mod hash;
pub mod keymap;
pub mod order;
pub mod paths;
pub mod relpath;
pub mod render;
pub mod scan;
pub mod text;
pub mod tree;
pub mod update;
pub mod walks;
