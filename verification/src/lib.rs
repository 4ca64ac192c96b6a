//! A tree browser over live tmux: the verified core.

pub mod ansi;
pub mod app;
pub mod build_info;
pub mod cli;
pub mod config;
pub mod geometry;
pub mod label;
pub mod parse;
pub mod pattern;
pub mod peek;
pub mod text;
pub mod tmux;
pub mod tree;
pub mod view;
