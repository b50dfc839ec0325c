//! Compile karaconf keymap profiles into Karabiner-Elements rules.

pub mod config;
pub mod converter;
pub mod json;
pub mod karabiner;
pub mod keys;
pub mod layouts;
pub mod text;
pub mod sync;
pub mod laws;
