//! Turning typed bytes into commands.
pub mod inputter;
pub mod keys;
pub mod modes;
