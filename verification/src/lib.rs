//! A byte editor library: content buffer, cursor and viewport model,
//! formatters, undo history, search, key input and the command-word parsing
//! used by the editor, and the arithmetic of its screen.
pub mod bounds;
pub mod display;
pub mod editor;
pub mod shell;
pub mod input_interface;
pub mod matching;
pub mod text;
