//! The layout of the game's folders.
pub mod paths;
