pub mod daemon;
pub mod keymap;
pub mod platform;
