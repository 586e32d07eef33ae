pub mod base;
pub mod correction;
pub mod hooks;
pub mod language;
pub mod memory;
pub mod pipeline;
pub mod text;
