pub mod detector;
pub mod resolver;
