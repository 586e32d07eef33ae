pub mod damerau;
pub mod distance_spec;
pub mod engine;
pub mod one_edit;
pub mod static_map;
