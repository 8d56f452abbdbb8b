pub mod data;
pub mod laws;
pub mod parse;
