pub mod parse;
pub mod sorting;
pub mod text;
