pub mod cli;
pub mod clock;
pub mod digraph;
pub mod event;
pub mod names;
pub mod parser;
pub mod patterns;
pub mod scanner;
pub mod sorting;
pub mod summary;
pub mod text;
