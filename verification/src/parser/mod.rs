//! The two stages that turn text into a tree: the tokenizer and the tree
//! builder.
pub mod alike;
pub mod order;
pub mod parse;
pub mod shape;
pub mod spans;
pub mod tokenize;
