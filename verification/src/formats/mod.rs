//! Parsers of the individual formats. Each one hands back a [`crate::doc::Doc`]
//! and knows nothing about the interface.

pub mod code;
pub mod table;
pub mod markup;
pub mod word;
pub mod tree;
pub mod markdown;
pub mod data;
pub mod excel;
