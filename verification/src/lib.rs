//! Terminal presentation engine: markdown decks become slides whose title
//! stack persists, laid out as wrapped, styled text lines.

pub mod strings;
pub mod markdown;
pub mod deck;
pub mod parse;
pub mod wrap;
pub mod table;
pub mod render;
pub mod app;
