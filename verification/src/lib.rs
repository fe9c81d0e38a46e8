//! Draws a directory tree, as text or as a tree of records, from a
//! snapshot of the filesystem held as plain values, with filters on
//! extension, size, name pattern, modification date and hidden names.

pub mod compare;
pub mod date;
pub mod entry;
pub mod filter;
pub mod generate;
pub mod json;
pub mod name;
pub mod pattern;
pub mod shown;
pub mod text;
