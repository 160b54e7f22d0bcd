//! An ordered container of (integer key, string label) records, kept in an
//! unbalanced binary search tree, together with the parser of its line
//! oriented command language.
pub mod command;
pub mod tree;
