//! Tracks Python class definitions, their import-resolved parent classes and
//! the file layout of generated factory modules.

pub mod strings;
pub mod path;
pub mod assoc;
pub mod imports;
pub mod visitor;
pub mod generator;
pub mod laws;
pub mod parse;
