//! A verified parser and formatter for the todo.txt line format.
//!
//! A line such as `x (A) 2024-09-20 2024-08-15 Hello World +hello @wow due:123`
//! is parsed into a [`parser::Todo`] record (completion flag, priority, dates,
//! project, context, key:value tags, title) and rendered back into its
//! canonical line form.  [`file::TodoFile`] holds an ordered collection of
//! records and offers filtering, searching, sorting and derived listings.
//!
//! The grammar's word and whitespace classes are ASCII (see [`chars`]):
//! characters outside ASCII are title text, never part of a structural
//! token.

pub mod chars;
pub mod date;
pub mod scan;
pub mod tags;
pub mod parser;
pub mod file;
pub mod order;
pub mod laws;
