//! Token-level change highlighting for HTML documents.
//!
//! Both documents are split into tokens (runs of text, start tags, end
//! tags), the token lists are diffed with the patience algorithm, and the
//! new document is written out again with what is new wrapped in `<ins>`.

pub mod classes;
pub mod highlight;
pub mod sanitize;
pub mod style;
pub mod text;
pub mod tokendiff;
pub mod tokenize;
