//! promptml: a verified parser and data model for a small textual markup
//! language.  Source text mixes literal runs, escape sequences (`\\`, `\[`,
//! `\]`) and bracketed control blocks (`[name]` or `[name|opt1,opt2]`).
//! Parsing yields an ordered sequence of fragments; a template wraps such a
//! sequence and renders it back to text.

pub mod fragment;
pub mod laws;
pub mod parser;
pub mod template;

pub use fragment::PromptFragment;
pub use parser::parse_markup;
pub use template::PromptTemplate;
