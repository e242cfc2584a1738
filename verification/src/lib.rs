//! Placeholder substitution for template text in the style of PEP 292.
//!
//! A template is plain text in which `$identifier` and `${identifier}` stand
//! for replacements that a [`Mapping`] holds, and `$$` stands for a literal
//! `$`. An identifier is an ASCII letter or underscore followed by ASCII
//! letters, digits and underscores. Any other use of `$` makes the text
//! malformed.
//!
//! [`Template::substitute`] renders strictly: a placeholder without a
//! replacement is an error. [`Template::safe_substitute`] renders
//! permissively: such a placeholder is copied to the output unchanged. Both
//! either return the whole output or an error, never a part of the output.
//!
//! The modules:
//! - [`parser`]: the tokens of a template, the grammar as functions on byte
//!   sequences, and the tokenizer;
//! - [`template`]: the function [`template::render`], which says what a text
//!   renders to, and the two operations, proved to compute it;
//! - [`laws`]: what follows for every text and every mapping;
//! - [`mapping`]: the substitution mapping;
//! - [`error`]: the errors and their messages;
//! - [`text`]: bytes and strings, and why the output is valid UTF-8.

pub mod error;
pub mod laws;
pub mod mapping;
pub mod parser;
pub mod template;
pub mod text;

pub use error::TemplateError;
pub use mapping::Mapping;
pub use parser::token;
pub use parser::Token;
pub use template::Template;
