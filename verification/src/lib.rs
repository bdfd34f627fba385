//! A generator of strings from a compact, regex-flavored template language.
//!
//! A pattern is scanned left to right once per call; escape directives
//! (`\d`, `\w`, ...), character classes with optional negation and ranges,
//! quantifiers (`{n}`, `{n,m}`, `{n:m}`), capture groups with backreferences,
//! a stateful counter (`\i`) and a value pool cursor (`\a`) each append text
//! to the output as they are recognized.

pub mod alphabets;
pub mod engine;
pub mod generator;
pub mod laws;
pub mod model;
pub mod numerals;
pub mod sampling;
