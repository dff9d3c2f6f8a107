//! A local store of code snippets: each one a piece of code with a language
//! label and free-form tags, kept in insertion order and unique by id.
pub mod snippet;
pub mod store;
pub mod text;
