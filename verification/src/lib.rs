//! A content-addressed note store whose notes are found again by the
//! hashtags written in their text.
//!
//! - `tag` reads the tags out of a note's text, and `tokenizer` reads a
//!   filter such as `a,b,c|d` into its AND tags and OR tags.
//! - `hash` gives a note its identity, the digest of its text.
//! - `persistence` says what a note store is: its three tables, what each
//!   operation does to them, and the laws that follow. `persistence::memory`
//!   is a store kept in memory; `persistence::sqlite` holds the statements
//!   by which a SQLite engine keeps the same tables.
//! - `service` puts them together: create, query and update by text.

mod clock;
pub mod error;
pub mod hash;
pub mod model;
pub mod persistence;
pub mod service;
pub mod tag;
pub mod text;
pub mod tokenizer;
