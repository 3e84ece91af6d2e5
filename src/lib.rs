//! A personal bookmark catalogue: bookmarks with a title, notes, a creation
//! time and a set of tags, kept under the integrity rules of three relations
//! (bookmarks, tags, links), with add, delete, lookup and substring search.
//!
//! `store` holds the catalogue and its operations, `search` the two searches,
//! `model` the relations as mathematical values, and `laws` what holds across
//! several operations.

pub mod bookmark;
mod clock;
pub mod laws;
pub mod model;
pub mod request;
pub mod search;
pub mod store;
