//! Instant local file search: an in-memory index of names and paths, the query
//! language that selects from it, and the rules that keep it current.

pub mod arena;
pub mod bytestr;
pub mod config;
pub mod db;
pub mod decimal;
pub mod display;
pub mod engine;
pub mod events;
pub mod index;
pub mod model;
pub mod outside;
pub mod path;
pub mod preview;
pub mod query;
pub mod scan;
pub mod search;
pub mod text;
pub mod tree;
pub mod watch;
