//! An in-memory table for a log-structured store: an inline skip list of
//! internal keys, its iterator, and the options that configure a database.

pub mod arena;
pub mod chain;
pub mod common;
pub mod comparator;
pub mod draws;
pub mod inline_skiplist;
pub mod laws;
pub mod meaning;
pub mod node;
pub mod options;
pub mod order;
pub mod record;
pub mod util;
