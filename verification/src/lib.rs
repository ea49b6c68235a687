//! An embedded snippet store with verified migration tracking and
//! typo-tolerant full-text search.
//!
//! The store keeps short text snippets and finds them again by approximate
//! match: a query is tokenized, each misspelled term is replaced by the
//! closest vocabulary term, and the matching snippets come back ranked by
//! term frequency.  Schema changes are applied by a migration runner that
//! identifies each script by a content fingerprint and executes it exactly
//! once per store.

pub mod distance;
pub mod migrate;
pub mod search;
pub mod store;
pub mod text;
