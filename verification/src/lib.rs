//! An in-process publish/subscribe topic router.
//!
//! Subscribers register interest in hierarchical, `/`-delimited topic
//! patterns (with the single-level wildcard `+` and the multi-level
//! wildcard `#`), and published topics are matched against every stored
//! pattern by a trie walk.

pub mod broker;
pub mod topic;
pub mod trie;

pub use broker::{Broker, Subscriber};
