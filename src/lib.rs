//! The conductor of a judging cluster: it converts Polygon packages into problem revisions
//! (strategy, dependency graph, content-addressed archive of tests) and decides, message by
//! message, how a connection with an invoker proceeds.

pub mod archive_store;
pub mod conductor;
pub mod config;
pub mod errors;
pub mod invoker;
pub mod message;
pub mod polygon;
pub mod problem;
pub mod verdict;
