//! Verified logic of a set of small programs: a tabular query engine with
//! its query language, number-guessing strategies, a game-playing agent and
//! the bookkeeping of a chat service.
pub mod dataset;
pub mod query;
pub mod analytics;
pub mod server;
pub mod checks;
pub mod text;
pub mod query_parser;
pub mod board;
pub mod agent;
pub mod guessing;
pub mod chat;
pub mod render;
pub mod symmetry;
