//! A verified core for turning archives of chess game records into a small
//! relational store of players and games, and for reading it back with
//! filters, sorting and pagination.
pub mod text;
pub mod speed;
pub mod outcome;
pub mod record;
pub mod store;
pub mod importer;
pub mod query;
