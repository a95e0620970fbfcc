//! Frontier-driven crawl engine with content-addressed persistence.
//!
//! The crate holds the decisions of a battle-record crawler: which player
//! identifiers are pending and which were visited, which writes a fetched
//! battle log asks of the archive, and under which content hash each card
//! variant and deck is stored. Network and disk access are left to the caller.

pub mod api_client;
pub mod api_models;
pub mod clustering;
pub mod config;
pub mod crawler;
pub mod data_loader;
pub mod db;
pub mod frontier;
pub mod hasher;
pub mod integrity;
pub mod order;
pub mod plan;
pub mod rows;
pub mod sha;
pub mod store;
pub mod text;
