//! A query language and an in-memory index over resource documents,
//! with the helpers that turn request filters into queries.

pub mod text;
pub mod query;
pub mod order;
pub mod number;
pub mod scanner;
pub mod bql;
pub mod parser;
pub mod idset;
pub mod json;
pub mod flatserde;
pub mod resource;
pub mod decode;
pub mod logic;
pub mod data;
pub mod index;
pub mod kvstore;
pub mod datastore;
pub mod service;
pub mod cli;
pub mod backend;
pub mod records;
pub mod server;
pub mod responses;
