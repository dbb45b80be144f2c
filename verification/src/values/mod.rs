//! Encodings of values.
//!
//! A segment stores bytes. These modules give the bytes a structure:
//!
//! - `entity_location`: where an entity lies in stored tables
//! - `location_set`: several such places under one key
//! - `adjacency`: the edges of a node in a graph
//! - `path_entries`: the entities under a file path

pub mod adjacency;
pub mod entity_location;
pub mod field;
pub mod location_set;
pub mod path_entries;
