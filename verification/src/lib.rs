//! Turns the replies of Neo4j's schema procedures into a readable schema.
//!
//! The way of a property through the library: rows of the schema procedures are
//! collected into tables ([`props`]) within a [`scope`]; every property becomes a
//! task, whose [`annotation`] is asked for from live data as its type
//! ([`data_type`]) has it; the answers are put with their properties
//! ([`resolve`]); and the sections are rendered ([`renderer`]) together with the
//! edge patterns of the graph ([`topology`]). Running the queries is left to the
//! caller.

pub mod annotation;
pub mod data_type;
pub mod json;
pub mod order;
pub mod ordered_map;
pub mod props;
pub mod queries;
pub mod renderer;
pub mod resolve;
pub mod scope;
pub mod text;
pub mod topology;
pub mod type_set;
