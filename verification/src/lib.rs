//! Production planning for a factory game: from the amounts chosen by a
//! linear solver, the library builds the production graph (which recipe
//! feeds which), lays it out in columns, and computes what the user
//! interface draws and how its panels follow the user's choices.

pub mod amount;
pub mod builder;
pub mod buildings;
pub mod build_inv;
pub mod build_laws;
pub mod build_spec;
pub mod cycles;
pub mod dot;
pub mod graph;
pub mod id_map;
pub mod interner;
pub mod ids;
pub mod node_set;
pub mod panels;
pub mod plan;
pub mod recipe;
pub mod render;
pub mod sort_nodes;
pub mod utils;
