//! Structure-aware outline tooling: call-graph and import-graph traversal,
//! project-root discovery, and the decisions of the installers that place
//! the agent prompt and hook into an agent's configuration.
pub mod graph;
pub mod traverse;
pub mod traverse_laws;
pub mod traverse_first;
pub mod traverse_depth;
pub mod deps;
pub mod text;
pub mod paths;
pub mod installers;
pub mod json;
pub mod settings;
pub mod agent;
