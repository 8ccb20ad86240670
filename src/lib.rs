//! Index-based storage: slot arenas with free lists, and a directed graph
//! whose adjacency lists are threaded through arena-resident edge records.
pub mod arena;
pub mod graph;
