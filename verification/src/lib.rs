//! Linearization of directed graphs: the nodes of a graph of documents that
//! link to each other are put in one order in which, as far as the links allow,
//! every document follows the documents it links to. Cycles are broken first, by
//! cutting in each cycle that is found the edge into the node with the most
//! outgoing edges; what is left is sorted topologically.
//!
//! The graph structure is kept by `petgraph`, behind the contracts of the module
//! `links`; everything else is proved against those contracts. Beside the core
//! stand the graph of the links between notes, the condensation of a graph, two
//! further serializers, the outline of a graph and the cost of a cheapest
//! branching.

pub mod adjacency;
pub mod book;
pub mod chain;
pub mod chu_liu;
pub mod components;
pub mod condense;
pub mod cut;
pub mod dfs_serializer;
pub mod eliminate;
pub mod graph;
pub mod link_model;
pub mod links;
pub mod notes;
pub mod outline;
pub mod scc_subgraph;
pub mod serialize;
