//! A deterministic knowledge-graph substrate: entity storage, community
//! detection by label propagation, bounded multi-hop retrieval, and an indexer
//! for line-structured documents.

// Ghost items are imported like others, and are gone from compiled code.
#![allow(unused_imports)]

pub mod graph;
pub mod indexer;

pub mod adjacency;
pub mod casing;
pub mod collation;
pub mod context;
pub mod cutting;
pub mod document;
pub mod hash;
pub mod model;
pub mod modularity;
pub mod network;
pub mod partition;
pub mod propagation;
pub mod retrieval;
pub mod scoring;
pub mod string_map;
pub mod sums;
pub mod sweep;
pub mod text;
pub mod traversal;

pub mod answer_laws;
pub mod clique_laws;
pub mod community_laws;
pub mod context_laws;
pub mod document_laws;
pub mod edge_laws;
pub mod graph_laws;
pub mod labelling_laws;
pub mod modularity_laws;
pub mod network_laws;
pub mod operation_laws;
pub mod reading_laws;
pub mod scoring_laws;
pub mod settling_laws;
pub mod storage_laws;
pub mod telling_laws;
pub mod text_laws;
pub mod walk_laws;
