//! Keyphrase-ranking core: co-occurrence graph construction, a compressed
//! adjacency representation, and a personalized PageRank engine.
//!
//! All per-node quantities that are conceptually probabilities (teleport
//! weights, scores, damping, convergence thresholds) are carried as
//! fixed-point integers in units of 1e-12, so that every arithmetic step is
//! exact and the stochastic-vector invariants can be proved rather than
//! approximated.

pub mod error_code;
pub mod sums;
pub mod types;
pub mod graph_builder;
pub mod csr;
pub mod pagerank;
pub mod teleport;
pub mod topical_pagerank;
pub mod observer;
pub mod runner;

pub use csr::{compile, prune_edges, CsrGraph};
pub use error_code::ErrorCode;
pub use graph_builder::GraphBuilder;
pub use pagerank::{rank, RankOutput};
pub use runner::run_pipeline;
pub use teleport::{build_teleport, TopicWeights};
pub use topical_pagerank::{ExtractionResult, PersonalizedPageRank, TopicalPageRank};
pub use types::{PosTag, TextRankConfig, Token, SCALE};
