//! Topical PageRank variant.
//!
//! Biases the random walk towards topically important words: weighted
//! co-occurrence graph construction combined with a personalized PageRank
//! whose teleport distribution reflects per-word topic importance. Users
//! supply pre-computed topic weights (`lemma → weight`); words absent from
//! the mapping receive a configurable minimum weight (default 0).

use vstd::prelude::*;
use crate::csr::{compile, CsrGraph};
use crate::graph_builder::{spec_build_cfg, spec_edge_weight_model, spec_node_keys, GraphBuilder};
use crate::pagerank::{rank, spec_distribution, spec_run, RankOutput};
use crate::sums::as_ints;
use crate::teleport::{build_teleport, spec_teleport, TopicWeights};
use crate::types::{TextRankConfig, Token, MAX_COOC_PAIRS, SCALE};

verus! {

/// Power-iteration runner configured for one (optionally personalized)
/// ranking run. A thin, fluent wrapper around [`rank`].
#[derive(Debug)]
pub struct PersonalizedPageRank {
    /// Damping factor in fixed-point units, strictly between 0 and
    /// `SCALE`.
    pub damping: u64,
    /// Upper bound on update steps.
    pub max_iterations: u32,
    /// Convergence threshold for the L1 residual.
    pub threshold: u64,
    /// Teleport vector, already normalized; `None` means uniform.
    pub personalization: Option<Vec<u64>>,
}

impl PersonalizedPageRank {
    /// Defaults: damping 0.85, at most 100 iterations, threshold 1e-6,
    /// uniform teleport.
    pub fn new() -> (r: PersonalizedPageRank)
        ensures
            r.damping == 850_000_000_000u64,
            r.max_iterations == 100u32,
            r.threshold == 1_000_000u64,
            r.personalization is None,
    {
        PersonalizedPageRank {
            damping: 850_000_000_000,
            max_iterations: 100,
            threshold: 1_000_000,
            personalization: None,
        }
    }

    /// Replace the damping factor.
    pub fn with_damping(self, damping: u64) -> (r: Self)
        ensures
            r == (Self { damping, ..self }),
    {
        Self { damping, ..self }
    }

    /// Replace the iteration cap.
    pub fn with_max_iterations(self, max_iterations: u32) -> (r: Self)
        ensures
            r == (Self { max_iterations, ..self }),
    {
        Self { max_iterations, ..self }
    }

    /// Replace the convergence threshold.
    pub fn with_threshold(self, threshold: u64) -> (r: Self)
        ensures
            r == (Self { threshold, ..self }),
    {
        Self { threshold, ..self }
    }

    /// Supply a normalized teleport vector.
    pub fn with_personalization(self, personalization: Vec<u64>) -> (r: Self)
        ensures
            r == (Self { personalization: Some(personalization), ..self }),
    {
        Self { personalization: Some(personalization), ..self }
    }

    /// Run the engine on `graph` (see [`rank`] for the exact contract).
    pub fn run(&self, graph: &CsrGraph) -> (out: RankOutput)
        requires
            graph.wf(),
            0 < self.damping < SCALE,
            self.personalization is Some ==> graph.n() >= 1 && spec_distribution(
                as_ints(self.personalization->0@),
                graph.n(),
            ),
        ensures
            out.scores@.len() == graph.n(),
            graph.n() == 0 ==> out.converged && out.iterations == 0 && out.residual == 0,
            graph.n() >= 1 ==> {
                let t0 = match self.personalization {
                    Some(p) => as_ints(p@),
                    None => crate::pagerank::spec_uniform(graph.n()),
                };
                let m = spec_run(
                    *graph,
                    self.damping as int,
                    t0,
                    self.threshold as int,
                    t0,
                    self.max_iterations as int,
                );
                &&& as_ints(out.scores@) == m.scores
                &&& out.iterations as int == m.steps
                &&& out.converged == m.converged
                &&& out.residual as int == m.residual
                &&& spec_distribution(as_ints(out.scores@), graph.n())
            },
            out.iterations <= self.max_iterations,
            out.converged ==> out.residual <= self.threshold,
            !out.converged && graph.n() >= 1 ==> out.iterations == self.max_iterations,
    {
        match &self.personalization {
            Some(p) => rank(graph, self.damping, self.max_iterations, self.threshold, Some(p)),
            None => rank(graph, self.damping, self.max_iterations, self.threshold, None),
        }
    }
}

/// Result of one topical ranking run: the compiled graph (whose node order
/// indexes the scores, and whose keys give the reverse lookup for phrase
/// assembly), the engine output, and the convergence information.
#[derive(Debug)]
pub struct ExtractionResult {
    /// The compiled co-occurrence graph the run ranked.
    pub graph: CsrGraph,
    /// The engine output: scores by node index, plus residual.
    pub output: RankOutput,
    /// Whether the run converged within the iteration cap.
    pub converged: bool,
    /// Number of update steps performed.
    pub iterations: u32,
}

impl Default for TopicalPageRank {
    /// Same as [`TopicalPageRank::new`].
    fn default() -> (r: Self)
        ensures
            r.topic_weights.entries@.len() == 0,
            r.min_weight == 0,
            r.config.spec_is_default(),
            r.config.spec_valid(),
    {
        TopicalPageRank::new()
    }
}

/// Topical PageRank extractor.
#[derive(Debug)]
pub struct TopicalPageRank {
    /// Graph-construction and ranking configuration.
    pub config: TextRankConfig,
    /// Topic importance weights (`lemma → weight`).
    pub topic_weights: TopicWeights,
    /// Weight assigned to words absent from `topic_weights`.
    pub min_weight: u64,
}

impl TopicalPageRank {
    /// Create a new extractor with the default configuration, no topic
    /// weights, and minimum out-of-vocabulary weight 0.
    pub fn new() -> (r: TopicalPageRank)
        ensures
            r.topic_weights.entries@.len() == 0,
            r.min_weight == 0,
            r.config.spec_is_default(),
            r.config.spec_valid(),
    {
        TopicalPageRank {
            config: Default::default(),
            topic_weights: TopicWeights::new(),
            min_weight: 0,
        }
    }

    /// Create with a custom configuration.
    pub fn with_config(config: TextRankConfig) -> (r: TopicalPageRank)
        ensures
            r.config == config,
            r.topic_weights.entries@.len() == 0,
            r.min_weight == 0,
    {
        TopicalPageRank { config, topic_weights: TopicWeights::new(), min_weight: 0 }
    }

    /// Set the topic importance weights.
    pub fn with_topic_weights(self, topic_weights: TopicWeights) -> (r: Self)
        ensures
            r == (Self { topic_weights, ..self }),
    {
        Self { topic_weights, ..self }
    }

    /// Set the minimum weight for out-of-vocabulary words.
    pub fn with_min_weight(self, min_weight: u64) -> (r: Self)
        ensures
            r == (Self { min_weight, ..self }),
    {
        Self { min_weight, ..self }
    }

    /// Get the current topic weights.
    pub fn topic_weights(&self) -> (r: &TopicWeights)
        ensures
            r == &self.topic_weights,
    {
        &self.topic_weights
    }

    /// Get the minimum weight.
    pub fn min_weight(&self) -> (r: u64)
        ensures
            r == self.min_weight,
    {
        self.min_weight
    }

    /// Rank the nodes of the token sequence's co-occurrence graph with
    /// topic-biased PageRank.
    ///
    /// The graph is built SingleRank-style (weighted co-occurrence
    /// counts) under the configured window, POS filter and
    /// sentence-boundary policy; the teleport vector comes from the topic
    /// weights; the engine then runs to convergence or to the iteration
    /// cap. An empty builder short-circuits: no solver runs, and the
    /// result reports trivial convergence with zero iterations.
    pub fn extract_with_info(&self, tokens: &Vec<Token>) -> (r: ExtractionResult)
        requires
            self.config.spec_valid(),
            (tokens@.len() as int) * (self.config.window_size as int) <= MAX_COOC_PAIRS as int,
        ensures
            r.graph.wf(),
            r.graph.keys_view() == spec_node_keys(
                tokens@,
                self.config.include_pos@,
                self.config.use_pos_in_nodes,
            ),
            forall|x: int, y: int|
                0 <= x < r.graph.n() && 0 <= y < r.graph.n() && x != y
                    ==> #[trigger] r.graph.edge_weight(x, y) == spec_edge_weight_model(
                    tokens@,
                    spec_build_cfg(
                        self.config.include_pos@,
                        self.config.use_pos_in_nodes,
                        self.config.ignore_sentence_boundaries,
                        self.config.window_size as int,
                        true,
                    ),
                    r.graph.keys_view()[x],
                    r.graph.keys_view()[y],
                ),
            r.converged == r.output.converged,
            r.iterations == r.output.iterations,
            r.output.scores@.len() == r.graph.n(),
            r.graph.n() == 0 ==> r.converged && r.iterations == 0,
            r.graph.n() >= 1 ==> {
                let t0 = spec_teleport(r.graph, self.topic_weights.entries@, self.min_weight);
                let m = spec_run(
                    r.graph,
                    self.config.damping as int,
                    t0,
                    self.config.convergence_threshold as int,
                    t0,
                    self.config.max_iterations as int,
                );
                &&& as_ints(r.output.scores@) == m.scores
                &&& r.iterations as int == m.steps
                &&& r.converged == m.converged
                &&& r.output.residual as int == m.residual
                &&& spec_distribution(as_ints(r.output.scores@), r.graph.n())
            },
            r.iterations <= self.config.max_iterations,
            !r.converged ==> r.iterations == self.config.max_iterations,
    {
        let builder = GraphBuilder::from_tokens(
            tokens,
            self.config.window_size,
            true,  // SingleRank-style: always weighted co-occurrence counts
            &self.config.include_pos,
            self.config.use_pos_in_nodes,
            self.config.ignore_sentence_boundaries,
        );
        let graph = compile(&builder);
        if graph.node_count() == 0 {
            let output = rank(
                &graph,
                self.config.damping,
                self.config.max_iterations,
                self.config.convergence_threshold,
                None,
            );
            let converged = output.converged;
            let iterations = output.iterations;
            return ExtractionResult { graph, output, converged, iterations };
        }
        let personalization = build_teleport(&self.topic_weights, &graph, self.min_weight);
        let output = PersonalizedPageRank::new()
            .with_damping(self.config.damping)
            .with_max_iterations(self.config.max_iterations)
            .with_threshold(self.config.convergence_threshold)
            .with_personalization(personalization)
            .run(&graph);
        let converged = output.converged;
        let iterations = output.iterations;
        ExtractionResult { graph, output, converged, iterations }
    }
}

} // verus!
