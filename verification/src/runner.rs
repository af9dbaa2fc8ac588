//! Pipeline orchestrator: validate the configuration, then drive
//! graph construction → (teleport) → ranking in fixed order, notifying an
//! observer at every stage boundary.
//!
//! The orchestrator holds no cross-call state: artifacts thread from one
//! stage to the next, and the observer receives start/end notifications
//! (with a metrics record) plus a read-only view of each produced
//! artifact. A skipped stage (teleport, when no topic weights are given)
//! omits its notifications.

use vstd::prelude::*;
use crate::csr::{compile, CsrGraph};
use crate::error_code::ErrorCode;
use crate::graph_builder::{spec_build_cfg, spec_edge_weight_model, spec_node_keys, GraphBuilder};
use crate::observer::{
    duration_as_micros, PipelineObserver, StageClock, StageReportBuilder, STAGE_GRAPH,
    STAGE_RANK, STAGE_TELEPORT,
};
use crate::pagerank::{rank, spec_distribution, spec_run, spec_uniform, RankOutput};
use crate::sums::as_ints;
use crate::teleport::{build_teleport, spec_teleport, TopicWeights};
use crate::topical_pagerank::ExtractionResult;
use crate::types::{TextRankConfig, Token, MAX_COOC_PAIRS};

verus! {

/// Whether the document size is within the co-occurrence accumulator's
/// machine limit for the configured window.
pub open spec fn spec_size_ok(tokens_len: int, window: int) -> bool {
    tokens_len * window <= MAX_COOC_PAIRS as int
}

/// Run the ranking pipeline on one annotated token sequence.
///
/// Invalid configuration is rejected before any work begins, with the
/// exact error of [`TextRankConfig::validate`]; a document too large for
/// the configured window is rejected with `LimitExceeded`. On success the
/// stages run in fixed order — graph, teleport (only for `Some` topic
/// weights), rank — with observer notifications around each, and the
/// result carries the compiled graph and the engine output; non-convergence
/// is reported in the flag, never hidden.
pub fn run_pipeline<Obs: PipelineObserver>(
    tokens: &Vec<Token>,
    config: &TextRankConfig,
    topic_weights: Option<&TopicWeights>,
    min_weight: u64,
    observer: &mut Obs,
) -> (r: Result<ExtractionResult, ErrorCode>)
    ensures
        r is Ok <==> config.spec_valid() && spec_size_ok(
            tokens@.len() as int,
            config.window_size as int,
        ),
        r is Err ==> r->Err_0 == (if !config.spec_valid() {
            config.spec_validation_error()->0
        } else {
            ErrorCode::LimitExceeded
        }),
        r is Ok ==> {
            let out = r->Ok_0;
            &&& out.graph.wf()
            &&& out.graph.keys_view() == spec_node_keys(
                tokens@,
                config.include_pos@,
                config.use_pos_in_nodes,
            )
            &&& (forall|x: int, y: int|
                0 <= x < out.graph.n() && 0 <= y < out.graph.n() && x != y
                    ==> #[trigger] out.graph.edge_weight(x, y) == spec_edge_weight_model(
                    tokens@,
                    spec_build_cfg(
                        config.include_pos@,
                        config.use_pos_in_nodes,
                        config.ignore_sentence_boundaries,
                        config.window_size as int,
                        config.weighted,
                    ),
                    out.graph.keys_view()[x],
                    out.graph.keys_view()[y],
                ))
            &&& out.converged == out.output.converged
            &&& out.iterations == out.output.iterations
            &&& out.output.scores@.len() == out.graph.n()
            &&& (out.graph.n() == 0 ==> out.converged && out.iterations == 0)
            &&& (out.graph.n() >= 1 ==> {
                let t0 = match topic_weights {
                    Some(tw) => spec_teleport(out.graph, tw.entries@, min_weight),
                    None => spec_uniform(out.graph.n()),
                };
                let m = spec_run(
                    out.graph,
                    config.damping as int,
                    t0,
                    config.convergence_threshold as int,
                    t0,
                    config.max_iterations as int,
                );
                &&& as_ints(out.output.scores@) == m.scores
                &&& out.iterations as int == m.steps
                &&& out.converged == m.converged
                &&& out.output.residual as int == m.residual
                &&& spec_distribution(as_ints(out.output.scores@), out.graph.n())
            })
            &&& out.iterations <= config.max_iterations
            &&& (!out.converged ==> out.iterations == config.max_iterations)
        },
{
    match config.validate() {
        Ok(()) => (),
        Err(e) => {
            return Err(e);
        },
    }
    proof {
        vstd::std_specs::vec::axiom_spec_len(tokens);
        vstd::arithmetic::mul::lemma_mul_upper_bound(
            tokens@.len() as int,
            u64::MAX as int,
            config.window_size as int,
            u64::MAX as int,
        );
    }
    if (tokens.len() as u128) * (config.window_size as u128) > MAX_COOC_PAIRS as u128 {
        return Err(ErrorCode::LimitExceeded);
    }
    observer.on_tokens(tokens);

    // Graph stage.
    observer.on_stage_start(STAGE_GRAPH);
    let clock = StageClock::start();
    let builder = GraphBuilder::from_tokens(
        tokens,
        config.window_size,
        config.weighted,
        &config.include_pos,
        config.use_pos_in_nodes,
        config.ignore_sentence_boundaries,
    );
    let graph = compile(&builder);
    let elapsed = clock.elapsed();
    let graph_report = StageReportBuilder::new(duration_as_micros(&elapsed))
        .nodes(graph.node_count())
        .edges(graph.edge_count())
        .build();
    observer.on_stage_end(STAGE_GRAPH, &graph_report);
    observer.on_graph(&graph);

    if graph.node_count() == 0 {
        let output = rank(
            &graph,
            config.damping,
            config.max_iterations,
            config.convergence_threshold,
            None,
        );
        let converged = output.converged;
        let iterations = output.iterations;
        return Ok(ExtractionResult { graph, output, converged, iterations });
    }

    // Teleport stage (skipped entirely when no topic weights are given).
    let personalization: Option<Vec<u64>> = match topic_weights {
        Some(tw) => {
            observer.on_stage_start(STAGE_TELEPORT);
            let clock = StageClock::start();
            let t = build_teleport(tw, &graph, min_weight);
            let elapsed = clock.elapsed();
            let report = StageReportBuilder::new(duration_as_micros(&elapsed)).build();
            observer.on_stage_end(STAGE_TELEPORT, &report);
            Some(t)
        },
        None => None,
    };

    // Rank stage.
    observer.on_stage_start(STAGE_RANK);
    let clock = StageClock::start();
    let output = match &personalization {
        Some(p) => rank(
            &graph,
            config.damping,
            config.max_iterations,
            config.convergence_threshold,
            Some(p),
        ),
        None => rank(
            &graph,
            config.damping,
            config.max_iterations,
            config.convergence_threshold,
            None,
        ),
    };
    let elapsed = clock.elapsed();
    let rank_report = StageReportBuilder::new(duration_as_micros(&elapsed))
        .iterations(output.iterations)
        .converged(output.converged)
        .residual(output.residual)
        .build();
    observer.on_stage_end(STAGE_RANK, &rank_report);
    observer.on_rank(&output);

    let converged = output.converged;
    let iterations = output.iterations;
    Ok(ExtractionResult { graph, output, converged, iterations })
}

} // verus!
