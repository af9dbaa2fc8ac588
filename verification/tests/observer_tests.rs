use rapid_textrank::observer::{
    NoopObserver, PipelineObserver, StageReport, StageReportBuilder, StageTimingObserver,
    STAGE_CANDIDATES, STAGE_FORMAT, STAGE_GRAPH, STAGE_GRAPH_TRANSFORM, STAGE_PHRASES,
    STAGE_PREPROCESS, STAGE_RANK, STAGE_TELEPORT,
};
use rapid_textrank::csr::compile;
use rapid_textrank::graph_builder::GraphBuilder;
use rapid_textrank::pagerank::rank;
use rapid_textrank::types::Token;

fn run_with_observer(obs: &mut impl PipelineObserver) {
    obs.on_stage_start(STAGE_RANK);
    obs.on_stage_end(STAGE_RANK, &StageReport::new(10_000));
}

#[test]
fn test_new_report_has_only_duration() {
    let report = StageReport::new(500);
    assert_eq!(report.duration_us(), 500);
    assert!(report.nodes().is_none());
    assert!(report.edges().is_none());
    assert!(report.iterations().is_none());
    assert!(report.converged().is_none());
    assert!(report.residual().is_none());
}

#[test]
fn test_builder_graph_fields() {
    let report = StageReportBuilder::new(3_000).nodes(128).edges(512).build();

    assert_eq!(report.duration_us(), 3_000);
    assert_eq!(report.nodes(), Some(128));
    assert_eq!(report.edges(), Some(512));
    assert!(report.iterations().is_none());
    assert!(report.converged().is_none());
    assert!(report.residual().is_none());
}

#[test]
fn test_builder_ranker_fields() {
    // residual 1e-7 in fixed-point units of 1e-12
    let report = StageReportBuilder::new(10_000)
        .iterations(42)
        .converged(true)
        .residual(100_000)
        .build();

    assert_eq!(report.iterations(), Some(42));
    assert_eq!(report.converged(), Some(true));
    assert_eq!(report.residual(), Some(100_000));
    assert!(report.nodes().is_none());
}

#[test]
fn test_builder_all_fields() {
    // residual 0.01 in fixed-point units of 1e-12
    let report = StageReportBuilder::new(999)
        .nodes(64)
        .edges(256)
        .iterations(100)
        .converged(false)
        .residual(10_000_000_000)
        .build();

    assert_eq!(report.duration_us(), 999);
    assert_eq!(report.nodes(), Some(64));
    assert_eq!(report.edges(), Some(256));
    assert_eq!(report.iterations(), Some(100));
    assert_eq!(report.converged(), Some(false));
    assert_eq!(report.residual(), Some(10_000_000_000));
}

#[test]
fn test_report_clone_and_eq() {
    let report = StageReportBuilder::new(5_000).nodes(10).build();
    let cloned = report.clone();
    assert_eq!(report, cloned);
}

#[test]
fn test_zero_duration_report() {
    let report = StageReport::new(0);
    assert_eq!(report.duration_us(), 0);
}

#[test]
fn test_noop_observer_compiles_and_runs() {
    let mut obs = NoopObserver;
    obs.on_stage_start(STAGE_PREPROCESS);
    obs.on_stage_end(STAGE_PREPROCESS, &StageReport::new(1_000));
    // No panics, no side effects — that's the contract.
}

#[test]
fn test_noop_observer_artifact_callbacks() {
    let mut obs = NoopObserver;
    let tokens: Vec<Token> = Vec::new();
    let builder = GraphBuilder::from_tokens(&tokens, 2, true, &Vec::new(), false, false);
    let graph = compile(&builder);
    let output = rank(&graph, 850_000_000_000, 100, 1_000_000, None);

    obs.on_tokens(&tokens);
    obs.on_graph(&graph);
    obs.on_rank(&output);
}

#[test]
fn test_stage_timing_observer_collects_reports() {
    let mut obs = StageTimingObserver::new();
    assert!(obs.reports().is_empty());

    let r1 = StageReportBuilder::new(2_000).nodes(10).edges(20).build();
    let r2 = StageReportBuilder::new(5_000).iterations(42).converged(true).build();

    obs.on_stage_start(STAGE_GRAPH);
    obs.on_stage_end(STAGE_GRAPH, &r1);
    obs.on_stage_start(STAGE_RANK);
    obs.on_stage_end(STAGE_RANK, &r2);

    assert_eq!(obs.reports().len(), 2);
    assert_eq!(obs.reports()[0].stage, STAGE_GRAPH);
    assert_eq!(obs.reports()[0].report.nodes(), Some(10));
    assert_eq!(obs.reports()[1].stage, STAGE_RANK);
    assert_eq!(obs.reports()[1].report.iterations(), Some(42));
}

#[test]
fn test_stage_timing_observer_total_duration() {
    let mut obs = StageTimingObserver::new();
    obs.on_stage_end(STAGE_PREPROCESS, &StageReport::new(1_000));
    obs.on_stage_end(STAGE_CANDIDATES, &StageReport::new(2_000));
    obs.on_stage_end(STAGE_GRAPH, &StageReport::new(3_000));

    assert_eq!(obs.total_duration_us(), 6_000);
}

#[test]
fn test_stage_timing_observer_empty_total() {
    let obs = StageTimingObserver::new();
    assert_eq!(obs.total_duration_us(), 0);
}

struct RecordingObserver {
    started: Vec<&'static str>,
    ended: Vec<&'static str>,
}

impl RecordingObserver {
    fn new() -> Self {
        Self { started: vec![], ended: vec![] }
    }
}

impl PipelineObserver for RecordingObserver {
    fn on_stage_start(&mut self, stage: &'static str) {
        self.started.push(stage);
    }
    fn on_stage_end(&mut self, stage: &'static str, _report: &StageReport) {
        self.ended.push(stage);
    }
}

#[test]
fn test_custom_observer_receives_callbacks() {
    let mut obs = RecordingObserver::new();

    obs.on_stage_start(STAGE_CANDIDATES);
    obs.on_stage_end(STAGE_CANDIDATES, &StageReport::new(1_000));
    obs.on_stage_start(STAGE_GRAPH);
    obs.on_stage_end(STAGE_GRAPH, &StageReport::new(2_000));

    assert_eq!(obs.started, vec![STAGE_CANDIDATES, STAGE_GRAPH]);
    assert_eq!(obs.ended, vec![STAGE_CANDIDATES, STAGE_GRAPH]);
}

#[test]
fn test_observer_generic_dispatch() {
    // Verify the trait works through generic function boundaries.
    let mut timing = StageTimingObserver::new();
    run_with_observer(&mut timing);
    assert_eq!(timing.reports().len(), 1);

    let mut noop = NoopObserver;
    run_with_observer(&mut noop); // compiles and runs — zero overhead
}

#[test]
fn test_stage_name_constants_are_distinct() {
    let names = [
        STAGE_PREPROCESS,
        STAGE_CANDIDATES,
        STAGE_GRAPH,
        STAGE_GRAPH_TRANSFORM,
        STAGE_TELEPORT,
        STAGE_RANK,
        STAGE_PHRASES,
        STAGE_FORMAT,
    ];
    // All names should be unique.
    let mut sorted = names.to_vec();
    sorted.sort();
    sorted.dedup();
    assert_eq!(sorted.len(), names.len(), "Stage name constants must be unique");
}

#[test]
fn test_stage_clock_elapsed_micros() {
    let clock = rapid_textrank::observer::StageClock::start();
    let _d = clock.elapsed();
    let _us = clock.elapsed_us();
}
