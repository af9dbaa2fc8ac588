//! Pipeline observer — hooks for logging, profiling, and debugging.
//!
//! Observers receive notifications at stage boundaries without coupling to
//! stage logic. [`StageReport`] is a low-overhead metrics record collected
//! per stage by the pipeline runner; only the duration is always populated,
//! the remaining fields depend on the stage. Stage names are stable
//! identifiers.

use vstd::prelude::*;
use std::time::{Duration, Instant};
use crate::csr::CsrGraph;
use crate::pagerank::RankOutput;
use crate::types::Token;

verus! {

/// Well-known stage name: token preprocessing.
pub const STAGE_PREPROCESS: &'static str = "preprocess";

/// Well-known stage name: candidate selection.
pub const STAGE_CANDIDATES: &'static str = "candidates";

/// Well-known stage name: graph construction.
pub const STAGE_GRAPH: &'static str = "graph";

/// Well-known stage name: graph transforms.
pub const STAGE_GRAPH_TRANSFORM: &'static str = "graph_transform";

/// Well-known stage name: teleport vector construction.
pub const STAGE_TELEPORT: &'static str = "teleport";

/// Well-known stage name: ranking.
pub const STAGE_RANK: &'static str = "rank";

/// Well-known stage name: phrase building.
pub const STAGE_PHRASES: &'static str = "phrases";

/// Well-known stage name: result formatting.
pub const STAGE_FORMAT: &'static str = "format";

#[verifier::external_type_specification]
#[verifier::external_body]
pub struct ExInstant(Instant);

/// Relies on `std::time::Instant::now`: an opaque monotonic timestamp.
/// The result depends on the clock, so nothing is promised of it.
#[verifier::external_body]
fn instant_now() -> Instant {
    Instant::now()
}

/// Relies on `std::time::Instant::elapsed`: the time since `start`. The
/// result depends on the clock, so nothing is promised of it.
#[verifier::external_body]
fn instant_elapsed(start: &Instant) -> Duration {
    start.elapsed()
}

/// Relies on `std::time::Duration::as_micros`, truncated to 64 bits. The
/// durations it is applied to come from the clock, of which nothing is
/// known.
#[verifier::external_body]
pub(crate) fn duration_as_micros(d: &Duration) -> u64 {
    d.as_micros() as u64
}

/// Low-overhead per-stage metrics collected by the pipeline runner.
///
/// Every stage produces a duration; the remaining fields are populated
/// only by the stages that have the relevant information (node and edge
/// counts by graph construction; iterations, convergence and residual by
/// ranking). The residual is a fixed-point value in units of 1e-12.
#[derive(Clone, Debug, PartialEq)]
pub struct StageReport {
    /// Wall-clock duration of the stage in microseconds.
    duration_us: u64,
    /// Number of graph nodes produced (graph construction).
    nodes: Option<usize>,
    /// Number of graph edges produced (graph construction).
    edges: Option<usize>,
    /// Number of iterations performed (ranking).
    iterations: Option<u32>,
    /// Whether the ranker converged within threshold (ranking).
    converged: Option<bool>,
    /// Final convergence residual (L1-norm delta, fixed-point units).
    residual: Option<u64>,
}

impl StageReport {
    /// Create a report with only the stage duration (in microseconds).
    pub fn new(duration_us: u64) -> (r: StageReport)
        ensures
            r.duration_us() == duration_us,
            r.nodes() is None,
            r.edges() is None,
            r.iterations() is None,
            r.converged() is None,
            r.residual() is None,
    {
        StageReport {
            duration_us,
            nodes: None,
            edges: None,
            iterations: None,
            converged: None,
            residual: None,
        }
    }

    /// Wall-clock duration of the stage in microseconds.
    pub closed spec fn spec_duration_us(&self) -> u64 {
        self.duration_us
    }

    /// Wall-clock duration of the stage in microseconds.
    #[verifier::when_used_as_spec(spec_duration_us)]
    pub fn duration_us(&self) -> (r: u64)
        ensures
            r == self.spec_duration_us(),
    {
        self.duration_us
    }

    /// Number of graph nodes, if reported.
    pub closed spec fn spec_nodes(&self) -> Option<usize> {
        self.nodes
    }

    /// Number of graph nodes, if reported.
    #[verifier::when_used_as_spec(spec_nodes)]
    pub fn nodes(&self) -> (r: Option<usize>)
        ensures
            r == self.spec_nodes(),
    {
        self.nodes
    }

    /// Number of graph edges, if reported.
    pub closed spec fn spec_edges(&self) -> Option<usize> {
        self.edges
    }

    /// Number of graph edges, if reported.
    #[verifier::when_used_as_spec(spec_edges)]
    pub fn edges(&self) -> (r: Option<usize>)
        ensures
            r == self.spec_edges(),
    {
        self.edges
    }

    /// Number of ranker iterations, if reported.
    pub closed spec fn spec_iterations(&self) -> Option<u32> {
        self.iterations
    }

    /// Number of ranker iterations, if reported.
    #[verifier::when_used_as_spec(spec_iterations)]
    pub fn iterations(&self) -> (r: Option<u32>)
        ensures
            r == self.spec_iterations(),
    {
        self.iterations
    }

    /// Whether the ranker converged, if reported.
    pub closed spec fn spec_converged(&self) -> Option<bool> {
        self.converged
    }

    /// Whether the ranker converged, if reported.
    #[verifier::when_used_as_spec(spec_converged)]
    pub fn converged(&self) -> (r: Option<bool>)
        ensures
            r == self.spec_converged(),
    {
        self.converged
    }

    /// Final convergence residual (fixed-point units), if reported.
    pub closed spec fn spec_residual(&self) -> Option<u64> {
        self.residual
    }

    /// Final convergence residual (fixed-point units), if reported.
    #[verifier::when_used_as_spec(spec_residual)]
    pub fn residual(&self) -> (r: Option<u64>)
        ensures
            r == self.spec_residual(),
    {
        self.residual
    }
}

/// Fluent builder for [`StageReport`]: start from the stage duration,
/// chain the optional field setters, and finish with `build`.
pub struct StageReportBuilder {
    /// The report under construction.
    report: StageReport,
}

impl StageReportBuilder {
    /// The report under construction.
    pub closed spec fn spec_report(&self) -> StageReport {
        self.report
    }

    /// Start building a report with the given stage duration in
    /// microseconds.
    pub fn new(duration_us: u64) -> (r: StageReportBuilder)
        ensures
            r.spec_report().duration_us() == duration_us,
            r.spec_report().nodes() is None,
            r.spec_report().edges() is None,
            r.spec_report().iterations() is None,
            r.spec_report().converged() is None,
            r.spec_report().residual() is None,
    {
        StageReportBuilder { report: StageReport::new(duration_us) }
    }

    /// Record the number of graph nodes.
    pub fn nodes(self, n: usize) -> (r: Self)
        ensures
            r.spec_report().nodes() == Some(n),
            r.spec_report().duration_us() == self.spec_report().duration_us(),
            r.spec_report().edges() == self.spec_report().edges(),
            r.spec_report().iterations() == self.spec_report().iterations(),
            r.spec_report().converged() == self.spec_report().converged(),
            r.spec_report().residual() == self.spec_report().residual(),
    {
        StageReportBuilder { report: StageReport { nodes: Some(n), ..self.report } }
    }

    /// Record the number of graph edges.
    pub fn edges(self, n: usize) -> (r: Self)
        ensures
            r.spec_report().edges() == Some(n),
            r.spec_report().duration_us() == self.spec_report().duration_us(),
            r.spec_report().nodes() == self.spec_report().nodes(),
            r.spec_report().iterations() == self.spec_report().iterations(),
            r.spec_report().converged() == self.spec_report().converged(),
            r.spec_report().residual() == self.spec_report().residual(),
    {
        StageReportBuilder { report: StageReport { edges: Some(n), ..self.report } }
    }

    /// Record the number of ranker iterations.
    pub fn iterations(self, n: u32) -> (r: Self)
        ensures
            r.spec_report().iterations() == Some(n),
            r.spec_report().duration_us() == self.spec_report().duration_us(),
            r.spec_report().nodes() == self.spec_report().nodes(),
            r.spec_report().edges() == self.spec_report().edges(),
            r.spec_report().converged() == self.spec_report().converged(),
            r.spec_report().residual() == self.spec_report().residual(),
    {
        StageReportBuilder { report: StageReport { iterations: Some(n), ..self.report } }
    }

    /// Record whether the ranker converged.
    pub fn converged(self, c: bool) -> (r: Self)
        ensures
            r.spec_report().converged() == Some(c),
            r.spec_report().duration_us() == self.spec_report().duration_us(),
            r.spec_report().nodes() == self.spec_report().nodes(),
            r.spec_report().edges() == self.spec_report().edges(),
            r.spec_report().iterations() == self.spec_report().iterations(),
            r.spec_report().residual() == self.spec_report().residual(),
    {
        StageReportBuilder { report: StageReport { converged: Some(c), ..self.report } }
    }

    /// Record the final convergence residual (fixed-point units).
    pub fn residual(self, r0: u64) -> (r: Self)
        ensures
            r.spec_report().residual() == Some(r0),
            r.spec_report().duration_us() == self.spec_report().duration_us(),
            r.spec_report().nodes() == self.spec_report().nodes(),
            r.spec_report().edges() == self.spec_report().edges(),
            r.spec_report().iterations() == self.spec_report().iterations(),
            r.spec_report().converged() == self.spec_report().converged(),
    {
        StageReportBuilder { report: StageReport { residual: Some(r0), ..self.report } }
    }

    /// Consume the builder and return the finished report.
    pub fn build(self) -> (r: StageReport)
        ensures
            r == self.spec_report(),
    {
        self.report
    }
}

/// Receives notifications at pipeline stage boundaries.
///
/// All methods have default no-op implementations, so implementors only
/// override the callbacks they need. The runner calls `on_stage_start`
/// before a stage executes and `on_stage_end` after it, with the metrics;
/// artifact callbacks follow the producing stage, giving observers a
/// read-only view of each intermediate result. A skipped stage omits its
/// notifications. The no-op default costs nothing after monomorphization.
pub trait PipelineObserver {
    /// Called before a stage begins execution.
    fn on_stage_start(&mut self, stage: &'static str) {
    }

    /// Called after a stage completes, with its metrics.
    fn on_stage_end(&mut self, stage: &'static str, report: &StageReport) {
    }

    /// Called after preprocessing with the token stream.
    fn on_tokens(&mut self, tokens: &Vec<Token>) {
    }

    /// Called after graph construction with the compiled graph.
    fn on_graph(&mut self, graph: &CsrGraph) {
    }

    /// Called after ranking with scores and convergence info.
    fn on_rank(&mut self, output: &RankOutput) {
    }
}

/// No-op observer: all callbacks are empty, and the compiler eliminates
/// the call sites entirely via monomorphization.
#[derive(Clone, Copy, Debug, Default)]
pub struct NoopObserver;

impl PipelineObserver for NoopObserver {
}

/// One collected timing record.
#[derive(Clone, Debug)]
pub struct StageTiming {
    /// Name of the stage.
    pub stage: String,
    /// The metrics reported at the end of the stage.
    pub report: StageReport,
}

/// Sum of the recorded reports' durations in microseconds, as a
/// mathematical integer.
pub open spec fn spec_total_us(reports: Seq<StageTiming>) -> int {
    crate::sums::sum_int(reports.map_values(|r: StageTiming| r.report.duration_us() as int))
}

/// Collects a [`StageReport`] for every finished stage, in execution
/// order: the simplest useful observer.
#[derive(Debug)]
pub struct StageTimingObserver {
    /// The collected records, in execution order.
    pub reports: Vec<StageTiming>,
}

impl StageTimingObserver {
    /// Create an empty observer.
    pub fn new() -> (r: StageTimingObserver)
        ensures
            r.reports@.len() == 0,
    {
        StageTimingObserver { reports: Vec::new() }
    }

    /// The collected records in execution order.
    pub fn reports(&self) -> (r: &Vec<StageTiming>)
        ensures
            r == &self.reports,
    {
        &self.reports
    }

    /// Total wall-clock duration across all recorded stages, in
    /// microseconds, saturating at `u64::MAX`.
    pub fn total_duration_us(&self) -> (t: u64)
        ensures
            spec_total_us(self.reports@) <= u64::MAX ==> t as int == spec_total_us(
                self.reports@,
            ),
            spec_total_us(self.reports@) > u64::MAX ==> t == u64::MAX,
    {
        let ghost durs = self.reports@.map_values(|r: StageTiming| r.report.duration_us() as int);
        let mut t: u64 = 0;
        let mut i: usize = 0;
        while i < self.reports.len()
            invariant
                i <= self.reports@.len(),
                durs == self.reports@.map_values(
                    |r: StageTiming| r.report.duration_us() as int,
                ),
                crate::sums::sum_int(durs.take(i as int)) <= u64::MAX ==> t as int
                    == crate::sums::sum_int(durs.take(i as int)),
                crate::sums::sum_int(durs.take(i as int)) > u64::MAX ==> t == u64::MAX,
                t as int <= crate::sums::sum_int(durs.take(i as int)),
            decreases self.reports@.len() - i,
        {
            proof {
                crate::sums::lemma_sum_take_step(durs, i as int);
            }
            let d = self.reports[i].report.duration_us();
            if t <= u64::MAX - d {
                t = t + d;
            } else {
                t = u64::MAX;
            }
            i = i + 1;
        }
        proof {
            assert(durs.take(self.reports@.len() as int) =~= durs);
        }
        t
    }
}

impl PipelineObserver for StageTimingObserver {
    fn on_stage_end(&mut self, stage: &'static str, report: &StageReport) {
        let record = StageTiming {
            stage: copy_stage_name(stage),
            report: report.clone(),
        };
        self.reports.push(record);
    }
}

/// Copy a stage name into an owned string.
fn copy_stage_name(stage: &str) -> (r: String)
    ensures
        r@ == stage@,
{
    <String as vstd::string::StringExecFns>::from_str(stage)
}

/// Lightweight timer for measuring stage durations: start the clock
/// before a stage, read `elapsed` after it completes.
pub struct StageClock {
    /// The instant the clock was started.
    start: Instant,
}

impl StageClock {
    /// Start the clock.
    pub fn start() -> StageClock {
        StageClock { start: instant_now() }
    }

    /// Elapsed time since the clock was started.
    pub fn elapsed(&self) -> Duration {
        instant_elapsed(&self.start)
    }

    /// Elapsed time since the clock was started, in microseconds.
    pub fn elapsed_us(&self) -> u64 {
        let d = instant_elapsed(&self.start);
        duration_as_micros(&d)
    }
}

} // verus!
