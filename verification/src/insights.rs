//! The figures that the analysis produces: a plain tree of values.

use vstd::prelude::*;

verus! {

/// A share of a whole, kept exact: `100 * part / whole` percent.
///
/// A share of nothing is written as 0 parts of 1, so `whole` is never 0.
#[derive(Debug, Clone, Copy)]
pub struct Percentage {
    pub part: usize,
    pub whole: usize,
}

impl Percentage {
    /// Whether the share is written with a whole that is not 0.
    pub open spec fn wf(self) -> bool {
        self.whole > 0
    }

    /// Whether the share is at least `percent` percent.
    pub open spec fn reaches(self, percent: int) -> bool {
        100 * self.part >= percent * self.whole
    }

    /// Whether the share is more than `percent` percent.
    pub open spec fn is_above(self, percent: int) -> bool {
        100 * self.part > percent * self.whole
    }

    /// `part` of `whole`; 0 percent where `whole` is 0.
    pub fn of(part: usize, whole: usize) -> (share: Percentage)
        ensures
            share.wf(),
            whole > 0 ==> share == (Percentage { part, whole }),
            whole == 0 ==> share == (Percentage { part: 0, whole: 1 }),
    {
        if whole > 0 {
            Percentage { part, whole }
        } else {
            Percentage { part: 0, whole: 1 }
        }
    }

    /// Whether the share is at least `percent` percent.
    pub fn at_least(&self, percent: u8) -> (reached: bool)
        ensures
            reached == self.reaches(percent as int),
    {
        let scaled: u128 = 100u128 * (self.part as u128);
        assert(percent * self.whole <= 255 * u64::MAX) by (nonlinear_arith)
            requires
                0 <= percent <= 255,
                0 <= self.whole <= u64::MAX,
        ;
        let wanted: u128 = (percent as u128) * (self.whole as u128);
        scaled >= wanted
    }

    /// Whether the share is more than `percent` percent.
    pub fn exceeds(&self, percent: u8) -> (above: bool)
        ensures
            above == self.is_above(percent as int),
    {
        let scaled: u128 = 100u128 * (self.part as u128);
        assert(percent * self.whole <= 255 * u64::MAX) by (nonlinear_arith)
            requires
                0 <= percent <= 255,
                0 <= self.whole <= u64::MAX,
        ;
        let wanted: u128 = (percent as u128) * (self.whole as u128);
        scaled > wanted
    }
}

/// A job on the critical chain of another, with its typical duration.
#[derive(Debug, Clone)]
pub struct PredecessorJob {
    pub name: String,
    /// Median duration in seconds.
    pub duration_p50: u128,
}

/// A number of pipelines and a link to each.
#[derive(Debug, Clone)]
pub struct PipelineCountWithLinks {
    pub count: usize,
    pub links: Vec<String>,
}

/// A number of job executions and the links that show them.
#[derive(Debug, Clone)]
pub struct JobCountWithLinks {
    pub count: usize,
    pub links: Vec<String>,
}

/// Latency and reliability of one job across the pipelines of a type.
/// Times are in seconds.
#[derive(Debug, Clone)]
pub struct JobMetrics {
    pub name: String,
    pub duration_p50: u128,
    pub duration_p95: u128,
    pub duration_p99: u128,
    pub time_to_feedback_p50: u128,
    pub time_to_feedback_p95: u128,
    pub time_to_feedback_p99: u128,
    /// The chain of jobs that decides when this job starts, slowest first.
    pub predecessors: Vec<PredecessorJob>,
    pub flakiness_rate: Percentage,
    pub flaky_retries: JobCountWithLinks,
    pub failed_executions: JobCountWithLinks,
    pub failure_rate: Percentage,
    pub total_executions: usize,
}

/// Figures of one pipeline type. Times are in seconds.
#[derive(Debug, Clone)]
pub struct TypeMetrics {
    /// Share of all analysed pipelines that are of this type.
    pub percentage: Percentage,
    pub total_pipelines: usize,
    pub successful_pipelines: PipelineCountWithLinks,
    pub failed_pipelines: PipelineCountWithLinks,
    pub success_rate: Percentage,
    pub duration_p50: u128,
    pub duration_p95: u128,
    pub duration_p99: u128,
    pub time_to_feedback_p50: u128,
    pub time_to_feedback_p95: u128,
    pub time_to_feedback_p99: u128,
    /// Per job, slowest feedback first.
    pub jobs: Vec<JobMetrics>,
}

/// Pipelines that ran the same set of jobs.
#[derive(Debug, Clone)]
pub struct PipelineType {
    pub label: String,
    pub stages: Vec<String>,
    pub ref_patterns: Vec<String>,
    pub sources: Vec<String>,
    pub metrics: TypeMetrics,
}

/// Everything learned about one project.
#[derive(Debug, Clone)]
pub struct CIInsights {
    pub provider: String,
    pub project: String,
    /// When the data was collected, in seconds since the Unix epoch.
    pub collected_at: i64,
    pub total_pipelines: usize,
    pub total_pipeline_types: usize,
    pub pipeline_types: Vec<PipelineType>,
}

pub ghost struct PredecessorJobView {
    pub name: Seq<char>,
    pub duration_p50: nat,
}

pub ghost struct CountWithLinksView {
    pub count: nat,
    pub links: Seq<Seq<char>>,
}

pub ghost struct JobMetricsView {
    pub name: Seq<char>,
    pub duration_p50: nat,
    pub duration_p95: nat,
    pub duration_p99: nat,
    pub time_to_feedback_p50: nat,
    pub time_to_feedback_p95: nat,
    pub time_to_feedback_p99: nat,
    pub predecessors: Seq<PredecessorJobView>,
    pub flakiness_rate: Percentage,
    pub flaky_retries: CountWithLinksView,
    pub failed_executions: CountWithLinksView,
    pub failure_rate: Percentage,
    pub total_executions: nat,
}

pub ghost struct TypeMetricsView {
    pub percentage: Percentage,
    pub total_pipelines: nat,
    pub successful_pipelines: CountWithLinksView,
    pub failed_pipelines: CountWithLinksView,
    pub success_rate: Percentage,
    pub duration_p50: nat,
    pub duration_p95: nat,
    pub duration_p99: nat,
    pub time_to_feedback_p50: nat,
    pub time_to_feedback_p95: nat,
    pub time_to_feedback_p99: nat,
    pub jobs: Seq<JobMetricsView>,
}

pub ghost struct PipelineTypeView {
    pub label: Seq<char>,
    pub stages: Seq<Seq<char>>,
    pub ref_patterns: Seq<Seq<char>>,
    pub sources: Seq<Seq<char>>,
    pub metrics: TypeMetricsView,
}

pub ghost struct CIInsightsView {
    pub provider: Seq<char>,
    pub project: Seq<char>,
    pub collected_at: int,
    pub total_pipelines: nat,
    pub total_pipeline_types: nat,
    pub pipeline_types: Seq<PipelineTypeView>,
}

impl View for PredecessorJob {
    type V = PredecessorJobView;

    open spec fn view(&self) -> PredecessorJobView {
        PredecessorJobView { name: self.name@, duration_p50: self.duration_p50 as nat }
    }
}

impl DeepView for PredecessorJob {
    type V = PredecessorJobView;

    open spec fn deep_view(&self) -> PredecessorJobView {
        self@
    }
}

impl View for PipelineCountWithLinks {
    type V = CountWithLinksView;

    open spec fn view(&self) -> CountWithLinksView {
        CountWithLinksView { count: self.count as nat, links: self.links.deep_view() }
    }
}

impl View for JobCountWithLinks {
    type V = CountWithLinksView;

    open spec fn view(&self) -> CountWithLinksView {
        CountWithLinksView { count: self.count as nat, links: self.links.deep_view() }
    }
}

impl View for JobMetrics {
    type V = JobMetricsView;

    open spec fn view(&self) -> JobMetricsView {
        JobMetricsView {
            name: self.name@,
            duration_p50: self.duration_p50 as nat,
            duration_p95: self.duration_p95 as nat,
            duration_p99: self.duration_p99 as nat,
            time_to_feedback_p50: self.time_to_feedback_p50 as nat,
            time_to_feedback_p95: self.time_to_feedback_p95 as nat,
            time_to_feedback_p99: self.time_to_feedback_p99 as nat,
            predecessors: self.predecessors.deep_view(),
            flakiness_rate: self.flakiness_rate,
            flaky_retries: self.flaky_retries@,
            failed_executions: self.failed_executions@,
            failure_rate: self.failure_rate,
            total_executions: self.total_executions as nat,
        }
    }
}

impl DeepView for JobMetrics {
    type V = JobMetricsView;

    open spec fn deep_view(&self) -> JobMetricsView {
        self@
    }
}

impl View for TypeMetrics {
    type V = TypeMetricsView;

    open spec fn view(&self) -> TypeMetricsView {
        TypeMetricsView {
            percentage: self.percentage,
            total_pipelines: self.total_pipelines as nat,
            successful_pipelines: self.successful_pipelines@,
            failed_pipelines: self.failed_pipelines@,
            success_rate: self.success_rate,
            duration_p50: self.duration_p50 as nat,
            duration_p95: self.duration_p95 as nat,
            duration_p99: self.duration_p99 as nat,
            time_to_feedback_p50: self.time_to_feedback_p50 as nat,
            time_to_feedback_p95: self.time_to_feedback_p95 as nat,
            time_to_feedback_p99: self.time_to_feedback_p99 as nat,
            jobs: self.jobs.deep_view(),
        }
    }
}

impl View for PipelineType {
    type V = PipelineTypeView;

    open spec fn view(&self) -> PipelineTypeView {
        PipelineTypeView {
            label: self.label@,
            stages: self.stages.deep_view(),
            ref_patterns: self.ref_patterns.deep_view(),
            sources: self.sources.deep_view(),
            metrics: self.metrics@,
        }
    }
}

impl DeepView for PipelineType {
    type V = PipelineTypeView;

    open spec fn deep_view(&self) -> PipelineTypeView {
        self@
    }
}

impl View for CIInsights {
    type V = CIInsightsView;

    open spec fn view(&self) -> CIInsightsView {
        CIInsightsView {
            provider: self.provider@,
            project: self.project@,
            collected_at: self.collected_at as int,
            total_pipelines: self.total_pipelines as nat,
            total_pipeline_types: self.total_pipeline_types as nat,
            pipeline_types: self.pipeline_types.deep_view(),
        }
    }
}

impl Default for PipelineCountWithLinks {
    fn default() -> (empty: Self)
        ensures
            empty@ == (CountWithLinksView { count: 0, links: Seq::empty() }),
    {
        let empty = PipelineCountWithLinks { count: 0, links: Vec::new() };
        assert(empty.links.deep_view() =~= Seq::<Seq<char>>::empty());
        empty
    }
}

impl Default for JobCountWithLinks {
    fn default() -> (empty: Self)
        ensures
            empty@ == (CountWithLinksView { count: 0, links: Seq::empty() }),
    {
        let empty = JobCountWithLinks { count: 0, links: Vec::new() };
        assert(empty.links.deep_view() =~= Seq::<Seq<char>>::empty());
        empty
    }
}

} // verus!
