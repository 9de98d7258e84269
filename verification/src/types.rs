//! The pipeline and job records that the analysis reads.

use vstd::prelude::*;

verus! {

/// A job within a pipeline run.
#[derive(Debug, Clone)]
pub struct GitLabJob {
    /// Global identifier, e.g. `gid://gitlab/Ci::Job/456`.
    pub id: String,
    /// Job name as the pipeline definition declares it. A retried job
    /// appears once per execution under the same name.
    pub name: String,
    /// Stage this job belongs to.
    pub stage: String,
    /// Execution time in whole seconds.
    pub duration: u64,
    /// Final status, e.g. `SUCCESS` or `FAILED`.
    pub status: String,
    /// Whether a later execution of the same job superseded this one.
    pub retried: bool,
    /// Explicit dependencies. `None`: every job of an earlier stage;
    /// `Some` of an empty list: none at all.
    pub needs: Option<Vec<String>>,
}

/// A pipeline run with its jobs.
#[derive(Debug, Clone)]
pub struct GitLabPipeline {
    /// Global identifier, e.g. `gid://gitlab/Ci::Pipeline/123`.
    pub id: String,
    /// Git reference that triggered the run.
    pub ref_: String,
    /// Trigger source, e.g. `push` or `schedule`.
    pub source: String,
    /// Final status: `success` or `failed`.
    pub status: String,
    /// Wall-clock time of the whole run in seconds.
    pub duration: usize,
    /// Stage names in execution order.
    pub stages: Vec<String>,
    /// Every job execution of the run.
    pub jobs: Vec<GitLabJob>,
}

/// Mathematical model of a [`GitLabJob`].
pub ghost struct JobView {
    pub id: Seq<char>,
    pub name: Seq<char>,
    pub stage: Seq<char>,
    pub duration: nat,
    pub status: Seq<char>,
    pub retried: bool,
    pub needs: Option<Seq<Seq<char>>>,
}

/// Mathematical model of a [`GitLabPipeline`].
pub ghost struct PipelineView {
    pub id: Seq<char>,
    pub ref_: Seq<char>,
    pub source: Seq<char>,
    pub status: Seq<char>,
    pub duration: nat,
    pub stages: Seq<Seq<char>>,
    pub jobs: Seq<JobView>,
}

impl View for GitLabJob {
    type V = JobView;

    open spec fn view(&self) -> JobView {
        JobView {
            id: self.id@,
            name: self.name@,
            stage: self.stage@,
            duration: self.duration as nat,
            status: self.status@,
            retried: self.retried,
            needs: self.needs.deep_view(),
        }
    }
}

impl DeepView for GitLabJob {
    type V = JobView;

    open spec fn deep_view(&self) -> JobView {
        self@
    }
}

impl View for GitLabPipeline {
    type V = PipelineView;

    open spec fn view(&self) -> PipelineView {
        PipelineView {
            id: self.id@,
            ref_: self.ref_@,
            source: self.source@,
            status: self.status@,
            duration: self.duration as nat,
            stages: self.stages.deep_view(),
            jobs: self.jobs.deep_view(),
        }
    }
}

impl DeepView for GitLabPipeline {
    type V = PipelineView;

    open spec fn deep_view(&self) -> PipelineView {
        self@
    }
}

} // verus!
