//! How reliably each job runs: how often it had to be retried before it
//! succeeded, and how often it did not succeed at all.

use vstd::prelude::*;
use vstd::string::StringExecFns;
use crate::insights::Percentage;
use crate::job_metrics::job_names;
use crate::links::{job_id_to_url, spec_url};
use crate::text::{distinct, note};
use crate::types::{GitLabJob, GitLabPipeline, JobView, PipelineView};

verus! {

/// The share of `count` in `total`, 0 percent where `total` is 0.
pub fn calculate_rate(count: usize, total: usize) -> (rate: Percentage)
    ensures
        rate.wf(),
        total > 0 ==> rate == (Percentage { part: count, whole: total }),
        total == 0 ==> rate == (Percentage { part: 0, whole: 1 }),
{
    Percentage::of(count, total)
}

/// The records of the job called `name`, in order: its executions within
/// one pipeline run.
pub open spec fn executions(jobs: Seq<JobView>, name: Seq<char>) -> Seq<JobView>
    decreases jobs.len(),
{
    if jobs.len() == 0 {
        Seq::empty()
    } else {
        let rest = executions(jobs.drop_last(), name);
        if jobs.last().name == name {
            rest.push(jobs.last())
        } else {
            rest
        }
    }
}

/// Whether one of the executions was superseded by a retry.
pub open spec fn was_retried(group: Seq<JobView>) -> bool {
    exists|k: int| 0 <= k < group.len() && (#[trigger] group[k]).retried
}

/// Position of the final execution: the first that no retry superseded.
pub open spec fn final_position(group: Seq<JobView>) -> Option<int>
    decreases group.len(),
{
    if group.len() == 0 {
        None
    } else {
        match final_position(group.drop_last()) {
            Some(k) => Some(k),
            None => if !group.last().retried {
                Some(group.len() - 1)
            } else {
                None
            },
        }
    }
}

/// Whether there is a final execution and it ended in success.
pub open spec fn final_succeeded(group: Seq<JobView>) -> bool {
    match final_position(group) {
        Some(k) => group[k].status == "SUCCESS"@,
        None => false,
    }
}

/// Flaky: retried at least once, and successful in the end.
pub open spec fn is_flaky(group: Seq<JobView>) -> bool {
    was_retried(group) && final_succeeded(group)
}

/// Failed: not successful in the end, or without a final execution.
pub open spec fn is_failed(group: Seq<JobView>) -> bool {
    !final_succeeded(group)
}

/// How the executions of one job within one pipeline run ended.
#[derive(Debug, Clone, Copy, PartialEq, Eq, Structural)]
pub enum Outcome {
    Success,
    Flaky,
    Failed,
}

/// The outcome of a job from its executions within one pipeline run.
pub open spec fn outcome_of(group: Seq<JobView>) -> Outcome {
    if is_flaky(group) {
        Outcome::Flaky
    } else if is_failed(group) {
        Outcome::Failed
    } else {
        Outcome::Success
    }
}

pub proof fn lemma_final_position(group: Seq<JobView>)
    ensures
        match final_position(group) {
            Some(k) => 0 <= k < group.len() && !group[k].retried && forall|j: int|
                0 <= j < k ==> (#[trigger] group[j]).retried,
            None => forall|j: int| 0 <= j < group.len() ==> (#[trigger] group[j]).retried,
        },
    decreases group.len(),
{
    if group.len() > 0 {
        let rest = group.drop_last();
        lemma_final_position(rest);
        match final_position(rest) {
            Some(k) => {
                assert(group[k] == rest[k]);
                assert forall|j: int| 0 <= j < k implies (#[trigger] group[j]).retried by {
                    assert(group[j] == rest[j]);
                }
            },
            None => {
                assert forall|j: int| 0 <= j < group.len() - 1 implies (
                #[trigger] group[j]).retried by {
                    assert(group[j] == rest[j]);
                }
            },
        }
    }
}

/// Position of the final execution among `jobs`.
pub fn find_final(jobs: &Vec<&GitLabJob>) -> (found: Option<usize>)
    ensures
        match found {
            Some(k) => final_position(jobs.deep_view()) == Some(k as int) && k < jobs.len(),
            None => final_position(jobs.deep_view()) is None,
        },
{
    let ghost group = jobs.deep_view();
    let mut k: usize = 0;
    while k < jobs.len()
        invariant
            k <= jobs.len(),
            group == jobs.deep_view(),
            forall|j: int| 0 <= j < k ==> (#[trigger] group[j]).retried,
        decreases jobs.len() - k,
    {
        if !jobs[k].retried {
            proof {
                lemma_final_position(group);
                assert(!group[k as int].retried);
                match final_position(group) {
                    Some(at) => {
                        if at < k {
                            assert(group[at].retried);
                        }
                    },
                    None => {},
                }
            }
            return Some(k);
        }
        k += 1;
    }
    proof {
        lemma_final_position(group);
    }
    None
}

/// Whether the final execution among `jobs` ended in success.
pub fn has_final_success(jobs: &Vec<&GitLabJob>) -> (succeeded: bool)
    ensures
        succeeded == final_succeeded(jobs.deep_view()),
{
    match find_final(jobs) {
        Some(k) => {
            let success = String::from_str("SUCCESS");
            jobs[k].status == success
        },
        None => false,
    }
}

/// Whether the job was flaky in this pipeline run: `jobs` are its
/// executions, one of them was retried, and the final one succeeded.
pub fn is_job_flaky(jobs: &Vec<&GitLabJob>) -> (flaky: bool)
    ensures
        flaky == is_flaky(jobs.deep_view()),
{
    let ghost group = jobs.deep_view();
    let mut retried = false;
    let mut k: usize = 0;
    while k < jobs.len() && !retried
        invariant
            k <= jobs.len(),
            group == jobs.deep_view(),
            !retried ==> forall|j: int| 0 <= j < k ==> !(#[trigger] group[j]).retried,
            retried ==> was_retried(group),
        decreases jobs.len() - k, if retried { 0int } else { 1int },
    {
        if jobs[k].retried {
            assert(group[k as int].retried);
            retried = true;
        } else {
            k += 1;
        }
    }
    retried && has_final_success(jobs)
}

/// Whether the job failed in this pipeline run: `jobs` are its executions,
/// and none stands as final and successful.
pub fn is_job_failed(jobs: &Vec<&GitLabJob>) -> (failed: bool)
    ensures
        failed == is_failed(jobs.deep_view()),
{
    !has_final_success(jobs)
}

/// Tells how the job ended in this pipeline run.
pub fn classify(jobs: &Vec<&GitLabJob>) -> (outcome: Outcome)
    ensures
        outcome == outcome_of(jobs.deep_view()),
{
    if is_job_flaky(jobs) {
        Outcome::Flaky
    } else if is_job_failed(jobs) {
        Outcome::Failed
    } else {
        Outcome::Success
    }
}

/// A job is never both flaky and failed, and it is successful exactly when
/// its only kind of execution is a final one that succeeded.
pub proof fn lemma_outcomes_exclusive(group: Seq<JobView>)
    ensures
        !(is_flaky(group) && is_failed(group)),
        outcome_of(group) == Outcome::Flaky <==> is_flaky(group),
        outcome_of(group) == Outcome::Failed <==> is_failed(group),
        outcome_of(group) == Outcome::Success <==> !was_retried(group) && final_succeeded(group),
{
}

/// The executions of the job called `name` among `jobs`.
pub fn jobs_named<'a>(jobs: &'a Vec<GitLabJob>, name: &String) -> (group: Vec<&'a GitLabJob>)
    ensures
        group.deep_view() == executions(jobs.deep_view(), name@),
{
    let ghost all = jobs.deep_view();
    let mut group: Vec<&'a GitLabJob> = Vec::new();
    let mut i: usize = 0;
    assert(group.deep_view() =~= executions(all.take(0), name@));
    while i < jobs.len()
        invariant
            i <= jobs.len(),
            all == jobs.deep_view(),
            group.deep_view() == executions(all.take(i as int), name@),
        decreases jobs.len() - i,
    {
        proof {
            let next = all.take(i + 1);
            assert(next.drop_last() =~= all.take(i as int));
            assert(next.last() == jobs[i as int]@);
        }
        if jobs[i].name == *name {
            let ghost before = group.deep_view();
            group.push(&jobs[i]);
            assert(group.deep_view() =~= before.push(jobs[i as int]@));
        }
        i += 1;
    }
    assert(all.take(i as int) =~= all);
    group
}

/// The distinct names of `jobs`, each where it first occurs.
pub fn distinct_job_names(jobs: &Vec<GitLabJob>) -> (names: Vec<String>)
    ensures
        names.deep_view() == distinct(job_names(jobs.deep_view())),
{
    let ghost all = job_names(jobs.deep_view());
    let mut names: Vec<String> = Vec::new();
    let mut i: usize = 0;
    assert(names.deep_view() =~= distinct(all.take(0)));
    while i < jobs.len()
        invariant
            i <= jobs.len(),
            all == job_names(jobs.deep_view()),
            names.deep_view() == distinct(all.take(i as int)),
        decreases jobs.len() - i,
    {
        assert(all.take(i as int).push(jobs[i as int].name@) =~= all.take(i + 1));
        note(&mut names, &jobs[i].name, Ghost(all.take(i as int)));
        i += 1;
    }
    assert(all.take(i as int) =~= all);
    names
}

/// The executions of each job of one pipeline run, the jobs in the order
/// in which they first occur.
pub open spec fn job_groups(jobs: Seq<JobView>) -> Seq<Seq<JobView>> {
    let names = distinct(job_names(jobs));
    Seq::new(names.len(), |k: int| executions(jobs, names[k]))
}

/// Model of a list of groups of records.
pub open spec fn groups_view(groups: Seq<Vec<&GitLabJob>>) -> Seq<Seq<JobView>> {
    Seq::new(groups.len(), |k: int| groups[k].deep_view())
}

/// Groups the records of one pipeline run by job name, so that the
/// executions of a retried job stand together, in their order.
pub fn group_jobs_by_name<'a>(jobs: &'a Vec<GitLabJob>) -> (groups: Vec<Vec<&'a GitLabJob>>)
    ensures
        groups_view(groups@) == job_groups(jobs.deep_view()),
{
    let names = distinct_job_names(jobs);
    let mut groups: Vec<Vec<&'a GitLabJob>> = Vec::new();
    let mut k: usize = 0;
    while k < names.len()
        invariant
            k <= names.len(),
            names.deep_view() == distinct(job_names(jobs.deep_view())),
            groups.len() == k,
            forall|m: int|
                0 <= m < k ==> (#[trigger] groups[m]).deep_view() == executions(
                    jobs.deep_view(),
                    names[m]@,
                ),
        decreases names.len() - k,
    {
        groups.push(jobs_named(jobs, &names[k]));
        k += 1;
    }
    assert(groups_view(groups@) =~= job_groups(jobs.deep_view()));
    groups
}

/// How reliably one job ran across a set of pipeline runs.
#[derive(Debug, Clone)]
pub struct JobReliabilityMetrics {
    pub name: String,
    /// Number of executions, retried ones included.
    pub total_executions: usize,
    /// Share of the executions that were retries of a flaky job.
    pub flakiness_rate: Percentage,
    /// Number of retried executions in runs where the job was flaky.
    pub flaky_retries: usize,
    /// A link to each of those executions.
    pub flaky_job_links: Vec<String>,
    /// Share of the executions that stand for a run where the job failed.
    pub failure_rate: Percentage,
    /// Number of runs in which the job failed.
    pub failed_executions: usize,
    /// A link to the final execution of each such run that has one.
    pub failed_job_links: Vec<String>,
}

pub ghost struct JobReliabilityView {
    pub name: Seq<char>,
    pub total_executions: nat,
    pub flakiness_rate: Percentage,
    pub flaky_retries: nat,
    pub flaky_job_links: Seq<Seq<char>>,
    pub failure_rate: Percentage,
    pub failed_executions: nat,
    pub failed_job_links: Seq<Seq<char>>,
}

impl View for JobReliabilityMetrics {
    type V = JobReliabilityView;

    open spec fn view(&self) -> JobReliabilityView {
        JobReliabilityView {
            name: self.name@,
            total_executions: self.total_executions as nat,
            flakiness_rate: self.flakiness_rate,
            flaky_retries: self.flaky_retries as nat,
            flaky_job_links: self.flaky_job_links.deep_view(),
            failure_rate: self.failure_rate,
            failed_executions: self.failed_executions as nat,
            failed_job_links: self.failed_job_links.deep_view(),
        }
    }
}

impl DeepView for JobReliabilityMetrics {
    type V = JobReliabilityView;

    open spec fn deep_view(&self) -> JobReliabilityView {
        self@
    }
}

/// The executions of the job called `name` in all of `pipelines`.
pub open spec fn all_executions(pipelines: Seq<PipelineView>, name: Seq<char>) -> Seq<JobView>
    decreases pipelines.len(),
{
    if pipelines.len() == 0 {
        Seq::empty()
    } else {
        all_executions(pipelines.drop_last(), name) + executions(pipelines.last().jobs, name)
    }
}

/// The web address of one job execution.
pub open spec fn job_link(base_url: Seq<char>, project_path: Seq<char>, job: JobView) -> Seq<char> {
    spec_url(base_url, project_path, "/-/jobs/"@, job.id)
}

/// A link to each retried execution of `group`.
pub open spec fn retry_links(
    group: Seq<JobView>,
    base_url: Seq<char>,
    project_path: Seq<char>,
) -> Seq<Seq<char>>
    decreases group.len(),
{
    if group.len() == 0 {
        Seq::empty()
    } else {
        let rest = retry_links(group.drop_last(), base_url, project_path);
        if group.last().retried {
            rest.push(job_link(base_url, project_path, group.last()))
        } else {
            rest
        }
    }
}

/// A link to each retried execution of the job called `name` in the runs
/// where it was flaky.
pub open spec fn flaky_links(
    pipelines: Seq<PipelineView>,
    name: Seq<char>,
    base_url: Seq<char>,
    project_path: Seq<char>,
) -> Seq<Seq<char>>
    decreases pipelines.len(),
{
    if pipelines.len() == 0 {
        Seq::empty()
    } else {
        let rest = flaky_links(pipelines.drop_last(), name, base_url, project_path);
        let group = executions(pipelines.last().jobs, name);
        if is_flaky(group) {
            rest + retry_links(group, base_url, project_path)
        } else {
            rest
        }
    }
}

/// Whether a run counts as one in which the job failed: the job ran, and
/// it was neither flaky nor successful.
pub open spec fn counts_as_failed(group: Seq<JobView>) -> bool {
    group.len() > 0 && !is_flaky(group) && is_failed(group)
}

/// The number of runs among `pipelines` in which the job called `name`
/// failed.
pub open spec fn failed_count(pipelines: Seq<PipelineView>, name: Seq<char>) -> nat
    decreases pipelines.len(),
{
    if pipelines.len() == 0 {
        0
    } else {
        let rest = failed_count(pipelines.drop_last(), name);
        if counts_as_failed(executions(pipelines.last().jobs, name)) {
            rest + 1
        } else {
            rest
        }
    }
}

/// A link to the final execution of the job called `name` in each run in
/// which it failed and has a final execution.
pub open spec fn failed_links(
    pipelines: Seq<PipelineView>,
    name: Seq<char>,
    base_url: Seq<char>,
    project_path: Seq<char>,
) -> Seq<Seq<char>>
    decreases pipelines.len(),
{
    if pipelines.len() == 0 {
        Seq::empty()
    } else {
        let rest = failed_links(pipelines.drop_last(), name, base_url, project_path);
        let group = executions(pipelines.last().jobs, name);
        if counts_as_failed(group) {
            match final_position(group) {
                Some(k) => rest.push(job_link(base_url, project_path, group[k])),
                None => rest,
            }
        } else {
            rest
        }
    }
}

/// The share of `count` in `total`, 0 percent where `total` is 0.
pub open spec fn rate_of(count: nat, total: nat) -> Percentage {
    if total > 0 {
        Percentage { part: count as usize, whole: total as usize }
    } else {
        Percentage { part: 0, whole: 1 }
    }
}

/// The reliability of the job called `name` across `pipelines`.
pub open spec fn reliability_of(
    pipelines: Seq<PipelineView>,
    name: Seq<char>,
    base_url: Seq<char>,
    project_path: Seq<char>,
) -> JobReliabilityView {
    let total = all_executions(pipelines, name).len();
    let flaky = flaky_links(pipelines, name, base_url, project_path);
    let failed = failed_count(pipelines, name);
    JobReliabilityView {
        name,
        total_executions: total,
        flakiness_rate: rate_of(flaky.len(), total),
        flaky_retries: flaky.len(),
        flaky_job_links: flaky,
        failure_rate: rate_of(failed, total),
        failed_executions: failed,
        failed_job_links: failed_links(pipelines, name, base_url, project_path),
    }
}

/// The names of all records of `pipelines`, in order.
pub open spec fn all_job_names(pipelines: Seq<PipelineView>) -> Seq<Seq<char>>
    decreases pipelines.len(),
{
    if pipelines.len() == 0 {
        Seq::empty()
    } else {
        all_job_names(pipelines.drop_last()) + job_names(pipelines.last().jobs)
    }
}

/// The reliability of every job that ran in one of `pipelines`, the jobs
/// in the order in which they first occur.
pub open spec fn job_reliability(
    pipelines: Seq<PipelineView>,
    base_url: Seq<char>,
    project_path: Seq<char>,
) -> Seq<JobReliabilityView> {
    let names = distinct(all_job_names(pipelines));
    Seq::new(names.len(), |k: int| reliability_of(pipelines, names[k], base_url, project_path))
}

/// The distinct job names of `pipelines`, each where it first occurs.
pub fn distinct_names_of(pipelines: &Vec<&GitLabPipeline>) -> (names: Vec<String>)
    ensures
        names.deep_view() == distinct(all_job_names(pipelines.deep_view())),
{
    let ghost ps = pipelines.deep_view();
    let mut names: Vec<String> = Vec::new();
    let mut i: usize = 0;
    assert(names.deep_view() =~= distinct(all_job_names(ps.take(0))));
    while i < pipelines.len()
        invariant
            i <= pipelines.len(),
            ps == pipelines.deep_view(),
            names.deep_view() == distinct(all_job_names(ps.take(i as int))),
        decreases pipelines.len() - i,
    {
        let pipeline = pipelines[i];
        let ghost earlier = all_job_names(ps.take(i as int));
        let ghost own = job_names(pipeline@.jobs);
        let mut j: usize = 0;
        assert(earlier + own.take(0) =~= earlier);
        while j < pipeline.jobs.len()
            invariant
                j <= pipeline.jobs.len(),
                own == job_names(pipeline@.jobs),
                names.deep_view() == distinct(earlier + own.take(j as int)),
            decreases pipeline.jobs.len() - j,
        {
            assert((earlier + own.take(j as int)).push(pipeline.jobs[j as int].name@) =~= earlier
                + own.take(j + 1));
            note(&mut names, &pipeline.jobs[j].name, Ghost(earlier + own.take(j as int)));
            j += 1;
        }
        proof {
            assert(own.take(j as int) =~= own);
            let next = ps.take(i + 1);
            assert(next.drop_last() =~= ps.take(i as int));
            assert(next.last() == pipeline@);
        }
        i += 1;
    }
    assert(ps.take(i as int) =~= ps);
    names
}

/// Adds to `links` a link to each retried execution of `group`.
fn push_retry_links(
    links: &mut Vec<String>,
    group: &Vec<&GitLabJob>,
    base_url: &str,
    project_path: &str,
)
    ensures
        final(links).deep_view() == old(links).deep_view() + retry_links(
            group.deep_view(),
            base_url@,
            project_path@,
        ),
{
    let ghost before = links.deep_view();
    let ghost all = group.deep_view();
    let mut k: usize = 0;
    assert(links.deep_view() =~= before + retry_links(all.take(0), base_url@, project_path@));
    while k < group.len()
        invariant
            k <= group.len(),
            all == group.deep_view(),
            links.deep_view() == before + retry_links(
                all.take(k as int),
                base_url@,
                project_path@,
            ),
        decreases group.len() - k,
    {
        proof {
            let next = all.take(k + 1);
            assert(next.drop_last() =~= all.take(k as int));
            assert(next.last() == group[k as int]@);
        }
        if group[k].retried {
            let ghost earlier = links.deep_view();
            links.push(job_id_to_url(base_url, project_path, group[k].id.as_str()));
            assert(links.deep_view() =~= earlier.push(
                job_link(base_url@, project_path@, group[k as int]@),
            ));
            assert(links.deep_view() =~= before + retry_links(
                all.take(k + 1),
                base_url@,
                project_path@,
            ));
        }
        k += 1;
    }
    assert(all.take(k as int) =~= all);
}

/// Adds the records of `group` to `seen`.
fn push_records<'a>(seen: &mut Vec<&'a GitLabJob>, group: &Vec<&'a GitLabJob>)
    ensures
        final(seen).deep_view() == old(seen).deep_view() + group.deep_view(),
{
    let ghost before = seen.deep_view();
    let ghost all = group.deep_view();
    let mut k: usize = 0;
    assert(seen.deep_view() =~= before + all.take(0));
    while k < group.len()
        invariant
            k <= group.len(),
            all == group.deep_view(),
            seen.deep_view() == before + all.take(k as int),
        decreases group.len() - k,
    {
        let ghost earlier = seen.deep_view();
        seen.push(group[k]);
        assert(seen.deep_view() =~= earlier.push(group[k as int]@));
        assert(earlier.push(all[k as int]) =~= before + all.take(k + 1));
        k += 1;
    }
    assert(all.take(k as int) =~= all);
}

/// Turns the counts of one job into its reliability figures: the flaky
/// retries are as many as their links, and each rate is the share of its
/// count in the number of executions, 0 percent where there were none.
pub fn compute_reliability_metrics(
    name: &String,
    total_executions: usize,
    flaky_job_links: Vec<String>,
    failed_executions: usize,
    failed_job_links: Vec<String>,
) -> (metrics: JobReliabilityMetrics)
    ensures
        metrics@ == (JobReliabilityView {
            name: name@,
            total_executions: total_executions as nat,
            flakiness_rate: rate_of(flaky_job_links.len() as nat, total_executions as nat),
            flaky_retries: flaky_job_links.len() as nat,
            flaky_job_links: flaky_job_links.deep_view(),
            failure_rate: rate_of(failed_executions as nat, total_executions as nat),
            failed_executions: failed_executions as nat,
            failed_job_links: failed_job_links.deep_view(),
        }),
{
    let flaky_retries = flaky_job_links.len();
    JobReliabilityMetrics {
        name: name.clone(),
        total_executions,
        flakiness_rate: calculate_rate(flaky_retries, total_executions),
        flaky_retries,
        flaky_job_links,
        failure_rate: calculate_rate(failed_executions, total_executions),
        failed_executions,
        failed_job_links,
    }
}

/// The reliability of the job called `name` across `pipelines`.
pub fn reliability_for(
    pipelines: &Vec<&GitLabPipeline>,
    name: &String,
    base_url: &str,
    project_path: &str,
) -> (metrics: JobReliabilityMetrics)
    ensures
        metrics@ == reliability_of(pipelines.deep_view(), name@, base_url@, project_path@),
{
    let ghost ps = pipelines.deep_view();
    let mut seen: Vec<&GitLabJob> = Vec::new();
    let mut flaky_job_links: Vec<String> = Vec::new();
    let mut failed_executions: usize = 0;
    let mut failed_job_links: Vec<String> = Vec::new();
    let mut i: usize = 0;
    assert(seen.deep_view() =~= all_executions(ps.take(0), name@));
    assert(flaky_job_links.deep_view() =~= flaky_links(
        ps.take(0),
        name@,
        base_url@,
        project_path@,
    ));
    assert(failed_job_links.deep_view() =~= failed_links(
        ps.take(0),
        name@,
        base_url@,
        project_path@,
    ));
    while i < pipelines.len()
        invariant
            i <= pipelines.len(),
            ps == pipelines.deep_view(),
            seen.deep_view() == all_executions(ps.take(i as int), name@),
            flaky_job_links.deep_view() == flaky_links(
                ps.take(i as int),
                name@,
                base_url@,
                project_path@,
            ),
            failed_executions == failed_count(ps.take(i as int), name@),
            failed_executions <= i,
            failed_job_links.deep_view() == failed_links(
                ps.take(i as int),
                name@,
                base_url@,
                project_path@,
            ),
        decreases pipelines.len() - i,
    {
        let pipeline = pipelines[i];
        let group = jobs_named(&pipeline.jobs, name);
        proof {
            let next = ps.take(i + 1);
            assert(next.drop_last() =~= ps.take(i as int));
            assert(next.last() == pipeline@);
        }
        push_records(&mut seen, &group);
        if is_job_flaky(&group) {
            push_retry_links(&mut flaky_job_links, &group, base_url, project_path);
        } else if group.len() > 0 && is_job_failed(&group) {
            failed_executions += 1;
            match find_final(&group) {
                Some(k) => {
                    let ghost earlier = failed_job_links.deep_view();
                    failed_job_links.push(
                        job_id_to_url(base_url, project_path, group[k].id.as_str()),
                    );
                    assert(failed_job_links.deep_view() =~= earlier.push(
                        job_link(base_url@, project_path@, group.deep_view()[k as int]),
                    ));
                },
                None => {},
            }
        }
        i += 1;
    }
    assert(ps.take(i as int) =~= ps);
    compute_reliability_metrics(
        name,
        seen.len(),
        flaky_job_links,
        failed_executions,
        failed_job_links,
    )
}

/// The reliability of every job that ran in one of `pipelines`: how often
/// it ran, how many of its executions were retries of a flaky run, and in
/// how many runs it failed, with links as evidence.
pub fn calculate_job_reliability(
    pipelines: &Vec<&GitLabPipeline>,
    base_url: &str,
    project_path: &str,
) -> (metrics: Vec<JobReliabilityMetrics>)
    ensures
        metrics.deep_view() == job_reliability(pipelines.deep_view(), base_url@, project_path@),
{
    let names = distinct_names_of(pipelines);
    let mut metrics: Vec<JobReliabilityMetrics> = Vec::new();
    let mut k: usize = 0;
    while k < names.len()
        invariant
            k <= names.len(),
            names.deep_view() == distinct(all_job_names(pipelines.deep_view())),
            metrics.len() == k,
            forall|m: int|
                0 <= m < k ==> (#[trigger] metrics[m])@ == reliability_of(
                    pipelines.deep_view(),
                    names[m]@,
                    base_url@,
                    project_path@,
                ),
        decreases names.len() - k,
    {
        metrics.push(reliability_for(pipelines, &names[k], base_url, project_path));
        k += 1;
    }
    assert(metrics.deep_view() =~= job_reliability(
        pipelines.deep_view(),
        base_url@,
        project_path@,
    ));
    metrics
}

/// There are no more links to retried executions than executions.
pub proof fn lemma_retry_links_len(
    group: Seq<JobView>,
    base_url: Seq<char>,
    project_path: Seq<char>,
)
    ensures
        retry_links(group, base_url, project_path).len() <= group.len(),
    decreases group.len(),
{
    if group.len() > 0 {
        lemma_retry_links_len(group.drop_last(), base_url, project_path);
    }
}

/// A job has no more flaky retries and no more failed runs than
/// executions, so that neither rate is above 100 percent.
pub proof fn lemma_reliability_in_range(
    pipelines: Seq<PipelineView>,
    name: Seq<char>,
    base_url: Seq<char>,
    project_path: Seq<char>,
)
    ensures
        flaky_links(pipelines, name, base_url, project_path).len() + failed_count(pipelines, name)
            <= all_executions(pipelines, name).len(),
        reliability_of(pipelines, name, base_url, project_path).flaky_retries <= reliability_of(
            pipelines,
            name,
            base_url,
            project_path,
        ).total_executions,
        reliability_of(pipelines, name, base_url, project_path).failed_executions
            <= reliability_of(pipelines, name, base_url, project_path).total_executions,
    decreases pipelines.len(),
{
    if pipelines.len() > 0 {
        lemma_reliability_in_range(pipelines.drop_last(), name, base_url, project_path);
        lemma_retry_links_len(executions(pipelines.last().jobs, name), base_url, project_path);
    }
}

} // verus!
