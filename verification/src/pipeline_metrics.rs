//! The figures of one pipeline type: success rate, duration and
//! time-to-feedback percentiles, and the figures of each job.

use vstd::prelude::*;
use crate::insights::{
    CountWithLinksView, JobCountWithLinks, JobMetrics, JobMetricsView, Percentage,
    PipelineCountWithLinks, PredecessorJob, PredecessorJobView, TypeMetrics, TypeMetricsView,
};
use crate::job_metrics::{
    calculate_job_metrics, finish_time, is_representative, job_metrics, last_index_of,
    last_position, lemma_every_job_is_reported, lemma_last_position, single_run_metrics,
};
use crate::job_reliability::{
    reliability_for, reliability_of, JobReliabilityMetrics, JobReliabilityView,
};
use crate::links::{pipeline_id_to_url, spec_url};
use crate::ranking::{
    as_ints, as_nats, ascending, descending_order, lemma_ascending_sorted,
    lemma_descending_order_bounds, lemma_descending_order_sorted, rank_descending,
};
use crate::text::{distinct, note};
use crate::types::{GitLabPipeline, PipelineView};
use vstd::string::StringExecFns;

verus! {

/// The rank, among `len` samples in ascending order, of the sample that
/// stands for the given percentile: `len * percent / 100` rounded down,
/// and the last rank where that lies beyond it.
pub open spec fn percentile_rank(len: nat, percent: nat) -> int {
    let rank = (len * percent) / 100;
    if rank < len - 1 {
        rank as int
    } else {
        len - 1
    }
}

/// The 50th, 95th and 99th percentile of `values`; all 0 for no values.
pub open spec fn percentiles(values: Seq<nat>) -> (nat, nat, nat) {
    if values.len() == 0 {
        (0, 0, 0)
    } else {
        let sorted = ascending(values);
        (
            sorted[percentile_rank(values.len(), 50)],
            sorted[percentile_rank(values.len(), 95)],
            sorted[percentile_rank(values.len(), 99)],
        )
    }
}

pub proof fn lemma_percentile_rank(len: nat, low: nat, high: nat)
    requires
        len > 0,
        low <= high,
    ensures
        0 <= percentile_rank(len, low) <= percentile_rank(len, high) < len,
{
    assert(len * low <= len * high) by (nonlinear_arith)
        requires
            low <= high,
    ;
    assert((len * low) / 100 <= (len * high) / 100) by (nonlinear_arith)
        requires
            0 <= len * low <= len * high,
    ;
    assert(0 <= (len * low) / 100) by (nonlinear_arith)
        requires
            0 <= len * low,
    ;
}

/// The percentiles never decrease: the median is at most the 95th
/// percentile, and that at most the 99th.
pub proof fn lemma_percentiles_ordered(values: Seq<nat>)
    ensures
        percentiles(values).0 <= percentiles(values).1 <= percentiles(values).2,
{
    if values.len() > 0 {
        lemma_ascending_sorted(values);
        lemma_percentile_rank(values.len(), 50, 95);
        lemma_percentile_rank(values.len(), 95, 99);
    }
}

/// Without samples every percentile is 0.
pub proof fn lemma_percentiles_of_nothing()
    ensures
        percentiles(Seq::<nat>::empty()) == (0nat, 0nat, 0nat),
{
}

/// With one sample every percentile is that sample.
pub proof fn lemma_percentiles_of_one(value: nat)
    ensures
        percentiles(seq![value]) == (value, value, value),
{
    let values = seq![value];
    lemma_descending_order_bounds(values);
    lemma_percentile_rank(1, 50, 95);
    lemma_percentile_rank(1, 95, 99);
    assert(descending_order(values)[0] == 0);
}

/// The sample at the rank that stands for the given percentile.
fn sample_at(values: &Vec<u128>, order: &Vec<usize>, percent: u8) -> (sample: u128)
    requires
        values.len() > 0,
        percent <= 100,
        order.len() == values.len(),
        as_ints(order@) == descending_order(as_nats(values@)),
        forall|k: int| 0 <= k < order.len() ==> #[trigger] order[k] < values.len(),
    ensures
        sample as nat == ascending(as_nats(values@))[percentile_rank(
            values.len() as nat,
            percent as nat,
        )],
{
    let n = values.len();
    assert(n * percent <= 100 * usize::MAX) by (nonlinear_arith)
        requires
            0 <= n <= usize::MAX,
            0 <= percent <= 100,
    ;
    let scaled: u128 = (n as u128) * (percent as u128);
    let raw: u128 = scaled / 100;
    let rank: usize = if raw < (n - 1) as u128 {
        raw as usize
    } else {
        n - 1
    };
    assert(rank == percentile_rank(n as nat, percent as nat));
    let at = order[n - 1 - rank];
    assert(as_ints(order@)[n - 1 - rank] == at);
    assert(as_nats(values@)[at as int] == values[at as int]);
    values[at]
}

/// The 50th, 95th and 99th percentile of `values`: the samples that stand
/// at `len * 50 / 100`, `len * 95 / 100` and `len * 99 / 100` (rounded
/// down) once the samples are in ascending order. Without samples all are
/// 0; with one, all are that sample.
pub fn calculate_percentiles(values: &Vec<u128>) -> (result: (u128, u128, u128))
    ensures
        (result.0 as nat, result.1 as nat, result.2 as nat) == percentiles(as_nats(values@)),
        result.0 <= result.1 <= result.2,
{
    proof {
        lemma_percentiles_ordered(as_nats(values@));
    }
    if values.len() == 0 {
        return (0, 0, 0);
    }
    let order = rank_descending(values);
    let p50 = sample_at(values, &order, 50);
    let p95 = sample_at(values, &order, 95);
    let p99 = sample_at(values, &order, 99);
    (p50, p95, p99)
}

/// Whether the run ended in success.
pub open spec fn is_success(p: PipelineView) -> bool {
    p.status == "success"@
}

/// The runs among `pipelines` that ended in success (`success`), or those
/// that did not, in order.
pub open spec fn with_outcome(pipelines: Seq<PipelineView>, success: bool) -> Seq<PipelineView>
    decreases pipelines.len(),
{
    if pipelines.len() == 0 {
        Seq::empty()
    } else {
        let rest = with_outcome(pipelines.drop_last(), success);
        if is_success(pipelines.last()) == success {
            rest.push(pipelines.last())
        } else {
            rest
        }
    }
}

/// Parts the runs into those that ended in success and the others.
pub fn partition_by_outcome<'a>(pipelines: &Vec<&'a GitLabPipeline>) -> (parts: (
    Vec<&'a GitLabPipeline>,
    Vec<&'a GitLabPipeline>,
))
    ensures
        parts.0.deep_view() == with_outcome(pipelines.deep_view(), true),
        parts.1.deep_view() == with_outcome(pipelines.deep_view(), false),
{
    let ghost ps = pipelines.deep_view();
    let success = String::from_str("success");
    let mut successful: Vec<&'a GitLabPipeline> = Vec::new();
    let mut failed: Vec<&'a GitLabPipeline> = Vec::new();
    let mut i: usize = 0;
    assert(successful.deep_view() =~= with_outcome(ps.take(0), true));
    assert(failed.deep_view() =~= with_outcome(ps.take(0), false));
    while i < pipelines.len()
        invariant
            i <= pipelines.len(),
            ps == pipelines.deep_view(),
            success@ == "success"@,
            successful.deep_view() == with_outcome(ps.take(i as int), true),
            failed.deep_view() == with_outcome(ps.take(i as int), false),
        decreases pipelines.len() - i,
    {
        let pipeline: &'a GitLabPipeline = pipelines[i];
        proof {
            let next = ps.take(i + 1);
            assert(next.drop_last() =~= ps.take(i as int));
            assert(next.last() == pipeline@);
        }
        if pipeline.status == success {
            let ghost earlier = successful.deep_view();
            successful.push(pipeline);
            assert(successful.deep_view() =~= earlier.push(pipeline@));
        } else {
            let ghost earlier = failed.deep_view();
            failed.push(pipeline);
            assert(failed.deep_view() =~= earlier.push(pipeline@));
        }
        i += 1;
    }
    assert(ps.take(i as int) =~= ps);
    (successful, failed)
}

/// The web address of a pipeline run.
pub open spec fn pipeline_link(
    base_url: Seq<char>,
    project_path: Seq<char>,
    p: PipelineView,
) -> Seq<char> {
    spec_url(base_url, project_path, "/-/pipelines/"@, p.id)
}

/// The number of `pipelines` and a link to each.
pub open spec fn pipeline_links(
    pipelines: Seq<PipelineView>,
    base_url: Seq<char>,
    project_path: Seq<char>,
) -> CountWithLinksView {
    CountWithLinksView {
        count: pipelines.len(),
        links: Seq::new(
            pipelines.len(),
            |i: int| pipeline_link(base_url, project_path, pipelines[i]),
        ),
    }
}

/// Counts the runs and links to each of them.
pub fn to_pipeline_links(
    pipelines: &Vec<&GitLabPipeline>,
    base_url: &str,
    project_path: &str,
) -> (counted: PipelineCountWithLinks)
    ensures
        counted@ == pipeline_links(pipelines.deep_view(), base_url@, project_path@),
{
    let mut links: Vec<String> = Vec::new();
    let mut i: usize = 0;
    while i < pipelines.len()
        invariant
            i <= pipelines.len(),
            links.len() == i,
            forall|k: int|
                0 <= k < i ==> (#[trigger] links[k])@ == pipeline_link(
                    base_url@,
                    project_path@,
                    pipelines.deep_view()[k],
                ),
        decreases pipelines.len() - i,
    {
        let pipeline = pipelines[i];
        links.push(pipeline_id_to_url(base_url, project_path, pipeline.id.as_str()));
        i += 1;
    }
    let counted = PipelineCountWithLinks { count: pipelines.len(), links };
    assert(counted@.links =~= pipeline_links(
        pipelines.deep_view(),
        base_url@,
        project_path@,
    ).links);
    counted
}

/// The share of `part` in `total`, a total of 0 counting as 1.
pub open spec fn share_of(part: nat, total: nat) -> Percentage {
    Percentage {
        part: part as usize,
        whole: if total > 0 {
            total as usize
        } else {
            1
        },
    }
}

/// The share of `part` in `total`: `100 * part / max(total, 1)` percent.
pub fn share(part: usize, total: usize) -> (rate: Percentage)
    ensures
        rate == share_of(part as nat, total as nat),
        rate.wf(),
{
    Percentage {
        part,
        whole: if total > 0 {
            total
        } else {
            1
        },
    }
}

/// The share of successful runs: `100 * successful / max(total, 1)`
/// percent.
pub fn calculate_success_rate(successful: usize, total: usize) -> (rate: Percentage)
    ensures
        rate == share_of(successful as nat, total as nat),
        rate.wf(),
{
    share(successful, total)
}

/// The durations of `pipelines`, in order.
pub open spec fn durations_of(pipelines: Seq<PipelineView>) -> Seq<nat> {
    Seq::new(pipelines.len(), |i: int| pipelines[i].duration)
}

/// The durations of the runs, in order.
pub fn pipeline_durations(pipelines: &Vec<&GitLabPipeline>) -> (durations: Vec<u128>)
    ensures
        as_nats(durations@) == durations_of(pipelines.deep_view()),
{
    let mut durations: Vec<u128> = Vec::new();
    let mut i: usize = 0;
    while i < pipelines.len()
        invariant
            i <= pipelines.len(),
            durations.len() == i,
            forall|k: int|
                0 <= k < i ==> (#[trigger] durations[k]) as nat == pipelines.deep_view()[k].duration,
        decreases pipelines.len() - i,
    {
        let pipeline = pipelines[i];
        durations.push(pipeline.duration as u128);
        i += 1;
    }
    assert(as_nats(durations@) =~= durations_of(pipelines.deep_view()));
    durations
}

/// The earliest time to feedback among `metrics`; 0 for none.
pub open spec fn min_feedback(metrics: Seq<JobMetricsView>) -> nat
    decreases metrics.len(),
{
    if metrics.len() == 0 {
        0
    } else if metrics.len() == 1 {
        metrics[0].time_to_feedback_p50
    } else {
        let rest = min_feedback(metrics.drop_last());
        let last = metrics.last().time_to_feedback_p50;
        if last < rest {
            last
        } else {
            rest
        }
    }
}

/// The earliest time to feedback among the jobs of one run.
pub fn earliest_feedback(metrics: &Vec<JobMetrics>) -> (earliest: u128)
    ensures
        earliest as nat == min_feedback(metrics.deep_view()),
{
    if metrics.len() == 0 {
        return 0;
    }
    let ghost all = metrics.deep_view();
    let mut earliest: u128 = metrics[0].time_to_feedback_p50;
    let mut i: usize = 1;
    assert(all.take(1).len() == 1);
    while i < metrics.len()
        invariant
            1 <= i <= metrics.len(),
            all == metrics.deep_view(),
            earliest as nat == min_feedback(all.take(i as int)),
        decreases metrics.len() - i,
    {
        proof {
            let next = all.take(i + 1);
            assert(next.drop_last() =~= all.take(i as int));
            assert(next.last() == metrics[i as int]@);
        }
        if metrics[i].time_to_feedback_p50 < earliest {
            earliest = metrics[i].time_to_feedback_p50;
        }
        i += 1;
    }
    assert(all.take(i as int) =~= all);
    earliest
}

/// The figures of every job of every run of `pipelines`, run after run.
pub open spec fn run_metrics(pipelines: Seq<PipelineView>) -> Seq<JobMetricsView>
    decreases pipelines.len(),
{
    if pipelines.len() == 0 {
        Seq::empty()
    } else {
        run_metrics(pipelines.drop_last()) + job_metrics(pipelines.last())
    }
}

/// For each run of `pipelines` that reports a job, the earliest time to
/// feedback among its jobs.
pub open spec fn first_feedback_times(pipelines: Seq<PipelineView>) -> Seq<nat>
    decreases pipelines.len(),
{
    if pipelines.len() == 0 {
        Seq::empty()
    } else {
        let rest = first_feedback_times(pipelines.drop_last());
        let metrics = job_metrics(pipelines.last());
        if metrics.len() > 0 {
            rest.push(min_feedback(metrics))
        } else {
            rest
        }
    }
}

/// Analyses every run on its own.
pub fn collect_run_metrics(pipelines: &Vec<&GitLabPipeline>) -> (collected: (
    Vec<JobMetrics>,
    Vec<u128>,
))
    ensures
        collected.0.deep_view() == run_metrics(pipelines.deep_view()),
        as_nats(collected.1@) == first_feedback_times(pipelines.deep_view()),
{
    let ghost ps = pipelines.deep_view();
    let mut flat: Vec<JobMetrics> = Vec::new();
    let mut first: Vec<u128> = Vec::new();
    let mut i: usize = 0;
    assert(flat.deep_view() =~= run_metrics(ps.take(0)));
    assert(as_nats(first@) =~= first_feedback_times(ps.take(0)));
    while i < pipelines.len()
        invariant
            i <= pipelines.len(),
            ps == pipelines.deep_view(),
            flat.deep_view() == run_metrics(ps.take(i as int)),
            as_nats(first@) == first_feedback_times(ps.take(i as int)),
        decreases pipelines.len() - i,
    {
        let pipeline = pipelines[i];
        let mut metrics = calculate_job_metrics(pipeline);
        proof {
            let next = ps.take(i + 1);
            assert(next.drop_last() =~= ps.take(i as int));
            assert(next.last() == pipeline@);
        }
        if metrics.len() > 0 {
            let ghost earlier = as_nats(first@);
            let earliest = earliest_feedback(&metrics);
            first.push(earliest);
            assert(as_nats(first@) =~= earlier.push(earliest as nat));
        }
        let ghost earlier = flat.deep_view();
        let ghost added = metrics.deep_view();
        flat.append(&mut metrics);
        assert(flat.deep_view() =~= earlier + added);
        i += 1;
    }
    assert(ps.take(i as int) =~= ps);
    (flat, first)
}

/// The job names of `metrics`, in order.
pub open spec fn metric_names(metrics: Seq<JobMetricsView>) -> Seq<Seq<char>> {
    Seq::new(metrics.len(), |i: int| metrics[i].name)
}

/// The durations that `metrics` record for the job called `name`.
pub open spec fn duration_samples(metrics: Seq<JobMetricsView>, name: Seq<char>) -> Seq<nat>
    decreases metrics.len(),
{
    if metrics.len() == 0 {
        Seq::empty()
    } else {
        let rest = duration_samples(metrics.drop_last(), name);
        if metrics.last().name == name {
            rest.push(metrics.last().duration_p50)
        } else {
            rest
        }
    }
}

/// The times to feedback that `metrics` record for the job called `name`.
pub open spec fn feedback_samples(metrics: Seq<JobMetricsView>, name: Seq<char>) -> Seq<nat>
    decreases metrics.len(),
{
    if metrics.len() == 0 {
        Seq::empty()
    } else {
        let rest = feedback_samples(metrics.drop_last(), name);
        if metrics.last().name == name {
            rest.push(metrics.last().time_to_feedback_p50)
        } else {
            rest
        }
    }
}

/// The names of `predecessors`, in order.
pub open spec fn names_of(predecessors: Seq<PredecessorJobView>) -> Seq<Seq<char>> {
    Seq::new(predecessors.len(), |i: int| predecessors[i].name)
}

/// The names on the critical chains that `metrics` record for the job
/// called `name`, chain after chain.
pub open spec fn predecessor_names(metrics: Seq<JobMetricsView>, name: Seq<char>) -> Seq<
    Seq<char>,
>
    decreases metrics.len(),
{
    if metrics.len() == 0 {
        Seq::empty()
    } else {
        let rest = predecessor_names(metrics.drop_last(), name);
        if metrics.last().name == name {
            rest + names_of(metrics.last().predecessors)
        } else {
            rest
        }
    }
}

/// The distinct job names of `metrics`, each where it first occurs.
pub fn reported_names(metrics: &Vec<JobMetrics>) -> (names: Vec<String>)
    ensures
        names.deep_view() == distinct(metric_names(metrics.deep_view())),
{
    let ghost all = metric_names(metrics.deep_view());
    let mut names: Vec<String> = Vec::new();
    let mut i: usize = 0;
    assert(names.deep_view() =~= distinct(all.take(0)));
    while i < metrics.len()
        invariant
            i <= metrics.len(),
            all == metric_names(metrics.deep_view()),
            names.deep_view() == distinct(all.take(i as int)),
        decreases metrics.len() - i,
    {
        assert(all.take(i as int).push(metrics[i as int].name@) =~= all.take(i + 1));
        note(&mut names, &metrics[i].name, Ghost(all.take(i as int)));
        i += 1;
    }
    assert(all.take(i as int) =~= all);
    names
}

/// The durations and the times to feedback that `metrics` record for the
/// job called `name`.
pub fn samples_of(metrics: &Vec<JobMetrics>, name: &String) -> (samples: (Vec<u128>, Vec<u128>))
    ensures
        as_nats(samples.0@) == duration_samples(metrics.deep_view(), name@),
        as_nats(samples.1@) == feedback_samples(metrics.deep_view(), name@),
{
    let ghost all = metrics.deep_view();
    let mut durations: Vec<u128> = Vec::new();
    let mut feedbacks: Vec<u128> = Vec::new();
    let mut i: usize = 0;
    assert(as_nats(durations@) =~= duration_samples(all.take(0), name@));
    assert(as_nats(feedbacks@) =~= feedback_samples(all.take(0), name@));
    while i < metrics.len()
        invariant
            i <= metrics.len(),
            all == metrics.deep_view(),
            as_nats(durations@) == duration_samples(all.take(i as int), name@),
            as_nats(feedbacks@) == feedback_samples(all.take(i as int), name@),
        decreases metrics.len() - i,
    {
        proof {
            let next = all.take(i + 1);
            assert(next.drop_last() =~= all.take(i as int));
            assert(next.last() == metrics[i as int]@);
        }
        if metrics[i].name == *name {
            let ghost earlier_durations = as_nats(durations@);
            let ghost earlier_feedbacks = as_nats(feedbacks@);
            durations.push(metrics[i].duration_p50);
            feedbacks.push(metrics[i].time_to_feedback_p50);
            assert(as_nats(durations@) =~= earlier_durations.push(
                metrics[i as int].duration_p50 as nat,
            ));
            assert(as_nats(feedbacks@) =~= earlier_feedbacks.push(
                metrics[i as int].time_to_feedback_p50 as nat,
            ));
        }
        i += 1;
    }
    assert(all.take(i as int) =~= all);
    (durations, feedbacks)
}

/// The distinct names on the critical chains that `metrics` record for
/// the job called `name`, each where it first occurs.
pub fn predecessor_candidates(metrics: &Vec<JobMetrics>, name: &String) -> (candidates: Vec<
    String,
>)
    ensures
        candidates.deep_view() == distinct(predecessor_names(metrics.deep_view(), name@)),
{
    let ghost all = metrics.deep_view();
    let mut candidates: Vec<String> = Vec::new();
    let mut i: usize = 0;
    assert(candidates.deep_view() =~= distinct(predecessor_names(all.take(0), name@)));
    while i < metrics.len()
        invariant
            i <= metrics.len(),
            all == metrics.deep_view(),
            candidates.deep_view() == distinct(predecessor_names(all.take(i as int), name@)),
        decreases metrics.len() - i,
    {
        proof {
            let next = all.take(i + 1);
            assert(next.drop_last() =~= all.take(i as int));
            assert(next.last() == metrics[i as int]@);
        }
        if metrics[i].name == *name {
            let chain = &metrics[i].predecessors;
            let ghost earlier = predecessor_names(all.take(i as int), name@);
            let ghost own = names_of(chain.deep_view());
            let mut j: usize = 0;
            assert(earlier + own.take(0) =~= earlier);
            while j < chain.len()
                invariant
                    j <= chain.len(),
                    own == names_of(chain.deep_view()),
                    candidates.deep_view() == distinct(earlier + own.take(j as int)),
                decreases chain.len() - j,
            {
                assert((earlier + own.take(j as int)).push(chain[j as int].name@) =~= earlier
                    + own.take(j + 1));
                note(&mut candidates, &chain[j].name, Ghost(earlier + own.take(j as int)));
                j += 1;
            }
            assert(own.take(j as int) =~= own);
        }
        i += 1;
    }
    assert(all.take(i as int) =~= all);
    candidates
}

/// Those of `candidates` that are among `names`, each with the median
/// duration that `medians` holds at the place of its name.
pub open spec fn known_predecessors(
    candidates: Seq<Seq<char>>,
    names: Seq<Seq<char>>,
    medians: Seq<nat>,
) -> Seq<PredecessorJobView>
    decreases candidates.len(),
{
    if candidates.len() == 0 {
        Seq::empty()
    } else {
        let rest = known_predecessors(candidates.drop_last(), names, medians);
        match last_position(names, candidates.last()) {
            Some(i) => rest.push(
                PredecessorJobView { name: candidates.last(), duration_p50: medians[i] },
            ),
            None => rest,
        }
    }
}

/// The median durations of `predecessors`, in order.
pub open spec fn medians_of(predecessors: Seq<PredecessorJobView>) -> Seq<nat> {
    Seq::new(predecessors.len(), |i: int| predecessors[i].duration_p50)
}

/// The known predecessors among `candidates`, the one with the longest
/// median duration first; those of equal duration in the order of
/// `candidates`.
pub open spec fn ranked_predecessors(
    candidates: Seq<Seq<char>>,
    names: Seq<Seq<char>>,
    medians: Seq<nat>,
) -> Seq<PredecessorJobView> {
    let known = known_predecessors(candidates, names, medians);
    let order = descending_order(medians_of(known));
    Seq::new(known.len(), |k: int| known[order[k]])
}

/// Turns the names met on the critical chains of a job into its list of
/// predecessors: each name that is a reported job (one of `names`), with
/// that job's median duration (from `medians`, which runs parallel to
/// `names`), the slowest first.
pub fn aggregate_predecessors(
    candidates: &Vec<String>,
    names: &Vec<String>,
    medians: &Vec<u128>,
) -> (predecessors: Vec<PredecessorJob>)
    requires
        medians.len() == names.len(),
    ensures
        predecessors.deep_view() == ranked_predecessors(
            candidates.deep_view(),
            names.deep_view(),
            as_nats(medians@),
        ),
{
    let ghost all = candidates.deep_view();
    let ghost listed = names.deep_view();
    let ghost times = as_nats(medians@);
    let mut known: Vec<usize> = Vec::new();
    let mut durations: Vec<u128> = Vec::new();
    let mut i: usize = 0;
    assert(Seq::<PredecessorJobView>::empty() =~= known_predecessors(all.take(0), listed, times));
    while i < candidates.len()
        invariant
            i <= candidates.len(),
            all == candidates.deep_view(),
            listed == names.deep_view(),
            times == as_nats(medians@),
            medians.len() == names.len(),
            known.len() == durations.len(),
            known.len() == known_predecessors(all.take(i as int), listed, times).len(),
            forall|k: int| 0 <= k < known.len() ==> #[trigger] known[k] < candidates.len(),
            forall|k: int|
                0 <= k < known.len() ==> known_predecessors(all.take(i as int), listed, times)[k]
                    == (PredecessorJobView {
                    name: candidates[#[trigger] known[k] as int]@,
                    duration_p50: durations[k] as nat,
                }),
        decreases candidates.len() - i,
    {
        proof {
            let next = all.take(i + 1);
            assert(next.drop_last() =~= all.take(i as int));
            assert(next.last() == candidates[i as int]@);
            lemma_last_position(listed, candidates[i as int]@);
        }
        match last_index_of(names, &candidates[i]) {
            Some(at) => {
                known.push(i);
                durations.push(medians[at]);
                assert(times[at as int] == medians[at as int]);
            },
            None => {},
        }
        i += 1;
    }
    assert(all.take(i as int) =~= all);
    let ghost found = known_predecessors(all, listed, times);
    assert forall|m: int| 0 <= m < durations.len() implies as_nats(durations@)[m] == medians_of(
        found,
    )[m] by {
        assert(known[m] < candidates.len());
    }
    assert(as_nats(durations@) =~= medians_of(found));
    let order = rank_descending(&durations);
    let mut predecessors: Vec<PredecessorJob> = Vec::new();
    let mut k: usize = 0;
    while k < order.len()
        invariant
            k <= order.len(),
            order.len() == known.len(),
            known.len() == durations.len(),
            known.len() == found.len(),
            as_ints(order@) == descending_order(medians_of(found)),
            forall|m: int| 0 <= m < order.len() ==> #[trigger] order[m] < known.len(),
            forall|m: int| 0 <= m < known.len() ==> #[trigger] known[m] < candidates.len(),
            forall|m: int|
                0 <= m < known.len() ==> found[m] == (PredecessorJobView {
                    name: candidates[#[trigger] known[m] as int]@,
                    duration_p50: durations[m] as nat,
                }),
            predecessors.len() == k,
            forall|m: int|
                0 <= m < k ==> (#[trigger] predecessors[m])@ == found[order[m] as int],
        decreases order.len() - k,
    {
        let at = order[k];
        assert(known[at as int] < candidates.len());
        predecessors.push(
            PredecessorJob { name: candidates[known[at]].clone(), duration_p50: durations[at] },
        );
        k += 1;
    }
    proof {
        assert forall|m: int| 0 <= m < predecessors.len() implies predecessors.deep_view()[m]
            == ranked_predecessors(all, listed, times)[m] by {
            assert(as_ints(order@)[m] == order[m] as int);
        }
        assert(predecessors.deep_view() =~= ranked_predecessors(all, listed, times));
    }
    predecessors
}

/// The figures of one job, put together from its parts.
pub open spec fn assembled(
    name: Seq<char>,
    durations: (nat, nat, nat),
    feedbacks: (nat, nat, nat),
    predecessors: Seq<PredecessorJobView>,
    reliability: JobReliabilityView,
) -> JobMetricsView {
    JobMetricsView {
        name,
        duration_p50: durations.0,
        duration_p95: durations.1,
        duration_p99: durations.2,
        time_to_feedback_p50: feedbacks.0,
        time_to_feedback_p95: feedbacks.1,
        time_to_feedback_p99: feedbacks.2,
        predecessors,
        flakiness_rate: reliability.flakiness_rate,
        flaky_retries: CountWithLinksView {
            count: reliability.flaky_retries,
            links: reliability.flaky_job_links,
        },
        failed_executions: CountWithLinksView {
            count: reliability.failed_executions,
            links: reliability.failed_job_links,
        },
        failure_rate: reliability.failure_rate,
        total_executions: reliability.total_executions,
    }
}

/// Puts the figures of one job together: the percentiles of its durations
/// and of its times to feedback, its predecessors and its reliability.
pub fn build_job_metrics(
    name: &String,
    durations: (u128, u128, u128),
    feedbacks: (u128, u128, u128),
    predecessors: Vec<PredecessorJob>,
    reliability: JobReliabilityMetrics,
) -> (metrics: JobMetrics)
    ensures
        metrics@ == assembled(
            name@,
            (durations.0 as nat, durations.1 as nat, durations.2 as nat),
            (feedbacks.0 as nat, feedbacks.1 as nat, feedbacks.2 as nat),
            predecessors.deep_view(),
            reliability@,
        ),
{
    JobMetrics {
        name: name.clone(),
        duration_p50: durations.0,
        duration_p95: durations.1,
        duration_p99: durations.2,
        time_to_feedback_p50: feedbacks.0,
        time_to_feedback_p95: feedbacks.1,
        time_to_feedback_p99: feedbacks.2,
        predecessors,
        flakiness_rate: reliability.flakiness_rate,
        flaky_retries: JobCountWithLinks {
            count: reliability.flaky_retries,
            links: reliability.flaky_job_links,
        },
        failed_executions: JobCountWithLinks {
            count: reliability.failed_executions,
            links: reliability.failed_job_links,
        },
        failure_rate: reliability.failure_rate,
        total_executions: reliability.total_executions,
    }
}

/// For each of `names`, the median of the durations that `metrics` record
/// for it.
pub open spec fn median_durations(metrics: Seq<JobMetricsView>, names: Seq<Seq<char>>) -> Seq<
    nat,
> {
    Seq::new(names.len(), |i: int| percentiles(duration_samples(metrics, names[i])).0)
}

/// For each of `names`, the 95th percentile of the times to feedback that
/// `metrics` record for it.
pub open spec fn slow_feedbacks(metrics: Seq<JobMetricsView>, names: Seq<Seq<char>>) -> Seq<nat> {
    Seq::new(names.len(), |i: int| percentiles(feedback_samples(metrics, names[i])).1)
}

/// The figures of the job called `name`: latency from `metrics`, the
/// per-run figures of the successful runs; reliability from `all`, every
/// run of the type.
pub open spec fn aggregated_job(
    metrics: Seq<JobMetricsView>,
    all: Seq<PipelineView>,
    name: Seq<char>,
    base_url: Seq<char>,
    project_path: Seq<char>,
) -> JobMetricsView {
    let names = distinct(metric_names(metrics));
    assembled(
        name,
        percentiles(duration_samples(metrics, name)),
        percentiles(feedback_samples(metrics, name)),
        ranked_predecessors(
            distinct(predecessor_names(metrics, name)),
            names,
            median_durations(metrics, names),
        ),
        reliability_of(all, name, base_url, project_path),
    )
}

/// The figures of every job that a successful run reports, the job with
/// the slowest feedback (95th percentile) first; jobs of equal feedback
/// in the order in which they first occur.
pub open spec fn aggregated_jobs(
    successful: Seq<PipelineView>,
    all: Seq<PipelineView>,
    base_url: Seq<char>,
    project_path: Seq<char>,
) -> Seq<JobMetricsView> {
    let metrics = run_metrics(successful);
    let names = distinct(metric_names(metrics));
    let order = descending_order(slow_feedbacks(metrics, names));
    Seq::new(
        names.len(),
        |k: int| aggregated_job(metrics, all, names[order[k]], base_url, project_path),
    )
}

/// Combines the per-run figures of the successful runs into the figures
/// of each job, and tells the percentiles of the time until a run gives
/// its first feedback.
///
/// Latency comes from the successful runs alone; reliability from all
/// runs of the type.
pub fn aggregate_job_metrics(
    successful_pipelines: &Vec<&GitLabPipeline>,
    all_pipelines: &Vec<&GitLabPipeline>,
    base_url: &str,
    project_path: &str,
) -> (result: (Vec<JobMetrics>, (u128, u128, u128)))
    ensures
        result.0.deep_view() == aggregated_jobs(
            successful_pipelines.deep_view(),
            all_pipelines.deep_view(),
            base_url@,
            project_path@,
        ),
        ((result.1).0 as nat, (result.1).1 as nat, (result.1).2 as nat) == percentiles(
            first_feedback_times(successful_pipelines.deep_view()),
        ),
{
    let ghost all = all_pipelines.deep_view();
    let (flat, first) = collect_run_metrics(successful_pipelines);
    let ghost metrics = flat.deep_view();
    let time_to_feedback = calculate_percentiles(&first);
    let names = reported_names(&flat);
    let ghost listed = names.deep_view();
    let mut duration_figures: Vec<(u128, u128, u128)> = Vec::new();
    let mut feedback_figures: Vec<(u128, u128, u128)> = Vec::new();
    let mut medians: Vec<u128> = Vec::new();
    let mut keys: Vec<u128> = Vec::new();
    let mut i: usize = 0;
    while i < names.len()
        invariant
            i <= names.len(),
            metrics == flat.deep_view(),
            listed == names.deep_view(),
            duration_figures.len() == i,
            feedback_figures.len() == i,
            medians.len() == i,
            keys.len() == i,
            forall|m: int|
                0 <= m < i ==> ({
                    let d = #[trigger] duration_figures[m];
                    (d.0 as nat, d.1 as nat, d.2 as nat) == percentiles(
                        duration_samples(metrics, listed[m]),
                    )
                }),
            forall|m: int|
                0 <= m < i ==> ({
                    let f = #[trigger] feedback_figures[m];
                    (f.0 as nat, f.1 as nat, f.2 as nat) == percentiles(
                        feedback_samples(metrics, listed[m]),
                    )
                }),
            forall|m: int|
                0 <= m < i ==> (#[trigger] medians[m]) as nat == percentiles(
                    duration_samples(metrics, listed[m]),
                ).0,
            forall|m: int|
                0 <= m < i ==> (#[trigger] keys[m]) as nat == percentiles(
                    feedback_samples(metrics, listed[m]),
                ).1,
        decreases names.len() - i,
    {
        let (durations, feedbacks) = samples_of(&flat, &names[i]);
        let d = calculate_percentiles(&durations);
        let f = calculate_percentiles(&feedbacks);
        duration_figures.push(d);
        feedback_figures.push(f);
        medians.push(d.0);
        keys.push(f.1);
        i += 1;
    }
    assert(as_nats(medians@) =~= median_durations(metrics, listed));
    assert(as_nats(keys@) =~= slow_feedbacks(metrics, listed));
    let order = rank_descending(&keys);
    let mut jobs: Vec<JobMetrics> = Vec::new();
    let mut k: usize = 0;
    while k < order.len()
        invariant
            k <= order.len(),
            order.len() == names.len(),
            metrics == flat.deep_view(),
            listed == names.deep_view(),
            all == all_pipelines.deep_view(),
            listed == distinct(metric_names(metrics)),
            duration_figures.len() == names.len(),
            feedback_figures.len() == names.len(),
            medians.len() == names.len(),
            as_nats(medians@) == median_durations(metrics, listed),
            as_ints(order@) == descending_order(slow_feedbacks(metrics, listed)),
            forall|m: int| 0 <= m < order.len() ==> #[trigger] order[m] < names.len(),
            forall|m: int|
                0 <= m < names.len() ==> ({
                    let d = #[trigger] duration_figures[m];
                    (d.0 as nat, d.1 as nat, d.2 as nat) == percentiles(
                        duration_samples(metrics, listed[m]),
                    )
                }),
            forall|m: int|
                0 <= m < names.len() ==> ({
                    let f = #[trigger] feedback_figures[m];
                    (f.0 as nat, f.1 as nat, f.2 as nat) == percentiles(
                        feedback_samples(metrics, listed[m]),
                    )
                }),
            jobs.len() == k,
            forall|m: int|
                0 <= m < k ==> (#[trigger] jobs[m])@ == aggregated_job(
                    metrics,
                    all,
                    listed[order[m] as int],
                    base_url@,
                    project_path@,
                ),
        decreases order.len() - k,
    {
        let at = order[k];
        let name = &names[at];
        let candidates = predecessor_candidates(&flat, name);
        let predecessors = aggregate_predecessors(&candidates, &names, &medians);
        let reliability = reliability_for(all_pipelines, name, base_url, project_path);
        let job = build_job_metrics(
            name,
            duration_figures[at],
            feedback_figures[at],
            predecessors,
            reliability,
        );
        jobs.push(job);
        k += 1;
    }
    proof {
        let expected = aggregated_jobs(
            successful_pipelines.deep_view(),
            all,
            base_url@,
            project_path@,
        );
        assert forall|m: int| 0 <= m < jobs.len() implies jobs.deep_view()[m] == expected[m] by {
            assert(as_ints(order@)[m] == order[m] as int);
        }
        assert(jobs.deep_view() =~= expected);
    }
    (jobs, time_to_feedback)
}

/// The figures of a pipeline type whose runs are `pipelines`, and whose
/// share of all analysed runs is `percentage`.
pub open spec fn type_metrics(
    pipelines: Seq<PipelineView>,
    percentage: Percentage,
    base_url: Seq<char>,
    project_path: Seq<char>,
) -> TypeMetricsView {
    let successful = with_outcome(pipelines, true);
    let failed = with_outcome(pipelines, false);
    let durations = percentiles(durations_of(successful));
    let feedbacks = percentiles(first_feedback_times(successful));
    TypeMetricsView {
        percentage,
        total_pipelines: pipelines.len(),
        successful_pipelines: pipeline_links(successful, base_url, project_path),
        failed_pipelines: pipeline_links(failed, base_url, project_path),
        success_rate: share_of(successful.len(), pipelines.len()),
        duration_p50: durations.0,
        duration_p95: durations.1,
        duration_p99: durations.2,
        time_to_feedback_p50: feedbacks.0,
        time_to_feedback_p95: feedbacks.1,
        time_to_feedback_p99: feedbacks.2,
        jobs: aggregated_jobs(successful, pipelines, base_url, project_path),
    }
}

/// Computes the figures of one pipeline type from its runs.
///
/// Durations and times to feedback are taken from the successful runs;
/// the reliability of the jobs from all runs. A type without a successful
/// run has no jobs and all its percentiles are 0.
pub fn calculate_type_metrics(
    pipelines: &Vec<&GitLabPipeline>,
    percentage: Percentage,
    base_url: &str,
    project_path: &str,
) -> (metrics: TypeMetrics)
    ensures
        metrics@ == type_metrics(pipelines.deep_view(), percentage, base_url@, project_path@),
{
    let total_pipelines = pipelines.len();
    let (successful, failed) = partition_by_outcome(pipelines);
    let successful_pipelines = to_pipeline_links(&successful, base_url, project_path);
    let failed_pipelines = to_pipeline_links(&failed, base_url, project_path);
    let durations = pipeline_durations(&successful);
    let (duration_p50, duration_p95, duration_p99) = calculate_percentiles(&durations);
    let (jobs, time_to_feedback) = aggregate_job_metrics(
        &successful,
        pipelines,
        base_url,
        project_path,
    );
    TypeMetrics {
        percentage,
        total_pipelines,
        successful_pipelines,
        failed_pipelines,
        success_rate: calculate_success_rate(successful.len(), total_pipelines),
        duration_p50,
        duration_p95,
        duration_p99,
        time_to_feedback_p50: time_to_feedback.0,
        time_to_feedback_p95: time_to_feedback.1,
        time_to_feedback_p99: time_to_feedback.2,
        jobs,
    }
}

/// The predecessors of a job are listed with the longest median duration
/// first.
pub proof fn lemma_ranked_predecessors_sorted(
    candidates: Seq<Seq<char>>,
    names: Seq<Seq<char>>,
    medians: Seq<nat>,
)
    ensures
        forall|a: int, b: int|
            0 <= a <= b < ranked_predecessors(candidates, names, medians).len()
                ==> ranked_predecessors(candidates, names, medians)[a].duration_p50
                >= ranked_predecessors(candidates, names, medians)[b].duration_p50,
{
    let known = known_predecessors(candidates, names, medians);
    let keys = medians_of(known);
    let order = descending_order(keys);
    lemma_descending_order_sorted(keys);
    lemma_descending_order_bounds(keys);
    let ranked = ranked_predecessors(candidates, names, medians);
    assert forall|a: int, b: int| 0 <= a <= b < ranked.len() implies ranked[a].duration_p50
        >= ranked[b].duration_p50 by {
        assert(keys[order[a]] >= keys[order[b]]);
    }
}

/// The jobs of a pipeline type are listed with the slowest feedback (95th
/// percentile) first.
pub proof fn lemma_aggregated_jobs_sorted(
    successful: Seq<PipelineView>,
    all: Seq<PipelineView>,
    base_url: Seq<char>,
    project_path: Seq<char>,
)
    ensures
        forall|a: int, b: int|
            0 <= a <= b < aggregated_jobs(successful, all, base_url, project_path).len()
                ==> aggregated_jobs(
                successful,
                all,
                base_url,
                project_path,
            )[a].time_to_feedback_p95 >= aggregated_jobs(
                successful,
                all,
                base_url,
                project_path,
            )[b].time_to_feedback_p95,
{
    let metrics = run_metrics(successful);
    let names = distinct(metric_names(metrics));
    let keys = slow_feedbacks(metrics, names);
    let order = descending_order(keys);
    lemma_descending_order_sorted(keys);
    lemma_descending_order_bounds(keys);
    let jobs = aggregated_jobs(successful, all, base_url, project_path);
    assert forall|a: int, b: int| 0 <= a <= b < jobs.len() implies jobs[a].time_to_feedback_p95
        >= jobs[b].time_to_feedback_p95 by {
        assert(keys[order[a]] >= keys[order[b]]);
    }
}

/// The percentiles of every job of a pipeline type never decrease, for
/// its durations as for its times to feedback.
pub proof fn lemma_aggregated_job_percentiles_ordered(
    metrics: Seq<JobMetricsView>,
    all: Seq<PipelineView>,
    name: Seq<char>,
    base_url: Seq<char>,
    project_path: Seq<char>,
)
    ensures
        ({
            let job = aggregated_job(metrics, all, name, base_url, project_path);
            &&& job.duration_p50 <= job.duration_p95 <= job.duration_p99
            &&& job.time_to_feedback_p50 <= job.time_to_feedback_p95 <= job.time_to_feedback_p99
        }),
{
    lemma_percentiles_ordered(duration_samples(metrics, name));
    lemma_percentiles_ordered(feedback_samples(metrics, name));
}

/// The runs with one outcome are no more than all runs, so that the
/// success rate is never above 100 percent.
pub proof fn lemma_with_outcome_len(pipelines: Seq<PipelineView>, success: bool)
    ensures
        with_outcome(pipelines, success).len() <= pipelines.len(),
        pipelines.len() <= usize::MAX ==> !share_of(
            with_outcome(pipelines, success).len(),
            pipelines.len(),
        ).is_above(100),
    decreases pipelines.len(),
{
    if pipelines.len() > 0 {
        lemma_with_outcome_len(pipelines.drop_last(), success);
    }
}

/// Every run ended in success or did not: the two parts make up the
/// whole.
pub proof fn lemma_outcomes_make_up_the_whole(pipelines: Seq<PipelineView>)
    ensures
        with_outcome(pipelines, true).len() + with_outcome(pipelines, false).len()
            == pipelines.len(),
    decreases pipelines.len(),
{
    if pipelines.len() > 0 {
        lemma_outcomes_make_up_the_whole(pipelines.drop_last());
    }
}

/// The earliest time to feedback is that of one of the jobs, and no job
/// has an earlier one.
pub proof fn lemma_min_feedback(metrics: Seq<JobMetricsView>)
    requires
        metrics.len() > 0,
    ensures
        exists|k: int|
            0 <= k < metrics.len() && (#[trigger] metrics[k]).time_to_feedback_p50
                == min_feedback(metrics),
        forall|k: int|
            0 <= k < metrics.len() ==> min_feedback(metrics) <= (
            #[trigger] metrics[k]).time_to_feedback_p50,
    decreases metrics.len(),
{
    if metrics.len() == 1 {
        assert(metrics[0].time_to_feedback_p50 == min_feedback(metrics));
    } else {
        let rest = metrics.drop_last();
        lemma_min_feedback(rest);
        let at = choose|at: int|
            0 <= at < rest.len() && (#[trigger] rest[at]).time_to_feedback_p50 == min_feedback(
                rest,
            );
        assert(metrics[at] == rest[at]);
        assert(metrics[metrics.len() - 1] == metrics.last());
        assert forall|k: int| 0 <= k < metrics.len() implies min_feedback(metrics) <= (
        #[trigger] metrics[k]).time_to_feedback_p50 by {
            if k < rest.len() {
                assert(rest[k] == metrics[k]);
            }
        }
    }
}

/// The first feedback of a run is the earliest finish time among all its
/// jobs, whatever their status: no job of the run finishes before it.
pub proof fn lemma_first_feedback_is_earliest(p: PipelineView, index: int)
    requires
        is_representative(p, index),
    ensures
        job_metrics(p).len() > 0,
        min_feedback(job_metrics(p)) <= finish_time(p, p.jobs[index].name),
{
    lemma_every_job_is_reported(p, index);
    let metrics = job_metrics(p);
    let k = choose|k: int| 0 <= k < metrics.len() && metrics[k] == single_run_metrics(p, index);
    lemma_min_feedback(metrics);
    assert(metrics[k].time_to_feedback_p50 == finish_time(p, p.jobs[index].name));
}

} // verus!
