//! What a summary of the insights says: how good a figure is, which job
//! of a type is the slowest, and the overall success rate.

use vstd::prelude::*;
use vstd::string::StringExecFns;
use crate::insights::{
    CIInsights, CIInsightsView, JobMetrics, JobMetricsView, Percentage, PipelineTypeView,
    TypeMetrics, TypeMetricsView,
};
use crate::job_reliability::rate_of;
use crate::pipeline_metrics::{metric_names, names_of};
use crate::ranking::{
    as_ints, as_nats, descending_order, descending_rate_order, rank_descending,
    rank_rates_descending,
};
use crate::text::{distinct, note};

verus! {

/// How a figure is to be read.
#[derive(Debug, Clone, Copy, PartialEq, Eq, Structural)]
pub enum Level {
    Good,
    Warning,
    Critical,
}

/// A success rate is good above 80 percent and critical below 50.
pub fn success_level(rate: Percentage) -> (level: Level)
    ensures
        level == if rate.is_above(80) {
            Level::Good
        } else if rate.reaches(50) {
            Level::Warning
        } else {
            Level::Critical
        },
{
    if rate.exceeds(80) {
        Level::Good
    } else if rate.at_least(50) {
        Level::Warning
    } else {
        Level::Critical
    }
}

/// A duration is good up to ten minutes and critical beyond fifteen.
pub fn duration_level(seconds: u128) -> (level: Level)
    ensures
        level == if seconds <= 600 {
            Level::Good
        } else if seconds <= 900 {
            Level::Warning
        } else {
            Level::Critical
        },
{
    if seconds <= 600 {
        Level::Good
    } else if seconds <= 900 {
        Level::Warning
    } else {
        Level::Critical
    }
}

/// A failure rate is critical from 50 percent and good below 25.
pub fn failure_level(rate: Percentage) -> (level: Level)
    ensures
        level == if rate.reaches(50) {
            Level::Critical
        } else if rate.reaches(25) {
            Level::Warning
        } else {
            Level::Good
        },
{
    if rate.at_least(50) {
        Level::Critical
    } else if rate.at_least(25) {
        Level::Warning
    } else {
        Level::Good
    }
}

/// A flakiness rate is critical from 10 percent and good below 5.
pub fn flakiness_level(rate: Percentage) -> (level: Level)
    ensures
        level == if rate.reaches(10) {
            Level::Critical
        } else if rate.reaches(5) {
            Level::Warning
        } else {
            Level::Good
        },
{
    if rate.at_least(10) {
        Level::Critical
    } else if rate.at_least(5) {
        Level::Warning
    } else {
        Level::Good
    }
}

/// In a report, a success rate is good from 80 percent and critical below
/// 50.
pub fn success_mark(rate: Percentage) -> (level: Level)
    ensures
        level == if rate.reaches(80) {
            Level::Good
        } else if rate.reaches(50) {
            Level::Warning
        } else {
            Level::Critical
        },
{
    if rate.at_least(80) {
        Level::Good
    } else if rate.at_least(50) {
        Level::Warning
    } else {
        Level::Critical
    }
}

/// In a report, a failure rate is good up to 25 percent and critical above
/// 50.
pub fn failure_mark(rate: Percentage) -> (level: Level)
    ensures
        level == if !rate.is_above(25) {
            Level::Good
        } else if !rate.is_above(50) {
            Level::Warning
        } else {
            Level::Critical
        },
{
    if !rate.exceeds(25) {
        Level::Good
    } else if !rate.exceeds(50) {
        Level::Warning
    } else {
        Level::Critical
    }
}

/// In a report, a flakiness rate is good up to 5 percent and critical
/// above 15.
pub fn flakiness_mark(rate: Percentage) -> (level: Level)
    ensures
        level == if !rate.is_above(5) {
            Level::Good
        } else if !rate.is_above(15) {
            Level::Warning
        } else {
            Level::Critical
        },
{
    if !rate.exceeds(5) {
        Level::Good
    } else if !rate.exceeds(15) {
        Level::Warning
    } else {
        Level::Critical
    }
}

/// The texts of `lines`, each but the last followed by a line break.
pub open spec fn joined_lines(lines: Seq<Seq<char>>) -> Seq<char>
    decreases lines.len(),
{
    if lines.len() == 0 {
        Seq::empty()
    } else if lines.len() == 1 {
        lines[0]
    } else {
        joined_lines(lines.drop_last()) + "\n"@ + lines.last()
    }
}

/// The critical chain of a job as text: the names of its predecessors,
/// one to a line, or `None` where it has none.
pub fn format_critical_path(job: &JobMetrics) -> (text: String)
    ensures
        text@ == if job@.predecessors.len() == 0 {
            "None"@
        } else {
            joined_lines(names_of(job@.predecessors))
        },
{
    if job.predecessors.len() == 0 {
        return String::from_str("None");
    }
    let ghost lines = names_of(job@.predecessors);
    let mut text = job.predecessors[0].name.clone();
    let mut i: usize = 1;
    assert(lines.take(1).len() == 1);
    while i < job.predecessors.len()
        invariant
            1 <= i <= job.predecessors.len(),
            lines == names_of(job@.predecessors),
            text@ == joined_lines(lines.take(i as int)),
        decreases job.predecessors.len() - i,
    {
        proof {
            let next = lines.take(i + 1);
            assert(next.drop_last() =~= lines.take(i as int));
            assert(next.last() == job.predecessors[i as int].name@);
        }
        text.append("\n");
        text.append(job.predecessors[i].name.as_str());
        i += 1;
    }
    assert(lines.take(i as int) =~= lines);
    text
}

/// The position of the job with the slowest feedback (95th percentile);
/// of several, the last.
pub open spec fn slowest_position(jobs: Seq<JobMetricsView>) -> Option<int>
    decreases jobs.len(),
{
    if jobs.len() == 0 {
        None
    } else {
        match slowest_position(jobs.drop_last()) {
            Some(best) => if jobs.last().time_to_feedback_p95 >= jobs[best].time_to_feedback_p95 {
                Some(jobs.len() - 1)
            } else {
                Some(best)
            },
            None => Some(jobs.len() - 1),
        }
    }
}

/// Finds the job of a pipeline type with the slowest feedback.
pub fn slowest_job(metrics: &TypeMetrics) -> (found: Option<usize>)
    ensures
        match found {
            Some(at) => slowest_position(metrics@.jobs) == Some(at as int) && at
                < metrics.jobs.len(),
            None => slowest_position(metrics@.jobs) is None,
        },
{
    let ghost all = metrics@.jobs;
    let mut found: Option<usize> = None;
    let mut i: usize = 0;
    while i < metrics.jobs.len()
        invariant
            i <= metrics.jobs.len(),
            all == metrics@.jobs,
            match found {
                Some(at) => slowest_position(all.take(i as int)) == Some(at as int) && at < i,
                None => slowest_position(all.take(i as int)) is None,
            },
        decreases metrics.jobs.len() - i,
    {
        proof {
            let next = all.take(i + 1);
            assert(next.drop_last() =~= all.take(i as int));
            assert(next.last() == metrics.jobs[i as int]@);
        }
        let better = match found {
            Some(at) => {
                assert(all.take(i + 1)[at as int] == metrics.jobs[at as int]@);
                metrics.jobs[i].time_to_feedback_p95 >= metrics.jobs[at].time_to_feedback_p95
            },
            None => true,
        };
        if better {
            found = Some(i);
        }
        i += 1;
    }
    assert(all.take(i as int) =~= all);
    found
}

/// A link to a pipeline of the type: the first successful one where there
/// is one, else the first failed one.
pub fn example_link(metrics: &TypeMetrics) -> (link: Option<String>)
    ensures
        link.deep_view() == if metrics@.successful_pipelines.links.len() > 0 {
            Some(metrics@.successful_pipelines.links[0])
        } else if metrics@.failed_pipelines.links.len() > 0 {
            Some(metrics@.failed_pipelines.links[0])
        } else {
            None
        },
{
    if metrics.successful_pipelines.links.len() > 0 {
        Some(metrics.successful_pipelines.links[0].clone())
    } else if metrics.failed_pipelines.links.len() > 0 {
        Some(metrics.failed_pipelines.links[0].clone())
    } else {
        None
    }
}

/// The number of successful pipelines over all of `types`.
pub open spec fn successful_total(types: Seq<PipelineTypeView>) -> nat
    decreases types.len(),
{
    if types.len() == 0 {
        0
    } else {
        successful_total(types.drop_last()) + types.last().metrics.successful_pipelines.count
    }
}

/// The number of failed pipelines over all of `types`.
pub open spec fn failed_total(types: Seq<PipelineTypeView>) -> nat
    decreases types.len(),
{
    if types.len() == 0 {
        0
    } else {
        failed_total(types.drop_last()) + types.last().metrics.failed_pipelines.count
    }
}

/// The share of successful pipelines over all pipeline types, with the
/// number of pipelines it is taken from: `100 * successful / total`
/// percent, and 0 percent of no pipelines. `None` where the numbers of
/// the types add up to more than the machine counts.
pub fn calculate_overall_success_rate(insights: &CIInsights) -> (overall: Option<
    (Percentage, usize),
>)
    ensures
        match overall {
            Some((rate, total)) => {
                &&& total == successful_total(insights@.pipeline_types) + failed_total(
                    insights@.pipeline_types,
                )
                &&& rate == rate_of(successful_total(insights@.pipeline_types), total as nat)
            },
            None => successful_total(insights@.pipeline_types) + failed_total(
                insights@.pipeline_types,
            ) > usize::MAX,
        },
{
    let ghost types = insights@.pipeline_types;
    let mut successful: usize = 0;
    let mut failed: usize = 0;
    let mut i: usize = 0;
    while i < insights.pipeline_types.len()
        invariant
            i <= insights.pipeline_types.len(),
            types == insights@.pipeline_types,
            successful == successful_total(types.take(i as int)),
            failed == failed_total(types.take(i as int)),
        decreases insights.pipeline_types.len() - i,
    {
        proof {
            let next = types.take(i + 1);
            assert(next.drop_last() =~= types.take(i as int));
            assert(next.last() == insights.pipeline_types[i as int]@);
            lemma_totals_grow(types, i + 1);
        }
        let metrics = &insights.pipeline_types[i].metrics;
        match successful.checked_add(metrics.successful_pipelines.count) {
            Some(sum) => {
                successful = sum;
            },
            None => {
                return None;
            },
        }
        match failed.checked_add(metrics.failed_pipelines.count) {
            Some(sum) => {
                failed = sum;
            },
            None => {
                return None;
            },
        }
        i += 1;
    }
    assert(types.take(i as int) =~= types);
    match successful.checked_add(failed) {
        Some(total) => Some((Percentage::of(successful, total), total)),
        None => None,
    }
}

/// The totals of the first `upto` types are no more than those of all.
pub proof fn lemma_totals_grow(types: Seq<PipelineTypeView>, upto: int)
    requires
        0 <= upto <= types.len(),
    ensures
        successful_total(types.take(upto)) <= successful_total(types),
        failed_total(types.take(upto)) <= failed_total(types),
    decreases types.len() - upto,
{
    if upto < types.len() {
        let next = types.take(upto + 1);
        assert(next.drop_last() =~= types.take(upto));
        lemma_totals_grow(types, upto + 1);
    } else {
        assert(types.take(upto) =~= types);
    }
}

/// The position of the entry for the job called `name` that shows the
/// slowest feedback (95th percentile); of several, the first.
pub open spec fn worst_position(jobs: Seq<JobMetricsView>, name: Seq<char>) -> Option<int>
    decreases jobs.len(),
{
    if jobs.len() == 0 {
        None
    } else {
        let last = jobs.last();
        match worst_position(jobs.drop_last(), name) {
            Some(worst) => if last.name == name && last.time_to_feedback_p95
                > jobs[worst].time_to_feedback_p95 {
                Some(jobs.len() - 1)
            } else {
                Some(worst)
            },
            None => if last.name == name {
                Some(jobs.len() - 1)
            } else {
                None
            },
        }
    }
}

/// Model of a list of borrowed job figures.
pub open spec fn jobs_view(jobs: Seq<&JobMetrics>) -> Seq<JobMetricsView> {
    Seq::new(jobs.len(), |i: int| jobs[i]@)
}

/// Finds the entry for the job called `name` that shows the slowest
/// feedback.
pub fn worst_entry(jobs: &Vec<&JobMetrics>, name: &String) -> (found: Option<usize>)
    ensures
        match found {
            Some(at) => worst_position(jobs_view(jobs@), name@) == Some(at as int) && at
                < jobs.len(),
            None => worst_position(jobs_view(jobs@), name@) is None,
        },
{
    let ghost all = jobs_view(jobs@);
    let mut found: Option<usize> = None;
    let mut i: usize = 0;
    while i < jobs.len()
        invariant
            i <= jobs.len(),
            all == jobs_view(jobs@),
            match found {
                Some(at) => worst_position(all.take(i as int), name@) == Some(at as int) && at < i,
                None => worst_position(all.take(i as int), name@) is None,
            },
        decreases jobs.len() - i,
    {
        proof {
            let next = all.take(i + 1);
            assert(next.drop_last() =~= all.take(i as int));
            assert(next.last() == jobs[i as int]@);
        }
        if jobs[i].name == *name {
            let worse = match found {
                Some(at) => {
                    assert(all.take(i + 1)[at as int] == jobs[at as int]@);
                    jobs[i].time_to_feedback_p95 > jobs[at].time_to_feedback_p95
                },
                None => true,
            };
            if worse {
                found = Some(i);
            }
        }
        i += 1;
    }
    assert(all.take(i as int) =~= all);
    found
}

/// One entry for each job name among `jobs`: the positions of the entries
/// that show the slowest feedback of their job, the jobs in the order in
/// which they first occur.
pub fn worst_jobs(jobs: &Vec<&JobMetrics>) -> (positions: Vec<usize>)
    ensures
        positions.len() == distinct(metric_names(jobs_view(jobs@))).len(),
        forall|k: int|
            0 <= k < positions.len() ==> (#[trigger] positions[k]) < jobs.len() && worst_position(
                jobs_view(jobs@),
                distinct(metric_names(jobs_view(jobs@)))[k],
            ) == Some(positions[k] as int),
{
    let ghost all = metric_names(jobs_view(jobs@));
    let mut names: Vec<String> = Vec::new();
    let mut i: usize = 0;
    assert(names.deep_view() =~= distinct(all.take(0)));
    while i < jobs.len()
        invariant
            i <= jobs.len(),
            all == metric_names(jobs_view(jobs@)),
            names.deep_view() == distinct(all.take(i as int)),
        decreases jobs.len() - i,
    {
        assert(all.take(i as int).push(jobs[i as int].name@) =~= all.take(i + 1));
        note(&mut names, &jobs[i].name, Ghost(all.take(i as int)));
        i += 1;
    }
    assert(all.take(i as int) =~= all);
    let mut positions: Vec<usize> = Vec::new();
    let mut k: usize = 0;
    while k < names.len()
        invariant
            k <= names.len(),
            names.deep_view() == distinct(all),
            all == metric_names(jobs_view(jobs@)),
            positions.len() == k,
            forall|m: int|
                0 <= m < positions.len() ==> (#[trigger] positions[m]) < jobs.len()
                    && worst_position(jobs_view(jobs@), names[m]@) == Some(positions[m] as int),
        decreases names.len() - k,
    {
        proof {
            assert(names.deep_view()[k as int] == names[k as int]@);
            lemma_distinct_holds_listed(all, k as int);
            lemma_listed_has_entry(jobs_view(jobs@), names[k as int]@);
        }
        let found = worst_entry(jobs, &names[k]);
        assert(found is Some);
        positions.push(found.unwrap());
        k += 1;
    }
    positions
}

/// Every distinct text is one of the texts.
pub proof fn lemma_distinct_holds_listed(items: Seq<Seq<char>>, k: int)
    requires
        0 <= k < distinct(items).len(),
    ensures
        items.contains(distinct(items)[k]),
    decreases items.len(),
{
    if items.len() > 0 {
        let rest = distinct(items.drop_last());
        if k < rest.len() {
            lemma_distinct_holds_listed(items.drop_last(), k);
            let at = choose|at: int|
                0 <= at < items.drop_last().len() && items.drop_last()[at] == rest[k];
            assert(items[at] == distinct(items)[k]);
        } else {
            assert(items[items.len() - 1] == distinct(items)[k]);
        }
    }
}

/// A job that is named among the entries has a worst entry.
pub proof fn lemma_listed_has_entry(jobs: Seq<JobMetricsView>, name: Seq<char>)
    requires
        metric_names(jobs).contains(name),
    ensures
        worst_position(jobs, name) is Some,
    decreases jobs.len(),
{
    let at = choose|at: int| 0 <= at < metric_names(jobs).len() && metric_names(jobs)[at] == name;
    if at < jobs.len() - 1 {
        assert(metric_names(jobs.drop_last())[at] == name);
        lemma_listed_has_entry(jobs.drop_last(), name);
    }
}

/// The number of job executions over all jobs of all of `types`.
pub open spec fn executions_total(types: Seq<PipelineTypeView>) -> nat
    decreases types.len(),
{
    if types.len() == 0 {
        0
    } else {
        executions_total(types.drop_last()) + executions_of(types.last().metrics.jobs)
    }
}

/// The number of job executions over all of `jobs`.
pub open spec fn executions_of(jobs: Seq<JobMetricsView>) -> nat
    decreases jobs.len(),
{
    if jobs.len() == 0 {
        0
    } else {
        executions_of(jobs.drop_last()) + jobs.last().total_executions
    }
}

/// Counts the job executions that the insights rest on. `None` where
/// there are more than the machine counts.
pub fn count_executions(insights: &CIInsights) -> (counted: Option<usize>)
    ensures
        match counted {
            Some(n) => n == executions_total(insights@.pipeline_types),
            None => executions_total(insights@.pipeline_types) > usize::MAX,
        },
{
    let ghost types = insights@.pipeline_types;
    let mut counted: usize = 0;
    let mut i: usize = 0;
    while i < insights.pipeline_types.len()
        invariant
            i <= insights.pipeline_types.len(),
            types == insights@.pipeline_types,
            counted == executions_total(types.take(i as int)),
        decreases insights.pipeline_types.len() - i,
    {
        let jobs = &insights.pipeline_types[i].metrics.jobs;
        let ghost own = jobs.deep_view();
        proof {
            let next = types.take(i + 1);
            assert(next.drop_last() =~= types.take(i as int));
            assert(next.last() == insights.pipeline_types[i as int]@);
        }
        let ghost before = counted;
        let mut j: usize = 0;
        proof {
            assert(executions_total(types.take(i + 1)) == before + executions_of(own));
            lemma_executions_grow(types, i + 1);
        }
        while j < jobs.len()
            invariant
                j <= jobs.len(),
                own == jobs.deep_view(),
                counted == before + executions_of(own.take(j as int)),
                before + executions_of(own) <= executions_total(types),
                types == insights@.pipeline_types,
            decreases jobs.len() - j,
        {
            proof {
                let next = own.take(j + 1);
                assert(next.drop_last() =~= own.take(j as int));
                assert(next.last() == jobs[j as int]@);
                assert(executions_of(next) == executions_of(own.take(j as int))
                    + jobs[j as int].total_executions);
                lemma_executions_of_grow(own, j + 1);
            }
            match counted.checked_add(jobs[j].total_executions) {
                Some(sum) => {
                    counted = sum;
                },
                None => {
                    return None;
                },
            }
            j += 1;
        }
        assert(own.take(j as int) =~= own);
        i += 1;
    }
    assert(types.take(i as int) =~= types);
    Some(counted)
}

/// The executions of the first `upto` types are no more than those of all.
pub proof fn lemma_executions_grow(types: Seq<PipelineTypeView>, upto: int)
    requires
        0 <= upto <= types.len(),
    ensures
        executions_total(types.take(upto)) <= executions_total(types),
    decreases types.len() - upto,
{
    if upto < types.len() {
        let next = types.take(upto + 1);
        assert(next.drop_last() =~= types.take(upto));
        lemma_executions_grow(types, upto + 1);
    } else {
        assert(types.take(upto) =~= types);
    }
}

/// The executions of the first `upto` jobs are no more than those of all.
pub proof fn lemma_executions_of_grow(jobs: Seq<JobMetricsView>, upto: int)
    requires
        0 <= upto <= jobs.len(),
    ensures
        executions_of(jobs.take(upto)) <= executions_of(jobs),
    decreases jobs.len() - upto,
{
    if upto < jobs.len() {
        let next = jobs.take(upto + 1);
        assert(next.drop_last() =~= jobs.take(upto));
        lemma_executions_of_grow(jobs, upto + 1);
    } else {
        assert(jobs.take(upto) =~= jobs);
    }
}

/// The times to feedback (95th percentile) of `jobs`, in order.
pub open spec fn slow_feedbacks_of(jobs: Seq<JobMetricsView>) -> Seq<nat> {
    Seq::new(jobs.len(), |i: int| jobs[i].time_to_feedback_p95)
}

/// The failure rates of `jobs`, in order.
pub open spec fn failure_rates_of(jobs: Seq<JobMetricsView>) -> Seq<Percentage> {
    Seq::new(jobs.len(), |i: int| jobs[i].failure_rate)
}

/// The flakiness rates of `jobs`, in order.
pub open spec fn flakiness_rates_of(jobs: Seq<JobMetricsView>) -> Seq<Percentage> {
    Seq::new(jobs.len(), |i: int| jobs[i].flakiness_rate)
}

/// The positions of `jobs` from the slowest feedback (95th percentile) to
/// the fastest; jobs of equal feedback in the order they stand.
pub fn rank_by_feedback(jobs: &Vec<&JobMetrics>) -> (order: Vec<usize>)
    ensures
        as_ints(order@) == descending_order(slow_feedbacks_of(jobs_view(jobs@))),
        order.len() == jobs.len(),
        forall|k: int| 0 <= k < order.len() ==> #[trigger] order[k] < jobs.len(),
{
    let mut keys: Vec<u128> = Vec::new();
    let mut i: usize = 0;
    while i < jobs.len()
        invariant
            i <= jobs.len(),
            keys.len() == i,
            forall|k: int| 0 <= k < i ==> (#[trigger] keys[k]) == jobs[k].time_to_feedback_p95,
        decreases jobs.len() - i,
    {
        keys.push(jobs[i].time_to_feedback_p95);
        i += 1;
    }
    assert(as_nats(keys@) =~= slow_feedbacks_of(jobs_view(jobs@)));
    rank_descending(&keys)
}

/// The positions of `jobs` from the highest failure rate to the lowest;
/// jobs of equal rate in the order they stand.
pub fn rank_by_failure_rate(jobs: &Vec<&JobMetrics>) -> (order: Vec<usize>)
    ensures
        as_ints(order@) == descending_rate_order(failure_rates_of(jobs_view(jobs@))),
        order.len() == jobs.len(),
        forall|k: int| 0 <= k < order.len() ==> #[trigger] order[k] < jobs.len(),
{
    let mut rates: Vec<Percentage> = Vec::new();
    let mut i: usize = 0;
    while i < jobs.len()
        invariant
            i <= jobs.len(),
            rates.len() == i,
            forall|k: int| 0 <= k < i ==> (#[trigger] rates[k]) == jobs[k].failure_rate,
        decreases jobs.len() - i,
    {
        rates.push(jobs[i].failure_rate);
        i += 1;
    }
    assert(rates@ =~= failure_rates_of(jobs_view(jobs@)));
    rank_rates_descending(&rates)
}

/// The positions of `jobs` from the highest flakiness rate to the lowest;
/// jobs of equal rate in the order they stand.
pub fn rank_by_flakiness_rate(jobs: &Vec<&JobMetrics>) -> (order: Vec<usize>)
    ensures
        as_ints(order@) == descending_rate_order(flakiness_rates_of(jobs_view(jobs@))),
        order.len() == jobs.len(),
        forall|k: int| 0 <= k < order.len() ==> #[trigger] order[k] < jobs.len(),
{
    let mut rates: Vec<Percentage> = Vec::new();
    let mut i: usize = 0;
    while i < jobs.len()
        invariant
            i <= jobs.len(),
            rates.len() == i,
            forall|k: int| 0 <= k < i ==> (#[trigger] rates[k]) == jobs[k].flakiness_rate,
        decreases jobs.len() - i,
    {
        rates.push(jobs[i].flakiness_rate);
        i += 1;
    }
    assert(rates@ =~= flakiness_rates_of(jobs_view(jobs@)));
    rank_rates_descending(&rates)
}

} // verus!
