//! Time-to-feedback of the jobs of one pipeline run.
//!
//! A job finishes once everything it depends on has finished and it has run
//! itself. Dependencies are either listed by the job (`needs`) or implied by
//! the stage order. Where a job name occurs more than once in a run (a retry),
//! the last record under that name stands for the job.
//!
//! Listed dependencies are meant to hold no cycle. Nothing here fails where
//! they do: a chain of dependencies is followed for as many jobs as the run
//! has records, which is the whole chain wherever there is no cycle.
//! Without a cycle every finish time is worked out once, in a walk along
//! the dependencies; with one, the times are worked out depth by depth.

use vstd::prelude::*;
use crate::insights::{
    CountWithLinksView, JobCountWithLinks, JobMetrics, JobMetricsView, Percentage, PredecessorJob,
    PredecessorJobView,
};
use crate::ranking::{
    as_ints, as_nats, descending_order, lemma_descending_order_bounds,
    lemma_descending_order_rearranges, lemma_descending_order_sorted, rank_descending,
};
use vstd::string::StringExecFns;
use crate::types::{GitLabJob, GitLabPipeline, JobView, PipelineView};
use crate::walk::finish_times_along_chains;

verus! {

/// Position of the last element of `items` that equals `item`.
pub open spec fn last_position<T>(items: Seq<T>, item: T) -> Option<int>
    decreases items.len(),
{
    if items.len() == 0 {
        None
    } else if items.last() == item {
        Some(items.len() - 1)
    } else {
        last_position(items.drop_last(), item)
    }
}

/// The names of `jobs`, in order.
pub open spec fn job_names(jobs: Seq<JobView>) -> Seq<Seq<char>> {
    Seq::new(jobs.len(), |i: int| jobs[i].name)
}

/// Position of the record that stands for the job called `name`: the last
/// one so named.
pub open spec fn job_position(p: PipelineView, name: Seq<char>) -> Option<int> {
    last_position(job_names(p.jobs), name)
}

/// Whether the record at `index` stands for its job name.
pub open spec fn is_representative(p: PipelineView, index: int) -> bool {
    0 <= index < p.jobs.len() && job_position(p, p.jobs[index].name) == Some(index)
}

/// Rank of `stage` in the pipeline's stage order. A stage that the pipeline
/// does not list counts as the first.
pub open spec fn stage_position(p: PipelineView, stage: Seq<char>) -> int {
    match last_position(p.stages, stage) {
        Some(i) => i,
        None => 0,
    }
}

/// Names of the jobs among the first `upto` records that run in a stage
/// before `stage_limit`.
pub open spec fn earlier_stage_jobs(p: PipelineView, stage_limit: int, upto: int) -> Seq<Seq<char>>
    decreases upto,
{
    if upto <= 0 {
        Seq::empty()
    } else {
        let rest = earlier_stage_jobs(p, stage_limit, upto - 1);
        let j = upto - 1;
        if is_representative(p, j) && stage_position(p, p.jobs[j].stage) < stage_limit {
            rest.push(p.jobs[j].name)
        } else {
            rest
        }
    }
}

/// The jobs that `job` waits for within pipeline `p`: the listed ones where
/// it lists any (or none, for an empty list), else every job of an earlier
/// stage.
pub open spec fn dependencies(p: PipelineView, job: JobView) -> Seq<Seq<char>> {
    match job.needs {
        Some(names) => names,
        None => earlier_stage_jobs(p, stage_position(p, job.stage), p.jobs.len() as int),
    }
}

pub proof fn lemma_last_position<T>(items: Seq<T>, item: T)
    ensures
        match last_position(items, item) {
            Some(i) => 0 <= i < items.len() && items[i] == item && forall|j: int|
                i < j < items.len() ==> items[j] != item,
            None => forall|j: int| 0 <= j < items.len() ==> items[j] != item,
        },
    decreases items.len(),
{
    if items.len() > 0 && items.last() != item {
        let rest = items.drop_last();
        lemma_last_position(rest, item);
        match last_position(rest, item) {
            Some(i) => {
                assert(items[i] == rest[i]);
                assert forall|j: int| i < j < items.len() implies items[j] != item by {
                    if j < rest.len() {
                        assert(items[j] == rest[j]);
                    }
                }
            },
            None => {
                assert forall|j: int| 0 <= j < items.len() implies items[j] != item by {
                    if j < rest.len() {
                        assert(items[j] == rest[j]);
                    }
                }
            },
        }
    }
}

/// Position of the last string of `items` equal to `item`.
pub fn last_index_of(items: &Vec<String>, item: &String) -> (found: Option<usize>)
    ensures
        match found {
            Some(i) => last_position(items.deep_view(), item@) == Some(i as int),
            None => last_position(items.deep_view(), item@) is None,
        },
{
    let ghost all = items.deep_view();
    let mut i: usize = items.len();
    assert(all.subrange(0, i as int) =~= all);
    while i > 0
        invariant
            i <= items.len(),
            all == items.deep_view(),
            last_position(all, item@) == last_position(all.subrange(0, i as int), item@),
        decreases i,
    {
        let ghost cur = all.subrange(0, i as int);
        assert(cur.last() == items[i - 1]@);
        if items[i - 1] == *item {
            return Some(i - 1);
        }
        assert(cur.drop_last() =~= all.subrange(0, i - 1));
        i -= 1;
    }
    None
}

/// Position of the record that stands for the job called `name`.
pub fn find_job(pipeline: &GitLabPipeline, name: &String) -> (found: Option<usize>)
    ensures
        match found {
            Some(i) => job_position(pipeline@, name@) == Some(i as int) && i < pipeline.jobs.len(),
            None => job_position(pipeline@, name@) is None,
        },
{
    let ghost all = job_names(pipeline@.jobs);
    let mut i: usize = pipeline.jobs.len();
    assert(all.subrange(0, i as int) =~= all);
    while i > 0
        invariant
            i <= pipeline.jobs.len(),
            all == job_names(pipeline@.jobs),
            last_position(all, name@) == last_position(all.subrange(0, i as int), name@),
        decreases i,
    {
        let ghost cur = all.subrange(0, i as int);
        assert(cur.last() == pipeline.jobs[i - 1].name@);
        if pipeline.jobs[i - 1].name == *name {
            return Some(i - 1);
        }
        assert(cur.drop_last() =~= all.subrange(0, i - 1));
        i -= 1;
    }
    None
}

/// Rank of `stage` in the pipeline's stage order.
pub fn stage_index(pipeline: &GitLabPipeline, stage: &String) -> (rank: usize)
    ensures
        rank == stage_position(pipeline@, stage@),
{
    proof {
        lemma_last_position(pipeline@.stages, stage@);
    }
    match last_index_of(&pipeline.stages, stage) {
        Some(i) => i,
        None => 0,
    }
}

/// Whether `flags` tells, for each record of the pipeline, whether it
/// stands for its job name.
pub open spec fn marks_representatives(p: PipelineView, flags: Seq<bool>) -> bool {
    &&& flags.len() == p.jobs.len()
    &&& forall|i: int| 0 <= i < flags.len() ==> flags[i] == is_representative(p, i)
}

/// Whether `ranks` holds, for each record of the pipeline, the rank of its
/// stage.
pub open spec fn holds_stage_ranks(p: PipelineView, ranks: Seq<usize>) -> bool {
    &&& ranks.len() == p.jobs.len()
    &&& forall|i: int|
        0 <= i < ranks.len() ==> ranks[i] == stage_position(p, #[trigger] p.jobs[i].stage)
}

/// For each record of the pipeline, whether it stands for its job name.
pub fn representatives(pipeline: &GitLabPipeline) -> (flags: Vec<bool>)
    ensures
        marks_representatives(pipeline@, flags@),
{
    let mut flags: Vec<bool> = Vec::new();
    let mut i: usize = 0;
    while i < pipeline.jobs.len()
        invariant
            i <= pipeline.jobs.len(),
            flags.len() == i,
            forall|k: int| 0 <= k < i ==> flags[k] == is_representative(pipeline@, k),
        decreases pipeline.jobs.len() - i,
    {
        let flag = match find_job(pipeline, &pipeline.jobs[i].name) {
            Some(j) => j == i,
            None => false,
        };
        flags.push(flag);
        i += 1;
    }
    flags
}

/// For each record of the pipeline, the rank of its stage.
pub fn stage_ranks(pipeline: &GitLabPipeline) -> (ranks: Vec<usize>)
    ensures
        holds_stage_ranks(pipeline@, ranks@),
{
    let mut ranks: Vec<usize> = Vec::new();
    let mut i: usize = 0;
    while i < pipeline.jobs.len()
        invariant
            i <= pipeline.jobs.len(),
            ranks.len() == i,
            forall|k: int|
                0 <= k < i ==> ranks[k] == stage_position(
                    pipeline@,
                    #[trigger] pipeline@.jobs[k].stage,
                ),
        decreases pipeline.jobs.len() - i,
    {
        let rank = stage_index(pipeline, &pipeline.jobs[i].stage);
        ranks.push(rank);
        i += 1;
    }
    ranks
}

/// A copy of `names`.
pub fn copy_names(names: &Vec<String>) -> (copy: Vec<String>)
    ensures
        copy.deep_view() == names.deep_view(),
{
    let mut copy: Vec<String> = Vec::new();
    let mut i: usize = 0;
    while i < names.len()
        invariant
            i <= names.len(),
            copy.len() == i,
            forall|k: int| 0 <= k < i ==> copy[k]@ == names[k]@,
        decreases names.len() - i,
    {
        copy.push(names[i].clone());
        i += 1;
    }
    assert(copy.deep_view() =~= names.deep_view());
    copy
}

/// The names of the jobs that `job` waits for within `pipeline`.
///
/// A job that lists its dependencies waits for exactly those, so an empty
/// list lets it start at once. A job that lists none waits for every job of
/// the stages before its own.
pub fn get_dependencies(job: &GitLabJob, pipeline: &GitLabPipeline) -> (deps: Vec<String>)
    ensures
        deps.deep_view() == dependencies(pipeline@, job@),
{
    match &job.needs {
        Some(names) => copy_names(names),
        None => {
            let flags = representatives(pipeline);
            let limit = stage_index(pipeline, &job.stage);
            let mut deps: Vec<String> = Vec::new();
            let mut j: usize = 0;
            while j < pipeline.jobs.len()
                invariant
                    j <= pipeline.jobs.len(),
                    marks_representatives(pipeline@, flags@),
                    limit == stage_position(pipeline@, job@.stage),
                    deps.deep_view() == earlier_stage_jobs(pipeline@, limit as int, j as int),
                decreases pipeline.jobs.len() - j,
            {
                let rank = stage_index(pipeline, &pipeline.jobs[j].stage);
                if flags[j] && rank < limit {
                    let ghost before = deps.deep_view();
                    deps.push(pipeline.jobs[j].name.clone());
                    assert(deps.deep_view() =~= before.push(pipeline@.jobs[j as int].name));
                }
                j += 1;
            }
            deps
        },
    }
}

/// Model of an optional position.
pub open spec fn position_view(position: Option<usize>) -> Option<int> {
    match position {
        Some(j) => Some(j as int),
        None => None,
    }
}

/// Model of a list of optional positions.
pub open spec fn positions_view(positions: Seq<Option<usize>>) -> Seq<Option<int>> {
    Seq::new(positions.len(), |k: int| position_view(positions[k]))
}

/// For each of `names`, the position of the record that stands for it.
pub open spec fn resolved(p: PipelineView, names: Seq<Seq<char>>) -> Seq<Option<int>> {
    Seq::new(names.len(), |k: int| job_position(p, names[k]))
}

pub proof fn lemma_resolved_push(p: PipelineView, names: Seq<Seq<char>>, name: Seq<char>)
    ensures
        resolved(p, names.push(name)) == resolved(p, names).push(job_position(p, name)),
{
    assert(resolved(p, names.push(name)) =~= resolved(p, names).push(job_position(p, name)));
}

/// Where the dependencies of the record at `index` stand in the pipeline;
/// `None` for a name that no record carries.
pub fn dependency_positions(
    pipeline: &GitLabPipeline,
    index: usize,
    flags: &Vec<bool>,
    ranks: &Vec<usize>,
) -> (positions: Vec<Option<usize>>)
    requires
        index < pipeline.jobs.len(),
        marks_representatives(pipeline@, flags@),
        holds_stage_ranks(pipeline@, ranks@),
    ensures
        positions_view(positions@) == resolved(
            pipeline@,
            dependencies(pipeline@, pipeline@.jobs[index as int]),
        ),
        forall|k: int|
            0 <= k < positions.len() ==> (#[trigger] positions[k] matches Some(j)
                ==> j < pipeline.jobs.len()),
{
    let job = &pipeline.jobs[index];
    let mut positions: Vec<Option<usize>> = Vec::new();
    match &job.needs {
        Some(names) => {
            let mut k: usize = 0;
            while k < names.len()
                invariant
                    k <= names.len(),
                    positions.len() == k,
                    forall|m: int|
                        0 <= m < k ==> position_view(#[trigger] positions[m]) == job_position(
                            pipeline@,
                            names[m]@,
                        ),
                    forall|m: int|
                        0 <= m < positions.len() ==> (#[trigger] positions[m] matches Some(j)
                            ==> j < pipeline.jobs.len()),
                decreases names.len() - k,
            {
                let found = find_job(pipeline, &names[k]);
                positions.push(found);
                k += 1;
            }
            assert(positions_view(positions@) =~= resolved(pipeline@, names.deep_view()));
        },
        None => {
            let limit = ranks[index];
            let mut j: usize = 0;
            assert(positions_view(positions@) =~= Seq::<Option<int>>::empty());
            assert(resolved(pipeline@, Seq::<Seq<char>>::empty()) =~= Seq::<Option<int>>::empty());
            while j < pipeline.jobs.len()
                invariant
                    j <= pipeline.jobs.len(),
                    index < pipeline.jobs.len(),
                    marks_representatives(pipeline@, flags@),
                    holds_stage_ranks(pipeline@, ranks@),
                    limit == stage_position(pipeline@, pipeline@.jobs[index as int].stage),
                    positions_view(positions@) == resolved(
                        pipeline@,
                        earlier_stage_jobs(pipeline@, limit as int, j as int),
                    ),
                    forall|m: int|
                        0 <= m < positions.len() ==> (#[trigger] positions[m] matches Some(i)
                            ==> i < pipeline.jobs.len()),
                decreases pipeline.jobs.len() - j,
            {
                if flags[j] && ranks[j] < limit {
                    let ghost before = positions@;
                    let ghost names = earlier_stage_jobs(pipeline@, limit as int, j as int);
                    positions.push(Some(j));
                    proof {
                        lemma_resolved_push(pipeline@, names, pipeline@.jobs[j as int].name);
                        assert(positions_view(positions@) =~= positions_view(before).push(
                            Some(j as int),
                        ));
                    }
                }
                j += 1;
            }
        },
    }
    positions
}

/// Finish time of the job called `name`, measured from the start of the
/// pipeline, following dependency chains of at most `depth` jobs.
///
/// A name that no record carries finishes at 0. A job without dependencies
/// finishes after its own duration; any other after its own duration added
/// to the latest finish time among its dependencies.
pub open spec fn finish_time_within(p: PipelineView, name: Seq<char>, depth: nat) -> nat
    decreases depth, 0nat,
{
    if depth == 0 {
        0
    } else {
        match job_position(p, name) {
            None => 0,
            Some(i) => p.jobs[i].duration + slowest_finish_within(
                p,
                dependencies(p, p.jobs[i]),
                (depth - 1) as nat,
            ),
        }
    }
}

/// The latest finish time among the jobs called `names`; 0 for none.
pub open spec fn slowest_finish_within(p: PipelineView, names: Seq<Seq<char>>, depth: nat) -> nat
    decreases depth, names.len() + 1,
{
    if names.len() == 0 {
        0
    } else {
        let rest = slowest_finish_within(p, names.drop_last(), depth);
        let last = finish_time_within(p, names.last(), depth);
        if last >= rest {
            last
        } else {
            rest
        }
    }
}

/// Finish time of the job called `name`: its time to feedback.
///
/// No chain of distinct jobs is longer than the number of records, so in a
/// pipeline whose dependencies hold no cycle this is the finish time along
/// the whole chain.
pub open spec fn finish_time(p: PipelineView, name: Seq<char>) -> nat {
    finish_time_within(p, name, p.jobs.len())
}

/// Per record, the finish time within `depth` of the job it stands for;
/// 0 for a record that stands for none.
pub open spec fn finish_row(p: PipelineView, depth: nat) -> Seq<nat> {
    Seq::new(
        p.jobs.len(),
        |i: int|
            if is_representative(p, i) {
                finish_time_within(p, p.jobs[i].name, depth)
            } else {
                0
            },
    )
}

/// The largest entry of `row` among `positions`, an absent position
/// counting as 0.
pub open spec fn slowest_at(row: Seq<nat>, positions: Seq<Option<int>>) -> nat
    decreases positions.len(),
{
    if positions.len() == 0 {
        0
    } else {
        let rest = slowest_at(row, positions.drop_last());
        let last = entry_at(row, positions.last());
        if last >= rest {
            last
        } else {
            rest
        }
    }
}

/// The entry of `row` at `position`, an absent position counting as 0.
pub open spec fn entry_at(row: Seq<nat>, position: Option<int>) -> nat {
    match position {
        Some(j) => row[j],
        None => 0,
    }
}

pub proof fn lemma_entry_is_finish_time(p: PipelineView, name: Seq<char>, depth: nat)
    ensures
        entry_at(finish_row(p, depth), job_position(p, name)) == finish_time_within(
            p,
            name,
            depth,
        ),
{
    lemma_last_position(job_names(p.jobs), name);
}

pub proof fn lemma_slowest_at_is_slowest_finish(
    p: PipelineView,
    names: Seq<Seq<char>>,
    depth: nat,
)
    ensures
        slowest_at(finish_row(p, depth), resolved(p, names)) == slowest_finish_within(
            p,
            names,
            depth,
        ),
    decreases names.len(),
{
    if names.len() > 0 {
        lemma_slowest_at_is_slowest_finish(p, names.drop_last(), depth);
        lemma_entry_is_finish_time(p, names.last(), depth);
        assert(resolved(p, names).drop_last() =~= resolved(p, names.drop_last()));
    }
}

/// Once a further step of depth changes no finish time, none changes later.
pub proof fn lemma_finish_row_settles(p: PipelineView, depth: nat, later: nat)
    requires
        finish_row(p, depth + 1) == finish_row(p, depth),
        depth <= later,
    ensures
        finish_row(p, later) == finish_row(p, depth),
    decreases later,
{
    if later > depth {
        let before = (later - 1) as nat;
        lemma_finish_row_settles(p, depth, before);
        assert forall|i: int| 0 <= i < p.jobs.len() implies finish_row(p, later)[i] == finish_row(
            p,
            depth + 1,
        )[i] by {
            if is_representative(p, i) {
                let names = dependencies(p, p.jobs[i]);
                lemma_slowest_at_is_slowest_finish(p, names, before);
                lemma_slowest_at_is_slowest_finish(p, names, depth);
            }
        }
        assert(finish_row(p, later) =~= finish_row(p, depth + 1));
    }
}

pub proof fn lemma_slowest_at_bound(row: Seq<nat>, positions: Seq<Option<int>>, bound: nat)
    requires
        forall|i: int| 0 <= i < row.len() ==> row[i] <= bound,
        forall|k: int|
            0 <= k < positions.len() ==> (#[trigger] positions[k] matches Some(j) ==> 0 <= j
                < row.len()),
    ensures
        slowest_at(row, positions) <= bound,
    decreases positions.len(),
{
    if positions.len() > 0 {
        let rest = positions.drop_last();
        assert forall|k: int| 0 <= k < rest.len() implies (#[trigger] rest[k] matches Some(j)
            ==> 0 <= j < row.len()) by {
            assert(rest[k] == positions[k]);
        }
        lemma_slowest_at_bound(row, rest, bound);
        assert(positions.last() == positions[positions.len() - 1]);
    }
}

/// The largest entry of `row` among `positions`.
pub fn slowest_entry(row: &Vec<u128>, positions: &Vec<Option<usize>>) -> (slowest: u128)
    requires
        forall|k: int|
            0 <= k < positions.len() ==> (#[trigger] positions[k] matches Some(j) ==> j
                < row.len()),
    ensures
        slowest as nat == slowest_at(as_nats(row@), positions_view(positions@)),
{
    let ghost all = positions_view(positions@);
    let mut slowest: u128 = 0;
    let mut k: usize = 0;
    while k < positions.len()
        invariant
            k <= positions.len(),
            all == positions_view(positions@),
            forall|m: int|
                0 <= m < positions.len() ==> (#[trigger] positions[m] matches Some(j) ==> j
                    < row.len()),
            slowest as nat == slowest_at(as_nats(row@), all.take(k as int)),
        decreases positions.len() - k,
    {
        let entry: u128 = match positions[k] {
            Some(j) => row[j],
            None => 0,
        };
        proof {
            let next = all.take(k + 1);
            assert(next.drop_last() =~= all.take(k as int));
            assert(next.last() == position_view(positions[k as int]));
        }
        if entry >= slowest {
            slowest = entry;
        }
        k += 1;
    }
    assert(all.take(k as int) =~= all);
    slowest
}

/// Whether `deps` holds, for each record of the pipeline, where its
/// dependencies stand.
pub open spec fn holds_dependency_positions(
    p: PipelineView,
    deps: Seq<Vec<Option<usize>>>,
) -> bool {
    &&& deps.len() == p.jobs.len()
    &&& forall|i: int|
        0 <= i < deps.len() ==> positions_view((#[trigger] deps[i])@) == resolved(
            p,
            dependencies(p, p.jobs[i]),
        )
    &&& forall|i: int, k: int|
        0 <= i < deps.len() && 0 <= k < deps[i].len() ==> (#[trigger] deps[i][k] matches Some(j)
            ==> j < p.jobs.len())
}

/// Where the dependencies of every record stand.
pub fn all_dependency_positions(pipeline: &GitLabPipeline, flags: &Vec<bool>) -> (deps: Vec<
    Vec<Option<usize>>,
>)
    requires
        marks_representatives(pipeline@, flags@),
    ensures
        holds_dependency_positions(pipeline@, deps@),
{
    let ranks = stage_ranks(pipeline);
    let mut deps: Vec<Vec<Option<usize>>> = Vec::new();
    let mut i: usize = 0;
    while i < pipeline.jobs.len()
        invariant
            i <= pipeline.jobs.len(),
            marks_representatives(pipeline@, flags@),
            holds_stage_ranks(pipeline@, ranks@),
            deps.len() == i,
            forall|m: int|
                0 <= m < i ==> positions_view((#[trigger] deps[m])@) == resolved(
                    pipeline@,
                    dependencies(pipeline@, pipeline@.jobs[m]),
                ),
            forall|m: int, k: int|
                0 <= m < i && 0 <= k < deps[m].len() ==> (#[trigger] deps[m][k] matches Some(j)
                    ==> j < pipeline.jobs.len()),
        decreases pipeline.jobs.len() - i,
    {
        let positions = dependency_positions(pipeline, i, flags, &ranks);
        deps.push(positions);
        i += 1;
    }
    deps
}

/// The finish times one step of depth further than `row`.
fn next_finish_row(
    pipeline: &GitLabPipeline,
    flags: &Vec<bool>,
    deps: &Vec<Vec<Option<usize>>>,
    row: &Vec<u128>,
    Ghost(depth): Ghost<nat>,
) -> (next: Vec<u128>)
    requires
        marks_representatives(pipeline@, flags@),
        holds_dependency_positions(pipeline@, deps@),
        as_nats(row@) == finish_row(pipeline@, depth),
        depth < pipeline.jobs.len(),
        forall|i: int| 0 <= i < row.len() ==> row[i] <= depth * u64::MAX,
    ensures
        as_nats(next@) == finish_row(pipeline@, depth + 1),
        forall|i: int| 0 <= i < next.len() ==> next[i] <= (depth + 1) * u64::MAX,
{
    let ghost p = pipeline@;
    let n = pipeline.jobs.len();
    assert(row.len() == n) by {
        assert(as_nats(row@).len() == finish_row(p, depth).len());
    }
    let mut next: Vec<u128> = Vec::new();
    let mut i: usize = 0;
    while i < n
        invariant
            i <= n,
            n == pipeline.jobs.len(),
            p == pipeline@,
            row.len() == n,
            marks_representatives(p, flags@),
            holds_dependency_positions(p, deps@),
            as_nats(row@) == finish_row(p, depth),
            depth < n,
            forall|m: int| 0 <= m < row.len() ==> row[m] <= depth * u64::MAX,
            next.len() == i,
            forall|m: int| 0 <= m < i ==> next[m] as nat == finish_row(p, depth + 1)[m],
            forall|m: int| 0 <= m < i ==> next[m] <= (depth + 1) * u64::MAX,
        decreases n - i,
    {
        let time: u128 = if flags[i] {
            let slowest = slowest_entry(row, &deps[i]);
            proof {
                let names = dependencies(p, p.jobs[i as int]);
                lemma_slowest_at_is_slowest_finish(p, names, depth);
                assert(positions_view(deps[i as int]@) == resolved(p, names));
                assert forall|k: int| 0 <= k < positions_view(deps[i as int]@).len() implies (
                #[trigger] positions_view(deps[i as int]@)[k] matches Some(j) ==> 0 <= j
                    < as_nats(row@).len()) by {
                    assert(deps[i as int][k] matches Some(j) ==> j < n);
                }
                assert forall|m: int| 0 <= m < as_nats(row@).len() implies as_nats(
                    row@,
                )[m] <= depth * u64::MAX by {
                    assert(row[m] <= depth * u64::MAX);
                }
                lemma_slowest_at_bound(
                    as_nats(row@),
                    positions_view(deps[i as int]@),
                    (depth * u64::MAX) as nat,
                );
            }
            pipeline.jobs[i].duration as u128 + slowest
        } else {
            0
        };
        next.push(time);
        i += 1;
    }
    assert(as_nats(next@) =~= finish_row(p, depth + 1));
    next
}

/// Whether two rows hold the same times.
fn same_row(a: &Vec<u128>, b: &Vec<u128>) -> (same: bool)
    ensures
        same == (a@ == b@),
{
    if a.len() != b.len() {
        return false;
    }
    let mut i: usize = 0;
    while i < a.len()
        invariant
            i <= a.len(),
            a.len() == b.len(),
            forall|m: int| 0 <= m < i ==> a[m] == b[m],
        decreases a.len() - i,
    {
        if a[i] != b[i] {
            return false;
        }
        i += 1;
    }
    assert(a@ =~= b@);
    true
}

/// Per record, the finish time of the job it stands for, worked out
/// depth by depth: first for chains of one job, then of two, and so on,
/// until nothing changes or the depth is the number of records.
pub fn finish_times_by_depth(
    pipeline: &GitLabPipeline,
    flags: &Vec<bool>,
    deps: &Vec<Vec<Option<usize>>>,
) -> (row: Vec<u128>)
    requires
        marks_representatives(pipeline@, flags@),
        holds_dependency_positions(pipeline@, deps@),
    ensures
        as_nats(row@) == finish_row(pipeline@, pipeline@.jobs.len()),
{
    let ghost p = pipeline@;
    let n = pipeline.jobs.len();
    let mut row: Vec<u128> = Vec::new();
    let mut i: usize = 0;
    while i < n
        invariant
            i <= n,
            row.len() == i,
            forall|m: int| 0 <= m < i ==> row[m] == 0,
        decreases n - i,
    {
        row.push(0);
        i += 1;
    }
    assert(as_nats(row@) =~= finish_row(p, 0));
    let mut depth: usize = 0;
    while depth < n
        invariant
            depth <= n,
            n == pipeline.jobs.len(),
            p == pipeline@,
            marks_representatives(p, flags@),
            holds_dependency_positions(p, deps@),
            as_nats(row@) == finish_row(p, depth as nat),
            forall|m: int| 0 <= m < row.len() ==> row[m] <= depth * u64::MAX,
        decreases n - depth,
    {
        let next = next_finish_row(pipeline, flags, deps, &row, Ghost(depth as nat));
        if same_row(&next, &row) {
            proof {
                lemma_finish_row_settles(p, depth as nat, n as nat);
            }
            return row;
        }
        row = next;
        depth += 1;
    }
    row
}

/// Per record, the finish time of the job it stands for.
///
/// The times are worked out along the chains of dependencies, each job
/// once; where the dependencies hold a cycle, depth by depth.
pub fn finish_times(
    pipeline: &GitLabPipeline,
    flags: &Vec<bool>,
    deps: &Vec<Vec<Option<usize>>>,
) -> (row: Vec<u128>)
    requires
        marks_representatives(pipeline@, flags@),
        holds_dependency_positions(pipeline@, deps@),
    ensures
        as_nats(row@) == finish_row(pipeline@, pipeline@.jobs.len()),
{
    match finish_times_along_chains(pipeline, flags, deps) {
        Some(row) => row,
        None => finish_times_by_depth(pipeline, flags, deps),
    }
}

/// The job among `names` that finishes last; of several that finish
/// together, the one named last.
pub open spec fn slowest_dependency(p: PipelineView, names: Seq<Seq<char>>) -> Option<Seq<char>>
    decreases names.len(),
{
    if names.len() == 0 {
        None
    } else {
        let candidate = names.last();
        match slowest_dependency(p, names.drop_last()) {
            Some(best) => if finish_time(p, candidate) >= finish_time(p, best) {
                Some(candidate)
            } else {
                Some(best)
            },
            None => Some(candidate),
        }
    }
}

/// The dependency that decides when the job called `name` can start: the
/// one that finishes last. A job without dependencies has none, nor has a
/// name that no record carries.
pub open spec fn critical_predecessor(p: PipelineView, name: Seq<char>) -> Option<Seq<char>> {
    match job_position(p, name) {
        None => None,
        Some(i) => slowest_dependency(p, dependencies(p, p.jobs[i])),
    }
}

/// Where the critical predecessor of the job called `name` stands; `None`
/// where it has none, and where its critical predecessor is a name that
/// no record carries.
pub open spec fn critical_position(p: PipelineView, name: Seq<char>) -> Option<int> {
    match critical_predecessor(p, name) {
        Some(d) => job_position(p, d),
        None => None,
    }
}

/// The critical predecessor of the job called `name`, then that job's own,
/// and so on, for at most `depth` steps. The chain holds jobs: it ends
/// before a name that no record carries, which waits for nothing.
pub open spec fn ancestors(p: PipelineView, name: Seq<char>, depth: nat) -> Seq<Seq<char>>
    decreases depth,
{
    if depth == 0 {
        Seq::empty()
    } else {
        match critical_predecessor(p, name) {
            Some(d) => if job_position(p, d) is Some {
                seq![d] + ancestors(p, d, (depth - 1) as nat)
            } else {
                Seq::empty()
            },
            None => Seq::empty(),
        }
    }
}

/// The chain of jobs that decides when the job called `name` starts, in
/// the order in which they run.
pub open spec fn critical_chain(p: PipelineView, name: Seq<char>) -> Seq<Seq<char>> {
    ancestors(p, name, p.jobs.len()).reverse()
}

/// Duration of the job called `name`; 0 where no record carries the name.
pub open spec fn job_duration(p: PipelineView, name: Seq<char>) -> nat {
    match job_position(p, name) {
        Some(i) => p.jobs[i].duration,
        None => 0,
    }
}

/// The critical chain of the job called `name`, each job with its
/// duration.
pub open spec fn predecessor_list(p: PipelineView, name: Seq<char>) -> Seq<PredecessorJobView> {
    let chain = critical_chain(p, name);
    Seq::new(
        chain.len(),
        |k: int| PredecessorJobView { name: chain[k], duration_p50: job_duration(p, chain[k]) },
    )
}

/// Whether `preds` is a table of predecessors for a pipeline of `len`
/// records: one entry for each record, each a position within the
/// pipeline or none.
pub open spec fn is_predecessor_table(preds: Seq<Option<usize>>, len: nat) -> bool {
    &&& preds.len() == len
    &&& forall|i: int| 0 <= i < preds.len() ==> (#[trigger] preds[i] matches Some(j) ==> j < len)
}

/// Whether `preds` holds, for each record that stands for a job, where the
/// job's critical predecessor stands.
pub open spec fn holds_critical_predecessors(p: PipelineView, preds: Seq<Option<usize>>) -> bool {
    &&& is_predecessor_table(preds, p.jobs.len())
    &&& forall|i: int|
        0 <= i < preds.len() && is_representative(p, i) ==> position_view(#[trigger] preds[i])
            == critical_position(p, p.jobs[i].name)
}

/// The positions that the table `preds` leads through from the record at
/// `index`: its predecessor, then that record's own, and so on, for at
/// most `steps` steps.
pub open spec fn followed(preds: Seq<Option<usize>>, index: int, steps: nat) -> Seq<int>
    decreases steps,
{
    if steps == 0 {
        Seq::empty()
    } else {
        match preds[index] {
            Some(j) => seq![j as int] + followed(preds, j as int, (steps - 1) as nat),
            None => Seq::empty(),
        }
    }
}

/// The records that the table `preds` leads through from the record at
/// `index`, for at most as many steps as the pipeline has records, in the
/// order in which they run: the furthest first. Each stands with its name
/// and its duration.
pub open spec fn listed_chain(
    p: PipelineView,
    preds: Seq<Option<usize>>,
    index: int,
) -> Seq<PredecessorJobView> {
    let chain = followed(preds, index, p.jobs.len()).reverse();
    Seq::new(
        chain.len(),
        |k: int|
            PredecessorJobView {
                name: p.jobs[chain[k]].name,
                duration_p50: p.jobs[chain[k]].duration,
            },
    )
}

/// The names of the records at `positions`, in order.
pub open spec fn names_at(p: PipelineView, positions: Seq<int>) -> Seq<Seq<char>> {
    Seq::new(positions.len(), |k: int| p.jobs[positions[k]].name)
}

/// Through the table of critical predecessors, a job is led along its
/// critical chain: the positions followed are those of its ancestors, and
/// each stands for its job name.
pub proof fn lemma_followed_is_ancestors(
    p: PipelineView,
    preds: Seq<Option<usize>>,
    index: int,
    steps: nat,
)
    requires
        holds_critical_predecessors(p, preds),
        is_representative(p, index),
    ensures
        names_at(p, followed(preds, index, steps)) == ancestors(p, p.jobs[index].name, steps),
        forall|k: int|
            0 <= k < followed(preds, index, steps).len() ==> is_representative(
                p,
                #[trigger] followed(preds, index, steps)[k],
            ),
    decreases steps,
{
    let name = p.jobs[index].name;
    lemma_last_position(job_names(p.jobs), name);
    if steps > 0 {
        assert(position_view(preds[index]) == critical_position(p, name));
        match preds[index] {
            Some(j) => {
                let d = critical_predecessor(p, name)->0;
                lemma_last_position(job_names(p.jobs), d);
                assert(is_representative(p, j as int));
                lemma_followed_is_ancestors(p, preds, j as int, (steps - 1) as nat);
                let rest = followed(preds, j as int, (steps - 1) as nat);
                assert(names_at(p, seq![j as int] + rest) =~= seq![d] + names_at(p, rest));
                assert forall|k: int|
                    0 <= k < followed(preds, index, steps).len() implies is_representative(
                    p,
                    #[trigger] followed(preds, index, steps)[k],
                ) by {
                    if k > 0 {
                        assert(followed(preds, index, steps)[k] == rest[k - 1]);
                    }
                }
            },
            None => {
                assert(names_at(p, followed(preds, index, steps)) =~= ancestors(p, name, steps));
            },
        }
    } else {
        assert(names_at(p, followed(preds, index, steps)) =~= ancestors(p, name, steps));
    }
}

/// With the table of the pipeline's own critical predecessors, the chain
/// listed for a record is the critical chain of its job.
pub proof fn lemma_listed_chain_is_predecessor_list(
    p: PipelineView,
    preds: Seq<Option<usize>>,
    index: int,
)
    requires
        holds_critical_predecessors(p, preds),
        is_representative(p, index),
    ensures
        listed_chain(p, preds, index) == predecessor_list(p, p.jobs[index].name),
{
    let positions = followed(preds, index, p.jobs.len());
    lemma_followed_is_ancestors(p, preds, index, p.jobs.len());
    let names = ancestors(p, p.jobs[index].name, p.jobs.len());
    assert(names.len() == positions.len()) by {
        assert(names_at(p, positions).len() == positions.len());
    }
    assert forall|k: int| 0 <= k < positions.len() implies listed_chain(p, preds, index)[k]
        == predecessor_list(p, p.jobs[index].name)[k] by {
        let at = positions[positions.len() - 1 - k];
        assert(is_representative(p, at));
        assert(names_at(p, positions)[positions.len() - 1 - k] == p.jobs[at].name);
    }
    assert(listed_chain(p, preds, index) =~= predecessor_list(p, p.jobs[index].name));
}

/// The place, among the dependencies of the record at `index`, of the one
/// that finishes last; of several that finish together, the last.
fn slowest_place(
    pipeline: &GitLabPipeline,
    index: usize,
    positions: &Vec<Option<usize>>,
    row: &Vec<u128>,
) -> (place: Option<usize>)
    requires
        index < pipeline.jobs.len(),
        positions_view(positions@) == resolved(
            pipeline@,
            dependencies(pipeline@, pipeline@.jobs[index as int]),
        ),
        as_nats(row@) == finish_row(pipeline@, pipeline@.jobs.len()),
    ensures
        match place {
            Some(k) => k < positions.len() && slowest_dependency(
                pipeline@,
                dependencies(pipeline@, pipeline@.jobs[index as int]),
            ) == Some(dependencies(pipeline@, pipeline@.jobs[index as int])[k as int]),
            None => slowest_dependency(
                pipeline@,
                dependencies(pipeline@, pipeline@.jobs[index as int]),
            ) is None,
        },
{
    let ghost p = pipeline@;
    let ghost names = dependencies(p, p.jobs[index as int]);
    let mut best: Option<usize> = None;
    let mut best_time: u128 = 0;
    let mut k: usize = 0;
    assert(row.len() == p.jobs.len()) by {
        assert(as_nats(row@).len() == finish_row(p, p.jobs.len()).len());
    }
    assert(positions.len() == names.len()) by {
        assert(positions_view(positions@).len() == resolved(p, names).len());
    }
    while k < positions.len()
        invariant
            k <= positions.len(),
            p == pipeline@,
            index < p.jobs.len(),
            names == dependencies(p, p.jobs[index as int]),
            positions.len() == names.len(),
            row.len() == p.jobs.len(),
            positions_view(positions@) == resolved(p, names),
            as_nats(row@) == finish_row(p, p.jobs.len()),
            match best {
                Some(at) => at < k && slowest_dependency(p, names.take(k as int)) == Some(
                    names[at as int],
                ) && best_time as nat == finish_time(p, names[at as int]),
                None => k == 0 && slowest_dependency(p, names.take(k as int)) is None,
            },
        decreases positions.len() - k,
    {
        proof {
            let next = names.take(k + 1);
            assert(next.drop_last() =~= names.take(k as int));
            assert(next.last() == names[k as int]);
            lemma_entry_is_finish_time(p, names[k as int], p.jobs.len());
            lemma_last_position(job_names(p.jobs), names[k as int]);
            assert(positions_view(positions@)[k as int] == resolved(p, names)[k as int]);
            assert(position_view(positions[k as int]) == job_position(p, names[k as int]));
        }
        let time: u128 = match positions[k] {
            Some(j) => {
                assert(as_nats(row@)[j as int] == row[j as int]);
                row[j]
            },
            None => 0,
        };
        assert(time as nat == finish_time(p, names[k as int]));
        if best.is_none() || time >= best_time {
            best = Some(k);
            best_time = time;
        }
        k += 1;
    }
    assert(names.take(k as int) =~= names);
    best
}

/// Where the critical predecessor of the record at `index` stands.
fn critical_predecessor_of(
    pipeline: &GitLabPipeline,
    index: usize,
    positions: &Vec<Option<usize>>,
    row: &Vec<u128>,
) -> (pred: Option<usize>)
    requires
        is_representative(pipeline@, index as int),
        positions_view(positions@) == resolved(
            pipeline@,
            dependencies(pipeline@, pipeline@.jobs[index as int]),
        ),
        as_nats(row@) == finish_row(pipeline@, pipeline@.jobs.len()),
    ensures
        position_view(pred) == critical_position(pipeline@, pipeline@.jobs[index as int].name),
        pred matches Some(j) ==> j < pipeline.jobs.len(),
{
    let ghost p = pipeline@;
    let ghost names = dependencies(p, p.jobs[index as int]);
    proof {
        lemma_last_position(job_names(p.jobs), p.jobs[index as int].name);
    }
    match slowest_place(pipeline, index, positions, row) {
        Some(k) => {
            proof {
                assert(positions_view(positions@).len() == resolved(p, names).len());
                assert(positions_view(positions@)[k as int] == resolved(p, names)[k as int]);
                assert(position_view(positions[k as int]) == job_position(p, names[k as int]));
                lemma_last_position(job_names(p.jobs), names[k as int]);
            }
            positions[k]
        },
        None => None,
    }
}

/// Where the critical predecessor of every record stands.
pub fn critical_predecessors(
    pipeline: &GitLabPipeline,
    flags: &Vec<bool>,
    deps: &Vec<Vec<Option<usize>>>,
    row: &Vec<u128>,
) -> (preds: Vec<Option<usize>>)
    requires
        marks_representatives(pipeline@, flags@),
        holds_dependency_positions(pipeline@, deps@),
        as_nats(row@) == finish_row(pipeline@, pipeline@.jobs.len()),
    ensures
        holds_critical_predecessors(pipeline@, preds@),
{
    let ghost p = pipeline@;
    let n = pipeline.jobs.len();
    let mut preds: Vec<Option<usize>> = Vec::new();
    let mut i: usize = 0;
    while i < n
        invariant
            i <= n,
            n == pipeline.jobs.len(),
            p == pipeline@,
            marks_representatives(p, flags@),
            holds_dependency_positions(p, deps@),
            as_nats(row@) == finish_row(p, p.jobs.len()),
            preds.len() == i,
            forall|m: int| 0 <= m < i ==> (#[trigger] preds[m] matches Some(j) ==> j < n),
            forall|m: int|
                0 <= m < i && is_representative(p, m) ==> position_view(#[trigger] preds[m])
                    == critical_position(p, p.jobs[m].name),
        decreases n - i,
    {
        let pred = if flags[i] {
            critical_predecessor_of(pipeline, i, &deps[i], row)
        } else {
            None
        };
        preds.push(pred);
        i += 1;
    }
    preds
}

/// Follows a table of predecessors from the record at `index`: to its
/// predecessor, to that record's own, and so on, until a record without
/// one, or for as many steps as the pipeline has records. Returns the
/// records passed, the furthest first, each with its name and duration;
/// the record at `index` itself is not among them.
pub fn build_predecessor_list(
    pipeline: &GitLabPipeline,
    preds: &Vec<Option<usize>>,
    index: usize,
) -> (list: Vec<PredecessorJob>)
    requires
        is_predecessor_table(preds@, pipeline@.jobs.len()),
        index < pipeline.jobs.len(),
    ensures
        list.deep_view() == listed_chain(pipeline@, preds@, index as int),
{
    let ghost p = pipeline@;
    let n = pipeline.jobs.len();
    let mut chain: Vec<usize> = Vec::new();
    let mut current: usize = index;
    let mut steps: usize = 0;
    let mut done: bool = false;
    assert(as_ints(chain@) + followed(preds@, index as int, n as nat) =~= followed(
        preds@,
        index as int,
        n as nat,
    ));
    while steps < n && !done
        invariant
            steps <= n,
            n == pipeline.jobs.len(),
            p == pipeline@,
            is_predecessor_table(preds@, n as nat),
            current < n,
            forall|k: int| 0 <= k < chain.len() ==> #[trigger] chain[k] < n,
            followed(preds@, index as int, n as nat) == as_ints(chain@) + followed(
                preds@,
                current as int,
                (n - steps) as nat,
            ),
            done ==> followed(preds@, current as int, (n - steps) as nat) == Seq::<int>::empty(),
        decreases n - steps, if done { 0int } else { 1int },
    {
        match preds[current] {
            Some(j) => {
                let ghost before = as_ints(chain@);
                chain.push(j);
                proof {
                    let rest = followed(preds@, j as int, (n - steps - 1) as nat);
                    assert(as_ints(chain@) =~= before.push(j as int));
                    assert(before + (seq![j as int] + rest) =~= before.push(j as int) + rest);
                }
                current = j;
                steps += 1;
            },
            None => {
                done = true;
            },
        }
    }
    let ghost positions = as_ints(chain@);
    assert(positions =~= followed(preds@, index as int, n as nat));
    let mut list: Vec<PredecessorJob> = Vec::new();
    let mut k: usize = chain.len();
    while k > 0
        invariant
            k <= chain.len(),
            p == pipeline@,
            n == pipeline.jobs.len(),
            positions == as_ints(chain@),
            forall|m: int| 0 <= m < chain.len() ==> #[trigger] chain[m] < n,
            list.len() == chain.len() - k,
            forall|m: int|
                0 <= m < list.len() ==> (#[trigger] list[m])@ == (PredecessorJobView {
                    name: p.jobs[positions[chain.len() - 1 - m]].name,
                    duration_p50: p.jobs[positions[chain.len() - 1 - m]].duration,
                }),
        decreases k,
    {
        let j = chain[k - 1];
        let job = &pipeline.jobs[j];
        list.push(PredecessorJob { name: job.name.clone(), duration_p50: job.duration as u128 });
        k -= 1;
    }
    assert(list.deep_view() =~= listed_chain(p, preds@, index as int));
    list
}

/// The positions, among the first `upto` records, of those that stand for
/// a job: one for each job of the run, in the order of the records.
pub open spec fn reported_positions(p: PipelineView, upto: int) -> Seq<int>
    decreases upto,
{
    if upto <= 0 {
        Seq::empty()
    } else {
        let rest = reported_positions(p, upto - 1);
        let j = upto - 1;
        if is_representative(p, j) {
            rest.push(j)
        } else {
            rest
        }
    }
}

/// The share that stands for nothing out of anything.
pub open spec fn no_share() -> Percentage {
    Percentage { part: 0, whole: 1 }
}

/// A count of nothing.
pub open spec fn no_count() -> CountWithLinksView {
    CountWithLinksView { count: 0, links: Seq::empty() }
}

/// The figures of the record at `index` within its own pipeline run: with
/// one run there is one sample, so every percentile is that sample.
pub open spec fn single_run_metrics(p: PipelineView, index: int) -> JobMetricsView {
    let job = p.jobs[index];
    JobMetricsView {
        name: job.name,
        duration_p50: job.duration,
        duration_p95: job.duration,
        duration_p99: job.duration,
        time_to_feedback_p50: finish_time(p, job.name),
        time_to_feedback_p95: finish_time(p, job.name),
        time_to_feedback_p99: finish_time(p, job.name),
        predecessors: predecessor_list(p, job.name),
        flakiness_rate: no_share(),
        flaky_retries: no_count(),
        failed_executions: no_count(),
        failure_rate: no_share(),
        total_executions: 0,
    }
}

/// The time to feedback of each record at `positions`, in order.
pub open spec fn feedback_times(p: PipelineView, positions: Seq<int>) -> Seq<nat> {
    Seq::new(positions.len(), |k: int| finish_time(p, p.jobs[positions[k]].name))
}

/// The figures of every job of one pipeline run, slowest feedback first;
/// jobs with equal feedback time in the order of their records.
pub open spec fn job_metrics(p: PipelineView) -> Seq<JobMetricsView> {
    let reported = reported_positions(p, p.jobs.len() as int);
    let order = descending_order(feedback_times(p, reported));
    Seq::new(reported.len(), |k: int| single_run_metrics(p, reported[order[k]]))
}

/// Analyses one pipeline run.
///
/// Returns, for every job of the run, whatever its status, its duration,
/// its time to feedback and its critical chain, the job with the slowest
/// feedback first. With a single run every percentile of a job is its one
/// sample. The reliability figures are left at nothing: they take more
/// than one run.
pub fn calculate_job_metrics(pipeline: &GitLabPipeline) -> (metrics: Vec<JobMetrics>)
    ensures
        metrics.deep_view() == job_metrics(pipeline@),
{
    let ghost p = pipeline@;
    let n = pipeline.jobs.len();
    let flags = representatives(pipeline);
    let deps = all_dependency_positions(pipeline, &flags);
    let row = finish_times(pipeline, &flags, &deps);
    let preds = critical_predecessors(pipeline, &flags, &deps, &row);
    assert(row.len() == n) by {
        assert(as_nats(row@).len() == finish_row(p, n as nat).len());
    }
    let mut reported: Vec<usize> = Vec::new();
    let mut keys: Vec<u128> = Vec::new();
    let mut i: usize = 0;
    assert(as_ints(reported@) =~= reported_positions(p, 0));
    while i < n
        invariant
            i <= n,
            n == pipeline.jobs.len(),
            p == pipeline@,
            marks_representatives(p, flags@),
            row.len() == n,
            as_nats(row@) == finish_row(p, n as nat),
            as_ints(reported@) == reported_positions(p, i as int),
            keys.len() == reported.len(),
            forall|k: int| 0 <= k < reported.len() ==> #[trigger] reported[k] < n,
            forall|k: int|
                0 <= k < reported.len() ==> is_representative(p, #[trigger] reported[k] as int),
            forall|k: int|
                0 <= k < keys.len() ==> #[trigger] keys[k] as nat == finish_time(
                    p,
                    p.jobs[reported[k] as int].name,
                ),
        decreases n - i,
    {
        if flags[i] {
            let ghost before = as_ints(reported@);
            reported.push(i);
            keys.push(row[i]);
            proof {
                assert(as_ints(reported@) =~= before.push(i as int));
                assert(as_nats(row@)[i as int] == row[i as int]);
            }
        }
        i += 1;
    }
    let ghost times = feedback_times(p, as_ints(reported@));
    assert(as_nats(keys@) =~= times);
    let order = rank_descending(&keys);
    let mut metrics: Vec<JobMetrics> = Vec::new();
    let mut k: usize = 0;
    while k < order.len()
        invariant
            k <= order.len(),
            n == pipeline.jobs.len(),
            p == pipeline@,
            row.len() == n,
            as_nats(row@) == finish_row(p, n as nat),
            holds_critical_predecessors(p, preds@),
            order.len() == reported.len(),
            as_ints(order@) == descending_order(times),
            forall|m: int| 0 <= m < order.len() ==> #[trigger] order[m] < reported.len(),
            forall|m: int| 0 <= m < reported.len() ==> #[trigger] reported[m] < n,
            forall|m: int|
                0 <= m < reported.len() ==> is_representative(p, #[trigger] reported[m] as int),
            metrics.len() == k,
            forall|m: int|
                0 <= m < k ==> (#[trigger] metrics[m])@ == single_run_metrics(
                    p,
                    reported[order[m] as int] as int,
                ),
        decreases order.len() - k,
    {
        let at = reported[order[k]];
        assert(is_representative(p, reported[order[k as int] as int] as int));
        let job = &pipeline.jobs[at];
        let time = row[at];
        proof {
            assert(as_nats(row@)[at as int] == row[at as int]);
        }
        let predecessors = build_predecessor_list(pipeline, &preds, at);
        proof {
            lemma_listed_chain_is_predecessor_list(p, preds@, at as int);
        }
        let flaky_retries = JobCountWithLinks::default();
        let failed_executions = JobCountWithLinks::default();
        metrics.push(
            JobMetrics {
                name: job.name.clone(),
                duration_p50: job.duration as u128,
                duration_p95: job.duration as u128,
                duration_p99: job.duration as u128,
                time_to_feedback_p50: time,
                time_to_feedback_p95: time,
                time_to_feedback_p99: time,
                predecessors,
                flakiness_rate: Percentage { part: 0, whole: 1 },
                flaky_retries,
                failed_executions,
                failure_rate: Percentage { part: 0, whole: 1 },
                total_executions: 0,
            },
        );
        k += 1;
    }
    proof {
        let rep = reported_positions(p, p.jobs.len() as int);
        assert(rep == as_ints(reported@));
        assert forall|m: int| 0 <= m < metrics.len() implies metrics.deep_view()[m] == job_metrics(
            p,
        )[m] by {
            assert(as_ints(order@)[m] == order[m] as int);
            assert(rep[order[m] as int] == reported[order[m] as int] as int);
        }
        assert(metrics.deep_view() =~= job_metrics(p));
    }
    metrics
}

/// The time to feedback of the job called `job_name` within `pipeline`:
/// the moment its result is known, in seconds from the start of the run.
pub fn calculate_finish_time(job_name: &str, pipeline: &GitLabPipeline) -> (time: u128)
    ensures
        time as nat == finish_time(pipeline@, job_name@),
{
    let ghost p = pipeline@;
    let name = String::from_str(job_name);
    let flags = representatives(pipeline);
    let deps = all_dependency_positions(pipeline, &flags);
    let row = finish_times(pipeline, &flags, &deps);
    proof {
        lemma_entry_is_finish_time(p, name@, p.jobs.len());
        assert(as_nats(row@).len() == finish_row(p, p.jobs.len()).len());
    }
    match find_job(pipeline, &name) {
        Some(i) => {
            assert(as_nats(row@)[i as int] == row[i as int]);
            row[i]
        },
        None => 0,
    }
}

/// The dependency that decides when the job called `job_name` can start:
/// of the jobs it waits for, the one that finishes last, and of several
/// that finish together the one named last. `None` for a job that waits
/// for nothing, and for a name that no record carries.
pub fn find_critical_predecessor(job_name: &str, pipeline: &GitLabPipeline) -> (pred: Option<
    String,
>)
    ensures
        pred.deep_view() == critical_predecessor(pipeline@, job_name@),
{
    let name = String::from_str(job_name);
    match find_job(pipeline, &name) {
        Some(i) => {
            let flags = representatives(pipeline);
            let deps = all_dependency_positions(pipeline, &flags);
            let row = finish_times(pipeline, &flags, &deps);
            let names = get_dependencies(&pipeline.jobs[i], pipeline);
            proof {
                let listed = dependencies(pipeline@, pipeline@.jobs[i as int]);
                assert(names.deep_view() == listed);
                assert(positions_view(deps[i as int]@) == resolved(pipeline@, listed));
                assert(names.len() == names.deep_view().len());
                assert(deps[i as int].len() == positions_view(deps[i as int]@).len());
                assert(resolved(pipeline@, listed).len() == listed.len());
            }
            match slowest_place(pipeline, i, &deps[i], &row) {
                Some(k) => {
                    assert(names.deep_view()[k as int] == names[k as int]@);
                    Some(names[k].clone())
                },
                None => None,
            }
        },
        None => None,
    }
}

/// A job that lists an empty set of dependencies starts with the
/// pipeline, whatever its stage: it finishes after its own duration, no
/// job is its critical predecessor, and its critical chain is empty.
pub proof fn lemma_no_needs_no_predecessors(p: PipelineView, name: Seq<char>)
    requires
        job_position(p, name) matches Some(i) && p.jobs[i].needs == Some(
            Seq::<Seq<char>>::empty(),
        ),
    ensures
        finish_time(p, name) == job_duration(p, name),
        critical_predecessor(p, name) is None,
        critical_chain(p, name) == Seq::<Seq<char>>::empty(),
        predecessor_list(p, name) == Seq::<PredecessorJobView>::empty(),
{
    lemma_last_position(job_names(p.jobs), name);
    assert(critical_chain(p, name) =~= Seq::<Seq<char>>::empty());
    assert(predecessor_list(p, name) =~= Seq::<PredecessorJobView>::empty());
}

/// The jobs of one run are listed with the slowest feedback first.
pub proof fn lemma_job_metrics_sorted(p: PipelineView)
    ensures
        forall|a: int, b: int|
            0 <= a <= b < job_metrics(p).len() ==> job_metrics(p)[a].time_to_feedback_p50
                >= job_metrics(p)[b].time_to_feedback_p50,
{
    let reported = reported_positions(p, p.jobs.len() as int);
    let times = feedback_times(p, reported);
    let order = descending_order(times);
    lemma_descending_order_sorted(times);
    lemma_descending_order_bounds(times);
    assert forall|a: int, b: int| 0 <= a <= b < job_metrics(p).len() implies job_metrics(
        p,
    )[a].time_to_feedback_p50 >= job_metrics(p)[b].time_to_feedback_p50 by {
        assert(times[order[a]] >= times[order[b]]);
    }
}

/// The latest finish time among the jobs called `names`; 0 for none.
pub open spec fn slowest_finish(p: PipelineView, names: Seq<Seq<char>>) -> nat {
    slowest_finish_within(p, names, p.jobs.len())
}

/// Whether `rank` numbers the records so that every job stands above each
/// job it depends on, with numbers below the number of records. Such a
/// numbering exists exactly where the dependencies hold no cycle: the
/// length of the longest chain of dependencies below a job is one.
pub open spec fn ranks_dependencies(p: PipelineView, rank: Seq<nat>) -> bool {
    &&& rank.len() == p.jobs.len()
    &&& forall|i: int| 0 <= i < rank.len() ==> #[trigger] rank[i] < p.jobs.len()
    &&& forall|i: int, k: int|
        is_representative(p, i) && 0 <= k < dependencies(p, p.jobs[i]).len()
            ==> match job_position(p, #[trigger] dependencies(p, p.jobs[i])[k]) {
            Some(j) => rank[j] < rank[i],
            None => true,
        }
}

/// Whether the dependencies of the pipeline hold no cycle: the records
/// can be numbered so that every job stands above each job it waits for.
pub open spec fn has_no_cycle(p: PipelineView) -> bool {
    exists|rank: Seq<nat>| ranks_dependencies(p, rank)
}

/// The number that `rank` gives the job called `name`; 0 where no record
/// carries the name.
pub open spec fn rank_of(p: PipelineView, rank: Seq<nat>, name: Seq<char>) -> nat {
    match job_position(p, name) {
        Some(i) => rank[i],
        None => 0,
    }
}

/// Beyond the rank of a job, a greater depth does not change its finish
/// time.
pub proof fn lemma_depth_suffices(
    p: PipelineView,
    rank: Seq<nat>,
    name: Seq<char>,
    a: nat,
    b: nat,
)
    requires
        ranks_dependencies(p, rank),
        job_position(p, name) is Some ==> a > rank_of(p, rank, name) && b > rank_of(
            p,
            rank,
            name,
        ),
    ensures
        finish_time_within(p, name, a) == finish_time_within(p, name, b),
    decreases rank_of(p, rank, name) + 1, 0nat,
{
    lemma_last_position(job_names(p.jobs), name);
    match job_position(p, name) {
        Some(i) => {
            let names = dependencies(p, p.jobs[i]);
            assert forall|k: int| 0 <= k < names.len() implies rank_of(
                p,
                rank,
                #[trigger] names[k],
            ) < rank[i] || job_position(p, names[k]) is None by {
                lemma_last_position(job_names(p.jobs), names[k]);
            }
            lemma_slowest_depth_suffices(
                p,
                rank,
                names,
                rank[i],
                (a - 1) as nat,
                (b - 1) as nat,
            );
        },
        None => {},
    }
}

/// Beyond the ranks of all of `names`, a greater depth does not change
/// their latest finish time.
pub proof fn lemma_slowest_depth_suffices(
    p: PipelineView,
    rank: Seq<nat>,
    names: Seq<Seq<char>>,
    bound: nat,
    a: nat,
    b: nat,
)
    requires
        ranks_dependencies(p, rank),
        forall|k: int|
            0 <= k < names.len() ==> rank_of(p, rank, #[trigger] names[k]) < bound
                || job_position(p, names[k]) is None,
        a >= bound,
        b >= bound,
    ensures
        slowest_finish_within(p, names, a) == slowest_finish_within(p, names, b),
    decreases bound, names.len() + 1,
{
    if names.len() > 0 {
        let rest = names.drop_last();
        assert forall|k: int| 0 <= k < rest.len() implies rank_of(p, rank, #[trigger] rest[k])
            < bound || job_position(p, rest[k]) is None by {
            assert(rest[k] == names[k]);
        }
        lemma_slowest_depth_suffices(p, rank, rest, bound, a, b);
        assert(names.last() == names[names.len() - 1]);
        if job_position(p, names.last()) is Some {
            lemma_depth_suffices(p, rank, names.last(), a, b);
        } else {
            assert(finish_time_within(p, names.last(), a) == 0);
            assert(finish_time_within(p, names.last(), b) == 0);
        }
    }
}

/// In a pipeline whose dependencies hold no cycle, the finish time obeys
/// the rule by which it is told: a job finishes after its own duration
/// added to the latest finish time among its dependencies, and a name
/// that no record carries finishes at 0.
pub proof fn lemma_finish_time_recurrence(p: PipelineView, rank: Seq<nat>, name: Seq<char>)
    requires
        ranks_dependencies(p, rank),
    ensures
        finish_time(p, name) == match job_position(p, name) {
            Some(i) => p.jobs[i].duration + slowest_finish(p, dependencies(p, p.jobs[i])),
            None => 0,
        },
{
    lemma_last_position(job_names(p.jobs), name);
    match job_position(p, name) {
        Some(i) => {
            let names = dependencies(p, p.jobs[i]);
            let n = p.jobs.len();
            assert forall|k: int| 0 <= k < names.len() implies rank_of(
                p,
                rank,
                #[trigger] names[k],
            ) < rank[i] || job_position(p, names[k]) is None by {
                lemma_last_position(job_names(p.jobs), names[k]);
            }
            lemma_slowest_depth_suffices(p, rank, names, rank[i], (n - 1) as nat, n);
        },
        None => {},
    }
}

/// Without a cycle among the dependencies, the time to feedback of a job
/// is its duration where it waits for nothing, and else its duration
/// added to the latest time to feedback among the jobs it waits for.
pub proof fn lemma_finish_time_without_cycle(p: PipelineView, name: Seq<char>)
    requires
        has_no_cycle(p),
    ensures
        finish_time(p, name) == match job_position(p, name) {
            Some(i) => p.jobs[i].duration + slowest_finish(p, dependencies(p, p.jobs[i])),
            None => 0,
        },
        (job_position(p, name) matches Some(i) && dependencies(p, p.jobs[i]).len() == 0)
            ==> finish_time(p, name) == job_duration(p, name),
{
    let rank = choose|rank: Seq<nat>| ranks_dependencies(p, rank);
    lemma_finish_time_recurrence(p, rank, name);
}

/// Among some jobs, the one that finishes last is one of them, and its
/// finish time is their latest.
pub proof fn lemma_slowest_dependency(p: PipelineView, names: Seq<Seq<char>>)
    requires
        names.len() > 0,
    ensures
        slowest_dependency(p, names) matches Some(d) && names.contains(d) && finish_time(p, d)
            == slowest_finish(p, names),
        forall|k: int|
            0 <= k < names.len() ==> finish_time(p, #[trigger] names[k]) <= slowest_finish(
                p,
                names,
            ),
    decreases names.len(),
{
    let rest = names.drop_last();
    let last = names.last();
    assert(names[names.len() - 1] == last);
    if rest.len() > 0 {
        lemma_slowest_dependency(p, rest);
        let best = slowest_dependency(p, rest)->0;
        let at = choose|at: int| 0 <= at < rest.len() && rest[at] == best;
        assert(names[at] == best);
        assert forall|k: int| 0 <= k < names.len() implies finish_time(p, #[trigger] names[k])
            <= slowest_finish(p, names) by {
            if k < rest.len() {
                assert(rest[k] == names[k]);
            }
        }
    }
}

/// A job that waits for others has a critical predecessor: one of the
/// jobs it waits for, and none of them finishes later. This holds
/// whatever the finish time is, also where it is 0.
pub proof fn lemma_critical_predecessor_finishes_last(p: PipelineView, name: Seq<char>)
    requires
        job_position(p, name) matches Some(i) && dependencies(p, p.jobs[i]).len() > 0,
    ensures
        critical_predecessor(p, name) matches Some(d) && dependencies(
            p,
            p.jobs[job_position(p, name)->0],
        ).contains(d) && finish_time(p, d) == slowest_finish(
            p,
            dependencies(p, p.jobs[job_position(p, name)->0]),
        ),
{
    lemma_slowest_dependency(p, dependencies(p, p.jobs[job_position(p, name)->0]));
}

/// The positions reported among the first `upto` records are those of the
/// records that stand for a job, each once.
pub proof fn lemma_reported_positions(p: PipelineView, upto: int, index: int)
    requires
        0 <= index < upto <= p.jobs.len(),
        is_representative(p, index),
    ensures
        reported_positions(p, upto).contains(index),
    decreases upto,
{
    let rest = reported_positions(p, upto - 1);
    if index < upto - 1 {
        lemma_reported_positions(p, upto - 1, index);
        let k = choose|k: int| 0 <= k < rest.len() && rest[k] == index;
        assert(reported_positions(p, upto)[k] == index);
    } else {
        assert(reported_positions(p, upto)[rest.len() as int] == index);
    }
}

/// Every job of a run is among its figures, whatever its status: with its
/// duration and its time to feedback.
pub proof fn lemma_every_job_is_reported(p: PipelineView, index: int)
    requires
        is_representative(p, index),
    ensures
        job_metrics(p).contains(single_run_metrics(p, index)),
{
    let reported = reported_positions(p, p.jobs.len() as int);
    let times = feedback_times(p, reported);
    let order = descending_order(times);
    lemma_reported_positions(p, p.jobs.len() as int, index);
    let at = choose|at: int| 0 <= at < reported.len() && reported[at] == index;
    lemma_descending_order_rearranges(times);
    assert(order.contains(at));
    let k = choose|k: int| 0 <= k < order.len() && order[k] == at;
    assert(job_metrics(p)[k] == single_run_metrics(p, index));
}

} // verus!
