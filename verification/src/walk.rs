//! A walk along the dependencies of a pipeline run that works out every
//! finish time once: a job is left, with its finish time, after all the
//! jobs it waits for. The walk ends early where it comes back to a job
//! that it has entered and not left: the dependencies hold a cycle there.

use vstd::prelude::*;
use crate::job_metrics::{
    all_dependency_positions, dependencies, entry_at, finish_row, finish_time, has_no_cycle,
    holds_dependency_positions, is_representative, job_names, job_position, lemma_finish_time_recurrence,
    lemma_last_position, marks_representatives, position_view, positions_view,
    ranks_dependencies, representatives, resolved, slowest_at, slowest_finish_within,
};
use crate::ranking::as_nats;
use crate::types::{GitLabPipeline, PipelineView};

verus! {

/// How far the walk has come at a record.
#[derive(Debug, Clone, Copy, PartialEq, Eq, Structural)]
pub enum Mark {
    /// Not reached.
    Unseen,
    /// Reached; the jobs it waits for are being walked.
    Entered,
    /// Done: its finish time is known.
    Left,
}

/// How many of `marks` are `mark`.
pub open spec fn count_of(marks: Seq<Mark>, mark: Mark) -> nat
    decreases marks.len(),
{
    if marks.len() == 0 {
        0
    } else {
        count_of(marks.drop_last(), mark) + if marks.last() == mark {
            1nat
        } else {
            0nat
        }
    }
}

pub proof fn lemma_count_bound(marks: Seq<Mark>, mark: Mark)
    ensures
        count_of(marks, mark) <= marks.len(),
    decreases marks.len(),
{
    if marks.len() > 0 {
        lemma_count_bound(marks.drop_last(), mark);
    }
}

/// Where one record has another mark, it is not counted.
pub proof fn lemma_count_below(marks: Seq<Mark>, mark: Mark, at: int)
    requires
        0 <= at < marks.len(),
        marks[at] != mark,
    ensures
        count_of(marks, mark) < marks.len(),
    decreases marks.len(),
{
    if at < marks.len() - 1 {
        lemma_count_below(marks.drop_last(), mark, at);
    } else {
        lemma_count_bound(marks.drop_last(), mark);
    }
}

/// Changing one mark changes the counts by that mark alone.
pub proof fn lemma_count_update(marks: Seq<Mark>, at: int, new: Mark, mark: Mark)
    requires
        0 <= at < marks.len(),
    ensures
        count_of(marks.update(at, new), mark) + (if marks[at] == mark {
            1nat
        } else {
            0nat
        }) == count_of(marks, mark) + (if new == mark {
            1nat
        } else {
            0nat
        }),
    decreases marks.len(),
{
    let changed = marks.update(at, new);
    if at < marks.len() - 1 {
        lemma_count_update(marks.drop_last(), at, new, mark);
        assert(changed.drop_last() =~= marks.drop_last().update(at, new));
    } else {
        assert(changed.drop_last() =~= marks.drop_last());
    }
}

/// Where every record that has the mark afterwards had it before, there
/// are no more with the mark afterwards.
pub proof fn lemma_count_shrinks(before: Seq<Mark>, after: Seq<Mark>, mark: Mark)
    requires
        before.len() == after.len(),
        forall|i: int| 0 <= i < after.len() && after[i] == mark ==> before[i] == mark,
    ensures
        count_of(after, mark) <= count_of(before, mark),
    decreases before.len(),
{
    if before.len() > 0 {
        assert forall|i: int|
            0 <= i < after.drop_last().len() && after.drop_last()[i] == mark
            implies before.drop_last()[i] == mark by {
            assert(after[i] == mark);
        }
        lemma_count_shrinks(before.drop_last(), after.drop_last(), mark);
    }
}

/// The largest entry among some positions is the same in two rows that
/// agree at those positions.
pub proof fn lemma_slowest_at_agrees(a: Seq<nat>, b: Seq<nat>, positions: Seq<Option<int>>)
    requires
        forall|k: int|
            0 <= k < positions.len() ==> (#[trigger] positions[k] matches Some(j) ==> a[j]
                == b[j]),
    ensures
        slowest_at(a, positions) == slowest_at(b, positions),
    decreases positions.len(),
{
    if positions.len() > 0 {
        let rest = positions.drop_last();
        assert forall|k: int| 0 <= k < rest.len() implies (#[trigger] rest[k] matches Some(j)
            ==> a[j] == b[j]) by {
            assert(rest[k] == positions[k]);
        }
        lemma_slowest_at_agrees(a, b, rest);
        assert(positions.last() == positions[positions.len() - 1]);
    }
}

/// What holds of a record that the walk has left: it has a place in the
/// order in which records were left, behind the records it waits for;
/// its finish time is its duration added to the latest finish time among
/// those.
pub open spec fn is_settled(
    p: PipelineView,
    deps: Seq<Vec<Option<usize>>>,
    marks: Seq<Mark>,
    times: Seq<u128>,
    place: Seq<int>,
    at: int,
) -> bool {
    &&& 0 <= place[at] < count_of(marks, Mark::Left)
    &&& times[at] <= (place[at] + 1) * u64::MAX
    &&& times[at] == p.jobs[at].duration + slowest_at(as_nats(times), positions_view(deps[at]@))
    &&& forall|k: int|
        0 <= k < deps[at].len() ==> (#[trigger] deps[at][k] matches Some(j) ==> marks[j as int]
            == Mark::Left && place[j as int] < place[at])
}

/// What holds throughout the walk: every record that was left is settled.
pub open spec fn walk_holds(
    p: PipelineView,
    deps: Seq<Vec<Option<usize>>>,
    marks: Seq<Mark>,
    times: Seq<u128>,
    place: Seq<int>,
) -> bool {
    &&& marks.len() == p.jobs.len()
    &&& times.len() == p.jobs.len()
    &&& place.len() == p.jobs.len()
    &&& forall|i: int|
        0 <= i < marks.len() && #[trigger] marks[i] == Mark::Left ==> is_settled(
            p,
            deps,
            marks,
            times,
            place,
            i,
        )
}

/// What a part of the walk leaves as it found it: the marks and times of
/// records that were left, and the marks of records that were entered.
pub open spec fn walk_extends(
    marks: Seq<Mark>,
    times: Seq<u128>,
    place: Seq<int>,
    new_marks: Seq<Mark>,
    new_times: Seq<u128>,
    new_place: Seq<int>,
) -> bool {
    &&& new_marks.len() == marks.len()
    &&& new_times.len() == times.len()
    &&& new_place.len() == place.len()
    &&& forall|i: int|
        0 <= i < marks.len() && #[trigger] marks[i] == Mark::Left ==> new_marks[i] == Mark::Left
            && new_times[i] == times[i] && new_place[i] == place[i]
    &&& forall|i: int|
        0 <= i < marks.len() && #[trigger] marks[i] == Mark::Entered ==> new_marks[i]
            == Mark::Entered
    &&& forall|i: int|
        0 <= i < marks.len() && #[trigger] new_marks[i] == Mark::Unseen ==> marks[i]
            == Mark::Unseen
}

/// Whether `rank` puts every record that was entered and not left above
/// the record at `at`.
pub open spec fn ranks_above(marks: Seq<Mark>, rank: Seq<nat>, at: int) -> bool {
    forall|x: int| 0 <= x < marks.len() && #[trigger] marks[x] == Mark::Entered ==> rank[x] > rank[at]
}

/// A record that a job waits for stands for its job name.
pub proof fn lemma_dependency_is_representative(
    p: PipelineView,
    deps: Seq<Vec<Option<usize>>>,
    at: int,
    k: int,
)
    requires
        holds_dependency_positions(p, deps),
        is_representative(p, at),
        0 <= k < deps[at].len(),
        deps[at][k] is Some,
    ensures
        is_representative(p, deps[at][k]->0 as int),
{
    let names = dependencies(p, p.jobs[at]);
    assert(positions_view(deps[at]@) == resolved(p, names));
    assert(positions_view(deps[at]@)[k] == resolved(p, names)[k]);
    assert(position_view(deps[at][k]) == job_position(p, names[k]));
    lemma_last_position(job_names(p.jobs), names[k]);
}

/// A numbering that follows the dependencies puts a record that a job
/// waits for below the job.
pub proof fn lemma_dependency_ranks_below(
    p: PipelineView,
    deps: Seq<Vec<Option<usize>>>,
    rank: Seq<nat>,
    at: int,
    k: int,
)
    requires
        holds_dependency_positions(p, deps),
        ranks_dependencies(p, rank),
        is_representative(p, at),
        0 <= k < deps[at].len(),
        deps[at][k] is Some,
    ensures
        rank[deps[at][k]->0 as int] < rank[at],
{
    let names = dependencies(p, p.jobs[at]);
    assert(positions_view(deps[at]@) == resolved(p, names));
    assert(positions_view(deps[at]@)[k] == resolved(p, names)[k]);
    assert(position_view(deps[at][k]) == job_position(p, names[k]));
    assert(match job_position(p, dependencies(p, p.jobs[at])[k]) {
        Some(j) => rank[j] < rank[at],
        None => true,
    });
}

/// Walks the record at `at`: first the records it waits for, as far as
/// they are unseen, then the record itself, which is left with its finish
/// time. Returns whether the walk came through; it does not where it
/// comes back to a record that was entered and not left.
fn visit(
    pipeline: &GitLabPipeline,
    deps: &Vec<Vec<Option<usize>>>,
    at: usize,
    marks: &mut Vec<Mark>,
    times: &mut Vec<u128>,
    Ghost(place): Ghost<Seq<int>>,
) -> (result: (bool, Ghost<Seq<int>>))
    requires
        holds_dependency_positions(pipeline@, deps@),
        walk_holds(pipeline@, deps@, old(marks)@, old(times)@, place),
        at < pipeline.jobs.len(),
        is_representative(pipeline@, at as int),
        old(marks)[at as int] == Mark::Unseen,
    ensures
        forall|rank: Seq<nat>|
            #[trigger] ranks_dependencies(pipeline@, rank) && ranks_above(
                old(marks)@,
                rank,
                at as int,
            ) ==> result.0,
        walk_extends(old(marks)@, old(times)@, place, final(marks)@, final(times)@, result.1@),
        result.0 ==> walk_holds(pipeline@, deps@, final(marks)@, final(times)@, result.1@),
        result.0 ==> final(marks)[at as int] == Mark::Left,
        result.0 ==> forall|i: int|
            0 <= i < final(marks).len() && #[trigger] final(marks)[i] == Mark::Entered ==> old(
                marks,
            )[i] == Mark::Entered,
    decreases count_of(old(marks)@, Mark::Unseen),
{
    let ghost p = pipeline@;
    let ghost entry_marks = marks@;
    let ghost entry_times = times@;
    let ghost entry_place = place;
    let ghost mut order = place;
    let n = pipeline.jobs.len();
    marks.set(at, Mark::Entered);
    proof {
        lemma_count_update(entry_marks, at as int, Mark::Entered, Mark::Unseen);
        lemma_count_update(entry_marks, at as int, Mark::Entered, Mark::Left);
        assert forall|i: int| 0 <= i < marks.len() && #[trigger] marks[i] == Mark::Left implies is_settled(
            p,
            deps@,
            marks@,
            times@,
            order,
            i,
        ) by {
            assert(entry_marks[i] == Mark::Left);
            assert(is_settled(p, deps@, entry_marks, entry_times, entry_place, i));
            assert forall|k: int| 0 <= k < deps[i].len() implies (#[trigger] deps[i][k] matches Some(
                j,
            ) ==> marks[j as int] == Mark::Left && order[j as int] < order[i]) by {
                if let Some(j) = deps[i][k] {
                    assert(entry_marks[j as int] == Mark::Left);
                }
            }
        }
    }
    let positions = &deps[at];
    let mut slowest: u128 = 0;
    let mut k: usize = 0;
    while k < positions.len()
        invariant
            k <= positions.len(),
            n == pipeline.jobs.len(),
            p == pipeline@,
            at < n,
            entry_marks == old(marks)@,
            entry_times == old(times)@,
            entry_place == place,
            is_representative(p, at as int),
            positions == deps[at as int],
            holds_dependency_positions(p, deps@),
            walk_holds(p, deps@, marks@, times@, order),
            walk_extends(entry_marks, entry_times, entry_place, marks@, times@, order),
            entry_marks[at as int] == Mark::Unseen,
            marks[at as int] == Mark::Entered,
            forall|i: int|
                0 <= i < marks.len() && #[trigger] marks[i] == Mark::Entered ==> entry_marks[i]
                    == Mark::Entered || i == at,
            count_of(marks@, Mark::Unseen) < count_of(entry_marks, Mark::Unseen),
            forall|m: int|
                0 <= m < k ==> (#[trigger] positions[m] matches Some(j) ==> marks[j as int]
                    == Mark::Left),
            slowest as nat == slowest_at(
                as_nats(times@),
                positions_view(positions@).take(k as int),
            ),
            slowest <= count_of(marks@, Mark::Left) * u64::MAX,
        decreases positions.len() - k,
    {
        let ghost seen = positions_view(positions@).take(k as int);
        proof {
            let next = positions_view(positions@).take(k + 1);
            assert(next.drop_last() =~= seen);
            assert(next.last() == position_view(positions[k as int]));
        }
        match positions[k] {
            Some(j) => {
                assert(j < n) by {
                    assert(deps[at as int][k as int] matches Some(x) ==> x < p.jobs.len());
                }
                proof {
                    lemma_dependency_is_representative(p, deps@, at as int, k as int);
                }
                if marks[j] == Mark::Entered {
                    proof {
                        assert forall|rank: Seq<nat>|
                            #[trigger] ranks_dependencies(p, rank) && ranks_above(
                                entry_marks,
                                rank,
                                at as int,
                            ) implies false by {
                            lemma_dependency_ranks_below(p, deps@, rank, at as int, k as int);
                            if j != at {
                                assert(entry_marks[j as int] == Mark::Entered);
                            }
                        }
                    }
                    return (false, Ghost(order));
                }
                if marks[j] == Mark::Unseen {
                    let ghost before_marks = marks@;
                    let ghost before_times = times@;
                    let ghost before_place = order;
                    let (through, Ghost(after_place)) = visit(
                        pipeline,
                        deps,
                        j,
                        marks,
                        times,
                        Ghost(order),
                    );
                    proof {
                        order = after_place;
                        lemma_count_shrinks(before_marks, marks@, Mark::Unseen);
                        assert(walk_extends(
                            entry_marks,
                            entry_times,
                            entry_place,
                            marks@,
                            times@,
                            order,
                        )) by {
                            assert forall|i: int|
                                0 <= i < entry_marks.len() && #[trigger] entry_marks[i]
                                    == Mark::Left implies marks[i] == Mark::Left && times[i]
                                == entry_times[i] && order[i] == entry_place[i] by {
                                assert(before_marks[i] == Mark::Left);
                            }
                            assert forall|i: int|
                                0 <= i < entry_marks.len() && #[trigger] entry_marks[i]
                                    == Mark::Entered implies marks[i] == Mark::Entered by {
                                assert(before_marks[i] == Mark::Entered);
                            }
                            assert forall|i: int|
                                0 <= i < entry_marks.len() && #[trigger] marks[i]
                                    == Mark::Unseen implies entry_marks[i] == Mark::Unseen by {
                                assert(before_marks[i] == Mark::Unseen);
                            }
                        }
                    }
                    if !through {
                        proof {
                            assert forall|rank: Seq<nat>|
                                #[trigger] ranks_dependencies(p, rank) && ranks_above(
                                    entry_marks,
                                    rank,
                                    at as int,
                                ) implies false by {
                                lemma_dependency_ranks_below(p, deps@, rank, at as int, k as int);
                                assert(ranks_above(before_marks, rank, j as int)) by {
                                    assert forall|x: int|
                                        0 <= x < before_marks.len() && #[trigger] before_marks[x]
                                            == Mark::Entered implies rank[x] > rank[j as int] by {
                                        if x != at {
                                            assert(entry_marks[x] == Mark::Entered);
                                        }
                                    }
                                }
                            }
                        }
                        return (false, Ghost(order));
                    }
                    proof {
                        assert(before_marks[at as int] == Mark::Entered);
                        assert forall|i: int|
                            0 <= i < marks.len() && #[trigger] marks[i]
                                == Mark::Entered implies entry_marks[i] == Mark::Entered || i
                            == at by {
                            assert(before_marks[i] == Mark::Entered);
                        }
                        assert forall|m: int| 0 <= m < k implies (#[trigger] positions[m] matches Some(
                            x,
                        ) ==> marks[x as int] == Mark::Left) by {
                            if let Some(x) = positions[m] {
                                assert(deps[at as int][m] matches Some(y) ==> y < p.jobs.len());
                                assert(before_marks[x as int] == Mark::Left);
                            }
                        }
                        assert forall|m: int| 0 <= m < seen.len() implies (#[trigger] seen[m] matches Some(
                            x,
                        ) ==> as_nats(before_times)[x] == as_nats(times@)[x]) by {
                            if let Some(x) = positions[m] {
                                assert(deps[at as int][m] matches Some(y) ==> y < p.jobs.len());
                                assert(before_marks[x as int] == Mark::Left);
                            }
                        }
                        lemma_slowest_at_agrees(as_nats(before_times), as_nats(times@), seen);
                        assert(count_of(before_marks, Mark::Left) <= count_of(
                            marks@,
                            Mark::Left,
                        )) by {
                            lemma_count_shrinks_other(before_marks, marks@);
                        }
                        assert(slowest <= count_of(marks@, Mark::Left) * u64::MAX)
                            by (nonlinear_arith)
                            requires
                                slowest <= count_of(before_marks, Mark::Left) * u64::MAX,
                                count_of(before_marks, Mark::Left) <= count_of(
                                    marks@,
                                    Mark::Left,
                                ),
                        ;
                    }
                }
                assert(marks[j as int] == Mark::Left);
                let time = times[j];
                proof {
                    assert(is_settled(p, deps@, marks@, times@, order, j as int));
                    assert(time <= count_of(marks@, Mark::Left) * u64::MAX) by (nonlinear_arith)
                        requires
                            time <= (order[j as int] + 1) * u64::MAX,
                            0 <= order[j as int] < count_of(marks@, Mark::Left),
                    ;
                    assert(as_nats(times@)[j as int] == time);
                }
                if time >= slowest {
                    slowest = time;
                }
            },
            None => {},
        }
        k += 1;
    }
    proof {
        assert(positions_view(positions@).take(k as int) =~= positions_view(positions@));
        lemma_count_below(marks@, Mark::Left, at as int);
        lemma_count_bound(marks@, Mark::Left);
    }
    let ghost count = count_of(marks@, Mark::Left);
    assert(slowest + u64::MAX <= (count + 1) * u64::MAX && (count + 1) * u64::MAX <= usize::MAX
        * u64::MAX) by (nonlinear_arith)
        requires
            slowest <= count * u64::MAX,
            count + 1 <= n,
            n <= usize::MAX,
    ;
    let total: u128 = pipeline.jobs[at].duration as u128 + slowest;
    let ghost before_marks = marks@;
    let ghost before_times = times@;
    let ghost before_place = order;
    times.set(at, total);
    marks.set(at, Mark::Left);
    proof {
        order = order.update(at as int, count as int);
        lemma_count_update(before_marks, at as int, Mark::Left, Mark::Left);
        lemma_count_update(before_marks, at as int, Mark::Left, Mark::Unseen);
        assert forall|i: int| 0 <= i < marks.len() && #[trigger] marks[i] == Mark::Left implies is_settled(
            p,
            deps@,
            marks@,
            times@,
            order,
            i,
        ) by {
            assert forall|m: int|
                0 <= m < positions_view(deps[i]@).len() implies (#[trigger] positions_view(
                deps[i]@,
            )[m] matches Some(x) ==> as_nats(before_times)[x] == as_nats(times@)[x]) by {
                if let Some(x) = deps[i][m] {
                    assert(deps[i][m] matches Some(y) ==> y < p.jobs.len());
                    if i == at {
                        assert(positions[m] matches Some(y) ==> before_marks[y as int]
                            == Mark::Left);
                    } else {
                        assert(before_marks[i] == Mark::Left);
                        assert(is_settled(p, deps@, before_marks, before_times, before_place, i));
                    }
                    assert(before_marks[x as int] == Mark::Left);
                }
            }
            lemma_slowest_at_agrees(as_nats(before_times), as_nats(times@), positions_view(deps[i]@));
            if i == at {
                assert forall|m: int| 0 <= m < deps[i].len() implies (#[trigger] deps[i][m] matches Some(
                    x,
                ) ==> marks[x as int] == Mark::Left && order[x as int] < order[i]) by {
                    if let Some(x) = deps[i][m] {
                        assert(positions[m] matches Some(y) ==> before_marks[y as int]
                            == Mark::Left);
                        assert(is_settled(
                            p,
                            deps@,
                            before_marks,
                            before_times,
                            before_place,
                            x as int,
                        ));
                    }
                }
            } else {
                assert(before_marks[i] == Mark::Left);
                assert(is_settled(p, deps@, before_marks, before_times, before_place, i));
                assert forall|m: int| 0 <= m < deps[i].len() implies (#[trigger] deps[i][m] matches Some(
                    x,
                ) ==> marks[x as int] == Mark::Left && order[x as int] < order[i]) by {
                    if let Some(x) = deps[i][m] {
                        assert(before_marks[x as int] == Mark::Left);
                    }
                }
            }
        }
        assert(walk_extends(entry_marks, entry_times, entry_place, marks@, times@, order)) by {
            assert forall|i: int|
                0 <= i < entry_marks.len() && #[trigger] entry_marks[i] == Mark::Left implies marks[i]
                == Mark::Left && times[i] == entry_times[i] && order[i] == entry_place[i] by {
                assert(before_marks[i] == Mark::Left);
            }
            assert forall|i: int|
                0 <= i < entry_marks.len() && #[trigger] entry_marks[i]
                    == Mark::Entered implies marks[i] == Mark::Entered by {
                assert(before_marks[i] == Mark::Entered);
            }
            assert forall|i: int|
                0 <= i < entry_marks.len() && #[trigger] marks[i] == Mark::Unseen implies entry_marks[i]
                == Mark::Unseen by {
                assert(before_marks[i] == Mark::Unseen);
            }
        }
        assert forall|i: int|
            0 <= i < marks.len() && #[trigger] marks[i] == Mark::Entered implies entry_marks[i]
            == Mark::Entered by {
            assert(before_marks[i] == Mark::Entered);
        }
    }
    (true, Ghost(order))
}

/// Where every record that was left is left afterwards, there are no
/// fewer left afterwards.
pub proof fn lemma_count_shrinks_other(before: Seq<Mark>, after: Seq<Mark>)
    requires
        before.len() == after.len(),
        forall|i: int|
            0 <= i < before.len() && #[trigger] before[i] == Mark::Left ==> after[i] == Mark::Left,
    ensures
        count_of(before, Mark::Left) <= count_of(after, Mark::Left),
    decreases before.len(),
{
    if before.len() > 0 {
        assert forall|i: int|
            0 <= i < before.drop_last().len() && #[trigger] before.drop_last()[i]
                == Mark::Left implies after.drop_last()[i] == Mark::Left by {
            assert(before[i] == Mark::Left);
        }
        lemma_count_shrinks_other(before.drop_last(), after.drop_last());
        if before.last() == Mark::Left {
            assert(before[before.len() - 1] == Mark::Left);
        }
    }
}

/// After a walk that left every job, the time of a job is its finish
/// time.
pub proof fn lemma_walk_is_exact(
    p: PipelineView,
    deps: Seq<Vec<Option<usize>>>,
    marks: Seq<Mark>,
    times: Seq<u128>,
    place: Seq<int>,
    rank: Seq<nat>,
    at: int,
)
    requires
        holds_dependency_positions(p, deps),
        walk_holds(p, deps, marks, times, place),
        ranks_dependencies(p, rank),
        forall|i: int| is_representative(p, i) ==> marks[i] == Mark::Left,
        is_representative(p, at),
    ensures
        times[at] == finish_time(p, p.jobs[at].name),
    decreases place[at] + 1, 0nat,
{
    let names = dependencies(p, p.jobs[at]);
    assert(marks[at] == Mark::Left);
    assert(is_settled(p, deps, marks, times, place, at));
    lemma_finish_time_recurrence(p, rank, p.jobs[at].name);
    assert(positions_view(deps[at]@) == resolved(p, names));
    assert forall|k: int| 0 <= k < names.len() implies (#[trigger] job_position(
        p,
        names[k],
    ) matches Some(j) ==> marks[j] == Mark::Left && 0 <= place[j] < place[at]) by {
        assert(positions_view(deps[at]@)[k] == resolved(p, names)[k]);
        assert(position_view(deps[at][k]) == job_position(p, names[k]));
        if let Some(j) = deps[at][k] {
            assert(marks[j as int] == Mark::Left);
            assert(is_settled(p, deps, marks, times, place, j as int));
        }
    }
    lemma_walk_slowest_is_exact(p, deps, marks, times, place, rank, names, place[at]);
}

/// After a walk that left every job, the largest time among some jobs is
/// their latest finish time.
pub proof fn lemma_walk_slowest_is_exact(
    p: PipelineView,
    deps: Seq<Vec<Option<usize>>>,
    marks: Seq<Mark>,
    times: Seq<u128>,
    place: Seq<int>,
    rank: Seq<nat>,
    names: Seq<Seq<char>>,
    bound: int,
)
    requires
        holds_dependency_positions(p, deps),
        walk_holds(p, deps, marks, times, place),
        ranks_dependencies(p, rank),
        forall|i: int| is_representative(p, i) ==> marks[i] == Mark::Left,
        forall|k: int|
            0 <= k < names.len() ==> (#[trigger] job_position(p, names[k]) matches Some(j)
                ==> marks[j] == Mark::Left && 0 <= place[j] < bound),
    ensures
        slowest_at(as_nats(times), resolved(p, names)) == slowest_finish_within(
            p,
            names,
            p.jobs.len(),
        ),
    decreases bound, names.len() + 1,
{
    if names.len() > 0 {
        let rest = names.drop_last();
        let last = names.last();
        assert forall|k: int| 0 <= k < rest.len() implies (#[trigger] job_position(
            p,
            rest[k],
        ) matches Some(j) ==> marks[j] == Mark::Left && 0 <= place[j] < bound) by {
            assert(rest[k] == names[k]);
        }
        lemma_walk_slowest_is_exact(p, deps, marks, times, place, rank, rest, bound);
        assert(resolved(p, names).drop_last() =~= resolved(p, rest));
        assert(resolved(p, names).last() == job_position(p, last));
        assert(last == names[names.len() - 1]);
        lemma_last_position(job_names(p.jobs), last);
        match job_position(p, last) {
            Some(j) => {
                assert(is_representative(p, j));
                lemma_walk_is_exact(p, deps, marks, times, place, rank, j);
                assert(as_nats(times)[j] == times[j]);
            },
            None => {
                assert(finish_time(p, last) == 0);
            },
        }
    }
}

/// Works out the finish time of every job by walking along the
/// dependencies, so that each job is worked out once. Returns `None`
/// where the dependencies hold a cycle.
pub fn finish_times_along_chains(
    pipeline: &GitLabPipeline,
    flags: &Vec<bool>,
    deps: &Vec<Vec<Option<usize>>>,
) -> (row: Option<Vec<u128>>)
    requires
        marks_representatives(pipeline@, flags@),
        holds_dependency_positions(pipeline@, deps@),
    ensures
        match row {
            Some(times) => has_no_cycle(pipeline@) && as_nats(times@) == finish_row(
                pipeline@,
                pipeline@.jobs.len(),
            ),
            None => !has_no_cycle(pipeline@),
        },
{
    let ghost p = pipeline@;
    let n = pipeline.jobs.len();
    let mut marks: Vec<Mark> = Vec::new();
    let mut times: Vec<u128> = Vec::new();
    let mut i: usize = 0;
    while i < n
        invariant
            i <= n,
            marks.len() == i,
            times.len() == i,
            forall|x: int| 0 <= x < i ==> marks[x] == Mark::Unseen,
        decreases n - i,
    {
        marks.push(Mark::Unseen);
        times.push(0);
        i += 1;
    }
    let ghost mut place: Seq<int> = Seq::new(n as nat, |x: int| 0int);
    i = 0;
    while i < n
        invariant
            i <= n,
            n == pipeline.jobs.len(),
            p == pipeline@,
            marks_representatives(p, flags@),
            holds_dependency_positions(p, deps@),
            walk_holds(p, deps@, marks@, times@, place),
            forall|x: int| 0 <= x < marks.len() ==> #[trigger] marks[x] != Mark::Entered,
            forall|x: int| 0 <= x < i && flags[x] ==> marks[x] == Mark::Left,
        decreases n - i,
    {
        if flags[i] && marks[i] == Mark::Unseen {
            let ghost before_marks = marks@;
            let (through, Ghost(after)) = visit(pipeline, deps, i, &mut marks, &mut times, Ghost(place));
            if !through {
                proof {
                    assert forall|rank: Seq<nat>| !ranks_dependencies(p, rank) by {
                        if ranks_dependencies(p, rank) {
                            assert(ranks_above(before_marks, rank, i as int));
                        }
                    }
                }
                return None;
            }
            proof {
                place = after;
                assert forall|x: int| 0 <= x < i && flags[x] implies marks[x] == Mark::Left by {
                    assert(before_marks[x] == Mark::Left);
                }
                assert forall|x: int| 0 <= x < marks.len() implies #[trigger] marks[x]
                    != Mark::Entered by {
                    if marks[x] == Mark::Entered {
                        assert(before_marks[x] == Mark::Entered);
                    }
                }
            }
        }
        i += 1;
    }
    let mut row: Vec<u128> = Vec::new();
    i = 0;
    proof {
        lemma_count_bound(marks@, Mark::Left);
        let rank = Seq::new(
            n as nat,
            |x: int|
                if marks[x] == Mark::Left {
                    place[x] as nat
                } else {
                    0nat
                },
        );
        assert(ranks_dependencies(p, rank)) by {
            assert forall|x: int| 0 <= x < rank.len() implies #[trigger] rank[x]
                < p.jobs.len() by {
                if marks[x] == Mark::Left {
                    assert(is_settled(p, deps@, marks@, times@, place, x));
                }
            }
            assert forall|x: int, k: int|
                is_representative(p, x) && 0 <= k < dependencies(
                    p,
                    p.jobs[x],
                ).len() implies match job_position(p, #[trigger] dependencies(p, p.jobs[x])[k]) {
                Some(j) => rank[j] < rank[x],
                None => true,
            } by {
                let names = dependencies(p, p.jobs[x]);
                assert(marks[x] == Mark::Left);
                assert(is_settled(p, deps@, marks@, times@, place, x));
                assert(positions_view(deps[x]@)[k] == resolved(p, names)[k]);
                assert(position_view(deps[x][k]) == job_position(p, names[k]));
                if let Some(j) = deps[x][k] {
                    assert(marks[j as int] == Mark::Left);
                    assert(is_settled(p, deps@, marks@, times@, place, j as int));
                }
            }
        }
        assert(has_no_cycle(p));
        assert forall|x: int| is_representative(p, x) implies times[x] == finish_time(
            p,
            p.jobs[x].name,
        ) by {
            assert(forall|y: int| is_representative(p, y) ==> marks[y] == Mark::Left);
            lemma_walk_is_exact(p, deps@, marks@, times@, place, rank, x);
        }
    }
    while i < n
        invariant
            i <= n,
            n == pipeline.jobs.len(),
            p == pipeline@,
            times.len() == n,
            has_no_cycle(p),
            marks_representatives(p, flags@),
            forall|x: int| is_representative(p, x) ==> times[x] == finish_time(p, p.jobs[x].name),
            row.len() == i,
            forall|x: int| 0 <= x < i ==> (#[trigger] row[x]) as nat == finish_row(p, n as nat)[x],
        decreases n - i,
    {
        let time: u128 = if flags[i] {
            times[i]
        } else {
            0
        };
        row.push(time);
        i += 1;
    }
    assert(as_nats(row@) =~= finish_row(p, n as nat));
    Some(row)
}

/// Tells whether the dependencies of the pipeline hold a cycle: a job
/// that, by way of the jobs it waits for, waits for itself.
pub fn holds_cycle(pipeline: &GitLabPipeline) -> (cyclic: bool)
    ensures
        cyclic == !has_no_cycle(pipeline@),
{
    let flags = representatives(pipeline);
    let deps = all_dependency_positions(pipeline, &flags);
    finish_times_along_chains(pipeline, &flags, &deps).is_none()
}

} // verus!
