//! Pipeline types: pipelines that ran the same set of jobs, each type with
//! a label, its characteristics and its figures.

use vstd::prelude::*;
use vstd::string::StringExecFns;
use crate::insights::{Percentage, PipelineType, PipelineTypeView};
use crate::job_metrics::job_names;
use crate::pipeline_metrics::{calculate_type_metrics, share, share_of, type_metrics};
use crate::ranking::{
    as_ints, as_nats, descending_order, lemma_descending_order_bounds,
    lemma_descending_order_sorted, rank_descending,
};
use crate::text::{
    comes_before, contains, distinct, lemma_precedes_irreflexive, lemma_precedes_total,
    lemma_precedes_transitive, lowercase, note, occurs_in, precedes, to_lowercase,
};
use crate::types::{GitLabPipeline, JobView, PipelineView};

verus! {

/// Whether `keyword` occurs in one of `names`.
pub open spec fn has_keyword(names: Seq<Seq<char>>, keyword: Seq<char>) -> bool {
    exists|i: int| 0 <= i < names.len() && occurs_in(keyword, #[trigger] names[i])
}

/// The label of a pipeline type, told from its job names in lower case:
/// `Production` where one holds `prod`; else `Development` where one holds
/// `staging`, `dev`, `test` or `qa`; else `Unknown`.
pub open spec fn label_for(lowered: Seq<Seq<char>>) -> Seq<char> {
    if has_keyword(lowered, "prod"@) {
        "Production"@
    } else if has_keyword(lowered, "staging"@) || has_keyword(lowered, "dev"@) || has_keyword(
        lowered,
        "test"@,
    ) || has_keyword(lowered, "qa"@) {
        "Development"@
    } else {
        "Unknown"@
    }
}

/// Each of `names` in lower case.
pub open spec fn lowered_names(names: Seq<Seq<char>>) -> Seq<Seq<char>> {
    Seq::new(names.len(), |i: int| lowercase(names[i]))
}

/// The label of a pipeline type with the job names `names`, whatever
/// their case.
pub open spec fn spec_generate_label(names: Seq<Seq<char>>) -> Seq<char> {
    label_for(lowered_names(names))
}

/// Whether `keyword` occurs in one of `names`.
pub fn any_contains(names: &Vec<String>, keyword: &str) -> (found: bool)
    ensures
        found == has_keyword(names.deep_view(), keyword@),
{
    let mut i: usize = 0;
    while i < names.len()
        invariant
            i <= names.len(),
            forall|k: int| 0 <= k < i ==> !occurs_in(keyword@, #[trigger] names.deep_view()[k]),
        decreases names.len() - i,
    {
        if contains(names[i].as_str(), keyword) {
            assert(occurs_in(keyword@, names.deep_view()[i as int]));
            return true;
        }
        i += 1;
    }
    false
}

/// The label of a pipeline type whose job names, in lower case, are
/// `lowered`.
pub fn label_from_lowercase(lowered: &Vec<String>) -> (label: String)
    ensures
        label@ == label_for(lowered.deep_view()),
{
    if any_contains(lowered, "prod") {
        String::from_str("Production")
    } else if any_contains(lowered, "staging") || any_contains(lowered, "dev") || any_contains(
        lowered,
        "test",
    ) || any_contains(lowered, "qa") {
        String::from_str("Development")
    } else {
        String::from_str("Unknown")
    }
}

/// Tells the label of a pipeline type from the names of its jobs. Case
/// does not count, and `prod` wins over every other keyword.
pub fn generate_label(job_names: &Vec<String>) -> (label: String)
    ensures
        label@ == spec_generate_label(job_names.deep_view()),
{
    let mut lowered: Vec<String> = Vec::new();
    let mut i: usize = 0;
    while i < job_names.len()
        invariant
            i <= job_names.len(),
            lowered.len() == i,
            forall|k: int| 0 <= k < i ==> lowered[k]@ == lowercase(job_names[k]@),
        decreases job_names.len() - i,
    {
        lowered.push(to_lowercase(job_names[i].as_str()));
        i += 1;
    }
    assert(lowered.deep_view() =~= lowered_names(job_names.deep_view()));
    label_from_lowercase(&lowered)
}

/// Whether each of `names` sorts before all that follow it.
pub open spec fn strictly_increasing(names: Seq<Seq<char>>) -> bool {
    forall|i: int, j: int| 0 <= i < j < names.len() ==> precedes(names[i], names[j])
}

/// Whether `a` and `b` hold the same names, whatever their order and
/// however often each occurs.
pub open spec fn same_names(a: Seq<Seq<char>>, b: Seq<Seq<char>>) -> bool {
    forall|x: Seq<char>| #![trigger a.contains(x)] #![trigger b.contains(x)]
        a.contains(x) <==> b.contains(x)
}

/// Whether `signature` is the signature of a pipeline with the job names
/// `names`: the names, each once, in sorted order.
pub open spec fn is_signature_of(signature: Seq<Seq<char>>, names: Seq<Seq<char>>) -> bool {
    strictly_increasing(signature) && same_names(signature, names)
}

/// Two sorted lists without repetition that hold the same names are the
/// same list.
pub proof fn lemma_signature_unique(a: Seq<Seq<char>>, b: Seq<Seq<char>>)
    requires
        strictly_increasing(a),
        strictly_increasing(b),
        same_names(a, b),
    ensures
        a == b,
    decreases a.len(),
{
    if a.len() == 0 {
        if b.len() > 0 {
            assert(b.contains(b[0]));
            assert(a.contains(b[0]));
        }
        assert(a =~= b);
    } else {
        let x = a.last();
        assert(a.contains(x)) by {
            assert(a[a.len() - 1] == x);
        }
        assert(b.contains(x));
        let y = b.last();
        assert(b.contains(y)) by {
            assert(b[b.len() - 1] == y);
        }
        assert(a.contains(y));
        if x != y {
            let i = choose|i: int| 0 <= i < b.len() && b[i] == x;
            assert(precedes(b[i], b[b.len() - 1]));
            let j = choose|j: int| 0 <= j < a.len() && a[j] == y;
            assert(precedes(a[j], a[a.len() - 1]));
            lemma_precedes_transitive(x, y, x);
            lemma_precedes_irreflexive(x);
        }
        let a0 = a.drop_last();
        let b0 = b.drop_last();
        assert(strictly_increasing(a0)) by {
            assert forall|i: int, j: int| 0 <= i < j < a0.len() implies precedes(
                a0[i],
                a0[j],
            ) by {
                assert(a0[i] == a[i] && a0[j] == a[j]);
            }
        }
        assert(strictly_increasing(b0)) by {
            assert forall|i: int, j: int| 0 <= i < j < b0.len() implies precedes(
                b0[i],
                b0[j],
            ) by {
                assert(b0[i] == b[i] && b0[j] == b[j]);
            }
        }
        assert forall|z: Seq<char>| a0.contains(z) implies b0.contains(z) by {
            let i = choose|i: int| 0 <= i < a0.len() && a0[i] == z;
            assert(a[i] == z);
            assert(precedes(a[i], a[a.len() - 1]));
            lemma_precedes_irreflexive(x);
            assert(a.contains(z));
            assert(b.contains(z));
            let j = choose|j: int| 0 <= j < b.len() && b[j] == z;
            assert(j < b.len() - 1);
            assert(b0[j] == z);
        }
        assert forall|z: Seq<char>| b0.contains(z) implies a0.contains(z) by {
            let i = choose|i: int| 0 <= i < b0.len() && b0[i] == z;
            assert(b[i] == z);
            assert(precedes(b[i], b[b.len() - 1]));
            lemma_precedes_irreflexive(y);
            assert(b.contains(z));
            assert(a.contains(z));
            let j = choose|j: int| 0 <= j < a.len() && a[j] == z;
            assert(j < a.len() - 1);
            assert(a0[j] == z);
        }
        lemma_signature_unique(a0, b0);
        assert(a =~= a0.push(x));
        assert(b =~= b0.push(y));
    }
}

/// The signature depends on the set of job names alone: two pipelines
/// have the same signature exactly when they ran the same jobs, in
/// whatever order and however often.
pub proof fn lemma_signature_is_set_based(
    first: Seq<Seq<char>>,
    first_names: Seq<Seq<char>>,
    second: Seq<Seq<char>>,
    second_names: Seq<Seq<char>>,
)
    requires
        is_signature_of(first, first_names),
        is_signature_of(second, second_names),
    ensures
        first == second <==> same_names(first_names, second_names),
{
    if same_names(first_names, second_names) {
        assert forall|x: Seq<char>| first.contains(x) <==> second.contains(x) by {
            assert(first.contains(x) <==> first_names.contains(x));
            assert(second.contains(x) <==> second_names.contains(x));
        }
        lemma_signature_unique(first, second);
    }
    if first == second {
        assert forall|x: Seq<char>| first_names.contains(x) <==> second_names.contains(x) by {
            assert(first.contains(x) <==> first_names.contains(x));
            assert(second.contains(x) <==> second_names.contains(x));
        }
    }
}

/// Enters `name` into `signature`, the signature of `names`, unless it is
/// there.
fn enter_name(signature: &mut Vec<String>, name: &String, Ghost(names): Ghost<Seq<Seq<char>>>)
    requires
        is_signature_of(old(signature).deep_view(), names),
    ensures
        is_signature_of(final(signature).deep_view(), names.push(name@)),
{
    let ghost before = signature.deep_view();
    let ghost longer = names.push(name@);
    let mut at: usize = 0;
    while at < signature.len() && comes_before(signature[at].as_str(), name.as_str())
        invariant
            at <= signature.len(),
            before == signature.deep_view(),
            forall|k: int| 0 <= k < at ==> precedes(#[trigger] before[k], name@),
        decreases signature.len() - at,
    {
        at += 1;
    }
    if at < signature.len() && signature[at] == *name {
        proof {
            assert(before[at as int] == name@);
            assert forall|x: Seq<char>| before.contains(x) <==> longer.contains(x) by {
                assert(before.contains(x) <==> names.contains(x));
                if longer.contains(x) {
                    let i = choose|i: int| 0 <= i < longer.len() && longer[i] == x;
                    if i < names.len() {
                        assert(names[i] == x);
                    }
                }
                if names.contains(x) {
                    let i = choose|i: int| 0 <= i < names.len() && names[i] == x;
                    assert(longer[i] == x);
                }
            }
        }
    } else {
        signature.insert(at, name.clone());
        proof {
            let after = signature.deep_view();
            assert(after =~= before.insert(at as int, name@));
            if at < before.len() {
                lemma_precedes_total(name@, before[at as int]);
            }
            assert forall|i: int, j: int| 0 <= i < j < after.len() implies precedes(
                after[i],
                after[j],
            ) by {
                if j < at {
                    assert(after[i] == before[i] && after[j] == before[j]);
                } else if j == at {
                    assert(after[i] == before[i]);
                } else if i == at {
                    assert(after[j] == before[j - 1]);
                    if j - 1 > at {
                        assert(precedes(before[at as int], before[j - 1]));
                        lemma_precedes_transitive(name@, before[at as int], before[j - 1]);
                    }
                } else if i < at {
                    assert(after[i] == before[i] && after[j] == before[j - 1]);
                } else {
                    assert(after[i] == before[i - 1] && after[j] == before[j - 1]);
                }
            }
            assert forall|x: Seq<char>| after.contains(x) <==> longer.contains(x) by {
                assert(before.contains(x) <==> names.contains(x));
                if after.contains(x) {
                    let i = choose|i: int| 0 <= i < after.len() && after[i] == x;
                    if i < at {
                        assert(before[i] == x);
                    } else if i > at {
                        assert(before[i - 1] == x);
                    }
                    if x == name@ {
                        assert(longer[names.len() as int] == x);
                    } else {
                        assert(before.contains(x));
                        let k = choose|k: int| 0 <= k < names.len() && names[k] == x;
                        assert(longer[k] == x);
                    }
                }
                if longer.contains(x) {
                    let i = choose|i: int| 0 <= i < longer.len() && longer[i] == x;
                    if i < names.len() {
                        assert(names[i] == x);
                        assert(before.contains(x));
                        let k = choose|k: int| 0 <= k < before.len() && before[k] == x;
                        if k < at {
                            assert(after[k] == x);
                        } else {
                            assert(after[k + 1] == x);
                        }
                    } else {
                        assert(after[at as int] == x);
                    }
                }
            }
        }
    }
}

/// The signature of a pipeline: the names of its jobs, each once, in
/// sorted order. Pipelines with the same signature are of the same type.
pub fn extract_job_signature(pipeline: &GitLabPipeline) -> (signature: Vec<String>)
    ensures
        is_signature_of(signature.deep_view(), job_names(pipeline@.jobs)),
{
    let ghost all = job_names(pipeline@.jobs);
    let mut signature: Vec<String> = Vec::new();
    let mut i: usize = 0;
    assert(is_signature_of(signature.deep_view(), all.take(0))) by {
        assert(signature.deep_view() =~= all.take(0));
    }
    while i < pipeline.jobs.len()
        invariant
            i <= pipeline.jobs.len(),
            all == job_names(pipeline@.jobs),
            is_signature_of(signature.deep_view(), all.take(i as int)),
        decreases pipeline.jobs.len() - i,
    {
        assert(all.take(i as int).push(pipeline.jobs[i as int].name@) =~= all.take(i + 1));
        enter_name(&mut signature, &pipeline.jobs[i].name, Ghost(all.take(i as int)));
        i += 1;
    }
    assert(all.take(i as int) =~= all);
    signature
}

/// The stages of `jobs`, in order.
pub open spec fn job_stages(jobs: Seq<JobView>) -> Seq<Seq<char>> {
    Seq::new(jobs.len(), |i: int| jobs[i].stage)
}

/// The stages of all records of `pipelines`, in order.
pub open spec fn all_stages(pipelines: Seq<PipelineView>) -> Seq<Seq<char>>
    decreases pipelines.len(),
{
    if pipelines.len() == 0 {
        Seq::empty()
    } else {
        all_stages(pipelines.drop_last()) + job_stages(pipelines.last().jobs)
    }
}

/// The git references of `pipelines`, in order.
pub open spec fn all_refs(pipelines: Seq<PipelineView>) -> Seq<Seq<char>> {
    Seq::new(pipelines.len(), |i: int| pipelines[i].ref_)
}

/// The trigger sources of `pipelines`, in order.
pub open spec fn all_sources(pipelines: Seq<PipelineView>) -> Seq<Seq<char>> {
    Seq::new(pipelines.len(), |i: int| pipelines[i].source)
}

/// What the runs of a type have in common: the stages their jobs ran in,
/// the git references and the trigger sources, each list without
/// repetition and in the order of first occurrence.
pub fn extract_characteristics(pipelines: &Vec<&GitLabPipeline>) -> (found: (
    Vec<String>,
    Vec<String>,
    Vec<String>,
))
    ensures
        found.0.deep_view() == distinct(all_stages(pipelines.deep_view())),
        found.1.deep_view() == distinct(all_refs(pipelines.deep_view())),
        found.2.deep_view() == distinct(all_sources(pipelines.deep_view())),
{
    let ghost ps = pipelines.deep_view();
    let mut stages: Vec<String> = Vec::new();
    let mut refs: Vec<String> = Vec::new();
    let mut sources: Vec<String> = Vec::new();
    let mut i: usize = 0;
    assert(stages.deep_view() =~= distinct(all_stages(ps.take(0))));
    assert(refs.deep_view() =~= distinct(all_refs(ps).take(0)));
    assert(sources.deep_view() =~= distinct(all_sources(ps).take(0)));
    while i < pipelines.len()
        invariant
            i <= pipelines.len(),
            ps == pipelines.deep_view(),
            stages.deep_view() == distinct(all_stages(ps.take(i as int))),
            refs.deep_view() == distinct(all_refs(ps).take(i as int)),
            sources.deep_view() == distinct(all_sources(ps).take(i as int)),
        decreases pipelines.len() - i,
    {
        let pipeline = pipelines[i];
        let ghost earlier = all_stages(ps.take(i as int));
        let ghost own = job_stages(pipeline@.jobs);
        let mut j: usize = 0;
        assert(earlier + own.take(0) =~= earlier);
        while j < pipeline.jobs.len()
            invariant
                j <= pipeline.jobs.len(),
                own == job_stages(pipeline@.jobs),
                stages.deep_view() == distinct(earlier + own.take(j as int)),
            decreases pipeline.jobs.len() - j,
        {
            assert((earlier + own.take(j as int)).push(pipeline.jobs[j as int].stage@) =~= earlier
                + own.take(j + 1));
            note(&mut stages, &pipeline.jobs[j].stage, Ghost(earlier + own.take(j as int)));
            j += 1;
        }
        proof {
            assert(own.take(j as int) =~= own);
            let next = ps.take(i + 1);
            assert(next.drop_last() =~= ps.take(i as int));
            assert(next.last() == pipeline@);
            assert(all_refs(ps).take(i as int).push(pipeline.ref_@) =~= all_refs(ps).take(i + 1));
            assert(all_sources(ps).take(i as int).push(pipeline.source@) =~= all_sources(ps).take(
                i + 1,
            ));
        }
        note(&mut refs, &pipeline.ref_, Ghost(all_refs(ps).take(i as int)));
        note(&mut sources, &pipeline.source, Ghost(all_sources(ps).take(i as int)));
        i += 1;
    }
    proof {
        assert(ps.take(i as int) =~= ps);
        assert(all_refs(ps).take(i as int) =~= all_refs(ps));
        assert(all_sources(ps).take(i as int) =~= all_sources(ps));
    }
    (stages, refs, sources)
}

/// The pipeline type with the job names `names` and the runs `pipelines`,
/// out of `total` analysed runs.
pub open spec fn created_type(
    names: Seq<Seq<char>>,
    pipelines: Seq<PipelineView>,
    total: nat,
    base_url: Seq<char>,
    project_path: Seq<char>,
) -> PipelineTypeView {
    PipelineTypeView {
        label: spec_generate_label(names),
        stages: distinct(all_stages(pipelines)),
        ref_patterns: distinct(all_refs(pipelines)),
        sources: distinct(all_sources(pipelines)),
        metrics: type_metrics(
            pipelines,
            share_of(pipelines.len(), total),
            base_url,
            project_path,
        ),
    }
}

/// Describes one pipeline type: its label, told from the job names; what
/// its runs have in common; and its figures. Its share is that of its
/// runs in `total_pipelines`, `100 * count / max(total_pipelines, 1)`
/// percent.
pub fn create_pipeline_type(
    job_names: &Vec<String>,
    pipelines: &Vec<&GitLabPipeline>,
    total_pipelines: usize,
    base_url: &str,
    project_path: &str,
) -> (created: PipelineType)
    ensures
        created@ == created_type(
            job_names.deep_view(),
            pipelines.deep_view(),
            total_pipelines as nat,
            base_url@,
            project_path@,
        ),
{
    let percentage = share(pipelines.len(), total_pipelines);
    let label = generate_label(job_names);
    let (stages, ref_patterns, sources) = extract_characteristics(pipelines);
    let metrics = calculate_type_metrics(pipelines, percentage, base_url, project_path);
    PipelineType { label, stages, ref_patterns, sources, metrics }
}

/// Whether two pipelines are of the same type: they ran the same jobs.
pub open spec fn same_type(p: PipelineView, q: PipelineView) -> bool {
    same_names(job_names(p.jobs), job_names(q.jobs))
}

/// Whether no pipeline before the one at `index` is of its type.
pub open spec fn is_first_of_type(pipelines: Seq<PipelineView>, index: int) -> bool {
    forall|j: int| 0 <= j < index ==> !same_type(#[trigger] pipelines[j], pipelines[index])
}

/// The positions, among the first `upto` pipelines, of those that are the
/// first of their type.
pub open spec fn type_leaders(pipelines: Seq<PipelineView>, upto: int) -> Seq<int>
    decreases upto,
{
    if upto <= 0 {
        Seq::empty()
    } else {
        let rest = type_leaders(pipelines, upto - 1);
        if is_first_of_type(pipelines, upto - 1) {
            rest.push(upto - 1)
        } else {
            rest
        }
    }
}

/// The pipelines of the type of `leader`, in order.
pub open spec fn members(pipelines: Seq<PipelineView>, leader: PipelineView) -> Seq<PipelineView>
    decreases pipelines.len(),
{
    if pipelines.len() == 0 {
        Seq::empty()
    } else {
        let rest = members(pipelines.drop_last(), leader);
        if same_type(leader, pipelines.last()) {
            rest.push(pipelines.last())
        } else {
            rest
        }
    }
}

/// Those of `leaders` whose type holds at least `min_percent` percent of
/// all pipelines.
pub open spec fn kept_leaders(
    pipelines: Seq<PipelineView>,
    leaders: Seq<int>,
    min_percent: int,
) -> Seq<int>
    decreases leaders.len(),
{
    if leaders.len() == 0 {
        Seq::empty()
    } else {
        let rest = kept_leaders(pipelines, leaders.drop_last(), min_percent);
        let size = members(pipelines, pipelines[leaders.last()]).len();
        if share_of(size, pipelines.len()).reaches(min_percent) {
            rest.push(leaders.last())
        } else {
            rest
        }
    }
}

/// The number of pipelines of the type of each of `leaders`.
pub open spec fn type_sizes(pipelines: Seq<PipelineView>, leaders: Seq<int>) -> Seq<nat> {
    Seq::new(leaders.len(), |k: int| members(pipelines, pipelines[leaders[k]]).len())
}

/// The pipeline types of `pipelines`: one for each set of job names that
/// a pipeline ran, left out where it holds less than `min_percent`
/// percent of the pipelines; the type with the most pipelines first, and
/// types of equal size in the order in which they first occur.
pub open spec fn pipeline_types(
    pipelines: Seq<PipelineView>,
    min_percent: int,
    base_url: Seq<char>,
    project_path: Seq<char>,
) -> Seq<PipelineTypeView> {
    let kept = kept_leaders(
        pipelines,
        type_leaders(pipelines, pipelines.len() as int),
        min_percent,
    );
    let order = descending_order(type_sizes(pipelines, kept));
    Seq::new(
        kept.len(),
        |k: int|
            created_type(
                job_names(pipelines[kept[order[k]]].jobs),
                members(pipelines, pipelines[kept[order[k]]]),
                pipelines.len(),
                base_url,
                project_path,
            ),
    )
}

/// The label depends on the set of job names alone.
pub proof fn lemma_label_is_set_based(a: Seq<Seq<char>>, b: Seq<Seq<char>>)
    requires
        same_names(a, b),
    ensures
        spec_generate_label(a) == spec_generate_label(b),
{
    assert forall|keyword: Seq<char>|
        has_keyword(lowered_names(a), keyword) == has_keyword(
            lowered_names(b),
            keyword,
        ) by {
        if has_keyword(lowered_names(a), keyword) {
            lemma_keyword_is_set_based(a, b, keyword);
        }
        if has_keyword(lowered_names(b), keyword) {
            lemma_keyword_is_set_based(b, a, keyword);
        }
    }
}

pub proof fn lemma_keyword_is_set_based(a: Seq<Seq<char>>, b: Seq<Seq<char>>, keyword: Seq<char>)
    requires
        same_names(a, b),
        has_keyword(lowered_names(a), keyword),
    ensures
        has_keyword(lowered_names(b), keyword),
{
    let i = choose|i: int|
        0 <= i < lowered_names(a).len() && occurs_in(keyword, #[trigger] lowered_names(a)[i]);
    assert(a.contains(a[i]));
    assert(b.contains(a[i]));
    let j = choose|j: int| 0 <= j < b.len() && b[j] == a[i];
    assert(lowered_names(b)[j] == lowered_names(a)[i]);
}

/// Whether two lists hold the same names in the same order.
pub fn same_list(a: &Vec<String>, b: &Vec<String>) -> (same: bool)
    ensures
        same == (a.deep_view() == b.deep_view()),
{
    if a.len() != b.len() {
        assert(a.deep_view().len() != b.deep_view().len());
        return false;
    }
    let mut i: usize = 0;
    while i < a.len()
        invariant
            i <= a.len(),
            a.len() == b.len(),
            forall|k: int| 0 <= k < i ==> a[k]@ == b[k]@,
        decreases a.len() - i,
    {
        if a[i] != b[i] {
            assert(a.deep_view()[i as int] != b.deep_view()[i as int]);
            return false;
        }
        i += 1;
    }
    assert(a.deep_view() =~= b.deep_view());
    true
}

/// Whether `signatures` holds the signature of each pipeline.
pub open spec fn holds_signatures(pipelines: Seq<PipelineView>, signatures: Seq<Vec<String>>) -> bool {
    &&& signatures.len() == pipelines.len()
    &&& forall|i: int|
        0 <= i < signatures.len() ==> is_signature_of(
            (#[trigger] signatures[i]).deep_view(),
            job_names(pipelines[i].jobs),
        )
}

/// With their signatures at hand, two pipelines are of the same type
/// exactly when their signatures are equal.
pub proof fn lemma_same_type_by_signature(
    pipelines: Seq<PipelineView>,
    signatures: Seq<Vec<String>>,
    i: int,
    j: int,
)
    requires
        holds_signatures(pipelines, signatures),
        0 <= i < pipelines.len(),
        0 <= j < pipelines.len(),
    ensures
        same_type(pipelines[i], pipelines[j]) <==> signatures[i].deep_view()
            == signatures[j].deep_view(),
{
    lemma_signature_is_set_based(
        signatures[i].deep_view(),
        job_names(pipelines[i].jobs),
        signatures[j].deep_view(),
        job_names(pipelines[j].jobs),
    );
}

/// The signature of each pipeline.
pub fn all_signatures(pipelines: &Vec<GitLabPipeline>) -> (signatures: Vec<Vec<String>>)
    ensures
        holds_signatures(pipelines.deep_view(), signatures@),
{
    let mut signatures: Vec<Vec<String>> = Vec::new();
    let mut i: usize = 0;
    while i < pipelines.len()
        invariant
            i <= pipelines.len(),
            signatures.len() == i,
            forall|k: int|
                0 <= k < i ==> is_signature_of(
                    (#[trigger] signatures[k]).deep_view(),
                    job_names(pipelines.deep_view()[k].jobs),
                ),
        decreases pipelines.len() - i,
    {
        signatures.push(extract_job_signature(&pipelines[i]));
        i += 1;
    }
    signatures
}

/// Whether one of `leaders` has the signature of the pipeline at `index`.
pub open spec fn is_covered(signatures: Seq<Vec<String>>, leaders: Seq<usize>, index: int) -> bool {
    exists|k: int|
        0 <= k < leaders.len() && (#[trigger] signatures[leaders[k] as int]).deep_view()
            == signatures[index].deep_view()
}

/// The positions of the pipelines that are the first of their type.
pub fn find_type_leaders(pipelines: &Vec<GitLabPipeline>, signatures: &Vec<Vec<String>>) -> (leaders:
    Vec<usize>)
    requires
        holds_signatures(pipelines.deep_view(), signatures@),
    ensures
        as_ints(leaders@) == type_leaders(pipelines.deep_view(), pipelines.len() as int),
        forall|k: int| 0 <= k < leaders.len() ==> #[trigger] leaders[k] < pipelines.len(),
{
    let ghost ps = pipelines.deep_view();
    let mut leaders: Vec<usize> = Vec::new();
    let mut i: usize = 0;
    assert(as_ints(leaders@) =~= type_leaders(ps, 0));
    while i < pipelines.len()
        invariant
            i <= pipelines.len(),
            ps == pipelines.deep_view(),
            holds_signatures(ps, signatures@),
            as_ints(leaders@) == type_leaders(ps, i as int),
            forall|k: int| 0 <= k < leaders.len() ==> #[trigger] leaders[k] < i,
            forall|j: int| 0 <= j < i ==> #[trigger] is_covered(signatures@, leaders@, j),
        decreases pipelines.len() - i,
    {
        let mut known = false;
        let mut k: usize = 0;
        while k < leaders.len() && !known
            invariant
                k <= leaders.len(),
                i < pipelines.len(),
                signatures.len() == pipelines.len(),
                forall|m: int| 0 <= m < leaders.len() ==> #[trigger] leaders[m] < i,
                !known ==> forall|m: int|
                    0 <= m < k ==> (#[trigger] signatures[leaders[m] as int]).deep_view()
                        != signatures[i as int].deep_view(),
                known ==> exists|m: int|
                    0 <= m < leaders.len() && (#[trigger] signatures[leaders[m] as int]).deep_view()
                        == signatures[i as int].deep_view(),
            decreases leaders.len() - k, if known { 0int } else { 1int },
        {
            if same_list(&signatures[leaders[k]], &signatures[i]) {
                known = true;
            } else {
                k += 1;
            }
        }
        proof {
            if known {
                let m = choose|m: int|
                    0 <= m < leaders.len() && (#[trigger] signatures[leaders[m] as int]).deep_view()
                        == signatures[i as int].deep_view();
                lemma_same_type_by_signature(ps, signatures@, leaders[m] as int, i as int);
                assert(same_type(ps[leaders[m] as int], ps[i as int]));
                assert(!is_first_of_type(ps, i as int));
            } else {
                assert forall|j: int| 0 <= j < i implies !same_type(
                    #[trigger] ps[j],
                    ps[i as int],
                ) by {
                    assert(is_covered(signatures@, leaders@, j));
                    let m = choose|m: int|
                        0 <= m < leaders.len() && (
                        #[trigger] signatures[leaders[m] as int]).deep_view()
                            == signatures[j].deep_view();
                    lemma_same_type_by_signature(ps, signatures@, j, i as int);
                }
            }
        }
        if !known {
            let ghost before = as_ints(leaders@);
            let ghost earlier = leaders@;
            leaders.push(i);
            proof {
                assert(as_ints(leaders@) =~= before.push(i as int));
                assert forall|j: int| 0 <= j < i + 1 implies #[trigger] is_covered(
                    signatures@,
                    leaders@,
                    j,
                ) by {
                    if j < i {
                        assert(is_covered(signatures@, earlier, j));
                        let m = choose|m: int|
                            0 <= m < earlier.len() && (
                            #[trigger] signatures[earlier[m] as int]).deep_view()
                                == signatures[j].deep_view();
                        assert(leaders[m] == earlier[m]);
                        assert(signatures[leaders[m] as int].deep_view()
                            == signatures[j].deep_view());
                    } else {
                        let m = leaders.len() - 1;
                        assert(signatures[leaders[m] as int].deep_view()
                            == signatures[j].deep_view());
                    }
                }
            }
        }
        i += 1;
    }
    leaders
}

/// The pipelines of the type of the one at `leader`.
pub fn members_of<'a>(
    pipelines: &'a Vec<GitLabPipeline>,
    signatures: &Vec<Vec<String>>,
    leader: usize,
) -> (group: Vec<&'a GitLabPipeline>)
    requires
        holds_signatures(pipelines.deep_view(), signatures@),
        leader < pipelines.len(),
    ensures
        group.deep_view() == members(pipelines.deep_view(), pipelines.deep_view()[leader as int]),
{
    let ghost ps = pipelines.deep_view();
    let mut group: Vec<&'a GitLabPipeline> = Vec::new();
    let mut i: usize = 0;
    assert(group.deep_view() =~= members(ps.take(0), ps[leader as int]));
    while i < pipelines.len()
        invariant
            i <= pipelines.len(),
            leader < pipelines.len(),
            ps == pipelines.deep_view(),
            holds_signatures(ps, signatures@),
            group.deep_view() == members(ps.take(i as int), ps[leader as int]),
        decreases pipelines.len() - i,
    {
        proof {
            let next = ps.take(i + 1);
            assert(next.drop_last() =~= ps.take(i as int));
            assert(next.last() == ps[i as int]);
            lemma_same_type_by_signature(ps, signatures@, leader as int, i as int);
        }
        if same_list(&signatures[leader], &signatures[i]) {
            let ghost earlier = group.deep_view();
            group.push(&pipelines[i]);
            assert(group.deep_view() =~= earlier.push(ps[i as int]));
        }
        i += 1;
    }
    assert(ps.take(i as int) =~= ps);
    group
}

/// Groups the pipelines into types and describes each type.
///
/// Pipelines that ran the same set of jobs are of one type, whatever the
/// order of the jobs and however often one was retried. A type with less
/// than `min_type_percentage` percent of the pipelines is left out. The
/// type with the most pipelines comes first.
pub fn group_pipeline_types(
    pipelines: &Vec<GitLabPipeline>,
    min_type_percentage: u8,
    base_url: &str,
    project_path: &str,
) -> (types: Vec<PipelineType>)
    ensures
        types.deep_view() == pipeline_types(
            pipelines.deep_view(),
            min_type_percentage as int,
            base_url@,
            project_path@,
        ),
{
    let ghost ps = pipelines.deep_view();
    let total_pipelines = pipelines.len();
    let signatures = all_signatures(pipelines);
    let leaders = find_type_leaders(pipelines, &signatures);
    let ghost all_leaders = type_leaders(ps, ps.len() as int);
    let mut kept: Vec<usize> = Vec::new();
    let mut groups: Vec<Vec<&GitLabPipeline>> = Vec::new();
    let mut sizes: Vec<u128> = Vec::new();
    let mut i: usize = 0;
    assert(as_ints(kept@) =~= kept_leaders(ps, all_leaders.take(0), min_type_percentage as int));
    while i < leaders.len()
        invariant
            i <= leaders.len(),
            ps == pipelines.deep_view(),
            total_pipelines == pipelines.len(),
            holds_signatures(ps, signatures@),
            all_leaders == as_ints(leaders@),
            forall|k: int| 0 <= k < leaders.len() ==> #[trigger] leaders[k] < pipelines.len(),
            as_ints(kept@) == kept_leaders(
                ps,
                all_leaders.take(i as int),
                min_type_percentage as int,
            ),
            groups.len() == kept.len(),
            sizes.len() == kept.len(),
            forall|k: int| 0 <= k < kept.len() ==> #[trigger] kept[k] < pipelines.len(),
            forall|k: int|
                0 <= k < kept.len() ==> (#[trigger] groups[k]).deep_view() == members(
                    ps,
                    ps[kept[k] as int],
                ),
            forall|k: int|
                0 <= k < kept.len() ==> (#[trigger] sizes[k]) as nat == members(
                    ps,
                    ps[kept[k] as int],
                ).len(),
        decreases leaders.len() - i,
    {
        let leader = leaders[i];
        let group = members_of(pipelines, &signatures, leader);
        proof {
            let next = all_leaders.take(i + 1);
            assert(next.drop_last() =~= all_leaders.take(i as int));
            assert(next.last() == leader as int);
        }
        if share(group.len(), total_pipelines).at_least(min_type_percentage) {
            let ghost before = as_ints(kept@);
            kept.push(leader);
            sizes.push(group.len() as u128);
            groups.push(group);
            assert(as_ints(kept@) =~= before.push(leader as int));
        }
        i += 1;
    }
    assert(all_leaders.take(i as int) =~= all_leaders);
    let ghost chosen = as_ints(kept@);
    assert(as_nats(sizes@) =~= type_sizes(ps, chosen));
    let order = rank_descending(&sizes);
    let mut types: Vec<PipelineType> = Vec::new();
    let mut k: usize = 0;
    while k < order.len()
        invariant
            k <= order.len(),
            ps == pipelines.deep_view(),
            total_pipelines == pipelines.len(),
            holds_signatures(ps, signatures@),
            chosen == as_ints(kept@),
            order.len() == kept.len(),
            groups.len() == kept.len(),
            as_ints(order@) == descending_order(type_sizes(ps, chosen)),
            forall|m: int| 0 <= m < order.len() ==> #[trigger] order[m] < kept.len(),
            forall|m: int| 0 <= m < kept.len() ==> #[trigger] kept[m] < pipelines.len(),
            forall|m: int|
                0 <= m < kept.len() ==> (#[trigger] groups[m]).deep_view() == members(
                    ps,
                    ps[kept[m] as int],
                ),
            types.len() == k,
            forall|m: int|
                0 <= m < k ==> (#[trigger] types[m])@ == created_type(
                    job_names(ps[kept[order[m] as int] as int].jobs),
                    members(ps, ps[kept[order[m] as int] as int]),
                    ps.len(),
                    base_url@,
                    project_path@,
                ),
        decreases order.len() - k,
    {
        let at = order[k];
        let leader = kept[at];
        assert(kept[order[k as int] as int] < pipelines.len());
        let created = create_pipeline_type(
            &signatures[leader],
            &groups[at],
            total_pipelines,
            base_url,
            project_path,
        );
        proof {
            lemma_label_is_set_based(
                signatures[leader as int].deep_view(),
                job_names(ps[leader as int].jobs),
            );
        }
        types.push(created);
        k += 1;
    }
    proof {
        let expected = pipeline_types(ps, min_type_percentage as int, base_url@, project_path@);
        assert(expected.len() == chosen.len());
        assert forall|m: int| 0 <= m < types.len() implies types.deep_view()[m] == expected[m] by {
            assert(as_ints(order@)[m] == order[m] as int);
            assert(chosen[order[m] as int] == kept[order[m] as int] as int);
        }
        assert(types.deep_view() =~= expected);
    }
    types
}

/// Every kept leader is one of `leaders`, and its type holds at least
/// `min_percent` percent of the pipelines.
pub proof fn lemma_kept_leaders(pipelines: Seq<PipelineView>, leaders: Seq<int>, min_percent: int)
    ensures
        forall|k: int|
            0 <= k < kept_leaders(pipelines, leaders, min_percent).len() ==> {
                let leader = #[trigger] kept_leaders(pipelines, leaders, min_percent)[k];
                &&& leaders.contains(leader)
                &&& share_of(
                    members(pipelines, pipelines[leader]).len(),
                    pipelines.len(),
                ).reaches(min_percent)
            },
    decreases leaders.len(),
{
    if leaders.len() > 0 {
        let rest = leaders.drop_last();
        lemma_kept_leaders(pipelines, rest, min_percent);
        let kept = kept_leaders(pipelines, leaders, min_percent);
        assert forall|k: int| 0 <= k < kept.len() implies {
            let leader = #[trigger] kept[k];
            &&& leaders.contains(leader)
            &&& share_of(
                members(pipelines, pipelines[leader]).len(),
                pipelines.len(),
            ).reaches(min_percent)
        } by {
            let before = kept_leaders(pipelines, rest, min_percent);
            if k < before.len() {
                assert(kept[k] == before[k]);
                assert(rest.contains(before[k]));
                let at = choose|at: int| 0 <= at < rest.len() && rest[at] == before[k];
                assert(leaders[at] == kept[k]);
            } else {
                assert(leaders[leaders.len() - 1] == kept[k]);
            }
        }
    }
}

/// The pipeline types are listed with the largest first, and each holds
/// at least `min_percent` percent of the pipelines.
pub proof fn lemma_pipeline_types_sorted(
    pipelines: Seq<PipelineView>,
    min_percent: int,
    base_url: Seq<char>,
    project_path: Seq<char>,
)
    ensures
        forall|a: int, b: int|
            0 <= a <= b < pipeline_types(pipelines, min_percent, base_url, project_path).len()
                ==> pipeline_types(
                pipelines,
                min_percent,
                base_url,
                project_path,
            )[a].metrics.total_pipelines >= pipeline_types(
                pipelines,
                min_percent,
                base_url,
                project_path,
            )[b].metrics.total_pipelines,
        forall|k: int|
            0 <= k < pipeline_types(pipelines, min_percent, base_url, project_path).len() ==> (
            #[trigger] pipeline_types(
                pipelines,
                min_percent,
                base_url,
                project_path,
            )[k]).metrics.percentage.reaches(min_percent),
{
    let leaders = type_leaders(pipelines, pipelines.len() as int);
    let kept = kept_leaders(pipelines, leaders, min_percent);
    let sizes = type_sizes(pipelines, kept);
    let order = descending_order(sizes);
    lemma_descending_order_sorted(sizes);
    lemma_descending_order_bounds(sizes);
    lemma_kept_leaders(pipelines, leaders, min_percent);
    let types = pipeline_types(pipelines, min_percent, base_url, project_path);
    assert forall|a: int, b: int| 0 <= a <= b < types.len() implies types[a].metrics.total_pipelines
        >= types[b].metrics.total_pipelines by {
        assert(sizes[order[a]] >= sizes[order[b]]);
    }
    assert forall|k: int| 0 <= k < types.len() implies (
    #[trigger] types[k]).metrics.percentage.reaches(min_percent) by {
        let leader = kept[order[k]];
        assert(share_of(
            members(pipelines, pipelines[leader]).len(),
            pipelines.len(),
        ).reaches(min_percent));
    }
}

/// The leaders are pipelines that are the first of their type, in the
/// order in which they stand.
pub proof fn lemma_type_leaders(pipelines: Seq<PipelineView>, upto: int)
    requires
        0 <= upto <= pipelines.len(),
    ensures
        forall|k: int|
            0 <= k < type_leaders(pipelines, upto).len() ==> {
                let leader = #[trigger] type_leaders(pipelines, upto)[k];
                0 <= leader < upto && is_first_of_type(pipelines, leader)
            },
        forall|a: int, b: int|
            0 <= a < b < type_leaders(pipelines, upto).len() ==> type_leaders(pipelines, upto)[a]
                < type_leaders(pipelines, upto)[b],
        forall|i: int|
            0 <= i < upto && is_first_of_type(pipelines, i) ==> type_leaders(
                pipelines,
                upto,
            ).contains(i),
    decreases upto,
{
    if upto > 0 {
        let rest = type_leaders(pipelines, upto - 1);
        let leaders = type_leaders(pipelines, upto);
        lemma_type_leaders(pipelines, upto - 1);
        assert forall|k: int| 0 <= k < leaders.len() implies {
            let leader = #[trigger] leaders[k];
            0 <= leader < upto && is_first_of_type(pipelines, leader)
        } by {
            if k < rest.len() {
                assert(leaders[k] == rest[k]);
            }
        }
        assert forall|a: int, b: int| 0 <= a < b < leaders.len() implies leaders[a]
            < leaders[b] by {
            assert(leaders[a] == rest[a]);
            if b < rest.len() {
                assert(leaders[b] == rest[b]);
            }
        }
        assert forall|i: int|
            0 <= i < upto && is_first_of_type(pipelines, i) implies leaders.contains(i) by {
            if i < upto - 1 {
                assert(rest.contains(i));
                let k = choose|k: int| 0 <= k < rest.len() && rest[k] == i;
                assert(leaders[k] == i);
            } else {
                assert(leaders[leaders.len() - 1] == i);
            }
        }
    }
}

/// Every pipeline is of the type of one of the leaders: the types cover
/// the pipelines.
pub proof fn lemma_types_cover(pipelines: Seq<PipelineView>, index: int)
    requires
        0 <= index < pipelines.len(),
    ensures
        exists|k: int|
            0 <= k < type_leaders(pipelines, pipelines.len() as int).len() && same_type(
                pipelines[#[trigger] type_leaders(pipelines, pipelines.len() as int)[k]],
                pipelines[index],
            ),
    decreases index,
{
    let leaders = type_leaders(pipelines, pipelines.len() as int);
    lemma_type_leaders(pipelines, pipelines.len() as int);
    if is_first_of_type(pipelines, index) {
        assert(leaders.contains(index));
        let k = choose|k: int| 0 <= k < leaders.len() && leaders[k] == index;
        assert(same_type(pipelines[leaders[k]], pipelines[index]));
    } else {
        let j = choose|j: int| 0 <= j < index && same_type(#[trigger] pipelines[j], pipelines[index]);
        lemma_types_cover(pipelines, j);
        let k = choose|k: int|
            0 <= k < leaders.len() && same_type(pipelines[#[trigger] leaders[k]], pipelines[j]);
        assert(same_type(pipelines[leaders[k]], pipelines[index]));
    }
}

/// No two leaders are of the same type: the types do not overlap.
pub proof fn lemma_types_differ(pipelines: Seq<PipelineView>, a: int, b: int)
    requires
        0 <= a < b < type_leaders(pipelines, pipelines.len() as int).len(),
    ensures
        !same_type(
            pipelines[type_leaders(pipelines, pipelines.len() as int)[a]],
            pipelines[type_leaders(pipelines, pipelines.len() as int)[b]],
        ),
{
    let leaders = type_leaders(pipelines, pipelines.len() as int);
    lemma_type_leaders(pipelines, pipelines.len() as int);
    assert(leaders[a] < leaders[b]);
    assert(is_first_of_type(pipelines, leaders[b]));
}

/// A type holds no more pipelines than there are, so that its share is
/// never above 100 percent.
pub proof fn lemma_members_len(pipelines: Seq<PipelineView>, leader: PipelineView)
    ensures
        members(pipelines, leader).len() <= pipelines.len(),
    decreases pipelines.len(),
{
    if pipelines.len() > 0 {
        lemma_members_len(pipelines.drop_last(), leader);
    }
}

/// Analysing the same pipelines again gives the same pipeline types, with
/// the same figures in the same order: the result is a function of what
/// the pipelines hold.
pub proof fn lemma_same_pipelines_same_types(
    pipelines: Seq<PipelineView>,
    min_percent: int,
    base_url: Seq<char>,
    project_path: Seq<char>,
    first: Seq<PipelineTypeView>,
    second: Seq<PipelineTypeView>,
)
    requires
        first == pipeline_types(pipelines, min_percent, base_url, project_path),
        second == pipeline_types(pipelines, min_percent, base_url, project_path),
    ensures
        first == second,
{
}

} // verus!
