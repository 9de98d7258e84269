//! GitHub Actions: repository paths, web addresses of runs, and the
//! insights of a repository.

use vstd::prelude::*;
use vstd::string::{StrSliceExecFns, StringExecFns};
use crate::insights::{CIInsights, CIInsightsView, PipelineType, PipelineTypeView};
use crate::text::chars_of;

verus! {

/// The character that writes the digit `d`.
pub open spec fn digit_char(d: nat) -> char {
    if d == 0 {
        '0'
    } else if d == 1 {
        '1'
    } else if d == 2 {
        '2'
    } else if d == 3 {
        '3'
    } else if d == 4 {
        '4'
    } else if d == 5 {
        '5'
    } else if d == 6 {
        '6'
    } else if d == 7 {
        '7'
    } else if d == 8 {
        '8'
    } else {
        '9'
    }
}

/// The decimal notation of `n`, without leading zeros.
pub open spec fn decimal(n: nat) -> Seq<char>
    decreases n,
{
    if n < 10 {
        seq![digit_char(n)]
    } else {
        decimal(n / 10).push(digit_char(n % 10))
    }
}

/// The notation of a single digit.
fn digit_str(d: u64) -> (s: &'static str)
    requires
        d < 10,
    ensures
        s@ == seq![digit_char(d as nat)],
{
    proof {
        reveal_strlit("0");
        reveal_strlit("1");
        reveal_strlit("2");
        reveal_strlit("3");
        reveal_strlit("4");
        reveal_strlit("5");
        reveal_strlit("6");
        reveal_strlit("7");
        reveal_strlit("8");
        reveal_strlit("9");
    }
    let s = if d == 0 {
        "0"
    } else if d == 1 {
        "1"
    } else if d == 2 {
        "2"
    } else if d == 3 {
        "3"
    } else if d == 4 {
        "4"
    } else if d == 5 {
        "5"
    } else if d == 6 {
        "6"
    } else if d == 7 {
        "7"
    } else if d == 8 {
        "8"
    } else {
        "9"
    };
    assert(s@ =~= seq![digit_char(d as nat)]);
    s
}

/// Writes `n` in decimal notation.
pub fn decimal_string(n: u64) -> (text: String)
    ensures
        text@ == decimal(n as nat),
    decreases n,
{
    if n < 10 {
        String::from_str(digit_str(n))
    } else {
        let mut text = decimal_string(n / 10);
        text.append(digit_str(n % 10));
        assert(text@ =~= decimal(n as nat));
        text
    }
}

/// The address of a run: `https://github.com/`, the owner, the repository,
/// `/actions/runs/` and the number in decimal notation.
pub open spec fn spec_run_url(owner: Seq<char>, repo: Seq<char>, id: nat) -> Seq<char> {
    "https://github.com/"@ + owner + "/"@ + repo + "/actions/runs/"@ + decimal(id)
}

/// The web address of a workflow run.
pub fn workflow_run_url(owner: &str, repo: &str, run_id: u64) -> (url: String)
    ensures
        url@ == spec_run_url(owner@, repo@, run_id as nat),
{
    let id = decimal_string(run_id);
    let mut url = String::from_str("https://github.com/");
    url.append(owner);
    url.append("/");
    url.append(repo);
    url.append("/actions/runs/");
    url.append(id.as_str());
    url
}

/// The web address under which a job is shown: that of the run with the
/// job's number.
pub fn job_url(owner: &str, repo: &str, job_id: u64) -> (url: String)
    ensures
        url@ == spec_run_url(owner@, repo@, job_id as nat),
{
    workflow_run_url(owner, repo, job_id)
}

/// Whether `path` holds a `/` at `at` and nowhere else.
pub open spec fn is_only_slash(path: Seq<char>, at: int) -> bool {
    &&& 0 <= at < path.len()
    &&& path[at] == '/'
    &&& forall|j: int| 0 <= j < path.len() && j != at ==> path[j] != '/'
}

/// Parts a repository path of the form `owner/repo` into owner and
/// repository. A path with no `/` or with more than one is none.
pub fn split_repo_path(project_path: &str) -> (parts: Option<(String, String)>)
    ensures
        match parts {
            Some((owner, repo)) => {
                &&& is_only_slash(project_path@, owner@.len() as int)
                &&& owner@ == project_path@.subrange(0, owner@.len() as int)
                &&& repo@ == project_path@.subrange(
                    owner@.len() as int + 1,
                    project_path@.len() as int,
                )
            },
            None => forall|at: int| !is_only_slash(project_path@, at),
        },
{
    let chars = chars_of(project_path);
    let n = chars.len();
    let mut first: usize = 0;
    while first < n && chars[first] != '/'
        invariant
            first <= n,
            n == chars.len(),
            forall|j: int| 0 <= j < first ==> chars[j] != '/',
        decreases n - first,
    {
        first += 1;
    }
    if first == n {
        return None;
    }
    let mut other: usize = first + 1;
    while other < n && chars[other] != '/'
        invariant
            first < other <= n,
            n == chars.len(),
            forall|j: int| first < j < other ==> chars[j] != '/',
        decreases n - other,
    {
        other += 1;
    }
    if other < n {
        assert forall|at: int| !is_only_slash(project_path@, at) by {
            if at == first {
                assert(project_path@[other as int] == '/');
            } else {
                assert(project_path@[first as int] == '/');
            }
        }
        return None;
    }
    let owner = String::from_str(project_path.substring_char(0, first));
    let repo = String::from_str(project_path.substring_char(first + 1, n));
    Some((owner, repo))
}

/// The insights of a repository of which `run_count` workflow runs were
/// fetched: the runs are counted as one type, and no type is described.
pub open spec fn github_insights(
    owner: Seq<char>,
    repo: Seq<char>,
    run_count: nat,
    collected_at: int,
) -> CIInsightsView {
    CIInsightsView {
        provider: "GitHub Actions"@,
        project: owner + "/"@ + repo,
        collected_at,
        total_pipelines: run_count,
        total_pipeline_types: 1,
        pipeline_types: Seq::empty(),
    }
}

/// Puts the insights of a repository together from the number of workflow
/// runs that were fetched.
pub fn convert_to_insights(owner: &str, repo: &str, run_count: usize, collected_at: i64) -> (insights:
    CIInsights)
    ensures
        insights@ == github_insights(owner@, repo@, run_count as nat, collected_at as int),
{
    let mut project = String::from_str(owner);
    project.append("/");
    project.append(repo);
    let pipeline_types: Vec<PipelineType> = Vec::new();
    assert(pipeline_types.deep_view() =~= Seq::<PipelineTypeView>::empty());
    CIInsights {
        provider: String::from_str("GitHub Actions"),
        project,
        collected_at,
        total_pipelines: run_count,
        total_pipeline_types: 1,
        pipeline_types,
    }
}

} // verus!
