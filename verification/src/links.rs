//! Web addresses of pipelines and jobs, built from their global identifiers.

use vstd::prelude::*;
use vstd::string::*;

verus! {

/// The position just behind the last `/` of `s`, or 0 where `s` holds none.
pub open spec fn after_last_slash(s: Seq<char>) -> int
    decreases s.len(),
{
    if s.len() == 0 {
        0
    } else if s.last() == '/' {
        s.len() as int
    } else {
        after_last_slash(s.drop_last())
    }
}

/// What follows the last `/` of a global identifier; the whole identifier
/// where it holds no `/`.
pub open spec fn spec_numeric_id(gid: Seq<char>) -> Seq<char> {
    gid.subrange(after_last_slash(gid), gid.len() as int)
}

/// Extracts the trailing segment of a global identifier such as
/// `gid://gitlab/Ci::Pipeline/123`.
pub fn extract_numeric_id(gid: &str) -> (id: &str)
    ensures
        id@ == spec_numeric_id(gid@),
{
    let n: usize = gid.unicode_len();
    let mut i: usize = n;
    assert(gid@.subrange(0, n as int) =~= gid@);
    while i > 0 && gid.get_char(i - 1) != '/'
        invariant
            n == gid@.len(),
            i <= n,
            after_last_slash(gid@) == after_last_slash(gid@.subrange(0, i as int)),
        decreases i,
    {
        proof {
            let cur = gid@.subrange(0, i as int);
            assert(cur.last() == gid@[i - 1]);
            assert(cur.drop_last() =~= gid@.subrange(0, i - 1));
        }
        i -= 1;
    }
    proof {
        let cur = gid@.subrange(0, i as int);
        if i > 0 {
            assert(cur.last() == gid@[i - 1]);
        }
    }
    gid.substring_char(i, n)
}

/// The address of a page of a project: the base address, the project path,
/// the section of the site and the trailing segment of the identifier.
pub open spec fn spec_url(
    base_url: Seq<char>,
    project_path: Seq<char>,
    section: Seq<char>,
    gid: Seq<char>,
) -> Seq<char> {
    base_url + "/"@ + project_path + section + spec_numeric_id(gid)
}

/// The web address of the pipeline with global identifier `gid`, e.g.
/// `https://gitlab.com/group/project/-/pipelines/123`.
pub fn pipeline_id_to_url(base_url: &str, project_path: &str, gid: &str) -> (url: String)
    ensures
        url@ == spec_url(base_url@, project_path@, "/-/pipelines/"@, gid@),
{
    let id = extract_numeric_id(gid);
    let mut url = String::from_str(base_url);
    url.append("/");
    url.append(project_path);
    url.append("/-/pipelines/");
    url.append(id);
    url
}

/// The web address of the job with global identifier `gid`, e.g.
/// `https://gitlab.com/group/project/-/jobs/456`.
pub fn job_id_to_url(base_url: &str, project_path: &str, gid: &str) -> (url: String)
    ensures
        url@ == spec_url(base_url@, project_path@, "/-/jobs/"@, gid@),
{
    let id = extract_numeric_id(gid);
    let mut url = String::from_str(base_url);
    url.append("/");
    url.append(project_path);
    url.append("/-/jobs/");
    url.append(id);
    url
}

} // verus!
