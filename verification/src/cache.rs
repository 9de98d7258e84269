//! Naming of the file that keeps the fetched jobs of one project.

use vstd::prelude::*;
use vstd::string::{StrSliceExecFns, StringExecFns};

verus! {

/// `path` with a `-` in place of every `/`.
pub open spec fn dashed(path: Seq<char>) -> Seq<char> {
    Seq::new(
        path.len(),
        |i: int|
            if path[i] == '/' {
                '-'
            } else {
                path[i]
            },
    )
}

/// The name of the cache file of a project: the project path with a `-`
/// in place of every `/`, and `.json` behind it, so that `group/project`
/// is kept in `group-project.json`.
pub fn cache_file_name(project_path: &str) -> (name: String)
    ensures
        name@ == dashed(project_path@) + ".json"@,
{
    proof {
        reveal_strlit("-");
    }
    let n = project_path.unicode_len();
    let mut name = String::new();
    let mut i: usize = 0;
    assert(name@ =~= dashed(project_path@).take(0));
    while i < n
        invariant
            i <= n,
            n == project_path@.len(),
            "-"@ == seq!['-'],
            name@ == dashed(project_path@).take(i as int),
        decreases n - i,
    {
        if project_path.get_char(i) == '/' {
            name.append("-");
        } else {
            name.append(project_path.substring_char(i, i + 1));
        }
        assert(name@ =~= dashed(project_path@).take(i + 1));
        i += 1;
    }
    assert(dashed(project_path@).take(i as int) =~= dashed(project_path@));
    name.append(".json");
    name
}

} // verus!
