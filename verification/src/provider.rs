//! From fetched pipelines to the insights of a project.

use vstd::prelude::*;
use vstd::string::StringExecFns;
use crate::insights::{CIInsights, CIInsightsView};
use crate::pipeline_types::{group_pipeline_types, pipeline_types};
use crate::types::{GitLabPipeline, PipelineView};

verus! {

/// The origin of a web address (scheme, host and, unless it is the
/// scheme's own, port) as the `url` crate tells it; `None` for a text that
/// is no absolute address.
pub uninterp spec fn origin_of(address: Seq<char>) -> Option<Seq<char>>;

/// Calls `Url::parse` of the `url` crate and, on the address it gives,
/// `Url::origin` and `Origin::ascii_serialization`. Parsing depends on the
/// text alone; the origin is `scheme://host`, with `:port` behind it where
/// the port is not the scheme's default, and `null` for an address without
/// such an origin.
#[verifier::external_body]
pub(crate) fn web_origin(address: &str) -> (origin: Option<String>)
    ensures
        origin.deep_view() == origin_of(address@),
{
    match url::Url::parse(address) {
        Ok(parsed) => Some(parsed.origin().ascii_serialization()),
        Err(_) => None,
    }
}

/// The insights of a GitLab project from its fetched pipelines: the
/// pipeline types that hold at least `min_percent` percent of them, with
/// links that start at `base_url`.
pub open spec fn gitlab_insights(
    project_path: Seq<char>,
    pipelines: Seq<PipelineView>,
    min_percent: int,
    base_url: Seq<char>,
    collected_at: int,
) -> CIInsightsView {
    let types = pipeline_types(pipelines, min_percent, base_url, project_path);
    CIInsightsView {
        provider: "GitLab"@,
        project: project_path,
        collected_at,
        total_pipelines: pipelines.len(),
        total_pipeline_types: types.len(),
        pipeline_types: types,
    }
}

/// Analyses the fetched pipelines of a GitLab project whose pages start at
/// `base_url`. `collected_at` is the time of collection in seconds since
/// the Unix epoch.
pub fn assemble_insights(
    project_path: &str,
    pipelines: &Vec<GitLabPipeline>,
    min_type_percentage: u8,
    base_url: &str,
    collected_at: i64,
) -> (insights: CIInsights)
    ensures
        insights@ == gitlab_insights(
            project_path@,
            pipelines.deep_view(),
            min_type_percentage as int,
            base_url@,
            collected_at as int,
        ),
{
    let pipeline_types = group_pipeline_types(
        pipelines,
        min_type_percentage,
        base_url,
        project_path,
    );
    CIInsights {
        provider: String::from_str("GitLab"),
        project: String::from_str(project_path),
        collected_at,
        total_pipelines: pipelines.len(),
        total_pipeline_types: pipeline_types.len(),
        pipeline_types,
    }
}

/// Analyses the fetched pipelines of a GitLab project that was reached
/// through the GraphQL endpoint `graphql_url`; links start at the origin
/// of that address. Returns `None` exactly where `graphql_url` is no
/// absolute web address.
pub fn collect_insights(
    graphql_url: &str,
    project_path: &str,
    pipelines: &Vec<GitLabPipeline>,
    min_type_percentage: u8,
    collected_at: i64,
) -> (insights: Option<CIInsights>)
    ensures
        match origin_of(graphql_url@) {
            Some(base_url) => insights matches Some(found) && found@ == gitlab_insights(
                project_path@,
                pipelines.deep_view(),
                min_type_percentage as int,
                base_url,
                collected_at as int,
            ),
            None => insights is None,
        },
{
    match web_origin(graphql_url) {
        Some(base_url) => Some(
            assemble_insights(
                project_path,
                pipelines,
                min_type_percentage,
                base_url.as_str(),
                collected_at,
            ),
        ),
        None => None,
    }
}

} // verus!
