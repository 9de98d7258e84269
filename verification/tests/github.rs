use cilens::github::{convert_to_insights, decimal_string, job_url, split_repo_path, workflow_run_url};

#[test]
fn test_github_provider_creation() {
    let (owner, repo) = split_repo_path("owner/repo").unwrap();

    assert_eq!(owner, "owner");
    assert_eq!(repo, "repo");
}

#[test]
fn test_github_provider_invalid_repo_path() {
    let result = split_repo_path("invalid-path");

    assert!(result.is_none());
}

#[test]
fn test_github_provider_repo_path_with_multiple_slashes() {
    let result = split_repo_path("owner/repo/extra");

    assert!(result.is_none());
}

#[test]
fn repo_path_parts_may_be_empty() {
    assert_eq!(split_repo_path("/"), Some((String::new(), String::new())));
    assert_eq!(split_repo_path("a/"), Some(("a".to_string(), String::new())));
    assert_eq!(split_repo_path("/b"), Some((String::new(), "b".to_string())));
    assert_eq!(split_repo_path(""), None);
    assert_eq!(split_repo_path("//"), None);
}

#[test]
fn repo_path_keeps_non_ascii_parts() {
    assert_eq!(
        split_repo_path("münchen/café"),
        Some(("münchen".to_string(), "café".to_string()))
    );
}

#[test]
fn workflow_run_url_holds_owner_repo_and_number() {
    assert_eq!(
        workflow_run_url("rust-lang", "rust", 1234567890),
        "https://github.com/rust-lang/rust/actions/runs/1234567890"
    );
}

#[test]
fn job_url_is_the_url_of_the_run_with_that_number() {
    assert_eq!(
        job_url("owner", "repo", 42),
        "https://github.com/owner/repo/actions/runs/42"
    );
}

#[test]
fn decimal_string_writes_numbers_as_usual() {
    assert_eq!(decimal_string(0), "0");
    assert_eq!(decimal_string(7), "7");
    assert_eq!(decimal_string(10), "10");
    assert_eq!(decimal_string(9081726354), "9081726354");
    assert_eq!(decimal_string(u64::MAX), "18446744073709551615");
}

#[test]
fn github_insights_count_the_runs_as_one_type() {
    let insights = convert_to_insights("test-owner", "test-repo", 17, 1_700_000_000);

    assert_eq!(insights.provider, "GitHub Actions");
    assert_eq!(insights.project, "test-owner/test-repo");
    assert_eq!(insights.collected_at, 1_700_000_000);
    assert_eq!(insights.total_pipelines, 17);
    assert_eq!(insights.total_pipeline_types, 1);
    assert!(insights.pipeline_types.is_empty());
}
