use cilens::job_metrics::{
    all_dependency_positions, build_predecessor_list, calculate_finish_time,
    calculate_job_metrics, critical_predecessors, find_critical_predecessor, finish_times,
    finish_times_by_depth, get_dependencies, representatives,
};
use cilens::walk::{finish_times_along_chains, holds_cycle};
use cilens::types::{GitLabJob, GitLabPipeline};

fn create_job(name: &str, stage: &str, duration: u64, needs: Option<Vec<String>>) -> GitLabJob {
    GitLabJob {
        id: name.to_string(),
        name: name.to_string(),
        stage: stage.to_string(),
        duration,
        status: "SUCCESS".to_string(),
        retried: false,
        needs,
    }
}

fn create_pipeline(stages: Vec<String>, jobs: Vec<GitLabJob>) -> GitLabPipeline {
    GitLabPipeline {
        id: "test-pipeline".to_string(),
        ref_: "main".to_string(),
        source: "push".to_string(),
        status: "success".to_string(),
        duration: 100,
        stages,
        jobs,
    }
}

fn stages(names: &[&str]) -> Vec<String> {
    names.iter().map(|s| s.to_string()).collect()
}

#[test]
fn test_needs_none_depends_on_all_previous_stages() {
    let job1 = create_job("job1", "build", 10, None);
    let job2 = create_job("job2", "build", 15, None);
    let job3 = create_job("job3", "test", 20, None);
    let pipeline = create_pipeline(stages(&["build", "test"]), vec![job1, job2, job3]);

    let deps = get_dependencies(&pipeline.jobs[2], &pipeline);

    assert_eq!(deps.len(), 2);
    assert!(deps.contains(&"job1".to_string()));
    assert!(deps.contains(&"job2".to_string()));
}

#[test]
fn test_needs_none_first_stage_has_no_dependencies() {
    let job1 = create_job("job1", "build", 10, None);
    let pipeline = create_pipeline(stages(&["build"]), vec![job1]);

    let deps = get_dependencies(&pipeline.jobs[0], &pipeline);

    assert_eq!(deps.len(), 0);
}

#[test]
fn test_needs_empty_array_no_dependencies() {
    let job1 = create_job("job1", "test", 10, Some(vec![]));
    let pipeline = create_pipeline(stages(&["build", "test"]), vec![job1]);

    let deps = get_dependencies(&pipeline.jobs[0], &pipeline);

    assert_eq!(deps.len(), 0);
}

#[test]
fn test_needs_explicit_dependencies() {
    let job1 = create_job("job1", "build", 10, None);
    let job2 = create_job("job2", "build", 15, None);
    let job3 = create_job(
        "job3",
        "test",
        20,
        Some(vec!["job1".to_string(), "job2".to_string()]),
    );
    let pipeline = create_pipeline(stages(&["build", "test"]), vec![job1, job2, job3]);

    let deps = get_dependencies(&pipeline.jobs[2], &pipeline);

    assert_eq!(deps.len(), 2);
    assert!(deps.contains(&"job1".to_string()));
    assert!(deps.contains(&"job2".to_string()));
}

#[test]
fn test_needs_explicit_single_dependency() {
    let job1 = create_job("job1", "build", 10, None);
    let job2 = create_job("job2", "test", 20, Some(vec!["job1".to_string()]));
    let pipeline = create_pipeline(stages(&["build", "test"]), vec![job1, job2]);

    let deps = get_dependencies(&pipeline.jobs[1], &pipeline);

    assert_eq!(deps.len(), 1);
    assert_eq!(deps[0], "job1");
}

#[test]
fn test_needs_none_multiple_stages() {
    let job1 = create_job("job1", "build", 10, None);
    let job2 = create_job("job2", "test", 15, None);
    let job3 = create_job("job3", "deploy", 20, None);
    let pipeline = create_pipeline(stages(&["build", "test", "deploy"]), vec![job1, job2, job3]);

    let deps = get_dependencies(&pipeline.jobs[2], &pipeline);

    assert_eq!(deps.len(), 2);
    assert!(deps.contains(&"job1".to_string()));
    assert!(deps.contains(&"job2".to_string()));
}

#[test]
fn test_job_no_dependencies_starts_at_zero() {
    let job1 = create_job("job1", "build", 10, Some(vec![]));
    let pipeline = create_pipeline(stages(&["build"]), vec![job1]);

    let time = calculate_finish_time("job1", &pipeline);

    assert_eq!(time, 10);
    assert_eq!(find_critical_predecessor("job1", &pipeline), None);
}

#[test]
fn test_job_with_single_dependency() {
    let job1 = create_job("job1", "build", 10, Some(vec![]));
    let job2 = create_job("job2", "test", 15, Some(vec!["job1".to_string()]));
    let pipeline = create_pipeline(stages(&["build", "test"]), vec![job1, job2]);

    let time = calculate_finish_time("job2", &pipeline);

    assert_eq!(time, 25);
    assert_eq!(
        find_critical_predecessor("job2", &pipeline),
        Some("job1".to_string())
    );
}

#[test]
fn test_job_with_multiple_dependencies_picks_slowest() {
    let job1 = create_job("job1", "build", 10, Some(vec![]));
    let job2 = create_job("job2", "build", 30, Some(vec![]));
    let job3 = create_job(
        "job3",
        "test",
        5,
        Some(vec!["job1".to_string(), "job2".to_string()]),
    );
    let pipeline = create_pipeline(stages(&["build", "test"]), vec![job1, job2, job3]);

    let time = calculate_finish_time("job3", &pipeline);

    assert_eq!(time, 35);
    assert_eq!(
        find_critical_predecessor("job3", &pipeline),
        Some("job2".to_string())
    );
}

#[test]
fn test_memoization_same_job_calculated_multiple_times() {
    let job1 = create_job("job1", "build", 10, Some(vec![]));
    let job2 = create_job("job2", "test", 5, Some(vec!["job1".to_string()]));
    let job3 = create_job("job3", "test", 8, Some(vec!["job1".to_string()]));
    let job4 = create_job(
        "job4",
        "deploy",
        3,
        Some(vec!["job2".to_string(), "job3".to_string()]),
    );
    let pipeline = create_pipeline(
        stages(&["build", "test", "deploy"]),
        vec![job1, job2, job3, job4],
    );

    let time = calculate_finish_time("job4", &pipeline);

    assert_eq!(time, 21);
    assert_eq!(calculate_finish_time("job1", &pipeline), 10);
    assert_eq!(calculate_finish_time("job2", &pipeline), 15);
    assert_eq!(calculate_finish_time("job3", &pipeline), 18);
    assert_eq!(calculate_finish_time("job4", &pipeline), 21);
    assert_eq!(
        find_critical_predecessor("job4", &pipeline),
        Some("job3".to_string())
    );
}

#[test]
fn test_nonexistent_job_returns_zero() {
    let pipeline = create_pipeline(vec![], vec![]);

    let time = calculate_finish_time("nonexistent", &pipeline);

    assert_eq!(time, 0);
    // Asked again, the name has the same time.
    assert_eq!(calculate_finish_time("nonexistent", &pipeline), 0);
}

#[test]
fn test_job_with_no_predecessors() {
    let job1 = create_job("job1", "build", 10, Some(vec![]));
    let pipeline = create_pipeline(stages(&["build"]), vec![job1]);
    let predecessors: Vec<Option<usize>> = vec![None];

    let pred_list = build_predecessor_list(&pipeline, &predecessors, 0);

    assert_eq!(pred_list.len(), 0);
}

#[test]
fn test_job_with_single_predecessor() {
    let job1 = create_job("job1", "build", 10, Some(vec![]));
    let job2 = create_job("job2", "test", 15, Some(vec!["job1".to_string()]));
    let pipeline = create_pipeline(stages(&["build", "test"]), vec![job1, job2]);
    let predecessors: Vec<Option<usize>> = vec![None, Some(0)];

    let pred_list = build_predecessor_list(&pipeline, &predecessors, 1);

    assert_eq!(pred_list.len(), 1);
    assert_eq!(pred_list[0].name, "job1");
    assert_eq!(pred_list[0].duration_p50, 10);
}

#[test]
fn test_job_with_chain_of_predecessors() {
    let job1 = create_job("job1", "build", 10, Some(vec![]));
    let job2 = create_job("job2", "test", 15, Some(vec!["job1".to_string()]));
    let job3 = create_job("job3", "deploy", 20, Some(vec!["job2".to_string()]));
    let pipeline = create_pipeline(stages(&["build", "test", "deploy"]), vec![job1, job2, job3]);
    let predecessors: Vec<Option<usize>> = vec![None, Some(0), Some(1)];

    let pred_list = build_predecessor_list(&pipeline, &predecessors, 2);

    assert_eq!(pred_list.len(), 2);
    assert_eq!(pred_list[0].name, "job1");
    assert_eq!(pred_list[0].duration_p50, 10);
    assert_eq!(pred_list[1].name, "job2");
    assert_eq!(pred_list[1].duration_p50, 15);
}

#[test]
fn test_predecessor_list_ordering() {
    let job_a = create_job("job_a", "stage1", 5, Some(vec![]));
    let job_b = create_job("job_b", "stage2", 10, None);
    let job_c = create_job("job_c", "stage3", 15, None);
    let job_d = create_job("job_d", "stage4", 20, None);
    let pipeline = create_pipeline(
        stages(&["stage1", "stage2", "stage3", "stage4"]),
        vec![job_a, job_b, job_c, job_d],
    );
    let predecessors: Vec<Option<usize>> = vec![None, Some(0), Some(1), Some(2)];

    let pred_list = build_predecessor_list(&pipeline, &predecessors, 3);

    assert_eq!(pred_list.len(), 3);
    assert_eq!(pred_list[0].name, "job_a");
    assert_eq!(pred_list[1].name, "job_b");
    assert_eq!(pred_list[2].name, "job_c");
}

#[test]
fn test_empty_pipeline() {
    let pipeline = create_pipeline(vec![], vec![]);

    let metrics = calculate_job_metrics(&pipeline);

    assert_eq!(metrics.len(), 0);
}

#[test]
fn test_pipeline_with_single_job() {
    let job1 = create_job("job1", "build", 10, Some(vec![]));
    let pipeline = create_pipeline(stages(&["build"]), vec![job1]);

    let metrics = calculate_job_metrics(&pipeline);

    assert_eq!(metrics.len(), 1);
    assert_eq!(metrics[0].name, "job1");
    assert_eq!(metrics[0].duration_p50, 10);
    assert_eq!(metrics[0].time_to_feedback_p50, 10);
    assert_eq!(metrics[0].predecessors.len(), 0);
}

#[test]
fn test_pipeline_with_linear_dependency_chain() {
    let job1 = create_job("job1", "build", 10, None);
    let job2 = create_job("job2", "test", 15, None);
    let job3 = create_job("job3", "deploy", 20, None);
    let pipeline = create_pipeline(stages(&["build", "test", "deploy"]), vec![job1, job2, job3]);

    let metrics = calculate_job_metrics(&pipeline);

    assert_eq!(metrics.len(), 3);

    let job1_metrics = metrics.iter().find(|m| m.name == "job1").unwrap();
    let job2_metrics = metrics.iter().find(|m| m.name == "job2").unwrap();
    let job3_metrics = metrics.iter().find(|m| m.name == "job3").unwrap();

    assert_eq!(job1_metrics.time_to_feedback_p50, 10);
    assert_eq!(job2_metrics.time_to_feedback_p50, 25);
    assert_eq!(job3_metrics.time_to_feedback_p50, 45);

    assert_eq!(job1_metrics.predecessors.len(), 0);
    assert_eq!(job2_metrics.predecessors.len(), 1);
    assert_eq!(job2_metrics.predecessors[0].name, "job1");
    assert_eq!(job3_metrics.predecessors.len(), 2);
    assert_eq!(job3_metrics.predecessors[0].name, "job1");
    assert_eq!(job3_metrics.predecessors[1].name, "job2");

    assert_eq!(metrics[0].name, "job3");
    assert_eq!(metrics[1].name, "job2");
    assert_eq!(metrics[2].name, "job1");
}

#[test]
fn test_pipeline_with_parallel_jobs() {
    let job1 = create_job("job1", "test", 10, Some(vec![]));
    let job2 = create_job("job2", "test", 15, Some(vec![]));
    let job3 = create_job("job3", "test", 5, Some(vec![]));
    let pipeline = create_pipeline(stages(&["test"]), vec![job1, job2, job3]);

    let metrics = calculate_job_metrics(&pipeline);

    assert_eq!(metrics.len(), 3);
    for metric in &metrics {
        assert_eq!(metric.duration_p50, metric.time_to_feedback_p50);
        assert_eq!(metric.predecessors.len(), 0);
    }
    assert_eq!(metrics[0].name, "job2");
    assert_eq!(metrics[1].name, "job1");
    assert_eq!(metrics[2].name, "job3");
}

#[test]
fn test_pipeline_with_complex_dag() {
    let job1 = create_job("job1", "build", 10, Some(vec![]));
    let job2 = create_job("job2", "test", 5, Some(vec!["job1".to_string()]));
    let job3 = create_job("job3", "test", 8, Some(vec!["job1".to_string()]));
    let job4 = create_job("job4", "test", 3, Some(vec![]));
    let job5 = create_job(
        "job5",
        "deploy",
        7,
        Some(vec![
            "job2".to_string(),
            "job3".to_string(),
            "job4".to_string(),
        ]),
    );
    let pipeline = create_pipeline(
        stages(&["build", "test", "deploy"]),
        vec![job1, job2, job3, job4, job5],
    );

    let metrics = calculate_job_metrics(&pipeline);

    assert_eq!(metrics.len(), 5);

    let job1_m = metrics.iter().find(|m| m.name == "job1").unwrap();
    let job2_m = metrics.iter().find(|m| m.name == "job2").unwrap();
    let job3_m = metrics.iter().find(|m| m.name == "job3").unwrap();
    let job4_m = metrics.iter().find(|m| m.name == "job4").unwrap();
    let job5_m = metrics.iter().find(|m| m.name == "job5").unwrap();

    assert_eq!(job1_m.time_to_feedback_p50, 10);
    assert_eq!(job2_m.time_to_feedback_p50, 15);
    assert_eq!(job3_m.time_to_feedback_p50, 18);
    assert_eq!(job4_m.time_to_feedback_p50, 3);
    assert_eq!(job5_m.time_to_feedback_p50, 25);

    assert_eq!(job5_m.predecessors.len(), 2);
    assert_eq!(job5_m.predecessors[0].name, "job1");
    assert_eq!(job5_m.predecessors[1].name, "job3");

    assert_eq!(metrics[0].name, "job5");
}

#[test]
fn test_pipeline_with_needs_empty_bypasses_stages() {
    let job1 = create_job("job1", "build", 10, None);
    let job2 = create_job("job2", "test", 5, None);
    let job3 = create_job("job3", "deploy", 3, Some(vec![]));
    let pipeline = create_pipeline(stages(&["build", "test", "deploy"]), vec![job1, job2, job3]);

    let metrics = calculate_job_metrics(&pipeline);

    let job1_m = metrics.iter().find(|m| m.name == "job1").unwrap();
    let job2_m = metrics.iter().find(|m| m.name == "job2").unwrap();
    let job3_m = metrics.iter().find(|m| m.name == "job3").unwrap();

    assert_eq!(job1_m.time_to_feedback_p50, 10);
    assert_eq!(job2_m.time_to_feedback_p50, 15);
    assert_eq!(job3_m.time_to_feedback_p50, 3);
    assert_eq!(job3_m.predecessors.len(), 0);
}

#[test]
fn test_percentiles_are_same_for_single_pipeline() {
    let job1 = create_job("job1", "build", 10, Some(vec![]));
    let pipeline = create_pipeline(stages(&["build"]), vec![job1]);

    let metrics = calculate_job_metrics(&pipeline);

    assert_eq!(metrics[0].duration_p50, 10);
    assert_eq!(metrics[0].duration_p95, 10);
    assert_eq!(metrics[0].duration_p99, 10);
    assert_eq!(metrics[0].time_to_feedback_p50, 10);
    assert_eq!(metrics[0].time_to_feedback_p95, 10);
    assert_eq!(metrics[0].time_to_feedback_p99, 10);
}

#[test]
fn test_default_fields_are_set() {
    let job1 = create_job("job1", "build", 10, Some(vec![]));
    let pipeline = create_pipeline(stages(&["build"]), vec![job1]);

    let metrics = calculate_job_metrics(&pipeline);

    assert_eq!(metrics[0].flakiness_rate.part, 0);
    assert_eq!(metrics[0].flaky_retries.count, 0);
    assert_eq!(metrics[0].flaky_retries.links.len(), 0);
    assert_eq!(metrics[0].failed_executions.count, 0);
    assert_eq!(metrics[0].failed_executions.links.len(), 0);
    assert_eq!(metrics[0].failure_rate.part, 0);
    assert_eq!(metrics[0].total_executions, 0);
}

#[test]
fn missing_dependency_finishes_at_zero() {
    let job1 = create_job("job1", "build", 10, Some(vec!["ghost".to_string()]));
    let pipeline = create_pipeline(stages(&["build"]), vec![job1]);

    assert_eq!(calculate_finish_time("ghost", &pipeline), 0);
    assert_eq!(calculate_finish_time("job1", &pipeline), 10);
    assert_eq!(
        get_dependencies(&pipeline.jobs[0], &pipeline),
        vec!["ghost".to_string()]
    );
    // The dependency is recorded as predecessor, though no record carries its name.
    assert_eq!(
        find_critical_predecessor("job1", &pipeline),
        Some("ghost".to_string())
    );
    assert_eq!(find_critical_predecessor("ghost", &pipeline), None);
    // The chain holds jobs only.
    let metrics = calculate_job_metrics(&pipeline);
    assert_eq!(metrics.len(), 1);
    assert!(metrics[0].predecessors.is_empty());
}

#[test]
fn dependency_that_finishes_at_zero_is_recorded() {
    let job1 = create_job("job1", "build", 0, Some(vec![]));
    let job2 = create_job("job2", "test", 5, Some(vec!["job1".to_string()]));
    let pipeline = create_pipeline(stages(&["build", "test"]), vec![job1, job2]);

    assert_eq!(calculate_finish_time("job2", &pipeline), 5);
    assert_eq!(
        find_critical_predecessor("job2", &pipeline),
        Some("job1".to_string())
    );

    let metrics = calculate_job_metrics(&pipeline);
    let job2_m = metrics.iter().find(|m| m.name == "job2").unwrap();
    assert_eq!(job2_m.predecessors.len(), 1);
    assert_eq!(job2_m.predecessors[0].name, "job1");
    assert_eq!(job2_m.predecessors[0].duration_p50, 0);
}

#[test]
fn jobs_of_earlier_stages_that_take_no_time_are_predecessors() {
    let job1 = create_job("job1", "build", 0, None);
    let job2 = create_job("job2", "build", 0, None);
    let job3 = create_job("job3", "test", 7, None);
    let pipeline = create_pipeline(stages(&["build", "test"]), vec![job1, job2, job3]);

    assert_eq!(calculate_finish_time("job3", &pipeline), 7);
    assert_eq!(
        find_critical_predecessor("job3", &pipeline),
        Some("job2".to_string())
    );
}

#[test]
fn table_of_predecessors_is_followed_as_given() {
    // Neither job waits for the other; the table says otherwise and is followed.
    let job1 = create_job("job1", "build", 10, Some(vec![]));
    let job2 = create_job("job2", "build", 15, Some(vec![]));
    let pipeline = create_pipeline(stages(&["build"]), vec![job1, job2]);
    let predecessors: Vec<Option<usize>> = vec![None, Some(0)];

    let pred_list = build_predecessor_list(&pipeline, &predecessors, 1);

    assert_eq!(pred_list.len(), 1);
    assert_eq!(pred_list[0].name, "job1");
    assert_eq!(pred_list[0].duration_p50, 10);
    assert_eq!(build_predecessor_list(&pipeline, &predecessors, 0).len(), 0);
}

#[test]
fn table_that_leads_in_a_circle_is_followed_once_around() {
    let job1 = create_job("job1", "build", 1, Some(vec![]));
    let job2 = create_job("job2", "build", 2, Some(vec![]));
    let job3 = create_job("job3", "build", 3, Some(vec![]));
    let pipeline = create_pipeline(stages(&["build"]), vec![job1, job2, job3]);
    let predecessors: Vec<Option<usize>> = vec![Some(1), Some(0), Some(0)];

    let pred_list = build_predecessor_list(&pipeline, &predecessors, 2);

    // As many steps as the run has records: job1, job2, job1; the furthest first.
    let names: Vec<&str> = pred_list.iter().map(|p| p.name.as_str()).collect();
    assert_eq!(names, vec!["job1", "job2", "job1"]);
}

#[test]
fn equally_slow_dependencies_give_the_one_named_last() {
    let a = create_job("a", "build", 10, Some(vec![]));
    let b = create_job("b", "build", 10, Some(vec![]));
    let c = create_job("c", "build", 4, Some(vec![]));
    let last = create_job(
        "last",
        "test",
        1,
        Some(vec!["a".to_string(), "b".to_string(), "c".to_string()]),
    );
    let first = create_job(
        "first",
        "test",
        1,
        Some(vec!["b".to_string(), "c".to_string(), "a".to_string()]),
    );
    let pipeline = create_pipeline(stages(&["build", "test"]), vec![a, b, c, last, first]);

    assert_eq!(calculate_finish_time("last", &pipeline), 11);
    assert_eq!(
        find_critical_predecessor("last", &pipeline),
        Some("b".to_string())
    );
    assert_eq!(
        find_critical_predecessor("first", &pipeline),
        Some("a".to_string())
    );
}

#[test]
fn last_record_stands_for_a_retried_job() {
    let mut failed = create_job("build", "build", 50, None);
    failed.status = "FAILED".to_string();
    failed.retried = true;
    let retried = create_job("build", "build", 20, None);
    let test = create_job("test", "test", 5, None);
    let pipeline = create_pipeline(stages(&["build", "test"]), vec![failed, retried, test]);

    assert_eq!(calculate_finish_time("build", &pipeline), 20);
    assert_eq!(calculate_finish_time("test", &pipeline), 25);
    // The job is waited for once, not once per record.
    assert_eq!(
        get_dependencies(&pipeline.jobs[2], &pipeline),
        vec!["build".to_string()]
    );

    let metrics = calculate_job_metrics(&pipeline);
    assert_eq!(metrics.len(), 2);
    assert_eq!(metrics[0].name, "test");
    assert_eq!(metrics[1].name, "build");
    assert_eq!(metrics[1].duration_p50, 20);
}

#[test]
fn job_that_did_not_succeed_is_reported_like_any_other() {
    let mut failed = create_job("build", "build", 10, None);
    failed.status = "FAILED".to_string();
    let test = create_job("test", "test", 5, None);
    let pipeline = create_pipeline(stages(&["build", "test"]), vec![failed, test]);

    let metrics = calculate_job_metrics(&pipeline);

    assert_eq!(metrics.len(), 2);
    assert_eq!(metrics[0].name, "test");
    assert_eq!(metrics[0].time_to_feedback_p50, 15);
    assert_eq!(metrics[0].predecessors.len(), 1);
    assert_eq!(metrics[0].predecessors[0].name, "build");
    assert_eq!(metrics[1].name, "build");
    assert_eq!(metrics[1].duration_p50, 10);
    assert_eq!(metrics[1].time_to_feedback_p50, 10);
}

#[test]
fn single_failed_job_is_reported_with_its_feedback() {
    let mut a = create_job("a", "build", 4, Some(vec![]));
    a.status = "FAILED".to_string();
    let pipeline = create_pipeline(stages(&["build"]), vec![a]);

    let metrics = calculate_job_metrics(&pipeline);

    assert_eq!(metrics.len(), 1);
    assert_eq!(metrics[0].name, "a");
    assert_eq!(metrics[0].time_to_feedback_p50, 4);
}

#[test]
fn unlisted_stage_counts_as_the_first() {
    let job1 = create_job("job1", "build", 10, None);
    let job2 = create_job("job2", "nowhere", 7, None);
    let job3 = create_job("job3", "test", 3, None);
    let pipeline = create_pipeline(stages(&["build", "test"]), vec![job1, job2, job3]);

    // In the first stage there is nothing to wait for.
    assert_eq!(calculate_finish_time("job2", &pipeline), 7);
    // As a job of the first stage it is waited for by later stages.
    let deps = get_dependencies(&pipeline.jobs[2], &pipeline);
    assert_eq!(deps, vec!["job1".to_string(), "job2".to_string()]);
    assert_eq!(calculate_finish_time("job3", &pipeline), 13);
}

#[test]
fn repeated_stage_name_counts_at_its_last_place() {
    let job1 = create_job("job1", "build", 10, None);
    let job2 = create_job("job2", "test", 5, None);
    let pipeline = create_pipeline(stages(&["build", "test", "build"]), vec![job1, job2]);

    // `build` stands at place 2, behind `test`.
    assert_eq!(calculate_finish_time("job1", &pipeline), 15);
    assert_eq!(calculate_finish_time("job2", &pipeline), 5);
}

#[test]
fn cycle_of_dependencies_ends() {
    let a = create_job("a", "build", 3, Some(vec!["b".to_string()]));
    let b = create_job("b", "build", 4, Some(vec!["a".to_string()]));
    let pipeline = create_pipeline(stages(&["build"]), vec![a, b]);

    // Chains are followed for as many jobs as the run has records.
    assert_eq!(calculate_finish_time("a", &pipeline), 7);
    assert_eq!(calculate_finish_time("b", &pipeline), 7);
    let metrics = calculate_job_metrics(&pipeline);
    assert_eq!(metrics.len(), 2);
    assert!(metrics.iter().all(|m| m.predecessors.len() <= 2));
}

#[test]
fn job_that_waits_for_itself_ends() {
    let a = create_job("a", "build", 3, Some(vec!["a".to_string()]));
    let pipeline = create_pipeline(stages(&["build"]), vec![a]);

    assert_eq!(calculate_finish_time("a", &pipeline), 3);
}

#[test]
fn long_chain_is_followed_to_its_end() {
    let mut jobs = vec![create_job("job0", "s", 1, Some(vec![]))];
    for i in 1..40 {
        jobs.push(create_job(
            &format!("job{i}"),
            "s",
            1,
            Some(vec![format!("job{}", i - 1)]),
        ));
    }
    // Listed from the end of the chain to its start.
    jobs.reverse();
    let pipeline = create_pipeline(stages(&["s"]), jobs);

    assert_eq!(calculate_finish_time("job39", &pipeline), 40);
    let metrics = calculate_job_metrics(&pipeline);
    assert_eq!(metrics[0].name, "job39");
    assert_eq!(metrics[0].predecessors.len(), 39);
    assert_eq!(metrics[0].predecessors[0].name, "job0");
    assert_eq!(metrics[0].predecessors[38].name, "job38");
}

#[test]
fn finish_times_add_up_beyond_what_a_duration_holds() {
    let a = create_job("a", "build", u64::MAX, Some(vec![]));
    let b = create_job("b", "test", u64::MAX, Some(vec!["a".to_string()]));
    let pipeline = create_pipeline(stages(&["build", "test"]), vec![a, b]);

    assert_eq!(
        calculate_finish_time("b", &pipeline),
        2 * (u64::MAX as u128)
    );
}

#[test]
fn walk_and_table_agree_without_a_cycle() {
    let job1 = create_job("job1", "build", 10, Some(vec![]));
    let job2 = create_job("job2", "test", 5, Some(vec!["job1".to_string()]));
    let job3 = create_job("job3", "test", 8, Some(vec!["job1".to_string()]));
    let job4 = create_job(
        "job4",
        "deploy",
        3,
        Some(vec!["job2".to_string(), "job3".to_string(), "nowhere".to_string()]),
    );
    let again = create_job("job1", "build", 12, Some(vec![]));
    let pipeline = create_pipeline(
        stages(&["build", "test", "deploy"]),
        vec![job4, job1, job2, job3, again],
    );
    let flags = representatives(&pipeline);
    let deps = all_dependency_positions(&pipeline, &flags);

    assert_eq!(flags, vec![true, false, true, true, true]);
    assert_eq!(
        deps[0],
        vec![Some(2), Some(3), None]
    );
    let walked = finish_times_along_chains(&pipeline, &flags, &deps).unwrap();
    // The record that a later one stands in for has no time of its own.
    assert_eq!(walked, vec![23, 0, 17, 20, 12]);
    assert_eq!(finish_times_by_depth(&pipeline, &flags, &deps), walked);
    assert_eq!(finish_times(&pipeline, &flags, &deps), walked);
    assert_eq!(
        critical_predecessors(&pipeline, &flags, &deps, &walked),
        vec![Some(3), None, Some(4), Some(4), None]
    );
}

#[test]
fn walk_stops_at_a_cycle_and_the_table_takes_over() {
    let a = create_job("a", "build", 3, Some(vec!["b".to_string()]));
    let b = create_job("b", "build", 4, Some(vec!["c".to_string()]));
    let c = create_job("c", "build", 5, Some(vec!["a".to_string()]));
    let d = create_job("d", "build", 1, Some(vec![]));
    let pipeline = create_pipeline(stages(&["build"]), vec![d, a, b, c]);
    let flags = representatives(&pipeline);
    let deps = all_dependency_positions(&pipeline, &flags);

    assert_eq!(finish_times_along_chains(&pipeline, &flags, &deps), None);
    // Chains of four jobs: a waits for b, c and a again.
    assert_eq!(
        finish_times_by_depth(&pipeline, &flags, &deps),
        vec![1, 3 + 4 + 5 + 3, 4 + 5 + 3 + 4, 5 + 3 + 4 + 5]
    );
    assert_eq!(
        finish_times(&pipeline, &flags, &deps),
        vec![1, 15, 16, 17]
    );
}

#[test]
fn cycles_are_told_from_chains() {
    let chain = create_pipeline(
        stages(&["build", "test"]),
        vec![
            create_job("a", "build", 1, None),
            create_job("b", "test", 1, None),
            create_job("c", "test", 1, Some(vec!["b".to_string(), "gone".to_string()])),
        ],
    );
    assert!(!holds_cycle(&chain));
    assert!(!holds_cycle(&create_pipeline(vec![], vec![])));

    let own = create_pipeline(
        stages(&["build"]),
        vec![create_job("a", "build", 1, Some(vec!["a".to_string()]))],
    );
    assert!(holds_cycle(&own));

    // The cycle lies between a listed and an implied dependency.
    let mixed = create_pipeline(
        stages(&["build", "test"]),
        vec![
            create_job("a", "build", 1, Some(vec!["b".to_string()])),
            create_job("b", "test", 1, None),
        ],
    );
    assert!(holds_cycle(&mixed));
}
