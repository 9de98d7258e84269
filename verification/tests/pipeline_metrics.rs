use cilens::insights::Percentage;
use cilens::pipeline_metrics::{
    aggregate_job_metrics, aggregate_predecessors, calculate_percentiles, calculate_success_rate,
    calculate_type_metrics, to_pipeline_links,
};
use cilens::ranking::rank_descending;
use cilens::types::{GitLabJob, GitLabPipeline};

fn job(id: &str, name: &str, stage: &str, duration: u64, status: &str, retried: bool) -> GitLabJob {
    GitLabJob {
        id: format!("gid://gitlab/Ci::Job/{id}"),
        name: name.to_string(),
        stage: stage.to_string(),
        duration,
        status: status.to_string(),
        retried,
        needs: None,
    }
}

fn pipeline(id: &str, status: &str, duration: usize, jobs: Vec<GitLabJob>) -> GitLabPipeline {
    GitLabPipeline {
        id: format!("gid://gitlab/Ci::Pipeline/{id}"),
        ref_: "main".to_string(),
        source: "push".to_string(),
        status: status.to_string(),
        duration,
        stages: vec!["build".to_string(), "test".to_string()],
        jobs,
    }
}

/// The share as a number of percent.
fn percent(share: Percentage) -> f64 {
    (share.part as f64 / share.whole as f64) * 100.0
}

#[test]
fn percentiles_of_nothing_are_zero() {
    assert_eq!(calculate_percentiles(&vec![]), (0, 0, 0));
}

#[test]
fn percentiles_of_one_sample_are_that_sample() {
    assert_eq!(calculate_percentiles(&vec![42]), (42, 42, 42));
}

#[test]
fn percentiles_of_one_to_hundred() {
    let values: Vec<u128> = (1..=100).collect();
    assert_eq!(calculate_percentiles(&values), (51, 96, 100));
}

#[test]
fn percentiles_do_not_depend_on_the_order_of_the_samples() {
    let values: Vec<u128> = (1..=100).rev().collect();
    assert_eq!(calculate_percentiles(&values), (51, 96, 100));

    let mixed: Vec<u128> = vec![30, 10, 20];
    // ranks 3*50/100 = 1, 3*95/100 = 2, 3*99/100 = 2
    assert_eq!(calculate_percentiles(&mixed), (20, 30, 30));
}

#[test]
fn percentiles_of_two_samples_take_the_larger() {
    // ranks 2*50/100 = 1, 2*95/100 = 1, 2*99/100 = 1
    assert_eq!(calculate_percentiles(&vec![7, 3]), (7, 7, 7));
}

#[test]
fn percentiles_never_decrease() {
    let samples: Vec<Vec<u128>> = vec![
        vec![5, 1, 9, 3, 7, 2, 8],
        vec![1, 1, 1, 1],
        vec![u128::MAX, 0, 17],
        (0..1000).map(|i| (i * 7919) % 1013).collect(),
    ];
    for values in &samples {
        let (p50, p95, p99) = calculate_percentiles(values);
        assert!(p50 <= p95 && p95 <= p99);
    }
}

#[test]
fn rank_descending_is_stable() {
    let keys: Vec<u128> = vec![5, 9, 5, 1, 9];
    assert_eq!(rank_descending(&keys), vec![1, 4, 0, 2, 3]);
    assert_eq!(rank_descending(&vec![]), Vec::<usize>::new());
}

#[test]
fn success_rate_counts_a_total_of_zero_as_one() {
    let none = calculate_success_rate(0, 0);
    assert_eq!((none.part, none.whole), (0, 1));
    assert_eq!(percent(none), 0.0);

    let some = calculate_success_rate(3, 4);
    assert_eq!((some.part, some.whole), (3, 4));
    assert_eq!(percent(some), 75.0);
}

#[test]
fn share_is_compared_exactly() {
    let share = Percentage::of(29, 100);
    assert!(share.at_least(29));
    assert!(!share.at_least(30));
    assert!(Percentage::of(1, 3).at_least(33));
    assert!(!Percentage::of(1, 3).at_least(34));
    assert!(Percentage::of(0, 0).at_least(0));
    assert!(!Percentage::of(0, 0).at_least(1));
}

#[test]
fn pipeline_links_are_counted_and_built_from_ids() {
    let first = pipeline("10", "success", 100, vec![]);
    let second = pipeline("20", "success", 100, vec![]);
    let pipelines = vec![&first, &second];

    let counted = to_pipeline_links(&pipelines, "https://gitlab.com", "group/project");

    assert_eq!(counted.count, 2);
    assert_eq!(
        counted.links,
        vec![
            "https://gitlab.com/group/project/-/pipelines/10",
            "https://gitlab.com/group/project/-/pipelines/20",
        ]
    );
}

#[test]
fn known_predecessors_are_ranked_by_median_duration() {
    let candidates = vec![
        "lint".to_string(),
        "gone".to_string(),
        "build".to_string(),
        "unit".to_string(),
    ];
    let names = vec!["build".to_string(), "unit".to_string(), "lint".to_string()];
    let medians: Vec<u128> = vec![40, 15, 15];

    let predecessors = aggregate_predecessors(&candidates, &names, &medians);

    let listed: Vec<(&str, u128)> = predecessors
        .iter()
        .map(|p| (p.name.as_str(), p.duration_p50))
        .collect();
    assert_eq!(listed, vec![("build", 40), ("lint", 15), ("unit", 15)]);
}

#[test]
fn type_without_successful_run_has_no_jobs_and_zero_percentiles() {
    let failed = pipeline(
        "1",
        "failed",
        300,
        vec![job("1", "build", "build", 10, "FAILED", false)],
    );
    let pipelines = vec![&failed];

    let metrics = calculate_type_metrics(
        &pipelines,
        Percentage::of(1, 1),
        "https://gitlab.com",
        "group/project",
    );

    assert_eq!(metrics.total_pipelines, 1);
    assert_eq!(metrics.successful_pipelines.count, 0);
    assert_eq!(metrics.failed_pipelines.count, 1);
    assert_eq!(percent(metrics.success_rate), 0.0);
    assert_eq!(
        (metrics.duration_p50, metrics.duration_p95, metrics.duration_p99),
        (0, 0, 0)
    );
    assert_eq!(
        (
            metrics.time_to_feedback_p50,
            metrics.time_to_feedback_p95,
            metrics.time_to_feedback_p99
        ),
        (0, 0, 0)
    );
    assert!(metrics.jobs.is_empty());
}

#[test]
fn type_metrics_combine_latency_and_reliability() {
    // Two successful runs and one failed run of the same two jobs.
    let run1 = pipeline(
        "1",
        "success",
        100,
        vec![
            job("11", "build", "build", 10, "SUCCESS", false),
            job("12", "unit", "test", 20, "SUCCESS", false),
        ],
    );
    let run2 = pipeline(
        "2",
        "success",
        200,
        vec![
            job("21", "build", "build", 30, "SUCCESS", false),
            job("22", "unit", "test", 5, "FAILED", true),
            job("23", "unit", "test", 40, "SUCCESS", false),
        ],
    );
    let run3 = pipeline(
        "3",
        "failed",
        50,
        vec![
            job("31", "build", "build", 10, "SUCCESS", false),
            job("32", "unit", "test", 20, "FAILED", false),
        ],
    );
    let pipelines = vec![&run1, &run2, &run3];

    let metrics = calculate_type_metrics(
        &pipelines,
        Percentage::of(3, 4),
        "https://gitlab.com",
        "group/project",
    );

    assert_eq!(percent(metrics.percentage), 75.0);
    assert_eq!(metrics.total_pipelines, 3);
    assert_eq!(metrics.successful_pipelines.count, 2);
    assert_eq!(metrics.failed_pipelines.count, 1);
    assert_eq!((metrics.success_rate.part, metrics.success_rate.whole), (2, 3));
    // durations of the successful runs: [100, 200], ranks 1, 1, 1
    assert_eq!(
        (metrics.duration_p50, metrics.duration_p95, metrics.duration_p99),
        (200, 200, 200)
    );
    // earliest feedback per successful run: build at 10 and at 30
    assert_eq!(
        (
            metrics.time_to_feedback_p50,
            metrics.time_to_feedback_p95,
            metrics.time_to_feedback_p99
        ),
        (30, 30, 30)
    );

    assert_eq!(metrics.jobs.len(), 2);
    let unit = &metrics.jobs[0];
    let build = &metrics.jobs[1];
    assert_eq!(unit.name, "unit");
    assert_eq!(build.name, "build");

    // unit: durations [20, 40], finish times [10+20, 30+40]
    assert_eq!((unit.duration_p50, unit.duration_p95, unit.duration_p99), (40, 40, 40));
    assert_eq!(unit.time_to_feedback_p50, 70);
    assert_eq!(unit.time_to_feedback_p95, 70);
    assert_eq!(unit.predecessors.len(), 1);
    assert_eq!(unit.predecessors[0].name, "build");
    assert_eq!(unit.predecessors[0].duration_p50, 30);
    assert_eq!(unit.total_executions, 4);
    assert_eq!(unit.flaky_retries.count, 1);
    assert_eq!(
        unit.flaky_retries.links,
        vec!["https://gitlab.com/group/project/-/jobs/22"]
    );
    assert_eq!(unit.failed_executions.count, 1);
    assert_eq!(
        unit.failed_executions.links,
        vec!["https://gitlab.com/group/project/-/jobs/32"]
    );
    assert_eq!(percent(unit.flakiness_rate), 25.0);
    assert_eq!(percent(unit.failure_rate), 25.0);

    // build: durations [10, 30]
    assert_eq!((build.duration_p50, build.duration_p95, build.duration_p99), (30, 30, 30));
    assert_eq!(build.time_to_feedback_p95, 30);
    assert!(build.predecessors.is_empty());
    assert_eq!(build.total_executions, 3);
    assert_eq!(build.flaky_retries.count, 0);
    assert_eq!(build.failed_executions.count, 0);
}

#[test]
fn analysis_gives_the_same_result_twice() {
    let run1 = pipeline(
        "1",
        "success",
        100,
        vec![
            job("11", "build", "build", 10, "SUCCESS", false),
            job("12", "unit", "test", 20, "SUCCESS", false),
            job("13", "lint", "test", 20, "SUCCESS", false),
        ],
    );
    let run2 = pipeline(
        "2",
        "success",
        200,
        vec![
            job("21", "build", "build", 30, "SUCCESS", false),
            job("22", "lint", "test", 20, "SUCCESS", false),
            job("23", "unit", "test", 20, "SUCCESS", false),
        ],
    );
    let successful = vec![&run1, &run2];

    let (first, first_feedback) =
        aggregate_job_metrics(&successful, &successful, "https://gitlab.com", "g/p");
    let (second, second_feedback) =
        aggregate_job_metrics(&successful, &successful, "https://gitlab.com", "g/p");

    assert_eq!(first_feedback, second_feedback);
    let names = |jobs: &Vec<cilens::insights::JobMetrics>| -> Vec<String> {
        jobs.iter().map(|j| j.name.clone()).collect()
    };
    // unit and lint tie on every figure: the one met first comes first.
    assert_eq!(names(&first), vec!["unit", "lint", "build"]);
    assert_eq!(names(&first), names(&second));
    for (a, b) in first.iter().zip(second.iter()) {
        assert_eq!(a.time_to_feedback_p95, b.time_to_feedback_p95);
        assert_eq!(a.duration_p50, b.duration_p50);
    }
}

#[test]
fn first_feedback_is_the_earliest_among_all_jobs_of_a_run() {
    let mut quick = job("2", "lint", "build", 4, "FAILED", false);
    quick.needs = Some(vec![]);
    let mut slow = job("1", "build", "build", 10, "SUCCESS", false);
    slow.needs = Some(vec![]);
    let run = pipeline("1", "success", 60, vec![slow, quick]);
    let pipelines = vec![&run];

    let (jobs, feedback) = aggregate_job_metrics(&pipelines, &pipelines, "https://gitlab.com", "g/p");

    assert_eq!(feedback, (4, 4, 4));
    let names: Vec<&str> = jobs.iter().map(|j| j.name.as_str()).collect();
    assert_eq!(names, vec!["build", "lint"]);
    assert_eq!(jobs[1].time_to_feedback_p95, 4);
    assert_eq!(jobs[1].failed_executions.count, 1);

    let metrics = calculate_type_metrics(
        &pipelines,
        Percentage::of(1, 1),
        "https://gitlab.com",
        "g/p",
    );
    assert_eq!(
        (
            metrics.time_to_feedback_p50,
            metrics.time_to_feedback_p95,
            metrics.time_to_feedback_p99
        ),
        (4, 4, 4)
    );
}
