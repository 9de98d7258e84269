use cilens::insights::Percentage;
use cilens::pipeline_types::{
    create_pipeline_type, extract_characteristics, extract_job_signature, group_pipeline_types,
    same_list,
};
use cilens::types::{GitLabJob, GitLabPipeline};

fn create_job(name: &str, stage: &str) -> GitLabJob {
    GitLabJob {
        id: format!("job-{name}"),
        name: name.to_string(),
        stage: stage.to_string(),
        duration: 10,
        status: "success".to_string(),
        retried: false,
        needs: None,
    }
}

fn create_pipeline(id: &str, ref_: &str, source: &str, jobs: Vec<GitLabJob>) -> GitLabPipeline {
    let mut stages: Vec<String> = jobs.iter().map(|j| j.stage.clone()).collect();
    stages.sort();
    stages.dedup();

    GitLabPipeline {
        id: id.to_string(),
        ref_: ref_.to_string(),
        source: source.to_string(),
        status: "success".to_string(),
        duration: 100,
        stages,
        jobs,
    }
}

/// The share as a number of percent.
fn percent(share: Percentage) -> f64 {
    (share.part as f64 / share.whole as f64) * 100.0
}

#[test]
fn returns_empty_vec_for_pipeline_with_no_jobs() {
    // Arrange: Create a pipeline with no jobs
    let pipeline = create_pipeline("1", "main", "push", vec![]);

    // Act: Extract job signature
    let signature = extract_job_signature(&pipeline);

    // Assert: Signature should be empty
    assert!(signature.is_empty());
}

#[test]
fn returns_single_job_name_for_pipeline_with_one_job() {
    // Arrange: Create a pipeline with one job
    let job = create_job("build", "build");
    let pipeline = create_pipeline("1", "main", "push", vec![job]);

    // Act: Extract job signature
    let signature = extract_job_signature(&pipeline);

    // Assert: Signature should contain only the one job name
    assert_eq!(signature, vec!["build"]);
}

#[test]
fn deduplicates_jobs_with_same_name() {
    // Arrange: Create a pipeline with multiple jobs having the same name
    let job1 = create_job("test", "test");
    let job2 = create_job("test", "test");
    let job3 = create_job("test", "test");
    let pipeline = create_pipeline("1", "main", "push", vec![job1, job2, job3]);

    // Act: Extract job signature
    let signature = extract_job_signature(&pipeline);

    // Assert: Signature should contain only one instance of "test"
    assert_eq!(signature, vec!["test"]);
}

#[test]
fn returns_all_unique_job_names() {
    // Arrange: Create a pipeline with multiple jobs with different names
    let job1 = create_job("build", "build");
    let job2 = create_job("test", "test");
    let job3 = create_job("deploy", "deploy");
    let pipeline = create_pipeline("1", "main", "push", vec![job1, job2, job3]);

    // Act: Extract job signature
    let signature = extract_job_signature(&pipeline);

    // Assert: Signature should contain all three job names
    assert_eq!(signature.len(), 3);
    assert!(signature.contains(&"build".to_string()));
    assert!(signature.contains(&"test".to_string()));
    assert!(signature.contains(&"deploy".to_string()));
}

#[test]
fn returns_alphabetically_sorted_job_names() {
    // Arrange: Create jobs in non-alphabetical order
    let job1 = create_job("zebra", "stage1");
    let job2 = create_job("alpha", "stage2");
    let job3 = create_job("beta", "stage3");
    let pipeline = create_pipeline("1", "main", "push", vec![job1, job2, job3]);

    // Act: Extract job signature
    let signature = extract_job_signature(&pipeline);

    // Assert: BTreeSet should sort alphabetically
    assert_eq!(signature, vec!["alpha", "beta", "zebra"]);
}

#[test]
fn handles_mixed_duplicate_and_unique_jobs() {
    // Arrange: Create a pipeline with some duplicate and some unique job names
    let jobs = vec![
        create_job("build", "build"),
        create_job("test", "test"),
        create_job("build", "build"), // duplicate
        create_job("deploy", "deploy"),
        create_job("test", "test"), // duplicate
    ];
    let pipeline = create_pipeline("1", "main", "push", jobs);

    // Act: Extract job signature
    let signature = extract_job_signature(&pipeline);

    // Assert: Should deduplicate and sort
    assert_eq!(signature, vec!["build", "deploy", "test"]);
}

#[test]
fn returns_empty_vecs_for_empty_pipeline_list() {
    // Arrange: Empty pipeline list
    let pipelines: Vec<&GitLabPipeline> = vec![];

    // Act: Extract characteristics
    let (stages, ref_patterns, sources) = extract_characteristics(&pipelines);

    // Assert: All should be empty
    assert!(stages.is_empty());
    assert!(ref_patterns.is_empty());
    assert!(sources.is_empty());
}

#[test]
fn extracts_characteristics_from_single_pipeline() {
    // Arrange: Create a single pipeline
    let jobs = vec![create_job("build", "build"), create_job("test", "test")];
    let pipeline = create_pipeline("1", "main", "push", jobs);
    let pipelines = vec![&pipeline];

    // Act: Extract characteristics
    let (stages, ref_patterns, sources) = extract_characteristics(&pipelines);

    // Assert: Should extract all characteristics
    assert_eq!(stages.len(), 2);
    assert!(stages.contains(&"build".to_string()));
    assert!(stages.contains(&"test".to_string()));
    assert_eq!(ref_patterns, vec!["main"]);
    assert_eq!(sources, vec!["push"]);
}

#[test]
fn deduplicates_stages_across_pipelines() {
    // Arrange: Create multiple pipelines with overlapping stages
    let pipeline1 = create_pipeline(
        "1",
        "main",
        "push",
        vec![create_job("build", "build"), create_job("test", "test")],
    );
    let pipeline2 = create_pipeline(
        "2",
        "main",
        "push",
        vec![create_job("build", "build"), create_job("deploy", "deploy")],
    );
    let pipelines = vec![&pipeline1, &pipeline2];

    // Act: Extract characteristics
    let (stages, _, _) = extract_characteristics(&pipelines);

    // Assert: Should deduplicate stages
    assert_eq!(stages.len(), 3);
    assert!(stages.contains(&"build".to_string()));
    assert!(stages.contains(&"test".to_string()));
    assert!(stages.contains(&"deploy".to_string()));
}

#[test]
fn deduplicates_ref_patterns() {
    // Arrange: Create multiple pipelines with same and different refs
    let pipeline1 =
        create_pipeline("1", "main", "push", vec![create_job("build", "build")]);
    let pipeline2 = create_pipeline("2", "main", "push", vec![create_job("test", "test")]);
    let pipeline3 =
        create_pipeline("3", "develop", "push", vec![create_job("build", "build")]);
    let pipelines = vec![&pipeline1, &pipeline2, &pipeline3];

    // Act: Extract characteristics
    let (_, ref_patterns, _) = extract_characteristics(&pipelines);

    // Assert: Should deduplicate ref patterns
    assert_eq!(ref_patterns.len(), 2);
    assert!(ref_patterns.contains(&"main".to_string()));
    assert!(ref_patterns.contains(&"develop".to_string()));
}

#[test]
fn deduplicates_sources() {
    // Arrange: Create multiple pipelines with same and different sources
    let pipeline1 =
        create_pipeline("1", "main", "push", vec![create_job("build", "build")]);
    let pipeline2 = create_pipeline("2", "main", "push", vec![create_job("test", "test")]);
    let pipeline3 =
        create_pipeline("3", "main", "schedule", vec![create_job("build", "build")]);
    let pipelines = vec![&pipeline1, &pipeline2, &pipeline3];

    // Act: Extract characteristics
    let (_, _, sources) = extract_characteristics(&pipelines);

    // Assert: Should deduplicate sources
    assert_eq!(sources.len(), 2);
    assert!(sources.contains(&"push".to_string()));
    assert!(sources.contains(&"schedule".to_string()));
}

#[test]
fn collects_stages_from_all_jobs() {
    // Arrange: Create pipelines with multiple jobs in different stages
    let pipeline1 = create_pipeline(
        "1",
        "main",
        "push",
        vec![
            create_job("compile", "build"),
            create_job("unit-test", "test"),
            create_job("integration-test", "integration"),
        ],
    );
    let pipeline2 = create_pipeline(
        "2",
        "main",
        "push",
        vec![create_job("build", "build"), create_job("deploy", "deploy")],
    );
    let pipelines = vec![&pipeline1, &pipeline2];

    // Act: Extract characteristics
    let (stages, _, _) = extract_characteristics(&pipelines);

    // Assert: Should collect all unique stages
    assert_eq!(stages.len(), 4);
    assert!(stages.contains(&"build".to_string()));
    assert!(stages.contains(&"test".to_string()));
    assert!(stages.contains(&"integration".to_string()));
    assert!(stages.contains(&"deploy".to_string()));
}

#[test]
fn handles_pipelines_with_no_jobs() {
    // Arrange: Create pipelines with no jobs
    let pipeline1 = create_pipeline("1", "main", "push", vec![]);
    let pipeline2 = create_pipeline("2", "develop", "schedule", vec![]);
    let pipelines = vec![&pipeline1, &pipeline2];

    // Act: Extract characteristics
    let (stages, ref_patterns, sources) = extract_characteristics(&pipelines);

    // Assert: Stages should be empty, but refs and sources should be present
    assert!(stages.is_empty());
    assert_eq!(ref_patterns.len(), 2);
    assert_eq!(sources.len(), 2);
}

#[test]
fn returns_empty_vec_for_empty_pipeline_list() {
    // Arrange: Empty pipeline list
    let pipelines: Vec<GitLabPipeline> = vec![];

    // Act: Group pipeline types
    let result = group_pipeline_types(&pipelines, 0, "https://gitlab.com", "org/repo");

    // Assert: Should return empty vec
    assert!(result.is_empty());
}

#[test]
fn creates_single_type_for_identical_job_signatures() {
    // Arrange: Create pipelines with identical job signatures
    let pipeline1 = create_pipeline(
        "1",
        "main",
        "push",
        vec![create_job("build", "build"), create_job("test", "test")],
    );
    let pipeline2 = create_pipeline(
        "2",
        "main",
        "push",
        vec![create_job("build", "build"), create_job("test", "test")],
    );
    let pipeline3 = create_pipeline(
        "3",
        "develop",
        "push",
        vec![create_job("build", "build"), create_job("test", "test")],
    );
    let pipelines = vec![pipeline1, pipeline2, pipeline3];

    // Act: Group pipeline types
    let result = group_pipeline_types(&pipelines, 0, "https://gitlab.com", "org/repo");

    // Assert: Should create only one pipeline type
    assert_eq!(result.len(), 1);
    assert_eq!(result[0].metrics.total_pipelines, 3);
}

#[test]
fn creates_multiple_types_for_different_job_signatures() {
    // Arrange: Create pipelines with different job signatures
    let pipeline1 =
        create_pipeline("1", "main", "push", vec![create_job("build", "build")]);
    let pipeline2 = create_pipeline("2", "main", "push", vec![create_job("test", "test")]);
    let pipeline3 =
        create_pipeline("3", "main", "push", vec![create_job("deploy", "deploy")]);
    let pipelines = vec![pipeline1, pipeline2, pipeline3];

    // Act: Group pipeline types
    let result = group_pipeline_types(&pipelines, 0, "https://gitlab.com", "org/repo");

    // Assert: Should create three different pipeline types
    assert_eq!(result.len(), 3);
    assert!(result.iter().all(|pt| pt.metrics.total_pipelines == 1));
}

#[test]
fn filters_by_min_type_percentage() {
    // Arrange: Create 10 pipelines, 8 with one signature, 2 with another
    let mut pipelines = vec![];
    for i in 0..8 {
        pipelines.push(create_pipeline(
            &i.to_string(),
            "main",
            "push",
            vec![create_job("build", "build"), create_job("test", "test")],
        ));
    }
    for i in 8..10 {
        pipelines.push(create_pipeline(
            &i.to_string(),
            "main",
            "push",
            vec![create_job("deploy", "deploy")],
        ));
    }

    // Act: Group with 25% minimum threshold
    let result = group_pipeline_types(&pipelines, 25, "https://gitlab.com", "org/repo");

    // Assert: Only the type with 80% (8/10) should be included
    assert_eq!(result.len(), 1);
    assert_eq!(result[0].metrics.total_pipelines, 8);
}

#[test]
fn pipeline_types_calculates_percentage_correctly() {
    // Arrange: Create 100 pipelines with different distributions
    let mut pipelines = vec![];
    for i in 0..50 {
        pipelines.push(create_pipeline(
            &i.to_string(),
            "main",
            "push",
            vec![create_job("build", "build")],
        ));
    }
    for i in 50..80 {
        pipelines.push(create_pipeline(
            &i.to_string(),
            "main",
            "push",
            vec![create_job("test", "test")],
        ));
    }
    for i in 80..100 {
        pipelines.push(create_pipeline(
            &i.to_string(),
            "main",
            "push",
            vec![create_job("deploy", "deploy")],
        ));
    }

    // Act: Group pipeline types
    let result = group_pipeline_types(&pipelines, 0, "https://gitlab.com", "org/repo");

    // Assert: Should have correct percentages
    assert_eq!(result.len(), 3);
    let build_type = result
        .iter()
        .find(|pt| pt.metrics.total_pipelines == 50)
        .unwrap();
    let test_type = result
        .iter()
        .find(|pt| pt.metrics.total_pipelines == 30)
        .unwrap();
    let deploy_type = result
        .iter()
        .find(|pt| pt.metrics.total_pipelines == 20)
        .unwrap();

    assert!((percent(build_type.metrics.percentage) - 50.0).abs() < 0.01);
    assert!((percent(test_type.metrics.percentage) - 30.0).abs() < 0.01);
    assert!((percent(deploy_type.metrics.percentage) - 20.0).abs() < 0.01);
}

#[test]
fn sorts_by_total_pipelines_descending() {
    // Arrange: Create pipelines with different frequencies
    let mut pipelines = vec![];
    for i in 0..5 {
        pipelines.push(create_pipeline(
            &i.to_string(),
            "main",
            "push",
            vec![create_job("build", "build")],
        ));
    }
    for i in 5..15 {
        pipelines.push(create_pipeline(
            &i.to_string(),
            "main",
            "push",
            vec![create_job("test", "test")],
        ));
    }
    for i in 15..20 {
        pipelines.push(create_pipeline(
            &i.to_string(),
            "main",
            "push",
            vec![create_job("deploy", "deploy")],
        ));
    }

    // Act: Group pipeline types
    let result = group_pipeline_types(&pipelines, 0, "https://gitlab.com", "org/repo");

    // Assert: Should be sorted by total_pipelines descending
    assert_eq!(result.len(), 3);
    assert_eq!(result[0].metrics.total_pipelines, 10); // test
    assert_eq!(result[1].metrics.total_pipelines, 5); // deploy
    assert_eq!(result[2].metrics.total_pipelines, 5); // build
}

#[test]
fn handles_min_type_percentage_of_100() {
    // Arrange: Create pipelines with no type reaching 100%
    let pipeline1 =
        create_pipeline("1", "main", "push", vec![create_job("build", "build")]);
    let pipeline2 = create_pipeline("2", "main", "push", vec![create_job("test", "test")]);
    let pipelines = vec![pipeline1, pipeline2];

    // Act: Group with 100% threshold
    let result = group_pipeline_types(&pipelines, 100, "https://gitlab.com", "org/repo");

    // Assert: Should return empty since no type is 100%
    assert!(result.is_empty());
}

#[test]
fn groups_pipelines_with_same_jobs_in_different_order() {
    // Arrange: Create pipelines with same jobs but potentially different order
    let pipeline1 = create_pipeline(
        "1",
        "main",
        "push",
        vec![create_job("build", "build"), create_job("test", "test")],
    );
    let pipeline2 = create_pipeline(
        "2",
        "main",
        "push",
        vec![create_job("test", "test"), create_job("build", "build")],
    );
    let pipelines = vec![pipeline1, pipeline2];

    // Act: Group pipeline types
    let result = group_pipeline_types(&pipelines, 0, "https://gitlab.com", "org/repo");

    // Assert: Should group together since signatures are the same (BTreeSet sorts)
    assert_eq!(result.len(), 1);
    assert_eq!(result[0].metrics.total_pipelines, 2);
}

#[test]
fn signature_is_the_same_for_reordered_and_repeated_jobs() {
    let first = create_pipeline(
        "1",
        "main",
        "push",
        vec![create_job("A", "build"), create_job("B", "test")],
    );
    let second = create_pipeline(
        "2",
        "main",
        "push",
        vec![
            create_job("B", "test"),
            create_job("A", "build"),
            create_job("A", "build"),
        ],
    );

    let a = extract_job_signature(&first);
    let b = extract_job_signature(&second);

    assert_eq!(a, vec!["A", "B"]);
    assert!(same_list(&a, &b));

    let result = group_pipeline_types(&vec![first, second], 0, "https://gitlab.com", "org/repo");
    assert_eq!(result.len(), 1);
    assert_eq!(result[0].metrics.total_pipelines, 2);
}

#[test]
fn signature_sorts_by_bytes() {
    // Upper case sorts before lower case, and a prefix before what extends it.
    let pipeline = create_pipeline(
        "1",
        "main",
        "push",
        vec![
            create_job("build", "s"),
            create_job("Build", "s"),
            create_job("b", "s"),
            create_job("éclair", "s"),
            create_job("", "s"),
            create_job("zz", "s"),
        ],
    );

    let signature = extract_job_signature(&pipeline);

    assert_eq!(signature, vec!["", "Build", "b", "build", "zz", "éclair"]);
}

#[test]
fn same_list_tells_lists_apart() {
    let a = vec!["x".to_string(), "y".to_string()];
    let b = vec!["x".to_string(), "y".to_string()];
    let c = vec!["x".to_string(), "z".to_string()];
    let d = vec!["x".to_string()];
    assert!(same_list(&a, &b));
    assert!(!same_list(&a, &c));
    assert!(!same_list(&a, &d));
}

#[test]
fn threshold_keeps_the_large_type_only() {
    let mut pipelines = vec![];
    for i in 0..8 {
        pipelines.push(create_pipeline(
            &i.to_string(),
            "main",
            "push",
            vec![create_job("build", "build"), create_job("test", "test")],
        ));
    }
    for i in 8..10 {
        pipelines.push(create_pipeline(
            &i.to_string(),
            "main",
            "push",
            vec![create_job("deploy", "deploy")],
        ));
    }

    let kept = group_pipeline_types(&pipelines, 25, "https://gitlab.com", "org/repo");
    assert_eq!(kept.len(), 1);
    assert_eq!(kept[0].metrics.total_pipelines, 8);
    assert_eq!(kept[0].metrics.percentage.part, 8);
    assert_eq!(kept[0].metrics.percentage.whole, 10);
    assert_eq!(percent(kept[0].metrics.percentage), 80.0);

    let none = group_pipeline_types(&pipelines, 100, "https://gitlab.com", "org/repo");
    assert_eq!(none.len(), 0);
}

#[test]
fn threshold_is_met_at_the_exact_share() {
    let mut pipelines = vec![];
    for i in 0..29 {
        pipelines.push(create_pipeline(
            &i.to_string(),
            "main",
            "push",
            vec![create_job("build", "build")],
        ));
    }
    for i in 29..100 {
        pipelines.push(create_pipeline(
            &i.to_string(),
            "main",
            "push",
            vec![create_job("test", "test")],
        ));
    }

    let at = group_pipeline_types(&pipelines, 29, "https://gitlab.com", "org/repo");
    assert_eq!(at.len(), 2);
    assert_eq!(at[0].metrics.total_pipelines, 71);
    assert_eq!(at[1].metrics.total_pipelines, 29);

    let above = group_pipeline_types(&pipelines, 30, "https://gitlab.com", "org/repo");
    assert_eq!(above.len(), 1);
    assert_eq!(above[0].metrics.total_pipelines, 71);
}

#[test]
fn types_of_equal_size_keep_the_order_of_first_occurrence() {
    let pipelines = vec![
        create_pipeline("1", "main", "push", vec![create_job("build", "build")]),
        create_pipeline("2", "main", "push", vec![create_job("deploy-prod", "deploy")]),
        create_pipeline("3", "main", "push", vec![create_job("run-tests", "test")]),
    ];

    let result = group_pipeline_types(&pipelines, 0, "https://gitlab.com", "org/repo");

    assert_eq!(result.len(), 3);
    assert_eq!(result[0].label, "Unknown");
    assert_eq!(result[1].label, "Production");
    assert_eq!(result[2].label, "Development");
}

#[test]
fn characteristics_keep_the_order_of_first_occurrence() {
    let pipeline1 = create_pipeline(
        "1",
        "main",
        "push",
        vec![create_job("t", "test"), create_job("b", "build")],
    );
    let pipeline2 = create_pipeline(
        "2",
        "develop",
        "schedule",
        vec![create_job("b", "build"), create_job("d", "deploy")],
    );
    let pipelines = vec![&pipeline1, &pipeline2];

    let (stages, ref_patterns, sources) = extract_characteristics(&pipelines);

    assert_eq!(stages, vec!["test", "build", "deploy"]);
    assert_eq!(ref_patterns, vec!["main", "develop"]);
    assert_eq!(sources, vec!["push", "schedule"]);
}

#[test]
fn created_type_has_label_share_and_links() {
    let pipeline1 = create_pipeline(
        "gid://gitlab/Ci::Pipeline/1",
        "main",
        "push",
        vec![create_job("deploy-prod", "deploy")],
    );
    let mut pipeline2 = create_pipeline(
        "gid://gitlab/Ci::Pipeline/2",
        "main",
        "web",
        vec![create_job("deploy-prod", "deploy")],
    );
    pipeline2.status = "failed".to_string();
    let pipelines = vec![&pipeline1, &pipeline2];

    let created = create_pipeline_type(
        &vec!["deploy-prod".to_string()],
        &pipelines,
        8,
        "https://gitlab.com",
        "org/repo",
    );

    assert_eq!(created.label, "Production");
    assert_eq!(created.stages, vec!["deploy"]);
    assert_eq!(created.ref_patterns, vec!["main"]);
    assert_eq!(created.sources, vec!["push", "web"]);
    assert_eq!(created.metrics.percentage.part, 2);
    assert_eq!(created.metrics.percentage.whole, 8);
    assert_eq!(percent(created.metrics.percentage), 25.0);
    assert_eq!(created.metrics.total_pipelines, 2);
    assert_eq!(created.metrics.successful_pipelines.count, 1);
    assert_eq!(
        created.metrics.successful_pipelines.links,
        vec!["https://gitlab.com/org/repo/-/pipelines/1"]
    );
    assert_eq!(created.metrics.failed_pipelines.count, 1);
    assert_eq!(
        created.metrics.failed_pipelines.links,
        vec!["https://gitlab.com/org/repo/-/pipelines/2"]
    );
    assert_eq!(percent(created.metrics.success_rate), 50.0);
}

#[test]
fn grouping_gives_the_same_types_twice() {
    let mut pipelines = vec![];
    for i in 0..6 {
        pipelines.push(create_pipeline(
            &i.to_string(),
            "main",
            "push",
            vec![create_job("build", "build"), create_job("deploy-prod", "deploy")],
        ));
    }
    for i in 6..12 {
        pipelines.push(create_pipeline(
            &i.to_string(),
            "develop",
            "schedule",
            vec![create_job("unit-test", "test")],
        ));
    }

    let first = group_pipeline_types(&pipelines, 10, "https://gitlab.com", "org/repo");
    let second = group_pipeline_types(&pipelines, 10, "https://gitlab.com", "org/repo");

    let outline = |types: &Vec<cilens::insights::PipelineType>| -> Vec<(String, usize, Vec<String>)> {
        types
            .iter()
            .map(|t| {
                (
                    t.label.clone(),
                    t.metrics.total_pipelines,
                    t.metrics.successful_pipelines.links.clone(),
                )
            })
            .collect()
    };
    assert_eq!(outline(&first), outline(&second));
    assert_eq!(first.len(), 2);
    assert_eq!(first[0].label, "Production");
    assert_eq!(first[1].label, "Development");
}
