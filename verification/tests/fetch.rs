use cilens::fetch::{
    decide, is_finished_run, next_page_size, runs_page_size, wants_next_page,
    wants_next_runs_page, Attempt, Step, MAX_RETRIES, PAGE_SIZE, RETRY_DELAY_SECONDS,
};

#[test]
fn transient_failure_is_retried_up_to_the_limit() {
    let attempt = Attempt::NoAnswer { transient: true };
    assert_eq!(decide(0, attempt), Step::Retry { delay_seconds: 10 });
    assert_eq!(decide(29, attempt), Step::Retry { delay_seconds: RETRY_DELAY_SECONDS });
    assert_eq!(decide(30, attempt), Step::FailWithoutAnswer);
    assert_eq!(decide(u32::MAX, attempt), Step::FailWithoutAnswer);
}

#[test]
fn other_failure_ends_the_request() {
    assert_eq!(decide(0, Attempt::NoAnswer { transient: false }), Step::FailWithoutAnswer);
}

#[test]
fn busy_server_is_retried_up_to_the_limit() {
    for status in [429u16, 500, 502, 503, 599] {
        let attempt = Attempt::Answer { status };
        assert_eq!(decide(0, attempt), Step::Retry { delay_seconds: 10 });
        assert_eq!(decide(MAX_RETRIES - 1, attempt), Step::Retry { delay_seconds: 10 });
        assert_eq!(
            decide(MAX_RETRIES, attempt),
            Step::FailAfterRetries { status, retries: 30 }
        );
    }
}

#[test]
fn refusal_ends_the_request() {
    for status in [400u16, 401, 404, 428, 430, 499, 300, 199, 600] {
        assert_eq!(
            decide(0, Attempt::Answer { status }),
            Step::FailWithStatus { status }
        );
    }
}

#[test]
fn success_is_read() {
    for status in [200u16, 201, 204, 299] {
        assert_eq!(decide(5, Attempt::Answer { status }), Step::ReadAnswer);
    }
}

#[test]
fn page_size_is_what_is_missing_up_to_a_page() {
    assert_eq!(next_page_size(500, 0, None), Some(50));
    assert_eq!(next_page_size(500, 460, None), Some(40));
    assert_eq!(next_page_size(500, 450, None), Some(PAGE_SIZE));
    assert_eq!(next_page_size(500, 499, Some(499)), Some(1));
    assert_eq!(next_page_size(500, 500, None), None);
    assert_eq!(next_page_size(500, 600, None), None);
    assert_eq!(next_page_size(0, 0, None), None);
}

#[test]
fn page_size_is_none_once_all_fetchers_have_enough() {
    assert_eq!(next_page_size(500, 100, Some(500)), None);
    assert_eq!(next_page_size(500, 100, Some(501)), None);
    assert_eq!(next_page_size(500, 100, Some(499)), Some(50));
}

#[test]
fn next_page_is_wanted_below_the_limit_while_pages_remain() {
    assert!(wants_next_page(500, 50, true));
    assert!(!wants_next_page(500, 50, false));
    assert!(!wants_next_page(500, 500, true));
    assert!(!wants_next_page(500, 550, true));
}

#[test]
fn runs_page_is_full_unless_fewer_are_wanted() {
    assert_eq!(runs_page_size(500), 100);
    assert_eq!(runs_page_size(100), 100);
    assert_eq!(runs_page_size(99), 99);
    assert_eq!(runs_page_size(0), 0);
}

#[test]
fn run_counts_once_completed_with_a_conclusion() {
    assert!(is_finished_run("completed", true));
    assert!(!is_finished_run("completed", false));
    assert!(!is_finished_run("in_progress", true));
    assert!(!is_finished_run("Completed", true));
}

#[test]
fn next_runs_page_follows_a_full_page_below_the_limit() {
    assert!(wants_next_runs_page(100, 100, 100, 500));
    assert!(!wants_next_runs_page(99, 100, 99, 500));
    assert!(!wants_next_runs_page(100, 100, 500, 500));
    assert!(!wants_next_runs_page(0, 0, 0, 0));
}
