//! The rules by which pipelines are fetched: how much to ask for, when to
//! go on, and what to do with a request that did not succeed. The requests
//! themselves are made elsewhere.

use vstd::prelude::*;
use crate::text::same_text;

verus! {

/// How often a request is tried again.
pub const MAX_RETRIES: u32 = 30;

/// Seconds to wait before a request is tried again.
pub const RETRY_DELAY_SECONDS: u64 = 10;

/// Requests that may be under way at one time.
pub const MAX_CONCURRENT_REQUESTS: usize = 500;

/// Items that one request asks for at most.
pub const PAGE_SIZE: usize = 50;

/// What came of sending one request.
#[derive(Debug, Clone, Copy, PartialEq, Eq, Structural)]
pub enum Attempt {
    /// No answer came. `transient` tells whether the failure lay in
    /// connecting, in a timeout or in sending the request.
    NoAnswer { transient: bool },
    /// An answer came with this HTTP status.
    Answer { status: u16 },
}

/// What to do next.
#[derive(Debug, Clone, Copy, PartialEq, Eq, Structural)]
pub enum Step {
    /// Wait for `delay_seconds`, then send the request again.
    Retry { delay_seconds: u64 },
    /// Give up with the failure that sending reported.
    FailWithoutAnswer,
    /// Give up: the server kept answering with `status`.
    FailAfterRetries { status: u16, retries: u32 },
    /// Give up: the server refused with `status`.
    FailWithStatus { status: u16 },
    /// Read what the server sent.
    ReadAnswer,
}

/// Whether the server asks to come back later: too many requests, or an
/// error on its side.
pub open spec fn asks_to_wait(status: u16) -> bool {
    status == 429 || 500 <= status <= 599
}

/// Whether the status reports success.
pub open spec fn reports_success(status: u16) -> bool {
    200 <= status <= 299
}

/// The step that follows an attempt, after `retry_count` retries.
pub open spec fn step_after(retry_count: u32, attempt: Attempt) -> Step {
    match attempt {
        Attempt::NoAnswer { transient } => if transient && retry_count < MAX_RETRIES {
            Step::Retry { delay_seconds: RETRY_DELAY_SECONDS }
        } else {
            Step::FailWithoutAnswer
        },
        Attempt::Answer { status } => if asks_to_wait(status) {
            if retry_count < MAX_RETRIES {
                Step::Retry { delay_seconds: RETRY_DELAY_SECONDS }
            } else {
                Step::FailAfterRetries { status, retries: MAX_RETRIES }
            }
        } else if reports_success(status) {
            Step::ReadAnswer
        } else {
            Step::FailWithStatus { status }
        },
    }
}

/// Decides what follows an attempt to send a request, after `retry_count`
/// retries: a transient failure and a server that asks to wait are tried
/// again, up to the limit of retries; any other failure ends the request.
pub fn decide(retry_count: u32, attempt: Attempt) -> (step: Step)
    ensures
        step == step_after(retry_count, attempt),
{
    match attempt {
        Attempt::NoAnswer { transient } => {
            if transient && retry_count < MAX_RETRIES {
                Step::Retry { delay_seconds: RETRY_DELAY_SECONDS }
            } else {
                Step::FailWithoutAnswer
            }
        },
        Attempt::Answer { status } => {
            if status == 429 || (500 <= status && status <= 599) {
                if retry_count < MAX_RETRIES {
                    Step::Retry { delay_seconds: RETRY_DELAY_SECONDS }
                } else {
                    Step::FailAfterRetries { status, retries: MAX_RETRIES }
                }
            } else if 200 <= status && status <= 299 {
                Step::ReadAnswer
            } else {
                Step::FailWithStatus { status }
            }
        },
    }
}

/// A request is retried at most `MAX_RETRIES` times: once that many
/// retries are behind, no attempt leads to another.
pub proof fn lemma_retries_end(retry_count: u32, attempt: Attempt)
    requires
        retry_count >= MAX_RETRIES,
    ensures
        !(step_after(retry_count, attempt) is Retry),
{
}

/// How many pipelines the next request asks for, where `limit` are wanted,
/// `fetched` are at hand and all fetchers together have `fetched_by_all`;
/// `None` where no further request is due.
pub open spec fn page_size_for(limit: nat, fetched: nat, fetched_by_all: Option<nat>) -> Option<
    nat,
> {
    if fetched_by_all matches Some(all) && all >= limit {
        None
    } else if fetched >= limit {
        None
    } else if limit - fetched < PAGE_SIZE {
        Some((limit - fetched) as nat)
    } else {
        Some(PAGE_SIZE as nat)
    }
}

/// Tells how many pipelines to ask for next: what is still missing, but no
/// more than a page; nothing once the limit is reached, by this fetcher or
/// by all together.
pub fn next_page_size(limit: usize, fetched: usize, fetched_by_all: Option<usize>) -> (size:
    Option<usize>)
    ensures
        match size {
            Some(n) => page_size_for(
                limit as nat,
                fetched as nat,
                match fetched_by_all {
                    Some(all) => Some(all as nat),
                    None => None,
                },
            ) == Some(n as nat) && 0 < n <= PAGE_SIZE,
            None => page_size_for(
                limit as nat,
                fetched as nat,
                match fetched_by_all {
                    Some(all) => Some(all as nat),
                    None => None,
                },
            ) is None,
        },
{
    if let Some(all) = fetched_by_all {
        if all >= limit {
            return None;
        }
    }
    if fetched >= limit {
        return None;
    }
    let remaining = limit - fetched;
    if remaining < PAGE_SIZE {
        Some(remaining)
    } else {
        Some(PAGE_SIZE)
    }
}

/// Whether another page is fetched after one that brought the number of
/// pipelines at hand to `fetched`: not once the limit is reached, nor
/// after the last page.
pub fn wants_next_page(limit: usize, fetched: usize, has_next_page: bool) -> (more: bool)
    ensures
        more == (fetched < limit && has_next_page),
{
    fetched < limit && has_next_page
}

/// Workflow runs that one request asks for at most.
pub const RUNS_PER_PAGE: usize = 100;

/// How many workflow runs one request asks for where `limit` are wanted:
/// a full page, or `limit` where that is less.
pub fn runs_page_size(limit: usize) -> (size: usize)
    ensures
        size == if limit < RUNS_PER_PAGE {
            limit
        } else {
            RUNS_PER_PAGE
        },
{
    if limit < RUNS_PER_PAGE {
        limit
    } else {
        RUNS_PER_PAGE
    }
}

/// Whether a workflow run counts: it has completed and come to a
/// conclusion.
pub fn is_finished_run(status: &str, has_conclusion: bool) -> (finished: bool)
    ensures
        finished == (has_conclusion && status@ == "completed"@),
{
    has_conclusion && same_text(status, "completed")
}

/// Whether another page of workflow runs is fetched after one that held
/// `received` runs and brought the number of runs at hand to `fetched`:
/// not after a page that was not full, nor once the limit is reached.
pub fn wants_next_runs_page(received: usize, page_size: usize, fetched: usize, limit: usize) -> (more:
    bool)
    ensures
        more == (received >= page_size && fetched < limit),
{
    received >= page_size && fetched < limit
}

} // verus!
