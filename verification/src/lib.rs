//! Analytics over CI/CD pipeline runs.
//!
//! Pipelines that ran the same set of jobs are grouped into types
//! ([`pipeline_types`]). For each type the library tells how long its runs
//! take and how long each job keeps a developer waiting
//! ([`pipeline_metrics`], [`job_metrics`], [`walk`]), and how reliably each
//! job runs ([`job_reliability`]). The result is a plain tree of figures
//! ([`insights`]), ordered by [`ranking`].
//!
//! All times are whole seconds and all rates are exact shares: nothing is
//! rounded on the way. The analysis never fails; what it makes of unusual
//! input is said where the input is read.
//!
//! Around the analysis stand the rules of the tool that uses it: how
//! fetched data becomes insights ([`provider`], [`github`]), how it is
//! fetched ([`fetch`]) and cached ([`cache`]), how a summary reads the
//! figures ([`summary`]), and the settings ([`config`]).

pub mod cache;
pub mod config;
pub mod fetch;
pub mod github;
pub mod insights;
pub mod job_metrics;
pub mod job_reliability;
pub mod links;
pub mod pipeline_metrics;
pub mod pipeline_types;
pub mod provider;
pub mod ranking;
pub mod summary;
pub mod text;
pub mod types;
pub mod walk;
