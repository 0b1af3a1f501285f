//! Decision logic of a GitHub pull-request watchdog: configuration parsing,
//! review evaluation, request retry and pagination policies, and the per-pull-request
//! decision procedure. The HTTP transport, the scheduler and the process entry point
//! live outside this crate and drive these functions.

pub mod text;
pub mod github;
pub mod config;
pub mod watcher;
