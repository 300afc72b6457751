//! Test-fixture harness core for a blockchain node spawned as a child process:
//! telemetry extraction from the node's append-only structured log (block
//! events, per-block transaction counts, inter-block timing, execution step
//! counts), the fixture configuration grammar, and the runner surface the
//! generated test setup relies on.
//!
//! All functions work on plain byte sequences; reading the log file and
//! driving the child process are left to an unverified shell around this
//! library.

pub mod bytes;
pub mod config;
pub mod instant;
pub mod lines;
pub mod record;
pub mod runner;
pub mod telemetry;
