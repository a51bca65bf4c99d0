//! Aggregate statistics over a repository's commit history: per-contributor
//! activity, per-file change frequency, and the time-of-day/week distribution
//! of commits, all restricted to a configurable time window.

#![allow(unused_imports)]

pub mod commit;
pub mod config;
pub mod contributor;
pub mod files;
pub mod timedist;
pub mod seqsum;
pub mod window;

pub use commit::{CommitData, DiffBase};
pub use config::Config;
pub use contributor::{analyze_contributors, ContributorStats};
pub use files::{analyze_file_changes, FileStats};
pub use timedist::{analyze_time_distribution, TimeStats};
pub use window::is_within_days;
