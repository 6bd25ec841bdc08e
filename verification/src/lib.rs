//! Weighted job-interval scheduling over an options tree.
//!
//! Given a finite list of jobs, each a time interval with a profit, the
//! builder enumerates, for every reachable point in time, the jobs that may
//! legally follow, explores their continuations recursively, and caches an
//! accumulated profit and a best-next-step pointer in every node. The
//! selector then walks the resulting forest and extracts the single chain of
//! mutually non-overlapping jobs that the cached pointers describe.

pub mod builder;
pub mod candidates;
pub mod job;
pub mod laws;
pub mod rng;
pub mod selector;
pub mod tree;

pub use builder::get_options;
pub use job::Job;
pub use rng::gen_random_job;
pub use selector::best_schedule;
pub use selector::select_best;
pub use tree::Node;
