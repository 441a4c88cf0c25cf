//! Disk usage accounting for directory walks.
//!
//! A walk reports the entries that it reaches; `DirScan` and `GroupScan` take the reports
//! in, say where the walk goes on, and add up what the entries take on disk. A scan of
//! several directories is planned first: `group_paths` finds the paths that one walk
//! reaches together, `estimate_path_weight` tells how much each walk costs, and
//! `plan_jobs` divides the worker threads among the walks. `ResultTable` collects what
//! the walks found.

pub mod accounting;
pub mod arith;
pub mod delivery;
pub mod dir_scan;
pub mod entry;
pub mod error;
pub mod group_scan;
pub mod grouping;
pub mod inputs;
pub mod jobs;
pub mod keyset;
pub mod order;
pub mod parts;
pub mod path;
pub mod results;
pub mod sharing;
pub mod threads;
pub mod walk_rules;
pub mod weight;
pub mod whole_scan;
pub mod worker;
pub mod workers;
