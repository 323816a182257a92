//! A concurrent file and directory copy engine: planning, exclusion,
//! link strategy selection, overwrite policy and attribute preservation.

pub mod attrs;
pub mod cli;
pub mod error;
pub mod exclude;
pub mod link;
pub mod paths;
pub mod plan;
pub mod schedule;
pub mod text;
pub mod walk;
