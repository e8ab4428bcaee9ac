//! Git code archaeology: how the lines of a repository are spread over the time
//! in which they were written and over those who wrote them, at commits sampled
//! from its history.

pub mod aggregate;
pub mod authors;
pub mod blame;
pub mod cache;
pub mod charts;
pub mod files;
pub mod fx;
pub mod globs;
pub mod history;
pub mod output;
pub mod period;
pub mod porcelain;
pub mod profile;
pub mod remotes;
pub mod repo;
pub mod sample;
mod sealed;
pub mod results;
pub mod series;
pub mod serve;
pub mod snapshot;
pub mod sort;
pub mod ssh;
pub mod tags;
pub mod tally;
pub mod text;
pub mod tree;
pub mod types;
