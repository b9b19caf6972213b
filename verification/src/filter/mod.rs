//! Filters on tracks and objects.

pub mod config;
pub mod fx;
pub mod object;
pub mod pipeline;
pub mod range;
pub mod scalable_topn;
pub mod stats;
pub mod topn;
pub mod track;
pub mod track_ext;
