//! Summary statistics for a metrics library: a cheap, copyable descriptor
//! declares how a measured quantity is summarized — as a time-windowed
//! histogram or as a fixed-capacity streaming reservoir — and `build` turns
//! the descriptor into a live object with a unified record/query interface.

pub mod error;
pub mod heatmap;
pub mod percentile;
pub mod streamstats;
pub mod summary;
