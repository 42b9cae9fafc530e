//! Resolution and enrichment of the classroom live streams scheduled for a
//! set of accounts: work partitioning, teaching-period and term arithmetic,
//! live selection, deduplicated enrichment and aggregation of the results.

pub mod aggregate;
pub mod clock;
pub mod lesson;
pub mod live;
pub mod partition;
pub mod period;
pub mod progress;
pub mod room;
pub mod semester;
pub mod text;
pub mod video;
