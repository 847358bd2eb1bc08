//! Duplicate-file detection: content digests, records, and the grouping of records whose
//! contents agree on two independent digests.

pub mod duplication;
pub mod entry;
pub mod path;
pub mod pipeline;
pub mod properties;
pub mod utils;
