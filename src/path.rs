//! The paths to scan, and the filter that narrows them by file extension.

pub mod pathfilter;
pub mod pathloader;
pub mod paths;

pub use pathfilter::{PathExtensionFilter, PatternError};
pub use pathloader::PathLoader;
pub use paths::Paths;
