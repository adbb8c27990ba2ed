//! Disk-usage accounting: a size model over `stat` attributes, hard-link
//! identity tracking, path and extension exclusion, a post-order directory
//! walk over an entry tree, and the size formatter that renders its results.
use vstd::prelude::*;

pub mod size;
pub mod decimal;
pub mod format;
pub mod threshold;
pub mod identity;
pub mod exclude;
pub mod walk;
pub mod laws;
pub mod report;
