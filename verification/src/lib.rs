//! The verified core of a two-cluster n-body simulation: the spatial
//! partition of the stars into sectors, the ordering keys of coordinates,
//! the grouping of sectors for worker threads, and the command-line check.

pub mod args;
pub mod groups;
pub mod order_key;
pub mod sectors;
pub mod stable_sort;
