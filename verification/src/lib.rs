//! Per-key aggregate statistics over `key;value` rows, computed range by range
//! and merged into one table whose contents do not depend on how the input was
//! partitioned.

pub mod station;
pub mod number;
pub mod key;
pub mod table;
pub mod scan;
pub mod plan;
pub mod pipeline;
