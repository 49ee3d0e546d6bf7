//! Reading, writing and comparing CD-HIT `.clstr` cluster reports.
//!
//! A report lists a partition of sequence identifiers into clusters. Each
//! cluster starts with a `>Cluster N` line and continues with one member line
//! per identifier, `0\t150nt, >seqA... *`; the first member is the
//! representative and carries the ` *` marker.
//!
//! - [`reader`] turns report lines into an ordered list of clusters.
//! - [`writer`] renders clusters as report lines.
//! - [`diff`] compares two partitions as sets of sets of identifiers.
//! - [`order`] orders identifiers and clusters, so that canonical listings
//!   are lexicographic.
//! - [`roundtrip`] proves that what the writer writes, the reader reads back.
//! - [`text`] holds the character-level rules shared by the others.
use vstd::prelude::*;

pub mod text;
pub mod reader;
pub mod writer;
pub mod diff;
pub mod order;
pub mod roundtrip;

pub use reader::{member_id, parse_clusters_from_lines, ClstrReader};
pub use writer::{ClstrUnit, ClstrWriter};
pub use diff::{diff_partitions, report_split, to_set_of_sets, ClstrDiff, ClusterSets, REPORT_LIMIT};
