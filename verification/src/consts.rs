//! The layout of Wii partitions and of their hash tree.

use vstd::prelude::*;

verus! {

/// Size of a disc sector, and of a partition cluster.
pub const DISC_SECTOR_SIZE: usize = 0x8000;

/// Clusters per hash group, which share one entry of the H3 table.
pub const SECTORS_PER_GROUP: usize = 64;

/// Size of the hash block in front of every cluster's data.
pub const HASH_BLOCK: usize = 0x400;

/// Bytes of data per cluster.
pub const CLUSTER_DATA: usize = 0x7C00;

/// Where the content hash stands in a Wii TMD.
pub const TMD_CONTENT0_HASH: usize = 0x1F4;

/// Where the RSA-2048 signature of a Wii ticket or TMD starts.
pub const WII_SIG_START: usize = 0x004;

/// Where the RSA-2048 signature of a Wii ticket or TMD ends.
pub const WII_SIG_END: usize = 0x104;

} // verus!
