//! Snapshot-diff mirroring: the decision logic behind taking snapshots of an
//! upstream and a target store and transferring what the upstream holds.

pub mod error;
pub mod pypi;
pub mod rsync;
pub mod simple_diff_transfer;

use vstd::prelude::*;

verus! {

/// Canonical identity of one mirrorable object: a path relative to its store.
#[derive(Debug, Clone, PartialEq, Eq, Hash)]
pub struct SnapshotPath(pub String);

/// Absolute locator from which the bytes of one object can be fetched.
#[derive(Debug, Clone)]
pub struct TransferURL(pub String);

/// Parameters shared by every snapshot producer.
#[derive(Debug, Clone)]
pub struct SnapshotConfig {
    /// Most child indices fetched at the same time.
    pub concurrent_resolve: usize,
}

/// The keys of a snapshot, as character sequences.
pub open spec fn paths_view(v: Seq<SnapshotPath>) -> Seq<Seq<char>> {
    v.map_values(|p: SnapshotPath| p.0@)
}

/// A sequence of strings, as character sequences.
pub open spec fn strings_view(v: Seq<String>) -> Seq<Seq<char>> {
    v.map_values(|s: String| s@)
}

} // verus!
