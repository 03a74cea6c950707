//! Persistent tracker state.
//!
//! These are the plain data types the tracker reads and updates.  Loading and
//! saving them as JSON happens outside the library, on copies of these types
//! that carry the serialization derives.

use vstd::prelude::*;

use crate::maps::{KeyMap, KeySet};

verus! {

/// Transient downstream data, not persisted in state.json.
pub struct DownstreamInfo {
    /// Crate name -> resolved version from Cargo.lock.
    pub versions: KeyMap<String, String>,
    /// Set of crate names the runtime depends on.
    pub deps: KeySet<String>,
    /// Spec version parsed from the runtime source.
    pub spec_version: Option<u64>,
}

impl Default for DownstreamInfo {
    /// No versions, no dependencies, no spec version.
    fn default() -> (d: Self)
        ensures
            d.versions@ == Map::<Seq<char>, Seq<char>>::empty(),
            d.deps@ == Set::<Seq<char>>::empty(),
            d.spec_version is None,
    {
        DownstreamInfo { versions: KeyMap::new(), deps: KeySet::new(), spec_version: None }
    }
}

/// Top-level persistent tracker state.
pub struct State {
    /// GitHub Project V2 reference.
    pub project: Project,
    /// Tracked downstream runtimes.
    pub runtimes: Vec<Runtime>,
    /// ISO date of the most recently processed tag.
    pub last_processed_tags_date: Option<String>,
    /// Discovered releases with crate-level PR mappings.
    pub releases: Vec<Release>,
}

/// GitHub Project V2 coordinates.
pub struct Project {
    /// GitHub organization login.
    pub org: String,
    /// Project number.
    pub number: u64,
}

/// A downstream runtime to track.
pub struct Runtime {
    /// Runtime name (e.g. "asset-hub-polkadot").
    pub runtime: String,
    /// Short display label.
    pub short: String,
    /// GitHub `owner/repo`.
    pub repo: String,
    /// Git branch to track.
    pub branch: String,
    /// Path to Cargo.lock in the repo.
    pub cargo_lock_path: String,
    /// Path to the runtime's Cargo.toml.
    pub cargo_toml_path: String,
    /// Path to the file containing `spec_version`.
    pub spec_version_path: String,
    /// Chain network name.
    pub network: String,
    /// HTTP RPC endpoint.
    pub rpc: String,
    /// WebSocket RPC endpoint.
    pub ws: String,
    /// Project V2 field name for this runtime.
    pub field_name: String,
    /// Block explorer base URL.
    pub block_explorer_url: String,
    /// In-repo runtime (e.g. Westend in polkadot-sdk): skip version matching,
    /// treat all PRs as adopted since every PR lands on master directly.
    pub in_repo: bool,
    /// Last processed commit SHA.
    pub last_seen_commit: Option<String>,
    /// On-chain runtime upgrades discovered so far.
    pub upgrades: Vec<Upgrade>,
    /// Transient downstream info (not serialized).
    pub downstream: DownstreamInfo,
}

/// An on-chain runtime upgrade event.
pub struct Upgrade {
    /// Runtime spec version after the upgrade.
    pub spec_version: u64,
    /// Block number where the new runtime first executed.
    pub block_number: u64,
    /// Block hash.
    pub block_hash: String,
    /// ISO 8601 timestamp.
    pub date: String,
    /// Block explorer URL for the upgrade block.
    pub block_url: String,
}

/// A polkadot-sdk release with its crate version bumps.
pub struct Release {
    /// Git tag for this release.
    pub tag: String,
    /// Git tag of the previous release.
    pub prev_tag: String,
    /// Crates with version bumps in this release.
    pub crates: Vec<CrateRelease>,
}

/// A single crate's version bump within a release.
pub struct CrateRelease {
    /// Crate name.
    pub name: String,
    /// New version.
    pub version: String,
    /// Publish date.
    pub published: String,
    /// PR numbers that contributed to this crate's changes.
    pub prs: Vec<u64>,
}

/// The highest spec version among the upgrades, or 0 when there is none.
pub open spec fn max_spec_version(ups: Seq<Upgrade>) -> u64
    decreases ups.len(),
{
    if ups.len() == 0 {
        0
    } else {
        let m = max_spec_version(ups.drop_last());
        if ups.last().spec_version > m {
            ups.last().spec_version
        } else {
            m
        }
    }
}

/// The highest block number among the upgrades, or 0 when there is none.
pub open spec fn max_block_number(ups: Seq<Upgrade>) -> u64
    decreases ups.len(),
{
    if ups.len() == 0 {
        0
    } else {
        let m = max_block_number(ups.drop_last());
        if ups.last().block_number > m {
            ups.last().block_number
        } else {
            m
        }
    }
}

/// The highest spec version recorded among `upgrades`, or 0.
pub fn latest_spec_version(upgrades: &Vec<Upgrade>) -> (v: u64)
    ensures
        v == max_spec_version(upgrades@),
{
    let mut m: u64 = 0;
    let mut i: usize = 0;
    while i < upgrades.len()
        invariant
            i <= upgrades@.len(),
            m == max_spec_version(upgrades@.take(i as int)),
        decreases upgrades@.len() - i,
    {
        assert(upgrades@.take(i + 1).drop_last() =~= upgrades@.take(i as int));
        if upgrades[i].spec_version > m {
            m = upgrades[i].spec_version;
        }
        i += 1;
    }
    assert(upgrades@.take(i as int) =~= upgrades@);
    m
}

/// The highest block number recorded among `upgrades`, or 0.
pub fn latest_block_number(upgrades: &Vec<Upgrade>) -> (v: u64)
    ensures
        v == max_block_number(upgrades@),
{
    let mut m: u64 = 0;
    let mut i: usize = 0;
    while i < upgrades.len()
        invariant
            i <= upgrades@.len(),
            m == max_block_number(upgrades@.take(i as int)),
        decreases upgrades@.len() - i,
    {
        assert(upgrades@.take(i + 1).drop_last() =~= upgrades@.take(i as int));
        if upgrades[i].block_number > m {
            m = upgrades[i].block_number;
        }
        i += 1;
    }
    assert(upgrades@.take(i as int) =~= upgrades@);
    m
}

} // verus!
