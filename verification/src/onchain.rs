//! On-chain spec versions: reading `spec_version` from runtime source, the
//! binary search for the block of a runtime upgrade, and recording upgrades.
//!
//! The chain queries themselves happen outside the library; the search is a
//! state machine whose steps are decided here.

use vstd::arithmetic::power2::{lemma2_to64, lemma_pow2_unfold, pow2};
use vstd::prelude::*;

use crate::bindings::{rfc3339_from_millis, spec_rfc3339_from_millis};
use crate::patterns::{SPEC_VERSION_PATTERN, capture_group, spec_group};
use crate::state::{
    Runtime, Upgrade, latest_block_number, latest_spec_version, max_block_number,
    max_spec_version,
};
use crate::text::{
    decimal, parse_u64, push_decimal, push_str, remove_char, remove_char_vec, spec_parse_u64,
    str_chars,
};

verus! {

// ---------------------------------------------------------------------------
// spec_version in source code
// ---------------------------------------------------------------------------

/// The spec version that the first `spec_version: N` of a source text gives,
/// underscores in `N` ignored.
pub open spec fn source_spec_version(content: Seq<char>) -> Option<u64> {
    match spec_group(SPEC_VERSION_PATTERN@, content, 1) {
        Some(t) => spec_parse_u64(remove_char(t, '_')),
        None => None,
    }
}

/// The number written by the digits of `raw`, underscores ignored.
pub fn spec_version_digits(raw: &str) -> (r: Option<u64>)
    ensures
        r == spec_parse_u64(remove_char(raw@, '_')),
{
    let cs = str_chars(raw);
    let digits = remove_char_vec(&cs, '_');
    assert(digits@.subrange(0, digits@.len() as int) =~= digits@);
    parse_u64(&digits, 0, digits.len())
}

/// Parse spec_version from a runtime lib.rs file.
pub fn parse_spec_version(content: &str) -> (r: Option<u64>)
    ensures
        r == source_spec_version(content@),
{
    let (_matched, group) = capture_group(SPEC_VERSION_PATTERN, content, 1);
    match group {
        Some(t) => spec_version_digits(t.as_str()),
        None => None,
    }
}

// ---------------------------------------------------------------------------
// Searching for the upgrade block
// ---------------------------------------------------------------------------

/// The block between `lower` and `upper` that the search asks about next,
/// while they are more than one block apart.
pub open spec fn spec_midpoint(lower: u32, upper: u32) -> Option<u32> {
    if upper - lower > 1 {
        Some((lower + (upper - lower) / 2) as u32)
    } else {
        None
    }
}

/// The range after learning the spec version of `mid`.
pub open spec fn spec_narrow(lower: u32, upper: u32, mid: u32, mid_spec: u32, target_spec: u32) -> (
    u32,
    u32,
) {
    if mid_spec >= target_spec {
        (lower, mid)
    } else {
        (mid, upper)
    }
}

/// The block to query next in the search, or `None` when the search is done
/// (the answer is then `upper`).
pub fn bisect_midpoint(lower: u32, upper: u32) -> (r: Option<u32>)
    requires
        lower <= upper,
    ensures
        r == spec_midpoint(lower, upper),
        r matches Some(mid) ==> lower < mid < upper,
{
    if upper - lower > 1 {
        Some(lower + (upper - lower) / 2)
    } else {
        None
    }
}

/// Narrow the range with the spec version found at `mid`.
pub fn bisect_narrow(lower: u32, upper: u32, mid: u32, mid_spec: u32, target_spec: u32) -> (r: (
    u32,
    u32,
))
    ensures
        r == spec_narrow(lower, upper, mid, mid_spec, target_spec),
{
    if mid_spec >= target_spec {
        (lower, mid)
    } else {
        (mid, upper)
    }
}

/// Where the search from `lower`..`upper` ends when block `b` has spec
/// version `spec_at(b)`.
pub open spec fn bisect_run(lower: u32, upper: u32, target_spec: u32, spec_at: spec_fn(u32) -> u32) -> u32
    decreases upper - lower,
{
    if lower <= upper {
        match spec_midpoint(lower, upper) {
            Some(mid) => {
                let (l, u) = spec_narrow(lower, upper, mid, spec_at(mid), target_spec);
                bisect_run(l, u, target_spec, spec_at)
            },
            None => upper,
        }
    } else {
        upper
    }
}

/// Spec versions never decrease along the blocks `lower..=upper`.
pub open spec fn monotone_between(spec_at: spec_fn(u32) -> u32, lower: u32, upper: u32) -> bool {
    forall|a: u32, b: u32| lower <= a <= b <= upper ==> #[trigger] spec_at(a) <= #[trigger] spec_at(b)
}

/// How many blocks the search from `lower`..`upper` queries.
pub open spec fn bisect_queries(lower: u32, upper: u32, target_spec: u32, spec_at: spec_fn(u32) -> u32) -> nat
    decreases upper - lower,
{
    if lower <= upper {
        match spec_midpoint(lower, upper) {
            Some(mid) => {
                let (l, u) = spec_narrow(lower, upper, mid, spec_at(mid), target_spec);
                1 + bisect_queries(l, u, target_spec, spec_at)
            },
            None => 0,
        }
    } else {
        0
    }
}

/// The search finds the upgrade block: when spec versions never decrease
/// along `lower..=upper` and `upper` runs the target spec version (or a
/// later one), the search ends at the first block after `lower` whose spec
/// version reaches the target (at `upper` itself when the range is a single
/// block), and it queries at most ceil(log2(upper - lower)) blocks: no more
/// than any `k` with 2^k >= upper - lower.
pub proof fn law_bisect_finds_first_block(
    lower: u32,
    upper: u32,
    target_spec: u32,
    spec_at: spec_fn(u32) -> u32,
)
    requires
        lower <= upper,
        monotone_between(spec_at, lower, upper),
        target_spec <= spec_at(upper),
    ensures
        lower <= bisect_run(lower, upper, target_spec, spec_at) <= upper,
        lower < upper ==> lower < bisect_run(lower, upper, target_spec, spec_at),
        lower == upper ==> bisect_run(lower, upper, target_spec, spec_at) == upper,
        spec_at(bisect_run(lower, upper, target_spec, spec_at)) >= target_spec,
        forall|b: u32|
            lower < b < bisect_run(lower, upper, target_spec, spec_at) ==> #[trigger] spec_at(b)
                < target_spec,
        forall|k: nat|
            #[trigger] pow2(k) >= upper - lower ==> bisect_queries(lower, upper, target_spec, spec_at)
                <= k,
    decreases upper - lower,
{
    let r = bisect_run(lower, upper, target_spec, spec_at);
    match spec_midpoint(lower, upper) {
        Some(mid) => {
            if spec_at(mid) >= target_spec {
                law_bisect_finds_first_block(lower, mid, target_spec, spec_at);
            } else {
                law_bisect_finds_first_block(mid, upper, target_spec, spec_at);
                assert forall|b: u32| lower < b < r implies #[trigger] spec_at(b) < target_spec by {
                    if b <= mid {
                        assert(spec_at(b) <= spec_at(mid));
                    }
                }
            }
            let (l, u) = spec_narrow(lower, upper, mid, spec_at(mid), target_spec);
            assert forall|k: nat| #[trigger] pow2(k) >= upper - lower implies bisect_queries(
                lower,
                upper,
                target_spec,
                spec_at,
            ) <= k by {
                if k == 0 {
                    lemma2_to64();
                } else {
                    lemma_pow2_unfold(k);
                    let k1 = (k - 1) as nat;
                    assert(u - l <= (upper - lower) - (upper - lower) / 2);
                    assert(pow2(k1) >= u - l);
                }
            }
        },
        None => {
            assert forall|k: nat| #[trigger] pow2(k) >= upper - lower implies bisect_queries(
                lower,
                upper,
                target_spec,
                spec_at,
            ) <= k by {}
        },
    }
}

// ---------------------------------------------------------------------------
// Upgrades
// ---------------------------------------------------------------------------

/// Whether the chain runs a spec version newer than every recorded upgrade.
pub fn has_new_upgrade(runtime: &Runtime, current_spec: u32) -> (r: bool)
    ensures
        r == (current_spec as u64 > max_spec_version(runtime.upgrades@)),
{
    current_spec as u64 > latest_spec_version(&runtime.upgrades)
}

/// The block the search for a new upgrade starts from: the last recorded
/// upgrade block (0 without one), taken modulo 2^32 as a `u32` block number.
pub fn search_start_block(runtime: &Runtime) -> (b: u32)
    ensures
        b as int == max_block_number(runtime.upgrades@) as int % 0x1_0000_0000,
{
    let last = latest_block_number(&runtime.upgrades);
    (last % 0x1_0000_0000) as u32
}

/// The first block executed with the new runtime: the one after the block in
/// which `set_code` ran.
pub fn first_upgraded_block(set_code_block: u32) -> (b: u32)
    requires
        set_code_block < u32::MAX,
    ensures
        b == set_code_block + 1,
{
    set_code_block + 1
}

/// The block explorer URL of a block.
pub open spec fn spec_block_url(explorer: Seq<char>, block: nat) -> Seq<char> {
    explorer + "/block/"@ + decimal(block)
}

/// The block explorer URL of block `block`.
pub fn block_url(explorer: &str, block: u32) -> (url: String)
    ensures
        url@ == spec_block_url(explorer@, block as nat),
{
    let mut url = String::new();
    push_str(&mut url, explorer);
    push_str(&mut url, "/block/");
    push_decimal(&mut url, block as u64);
    url
}

/// The ISO 8601 date of a block timestamp in milliseconds (the timestamp is
/// read as a signed 64-bit number, as the chain value is passed to chrono).
pub fn upgrade_date(millis: u64) -> (r: Option<String>)
    ensures
        match r {
            Some(s) => spec_rfc3339_from_millis(millis as i64) == Some(s@),
            None => spec_rfc3339_from_millis(millis as i64) is None,
        },
{
    rfc3339_from_millis(millis as i64)
}

/// Two runtimes that differ at most in their recorded upgrades.
pub open spec fn same_but_upgrades(a: Runtime, b: Runtime) -> bool {
    &&& a.runtime == b.runtime
    &&& a.short == b.short
    &&& a.repo == b.repo
    &&& a.branch == b.branch
    &&& a.cargo_lock_path == b.cargo_lock_path
    &&& a.cargo_toml_path == b.cargo_toml_path
    &&& a.spec_version_path == b.spec_version_path
    &&& a.network == b.network
    &&& a.rpc == b.rpc
    &&& a.ws == b.ws
    &&& a.field_name == b.field_name
    &&& a.block_explorer_url == b.block_explorer_url
    &&& a.in_repo == b.in_repo
    &&& a.last_seen_commit == b.last_seen_commit
    &&& a.downstream == b.downstream
}

/// Record a runtime upgrade first executed in block `block`.
pub fn record_upgrade(
    runtime: &mut Runtime,
    spec_version: u32,
    block: u32,
    block_hash: String,
    date: String,
)
    ensures
        final(runtime).upgrades@.len() == old(runtime).upgrades@.len() + 1,
        final(runtime).upgrades@.drop_last() == old(runtime).upgrades@,
        final(runtime).upgrades@.last().spec_version == spec_version,
        final(runtime).upgrades@.last().block_number == block,
        final(runtime).upgrades@.last().block_hash == block_hash,
        final(runtime).upgrades@.last().date == date,
        final(runtime).upgrades@.last().block_url@ == spec_block_url(
            old(runtime).block_explorer_url@,
            block as nat,
        ),
        same_but_upgrades(*final(runtime), *old(runtime)),
{
    let url = block_url(runtime.block_explorer_url.as_str(), block);
    runtime.upgrades.push(
        Upgrade {
            spec_version: spec_version as u64,
            block_number: block as u64,
            block_hash,
            date,
            block_url: url,
        },
    );
    assert(runtime.upgrades@.drop_last() =~= old(runtime).upgrades@);
}

/// Once an upgrade to spec version `s` is recorded, a chain still running
/// `s` shows no new upgrade, so the next run does not search again; recording
/// never lowers the latest recorded spec version.
pub proof fn law_recorded_spec_is_not_new(ups: Seq<Upgrade>, u: Upgrade)
    ensures
        max_spec_version(ups.push(u)) >= u.spec_version,
        max_spec_version(ups.push(u)) >= max_spec_version(ups),
{
    assert(ups.push(u).drop_last() =~= ups);
}

} // verus!
