//! Per-PR deployment status for the GitHub Project annotation.
//!
//! The status of a PR on a runtime follows a small state machine:
//!   (empty)                        - crates not picked up by downstream
//!   pending > v{onchain_spec}      - picked up, spec not bumped
//!   pending v{new_spec}            - picked up, spec bumped, not enacted on-chain
//!   v{spec}                        - enacted on-chain
//! Partial adoption appends ` (N/M crates)`.

use vstd::prelude::*;

use crate::maps::{KeyMap, KeySet, vec_contains_string};
use crate::state::{
    CrateRelease, Release, Runtime, State, Upgrade, latest_spec_version, max_spec_version,
};
use crate::text::{
    decimal, lemma_seq_lt_total, lemma_seq_lt_transitive, push_decimal, push_str, seq_lt,
    str_less,
};

verus! {

broadcast use vstd::seq_lib::group_seq_properties;

/// Crate name -> the release versions that contain a PR.
pub type CrateVersions = Map<Seq<char>, Seq<Seq<char>>>;

/// PR number -> crate name -> release versions.
pub type PrCrates = Map<u64, CrateVersions>;

// ---------------------------------------------------------------------------
// The PR -> crate -> versions index
// ---------------------------------------------------------------------------

/// Records that `version` of crate `name` contains PR `pr`; a version already
/// recorded is not recorded again.
pub open spec fn record_version(m: PrCrates, pr: u64, name: Seq<char>, version: Seq<char>) -> PrCrates {
    let inner = if m.contains_key(pr) {
        m[pr]
    } else {
        Map::empty()
    };
    let vs = if inner.contains_key(name) {
        inner[name]
    } else {
        Seq::empty()
    };
    let vs2 = if vs.contains(version) {
        vs
    } else {
        vs.push(version)
    };
    m.insert(pr, inner.insert(name, vs2))
}

/// Records one crate release for each of its PRs, in order.
pub open spec fn record_prs(m: PrCrates, prs: Seq<u64>, name: Seq<char>, version: Seq<char>) -> PrCrates
    decreases prs.len(),
{
    if prs.len() == 0 {
        m
    } else {
        record_version(record_prs(m, prs.drop_last(), name, version), prs.last(), name, version)
    }
}

/// Records the crate releases, in order.
pub open spec fn record_crates(m: PrCrates, crates: Seq<CrateRelease>) -> PrCrates
    decreases crates.len(),
{
    if crates.len() == 0 {
        m
    } else {
        let c = crates.last();
        record_prs(record_crates(m, crates.drop_last()), c.prs@, c.name@, c.version@)
    }
}

/// Records the releases, in order.
pub open spec fn record_releases(m: PrCrates, releases: Seq<Release>) -> PrCrates
    decreases releases.len(),
{
    if releases.len() == 0 {
        m
    } else {
        record_crates(record_releases(m, releases.drop_last()), releases.last().crates@)
    }
}

/// For every PR, the crates it touches and all known release versions that
/// contain it, each version once, in the order the releases list them.
pub open spec fn pr_crate_index(releases: Seq<Release>) -> PrCrates {
    record_releases(Map::empty(), releases)
}

/// Applies `record_version` to the executable index.
fn record_one(
    m: &mut KeyMap<u64, KeyMap<String, Vec<String>>>,
    pr: u64,
    name: &String,
    version: &String,
)
    ensures
        final(m)@ == record_version(old(m)@, pr, name@, version@),
{
    let ghost m0 = m@;
    let mut inner = match m.remove(&pr) {
        Some(x) => x,
        None => KeyMap::new(),
    };
    let ghost inner0 = inner@;
    assert(inner0 == (if m0.contains_key(pr) {
        m0[pr]
    } else {
        Map::empty()
    }));
    let mut vs = match inner.remove(name) {
        Some(x) => x,
        None => Vec::new(),
    };
    let ghost vs0 = vs.deep_view();
    assert(vs0 == (if inner0.contains_key(name@) {
        inner0[name@]
    } else {
        Seq::<Seq<char>>::empty()
    })) by {
        if !inner0.contains_key(name@) {
            assert(vs.deep_view() =~= Seq::<Seq<char>>::empty());
        }
    }
    if !vec_contains_string(&vs, version) {
        vs.push(version.clone());
        assert(vs.deep_view() =~= vs0.push(version@));
    }
    inner.insert(name.clone(), vs);
    assert(inner@ =~= inner0.insert(name@, if vs0.contains(version@) {
        vs0
    } else {
        vs0.push(version@)
    }));
    m.insert(pr, inner);
    assert(m@ =~= record_version(m0, pr, name@, version@));
}

/// Build a lookup from PR number to the crates it touches and all known
/// release versions containing that PR. All versions are collected rather
/// than just the earliest because polkadot-sdk publishes crate versions from
/// independent release branches, and a higher version number does not
/// guarantee it contains all changes from a lower one.
pub fn build_pr_crate_map(state: &State) -> (m: KeyMap<u64, KeyMap<String, Vec<String>>>)
    ensures
        m@ == pr_crate_index(state.releases@),
{
    let mut m: KeyMap<u64, KeyMap<String, Vec<String>>> = KeyMap::new();
    let ghost releases = state.releases@;
    let mut i: usize = 0;
    while i < state.releases.len()
        invariant
            releases == state.releases@,
            i <= releases.len(),
            m@ == record_releases(Map::empty(), releases.take(i as int)),
        decreases releases.len() - i,
    {
        let release = &state.releases[i];
        let ghost base = m@;
        let mut j: usize = 0;
        while j < release.crates.len()
            invariant
                j <= release.crates@.len(),
                m@ == record_crates(base, release.crates@.take(j as int)),
            decreases release.crates@.len() - j,
        {
            let c = &release.crates[j];
            let ghost base2 = m@;
            let mut k: usize = 0;
            while k < c.prs.len()
                invariant
                    k <= c.prs@.len(),
                    m@ == record_prs(base2, c.prs@.take(k as int), c.name@, c.version@),
                decreases c.prs@.len() - k,
            {
                record_one(&mut m, c.prs[k], &c.name, &c.version);
                assert(c.prs@.take(k + 1).drop_last() =~= c.prs@.take(k as int));
                k += 1;
            }
            assert(c.prs@.take(k as int) =~= c.prs@);
            assert(release.crates@.take(j + 1).drop_last() =~= release.crates@.take(j as int));
            j += 1;
        }
        assert(release.crates@.take(j as int) =~= release.crates@);
        assert(releases.take(i + 1).drop_last() =~= releases.take(i as int));
        i += 1;
    }
    assert(releases.take(i as int) =~= releases);
    m
}

// ---------------------------------------------------------------------------
// What the indexes hold
// ---------------------------------------------------------------------------

/// The index records version `v` of crate `name` for PR `pr`.
pub open spec fn index_has(m: PrCrates, pr: u64, name: Seq<char>, v: Seq<char>) -> bool {
    m.contains_key(pr) && m[pr].contains_key(name) && m[pr][name].contains(v)
}

/// Every version list of the index is non-empty and without repeats.
pub open spec fn index_lists_ok(m: PrCrates) -> bool {
    forall|pr: u64, name: Seq<char>|
        #[trigger] m.contains_key(pr) && #[trigger] m[pr].contains_key(name) ==> m[pr][name].len()
            > 0 && m[pr][name].no_duplicates()
}

/// Some crate release of the releases has this name and version and lists the PR.
pub open spec fn released_with(releases: Seq<Release>, pr: u64, name: Seq<char>, v: Seq<char>) -> bool {
    exists|i: int, j: int|
        0 <= i < releases.len() && 0 <= j < releases[i].crates@.len() && (#[trigger] releases[i].crates@[j]).name@
            == name && releases[i].crates@[j].version@ == v && releases[i].crates@[j].prs@.contains(
            pr,
        )
}

proof fn lemma_record_version(m: PrCrates, pr: u64, name: Seq<char>, version: Seq<char>)
    requires
        index_lists_ok(m),
    ensures
        index_lists_ok(record_version(m, pr, name, version)),
        forall|p: u64, n: Seq<char>, v: Seq<char>|
            #[trigger] index_has(record_version(m, pr, name, version), p, n, v) <==> index_has(m, p, n, v)
                || (p == pr && n == name && v == version),
        forall|p: u64| #[trigger] record_version(m, pr, name, version).contains_key(p) <==> m.contains_key(p) || p == pr,
{
    let r = record_version(m, pr, name, version);
    let inner = if m.contains_key(pr) {
        m[pr]
    } else {
        Map::empty()
    };
    let vs = if inner.contains_key(name) {
        inner[name]
    } else {
        Seq::empty()
    };
    assert forall|p: u64, n: Seq<char>| #[trigger] r.contains_key(p) && #[trigger] r[p].contains_key(n) implies r[p][n].len() > 0
        && r[p][n].no_duplicates() by {
        if p == pr && n == name {
            if !vs.contains(version) {
                assert forall|a: int, b: int| 0 <= a < b < vs.push(version).len() implies vs.push(version)[a]
                    != vs.push(version)[b] by {
                    if b == vs.len() {
                        assert(vs[a] == vs.push(version)[a]);
                    } else {
                        assert(vs[a] == vs.push(version)[a] && vs[b] == vs.push(version)[b]);
                    }
                }
            }
        }
    }
    assert forall|p: u64, n: Seq<char>, v: Seq<char>| #[trigger] index_has(r, p, n, v) <==> index_has(m, p, n, v)
        || (p == pr && n == name && v == version) by {
        if p == pr && n == name && !vs.contains(version) {
            if vs.push(version).contains(v) && v != version {
                let k = choose|k: int| 0 <= k < vs.push(version).len() && vs.push(version)[k] == v;
                assert(vs[k] == v);
            }
            if vs.contains(v) {
                let k = choose|k: int| 0 <= k < vs.len() && vs[k] == v;
                assert(vs.push(version)[k] == v);
            }
            assert(vs.push(version)[vs.len() as int] == version);
        }
    }
}

proof fn lemma_record_prs(m: PrCrates, prs: Seq<u64>, name: Seq<char>, version: Seq<char>)
    requires
        index_lists_ok(m),
    ensures
        index_lists_ok(record_prs(m, prs, name, version)),
        forall|p: u64, n: Seq<char>, v: Seq<char>|
            #[trigger] index_has(record_prs(m, prs, name, version), p, n, v) <==> index_has(m, p, n, v)
                || (n == name && v == version && prs.contains(p)),
    decreases prs.len(),
{
    if prs.len() > 0 {
        let rest = prs.drop_last();
        lemma_record_prs(m, rest, name, version);
        lemma_record_version(record_prs(m, rest, name, version), prs.last(), name, version);
        assert forall|p: u64, n: Seq<char>, v: Seq<char>|
            #[trigger] index_has(record_prs(m, prs, name, version), p, n, v) <==> index_has(m, p, n, v)
                || (n == name && v == version && prs.contains(p)) by {
            if rest.contains(p) {
                let k = choose|k: int| 0 <= k < rest.len() && rest[k] == p;
                assert(prs[k] == p);
            }
            if prs.contains(p) && p != prs.last() {
                let k = choose|k: int| 0 <= k < prs.len() && prs[k] == p;
                assert(rest[k] == p);
            }
            assert(prs[prs.len() - 1] == prs.last());
        }
    }
}

proof fn lemma_record_crates(m: PrCrates, crates: Seq<CrateRelease>)
    requires
        index_lists_ok(m),
    ensures
        index_lists_ok(record_crates(m, crates)),
        forall|p: u64, n: Seq<char>, v: Seq<char>|
            #[trigger] index_has(record_crates(m, crates), p, n, v) <==> index_has(m, p, n, v) || exists|j: int|
                0 <= j < crates.len() && (#[trigger] crates[j]).name@ == n && crates[j].version@ == v
                    && crates[j].prs@.contains(p),
    decreases crates.len(),
{
    if crates.len() > 0 {
        let rest = crates.drop_last();
        let c = crates.last();
        lemma_record_crates(m, rest);
        lemma_record_prs(record_crates(m, rest), c.prs@, c.name@, c.version@);
        assert forall|p: u64, n: Seq<char>, v: Seq<char>|
            #[trigger] index_has(record_crates(m, crates), p, n, v) <==> index_has(m, p, n, v) || exists|j: int|
                0 <= j < crates.len() && (#[trigger] crates[j]).name@ == n && crates[j].version@ == v
                    && crates[j].prs@.contains(p) by {
            if exists|j: int|
                0 <= j < rest.len() && (#[trigger] rest[j]).name@ == n && rest[j].version@ == v
                    && rest[j].prs@.contains(p) {
                let j = choose|j: int|
                    0 <= j < rest.len() && (#[trigger] rest[j]).name@ == n && rest[j].version@ == v
                        && rest[j].prs@.contains(p);
                assert(crates[j] == rest[j]);
            }
            if exists|j: int|
                0 <= j < crates.len() && (#[trigger] crates[j]).name@ == n && crates[j].version@ == v
                    && crates[j].prs@.contains(p) {
                let j = choose|j: int|
                    0 <= j < crates.len() && (#[trigger] crates[j]).name@ == n && crates[j].version@
                        == v && crates[j].prs@.contains(p);
                if j < rest.len() {
                    assert(rest[j] == crates[j]);
                }
            }
            assert(crates[crates.len() - 1] == c);
        }
    }
}

proof fn lemma_record_releases(releases: Seq<Release>)
    ensures
        index_lists_ok(pr_crate_index(releases)),
        forall|p: u64, n: Seq<char>, v: Seq<char>|
            #[trigger] index_has(pr_crate_index(releases), p, n, v) <==> released_with(releases, p, n, v),
    decreases releases.len(),
{
    let m0: PrCrates = Map::empty();
    if releases.len() == 0 {
    } else {
        let rest = releases.drop_last();
        let r = releases.last();
        lemma_record_releases(rest);
        lemma_record_crates(pr_crate_index(rest), r.crates@);
        assert forall|p: u64, n: Seq<char>, v: Seq<char>|
            #[trigger] index_has(pr_crate_index(releases), p, n, v) <==> released_with(releases, p, n, v) by {
            if released_with(rest, p, n, v) {
                let (i, j) = choose|i: int, j: int|
                    0 <= i < rest.len() && 0 <= j < rest[i].crates@.len() && (#[trigger] rest[i].crates@[j]).name@
                        == n && rest[i].crates@[j].version@ == v && rest[i].crates@[j].prs@.contains(p);
                assert(releases[i] == rest[i]);
                assert(releases[i].crates@[j].name@ == n);
            }
            if exists|j: int|
                0 <= j < r.crates@.len() && (#[trigger] r.crates@[j]).name@ == n && r.crates@[j].version@
                    == v && r.crates@[j].prs@.contains(p) {
                let j = choose|j: int|
                    0 <= j < r.crates@.len() && (#[trigger] r.crates@[j]).name@ == n
                        && r.crates@[j].version@ == v && r.crates@[j].prs@.contains(p);
                assert(releases[releases.len() - 1] == r);
                assert(releases[releases.len() - 1].crates@[j].name@ == n);
            }
            if released_with(releases, p, n, v) {
                let (i, j) = choose|i: int, j: int|
                    0 <= i < releases.len() && 0 <= j < releases[i].crates@.len() && (#[trigger] releases[i].crates@[j]).name@
                        == n && releases[i].crates@[j].version@ == v && releases[i].crates@[j].prs@.contains(
                        p,
                    );
                if i < rest.len() {
                    assert(rest[i] == releases[i]);
                    assert(rest[i].crates@[j].name@ == n);
                } else {
                    assert(releases[i] == r);
                    assert(r.crates@[j].name@ == n);
                }
            }
        }
    }
}

/// The PR index holds exactly what the releases say: a version of a crate is
/// recorded for a PR if and only if some release bumped the crate to that
/// version with the PR among its changes; every recorded list of versions is
/// non-empty and holds each version once.
pub proof fn law_pr_crate_index(releases: Seq<Release>, pr: u64, name: Seq<char>, version: Seq<char>)
    ensures
        index_has(pr_crate_index(releases), pr, name, version) <==> released_with(
            releases,
            pr,
            name,
            version,
        ),
        pr_crate_index(releases).contains_key(pr) && pr_crate_index(releases)[pr].contains_key(name)
            ==> pr_crate_index(releases)[pr][name].len() > 0
            && pr_crate_index(releases)[pr][name].no_duplicates(),
{
    lemma_record_releases(releases);
}

// ---------------------------------------------------------------------------
// Runtime status
// ---------------------------------------------------------------------------

/// The PR's crates that are dependencies of the runtime.
pub open spec fn relevant_crates(crates: CrateVersions, deps: Set<Seq<char>>) -> Set<Seq<char>> {
    crates.dom().filter(|n: Seq<char>| deps.contains(n))
}

/// The downstream lock version of crate `n` is one of the release versions
/// containing the PR.
pub open spec fn is_adopted(
    crates: CrateVersions,
    versions: Map<Seq<char>, Seq<char>>,
    n: Seq<char>,
) -> bool {
    versions.contains_key(n) && crates[n].contains(versions[n])
}

/// The relevant crates that the runtime has adopted.
pub open spec fn adopted_crates(
    crates: CrateVersions,
    deps: Set<Seq<char>>,
    versions: Map<Seq<char>, Seq<char>>,
) -> Set<Seq<char>> {
    crates.dom().filter(|n: Seq<char>| deps.contains(n) && is_adopted(crates, versions, n))
}

/// ` (N/M crates)` when only some of the relevant crates are adopted.
pub open spec fn coverage_suffix(adopted: nat, total: nat) -> Seq<char> {
    if adopted < total {
        " ("@ + decimal(adopted) + "/"@ + decimal(total) + " crates)"@
    } else {
        Seq::empty()
    }
}

/// The status text once at least one crate is adopted.
pub open spec fn status_text(code_spec: nat, onchain_spec: nat, suffix: Seq<char>) -> Seq<char> {
    if code_spec > onchain_spec {
        "pending v"@ + decimal(code_spec) + suffix
    } else if onchain_spec > 0 {
        "v"@ + decimal(onchain_spec) + suffix
    } else {
        "pending > v"@ + decimal(code_spec) + suffix
    }
}

/// How many of the PR's crates count as adopted and as relevant on `rt`:
/// an in-repo runtime adopts all of them.
pub open spec fn adoption_counts(rt: Runtime, crates: CrateVersions) -> (nat, nat) {
    if rt.in_repo {
        (crates.len(), crates.len())
    } else {
        (
            adopted_crates(crates, rt.downstream.deps@, rt.downstream.versions@).len(),
            relevant_crates(crates, rt.downstream.deps@).len(),
        )
    }
}

/// The status of a PR, given the release versions of its crates, on a runtime.
pub open spec fn runtime_status(rt: Runtime, crates: Option<CrateVersions>) -> Seq<char> {
    match crates {
        None => Seq::empty(),
        Some(c) => {
            if c.len() == 0 {
                Seq::empty()
            } else {
                let (adopted, total) = adoption_counts(rt, c);
                if adopted == 0 {
                    Seq::empty()
                } else {
                    let code = match rt.downstream.spec_version {
                        Some(v) => v as nat,
                        None => 0,
                    };
                    status_text(
                        code,
                        max_spec_version(rt.upgrades@) as nat,
                        coverage_suffix(adopted, total),
                    )
                }
            }
        },
    }
}

/// A PR's status on a runtime is empty exactly when the PR touches no crate
/// or the runtime has adopted none of the crates it depends on; no more crates
/// count as adopted than as relevant, so a partial count reads `N/M` with
/// `N < M`.
pub proof fn law_runtime_status(rt: Runtime, crates: CrateVersions)
    requires
        crates.dom().finite(),
    ensures
        adoption_counts(rt, crates).0 <= adoption_counts(rt, crates).1,
        runtime_status(rt, Some(crates)).len() == 0 <==> (crates.len() == 0 || adoption_counts(
            rt,
            crates,
        ).0 == 0),
{
    if !rt.in_repo {
        let deps = rt.downstream.deps@;
        let versions = rt.downstream.versions@;
        let rel = relevant_crates(crates, deps);
        let ad = adopted_crates(crates, deps, versions);
        crates.dom().lemma_len_filter(|n: Seq<char>| deps.contains(n));
        assert(ad.subset_of(rel));
        vstd::set_lib::lemma_len_subset(ad, rel);
    }
    reveal_strlit("v");
    reveal_strlit("pending v");
    reveal_strlit("pending > v");
}

/// The highest recorded spec version bounds every upgrade and is the spec
/// version of one of them (0 when there is none).
pub proof fn law_onchain_spec_is_highest(ups: Seq<Upgrade>)
    ensures
        forall|i: int| 0 <= i < ups.len() ==> (#[trigger] ups[i]).spec_version <= max_spec_version(ups),
        ups.len() == 0 ==> max_spec_version(ups) == 0,
        ups.len() > 0 ==> exists|i: int|
            0 <= i < ups.len() && (#[trigger] ups[i]).spec_version == max_spec_version(ups),
    decreases ups.len(),
{
    if ups.len() > 0 {
        let p = ups.drop_last();
        law_onchain_spec_is_highest(p);
        assert forall|i: int| 0 <= i < p.len() implies #[trigger] ups[i] == p[i] by {}
        assert(ups[ups.len() - 1] == ups.last());
        if p.len() > 0 && max_spec_version(ups) != ups.last().spec_version {
            let j = choose|j: int| 0 <= j < p.len() && (#[trigger] p[j]).spec_version == max_spec_version(p);
            assert(ups[j] == p[j]);
        }
    }
}

/// The status of a PR on a runtime, in terms of the runtime's lock versions
/// and the PR's crate table: on a runtime that is not in-repo, a crate counts
/// as relevant when the runtime depends on it, and as adopted when, besides,
/// the version the runtime's Cargo.lock resolves is any one of the release
/// versions recorded for the PR (an in-repo runtime adopts every crate).
/// With A adopted of T relevant crates, the status is empty when the PR
/// touches no crate or A = 0; otherwise it is `pending v{code}` when the
/// code's spec version is ahead of the highest on-chain one, else `v{onchain}`
/// when some upgrade is recorded, else `pending > v{code}`, followed by
/// ` (A/T crates)` exactly when A < T.
pub proof fn law_status_from_lock_versions(rt: Runtime, crates: CrateVersions)
    requires
        crates.dom().finite(),
    ensures
        runtime_status(rt, None) == Seq::<char>::empty(),
        crates.len() == 0 ==> runtime_status(rt, Some(crates)) == Seq::<char>::empty(),
        ({
            let deps = rt.downstream.deps@;
            let lock = rt.downstream.versions@;
            let relevant = crates.dom().filter(|n: Seq<char>| deps.contains(n));
            let adopted = crates.dom().filter(
                |n: Seq<char>| deps.contains(n) && lock.contains_key(n) && crates[n].contains(lock[n]),
            );
            let a: nat = if rt.in_repo {
                crates.len()
            } else {
                adopted.len()
            };
            let t: nat = if rt.in_repo {
                crates.len()
            } else {
                relevant.len()
            };
            let code: nat = match rt.downstream.spec_version {
                Some(v) => v as nat,
                None => 0,
            };
            let onchain: nat = max_spec_version(rt.upgrades@) as nat;
            let head = if code > onchain {
                "pending v"@ + decimal(code)
            } else if onchain > 0 {
                "v"@ + decimal(onchain)
            } else {
                "pending > v"@ + decimal(code)
            };
            let tail = if a < t {
                " ("@ + decimal(a) + "/"@ + decimal(t) + " crates)"@
            } else {
                Seq::<char>::empty()
            };
            &&& a <= t
            &&& crates.len() > 0 && a == 0 ==> runtime_status(rt, Some(crates)) == Seq::<char>::empty()
            &&& crates.len() > 0 && a > 0 ==> runtime_status(rt, Some(crates)) == head + tail
        }),
{
    let deps = rt.downstream.deps@;
    let lock = rt.downstream.versions@;
    let relevant = crates.dom().filter(|n: Seq<char>| deps.contains(n));
    let adopted = crates.dom().filter(
        |n: Seq<char>| deps.contains(n) && lock.contains_key(n) && crates[n].contains(lock[n]),
    );
    assert(relevant_crates(crates, deps) =~= relevant);
    assert(adopted_crates(crates, deps, lock) =~= adopted);
    law_runtime_status(rt, crates);
}

/// The view of an optional borrowed crate table.
pub open spec fn opt_view(c: Option<&KeyMap<String, Vec<String>>>) -> Option<CrateVersions> {
    match c {
        Some(m) => Some(m@),
        None => None,
    }
}

/// A filter of a sequence without duplicates has none either.
proof fn lemma_filter_no_duplicates<A>(s: Seq<A>, p: spec_fn(A) -> bool)
    requires
        s.no_duplicates(),
    ensures
        s.filter(p).no_duplicates(),
    decreases s.len(),
{
    if s.len() > 0 {
        let t = s.drop_last();
        let x = s.last();
        assert(t.no_duplicates()) by {
            assert forall|a: int, b: int| 0 <= a < t.len() && 0 <= b < t.len() && a != b implies t[a]
                != t[b] by {
                assert(t[a] == s[a] && t[b] == s[b]);
            }
        }
        lemma_filter_no_duplicates(t, p);
        assert(s =~= t.push(x));
        t.lemma_filter_push(x, p);
        if p(x) {
            if t.filter(p).contains(x) {
                t.lemma_filter_contains_rev(p, x);
                let k = choose|k: int| 0 <= k < t.len() && t[k] == x;
                assert(s[k] == s[s.len() - 1]);
            }
        }
    }
}

/// Counting a filter of a sequence without duplicates counts the filtered set.
proof fn lemma_filter_len_set<A>(s: Seq<A>, p: spec_fn(A) -> bool)
    requires
        s.no_duplicates(),
    ensures
        s.filter(p).len() == s.to_set().filter(p).len(),
{
    let f = s.filter(p);
    lemma_filter_no_duplicates(s, p);
    assert(f.to_set() =~= s.to_set().filter(p)) by {
        assert forall|x: A| f.to_set().contains(x) implies s.to_set().filter(p).contains(x) by {
            let k = choose|k: int| 0 <= k < f.len() && f[k] == x;
            s.lemma_filter_pred(p, k);
            s.lemma_filter_contains_rev(p, x);
        }
        assert forall|x: A| s.to_set().filter(p).contains(x) implies f.to_set().contains(x) by {
            let k = choose|k: int| 0 <= k < s.len() && s[k] == x;
            s.lemma_filter_contains(p, k);
        }
    }
    f.unique_seq_to_set();
}

/// Compute the per-runtime status for a PR, given the release versions of
/// the crates it touches (see the module documentation for the states).
pub fn compute_runtime_status(
    runtime: &Runtime,
    pr_release_crates: Option<&KeyMap<String, Vec<String>>>,
) -> (s: String)
    ensures
        s@ == runtime_status(*runtime, opt_view(pr_release_crates)),
{
    let crates = match pr_release_crates {
        Some(c) => c,
        None => return String::new(),
    };
    let n = crates.len();
    if n == 0 {
        return String::new();
    }
    let ghost cm = crates@;
    let ghost deps = runtime.downstream.deps@;
    let ghost versions = runtime.downstream.versions@;
    let ghost p_rel = |x: Seq<char>| deps.contains(x);
    let ghost p_ad = |x: Seq<char>| deps.contains(x) && is_adopted(cm, versions, x);
    let mut adopted: usize = n;
    let mut total: usize = n;
    if !runtime.in_repo {
        let keys = crates.keys();
        let ghost kv = keys.deep_view();
        let mut rel: usize = 0;
        let mut ad: usize = 0;
        let mut i: usize = 0;
        while i < keys.len()
            invariant
                i <= keys@.len(),
                kv == keys.deep_view(),
                kv.to_set() == cm.dom(),
                cm == crates@,
                deps == runtime.downstream.deps@,
                versions == runtime.downstream.versions@,
                p_rel == (|x: Seq<char>| deps.contains(x)),
                p_ad == (|x: Seq<char>| deps.contains(x) && is_adopted(cm, versions, x)),
                rel == kv.take(i as int).filter(p_rel).len(),
                ad == kv.take(i as int).filter(p_ad).len(),
                rel <= i,
                ad <= rel,
            decreases keys@.len() - i,
        {
            let name = &keys[i];
            let ghost x = kv[i as int];
            assert(x == name@);
            assert(kv.take(i + 1) =~= kv.take(i as int).push(x));
            proof {
                kv.take(i as int).lemma_filter_push(x, p_rel);
                kv.take(i as int).lemma_filter_push(x, p_ad);
            }
            assert(kv.to_set().contains(x));
            if runtime.downstream.deps.contains(name) {
                rel += 1;
                let vs = crates.get(name).unwrap();
                match runtime.downstream.versions.get(name) {
                    Some(lock_ver) => {
                        if vec_contains_string(vs, lock_ver) {
                            ad += 1;
                        }
                    },
                    None => {},
                }
            }
            i += 1;
        }
        proof {
            assert(kv.take(i as int) =~= kv);
            lemma_filter_len_set(kv, p_rel);
            lemma_filter_len_set(kv, p_ad);
            assert(relevant_crates(cm, deps) =~= cm.dom().filter(p_rel));
            assert(adopted_crates(cm, deps, versions) =~= cm.dom().filter(p_ad));
        }
        if rel == 0 {
            assert(adoption_counts(*runtime, cm).0 == 0);
            return String::new();
        }
        adopted = ad;
        total = rel;
    }
    assert((adopted as nat, total as nat) == adoption_counts(*runtime, cm));
    if adopted == 0 {
        return String::new();
    }
    let mut suffix = String::new();
    if adopted < total {
        push_str(&mut suffix, " (");
        push_decimal(&mut suffix, adopted as u64);
        push_str(&mut suffix, "/");
        push_decimal(&mut suffix, total as u64);
        push_str(&mut suffix, " crates)");
    }
    assert(suffix@ =~= coverage_suffix(adopted as nat, total as nat));
    let onchain_spec = latest_spec_version(&runtime.upgrades);
    let code_spec = match runtime.downstream.spec_version {
        Some(v) => v,
        None => 0,
    };
    let mut out = String::new();
    if code_spec > onchain_spec {
        push_str(&mut out, "pending v");
        push_decimal(&mut out, code_spec);
    } else if onchain_spec > 0 {
        push_str(&mut out, "v");
        push_decimal(&mut out, onchain_spec);
    } else {
        push_str(&mut out, "pending > v");
        push_decimal(&mut out, code_spec);
    }
    push_str(&mut out, suffix.as_str());
    assert(out@ =~= status_text(code_spec as nat, onchain_spec as nat, suffix@));
    out
}

// ---------------------------------------------------------------------------
// Status summary of a PR
// ---------------------------------------------------------------------------

/// The `field=status` parts for the runtimes on which the PR has a status.
pub open spec fn status_parts(runtimes: Seq<Runtime>, crates: Option<CrateVersions>) -> Seq<Seq<char>>
    decreases runtimes.len(),
{
    if runtimes.len() == 0 {
        Seq::empty()
    } else {
        let prev = status_parts(runtimes.drop_last(), crates);
        let rt = runtimes.last();
        let st = runtime_status(rt, crates);
        if st.len() == 0 {
            prev
        } else {
            prev.push(rt.field_name@ + "="@ + st)
        }
    }
}

/// The parts joined with `sep` between them.
pub open spec fn join(parts: Seq<Seq<char>>, sep: Seq<char>) -> Seq<char>
    decreases parts.len(),
{
    if parts.len() == 0 {
        Seq::empty()
    } else if parts.len() == 1 {
        parts[0]
    } else {
        join(parts.drop_last(), sep) + sep + parts.last()
    }
}

/// The crate table of a PR in the index, if the PR is there.
pub open spec fn crates_of(index: PrCrates, pr: u64) -> Option<CrateVersions> {
    if index.contains_key(pr) {
        Some(index[pr])
    } else {
        None
    }
}

/// ` [field=status, ...]` for the runtimes with a status, or nothing.
pub open spec fn status_summary(runtimes: Seq<Runtime>, crates: Option<CrateVersions>) -> Seq<char> {
    let parts = status_parts(runtimes, crates);
    if parts.len() == 0 {
        Seq::empty()
    } else {
        " ["@ + join(parts, ", "@) + "]"@
    }
}

/// Format runtime status annotations for a PR as `" [AH Paseo=v2000006]"` or empty.
pub fn format_status_summary(
    state: &State,
    pr_crates: &KeyMap<u64, KeyMap<String, Vec<String>>>,
    pr: u64,
) -> (s: String)
    ensures
        s@ == status_summary(state.runtimes@, crates_of(pr_crates@, pr)),
{
    let crates = pr_crates.get(&pr);
    let ghost cv = crates_of(pr_crates@, pr);
    assert(opt_view(crates) == cv);
    let mut joined = String::new();
    let mut count: usize = 0;
    let mut i: usize = 0;
    while i < state.runtimes.len()
        invariant
            i <= state.runtimes@.len(),
            opt_view(crates) == cv,
            count == status_parts(state.runtimes@.take(i as int), cv).len(),
            count <= i,
            joined@ == join(status_parts(state.runtimes@.take(i as int), cv), ", "@),
        decreases state.runtimes@.len() - i,
    {
        let runtime = &state.runtimes[i];
        let status = compute_runtime_status(runtime, crates);
        let ghost prev = status_parts(state.runtimes@.take(i as int), cv);
        assert(state.runtimes@.take(i + 1).drop_last() =~= state.runtimes@.take(i as int));
        if !status.as_str().is_empty() {
            let ghost part = runtime.field_name@ + "="@ + status@;
            if count > 0 {
                push_str(&mut joined, ", ");
            }
            push_str(&mut joined, runtime.field_name.as_str());
            push_str(&mut joined, "=");
            push_str(&mut joined, status.as_str());
            proof {
                let next = prev.push(part);
                assert(next.drop_last() =~= prev);
                if count > 0 {
                    assert(joined@ =~= join(prev, ", "@) + ", "@ + part);
                } else {
                    assert(joined@ =~= part);
                }
            }
            count += 1;
        }
        i += 1;
    }
    assert(state.runtimes@.take(i as int) =~= state.runtimes@);
    if count == 0 {
        return String::new();
    }
    let mut out = String::new();
    push_str(&mut out, " [");
    push_str(&mut out, joined.as_str());
    push_str(&mut out, "]");
    assert(out@ =~= status_summary(state.runtimes@, cv));
    out
}

// ---------------------------------------------------------------------------
// What the annotation writes
// ---------------------------------------------------------------------------

/// The project field that holds a PR's release tags.
pub const RELEASE_TAGS_FIELD: &'static str = "Release Tags";

/// The fields to create before annotating, given the names of the project's
/// fields: the release tags field when it is missing, then the field of each
/// runtime whose field is missing, in runtime order.
pub open spec fn missing_fields(existing: Set<Seq<char>>, runtimes: Seq<Runtime>) -> Seq<Seq<char>> {
    let runtime_fields = runtimes.map_values(|r: Runtime| r.field_name@).filter(
        |f: Seq<char>| !existing.contains(f),
    );
    if existing.contains(RELEASE_TAGS_FIELD@) {
        runtime_fields
    } else {
        seq![RELEASE_TAGS_FIELD@] + runtime_fields
    }
}

/// The project fields to create before annotating.
pub fn fields_to_create(existing: &KeySet<String>, runtimes: &Vec<Runtime>) -> (out: Vec<String>)
    ensures
        out.deep_view() == missing_fields(existing@, runtimes@),
{
    let ghost names = runtimes@.map_values(|r: Runtime| r.field_name@);
    let ghost f = |n: Seq<char>| !existing@.contains(n);
    let mut out: Vec<String> = Vec::new();
    let release_tags = RELEASE_TAGS_FIELD.to_owned();
    if !existing.contains(&release_tags) {
        out.push(release_tags);
    }
    let ghost head = out.deep_view();
    assert(head == if existing@.contains(RELEASE_TAGS_FIELD@) {
        Seq::<Seq<char>>::empty()
    } else {
        seq![RELEASE_TAGS_FIELD@]
    });
    let mut i: usize = 0;
    while i < runtimes.len()
        invariant
            i <= runtimes@.len(),
            names == runtimes@.map_values(|r: Runtime| r.field_name@),
            f == (|n: Seq<char>| !existing@.contains(n)),
            out.deep_view() == head + names.take(i as int).filter(f),
        decreases runtimes@.len() - i,
    {
        let name = &runtimes[i].field_name;
        assert(names[i as int] == name@);
        assert(names.take(i + 1) =~= names.take(i as int).push(name@));
        proof {
            names.take(i as int).lemma_filter_push(name@, f);
        }
        if !existing.contains(name) {
            let ghost before = out.deep_view();
            out.push(name.clone());
            assert(out.deep_view() =~= before.push(name@));
        }
        i += 1;
    }
    assert(names.take(i as int) =~= names);
    out
}

/// The status of a PR on each runtime, in runtime order.
pub fn runtime_statuses(runtimes: &Vec<Runtime>, crates: Option<&KeyMap<String, Vec<String>>>) -> (out:
    Vec<String>)
    ensures
        out@.len() == runtimes@.len(),
        forall|i: int|
            0 <= i < runtimes@.len() ==> (#[trigger] out@[i])@ == runtime_status(
                runtimes@[i],
                opt_view(crates),
            ),
{
    let mut out: Vec<String> = Vec::new();
    let mut i: usize = 0;
    while i < runtimes.len()
        invariant
            i <= runtimes@.len(),
            out@.len() == i,
            forall|j: int|
                0 <= j < i ==> (#[trigger] out@[j])@ == runtime_status(runtimes@[j], opt_view(crates)),
        decreases runtimes@.len() - i,
    {
        out.push(compute_runtime_status(&runtimes[i], crates));
        i += 1;
    }
    out
}

// ---------------------------------------------------------------------------
// Release tags of each PR
// ---------------------------------------------------------------------------

/// Records that release tag `tag` contains PR `pr`.
pub open spec fn record_tag(m: Map<u64, Set<Seq<char>>>, pr: u64, tag: Seq<char>) -> Map<
    u64,
    Set<Seq<char>>,
> {
    let tags = if m.contains_key(pr) {
        m[pr]
    } else {
        Set::empty()
    };
    m.insert(pr, tags.insert(tag))
}

/// Records `tag` for each of the PRs.
pub open spec fn record_tag_prs(m: Map<u64, Set<Seq<char>>>, prs: Seq<u64>, tag: Seq<char>) -> Map<
    u64,
    Set<Seq<char>>,
>
    decreases prs.len(),
{
    if prs.len() == 0 {
        m
    } else {
        record_tag(record_tag_prs(m, prs.drop_last(), tag), prs.last(), tag)
    }
}

/// Records `tag` for the PRs of each crate release.
pub open spec fn record_tag_crates(
    m: Map<u64, Set<Seq<char>>>,
    crates: Seq<CrateRelease>,
    tag: Seq<char>,
) -> Map<u64, Set<Seq<char>>>
    decreases crates.len(),
{
    if crates.len() == 0 {
        m
    } else {
        record_tag_prs(record_tag_crates(m, crates.drop_last(), tag), crates.last().prs@, tag)
    }
}

/// PR number -> the tags of the releases whose crates list it.
pub open spec fn pr_release_tags(releases: Seq<Release>) -> Map<u64, Set<Seq<char>>>
    decreases releases.len(),
{
    if releases.len() == 0 {
        Map::empty()
    } else {
        record_tag_crates(
            pr_release_tags(releases.drop_last()),
            releases.last().crates@,
            releases.last().tag@,
        )
    }
}

/// Some crate release of release `r` lists the PR.
pub open spec fn release_lists_pr(r: Release, pr: u64) -> bool {
    exists|j: int| 0 <= j < r.crates@.len() && (#[trigger] r.crates@[j]).prs@.contains(pr)
}

/// The tag table records tag `t` for PR `pr`.
pub open spec fn tag_table_has(m: Map<u64, Set<Seq<char>>>, pr: u64, t: Seq<char>) -> bool {
    m.contains_key(pr) && m[pr].contains(t)
}

proof fn lemma_record_tag(m: Map<u64, Set<Seq<char>>>, pr: u64, tag: Seq<char>)
    ensures
        forall|p: u64, t: Seq<char>|
            #[trigger] tag_table_has(record_tag(m, pr, tag), p, t) <==> tag_table_has(m, p, t) || (p == pr
                && t == tag),
        forall|p: u64| #[trigger] record_tag(m, pr, tag).contains_key(p) <==> m.contains_key(p) || p == pr,
{
}

proof fn lemma_seq_contains_last(s: Seq<u64>)
    requires
        s.len() > 0,
    ensures
        forall|p: u64| #[trigger] s.contains(p) <==> s.drop_last().contains(p) || p == s.last(),
{
    let rest = s.drop_last();
    assert forall|p: u64| #[trigger] s.contains(p) <==> rest.contains(p) || p == s.last() by {
        if rest.contains(p) {
            let k = choose|k: int| 0 <= k < rest.len() && rest[k] == p;
            assert(s[k] == p);
        }
        if s.contains(p) && p != s.last() {
            let k = choose|k: int| 0 <= k < s.len() && s[k] == p;
            assert(k != s.len() - 1);
            assert(rest[k] == p);
        }
        if p == s.last() {
            assert(s[s.len() - 1] == p);
        }
    }
}

proof fn lemma_record_tag_prs(m: Map<u64, Set<Seq<char>>>, prs: Seq<u64>, tag: Seq<char>)
    ensures
        forall|p: u64, t: Seq<char>|
            #[trigger] tag_table_has(record_tag_prs(m, prs, tag), p, t) <==> tag_table_has(m, p, t) || (t
                == tag && prs.contains(p)),
        forall|p: u64|
            #[trigger] record_tag_prs(m, prs, tag).contains_key(p) <==> m.contains_key(p) || prs.contains(p),
    decreases prs.len(),
{
    if prs.len() > 0 {
        let rest = prs.drop_last();
        let before = record_tag_prs(m, rest, tag);
        lemma_record_tag_prs(m, rest, tag);
        lemma_record_tag(before, prs.last(), tag);
        lemma_seq_contains_last(prs);
        assert(record_tag_prs(m, prs, tag) == record_tag(before, prs.last(), tag));
        assert forall|p: u64, t: Seq<char>|
            #[trigger] tag_table_has(record_tag_prs(m, prs, tag), p, t) <==> tag_table_has(m, p, t) || (t
                == tag && prs.contains(p)) by {
            assert(tag_table_has(record_tag(before, prs.last(), tag), p, t) <==> tag_table_has(before, p, t)
                || (p == prs.last() && t == tag));
            assert(tag_table_has(before, p, t) <==> tag_table_has(m, p, t) || (t == tag && rest.contains(p)));
            assert(prs.contains(p) <==> rest.contains(p) || p == prs.last());
        }
        assert forall|p: u64|
            #[trigger] record_tag_prs(m, prs, tag).contains_key(p) <==> m.contains_key(p) || prs.contains(p) by {
            assert(record_tag(before, prs.last(), tag).contains_key(p) <==> before.contains_key(p) || p
                == prs.last());
            assert(before.contains_key(p) <==> m.contains_key(p) || rest.contains(p));
            assert(prs.contains(p) <==> rest.contains(p) || p == prs.last());
        }
    }
}

proof fn lemma_record_tag_crates(m: Map<u64, Set<Seq<char>>>, crates: Seq<CrateRelease>, tag: Seq<char>)
    ensures
        forall|p: u64, t: Seq<char>|
            #[trigger] tag_table_has(record_tag_crates(m, crates, tag), p, t) <==> tag_table_has(m, p, t)
                || (t == tag && exists|j: int| 0 <= j < crates.len() && (#[trigger] crates[j]).prs@.contains(p)),
        forall|p: u64|
            #[trigger] record_tag_crates(m, crates, tag).contains_key(p) <==> m.contains_key(p)
                || exists|j: int| 0 <= j < crates.len() && (#[trigger] crates[j]).prs@.contains(p),
    decreases crates.len(),
{
    if crates.len() > 0 {
        let rest = crates.drop_last();
        lemma_record_tag_crates(m, rest, tag);
        lemma_record_tag_prs(record_tag_crates(m, rest, tag), crates.last().prs@, tag);
        assert forall|p: u64| true implies ((exists|j: int| 0 <= j < crates.len() && (#[trigger] crates[j]).prs@.contains(p))
            <==> (exists|j: int| 0 <= j < rest.len() && (#[trigger] rest[j]).prs@.contains(p))
                || crates.last().prs@.contains(p)) by {
            if exists|j: int| 0 <= j < rest.len() && (#[trigger] rest[j]).prs@.contains(p) {
                let j = choose|j: int| 0 <= j < rest.len() && (#[trigger] rest[j]).prs@.contains(p);
                assert(crates[j] == rest[j]);
            }
            if exists|j: int| 0 <= j < crates.len() && (#[trigger] crates[j]).prs@.contains(p) {
                let j = choose|j: int| 0 <= j < crates.len() && (#[trigger] crates[j]).prs@.contains(p);
                if j < rest.len() {
                    assert(rest[j] == crates[j]);
                }
            }
            assert(crates[crates.len() - 1] == crates.last());
        }
    }
}

proof fn lemma_pr_release_tags(releases: Seq<Release>)
    ensures
        forall|p: u64, t: Seq<char>|
            #[trigger] tag_table_has(pr_release_tags(releases), p, t) <==> exists|i: int|
                0 <= i < releases.len() && (#[trigger] releases[i]).tag@ == t && release_lists_pr(releases[i], p),
        forall|p: u64|
            #[trigger] pr_release_tags(releases).contains_key(p) <==> exists|i: int|
                0 <= i < releases.len() && release_lists_pr(#[trigger] releases[i], p),
    decreases releases.len(),
{
    if releases.len() > 0 {
        let rest = releases.drop_last();
        let r = releases.last();
        lemma_pr_release_tags(rest);
        lemma_record_tag_crates(pr_release_tags(rest), r.crates@, r.tag@);
        assert(releases[releases.len() - 1] == r);
        assert forall|i: int| 0 <= i < rest.len() implies #[trigger] releases[i] == rest[i] by {}
        assert forall|p: u64, t: Seq<char>|
            #[trigger] tag_table_has(pr_release_tags(releases), p, t) <==> exists|i: int|
                0 <= i < releases.len() && (#[trigger] releases[i]).tag@ == t && release_lists_pr(releases[i], p) by {
            if exists|i: int|
                0 <= i < releases.len() && (#[trigger] releases[i]).tag@ == t && release_lists_pr(releases[i], p) {
                let i = choose|i: int|
                    0 <= i < releases.len() && (#[trigger] releases[i]).tag@ == t && release_lists_pr(
                        releases[i],
                        p,
                    );
                if i == releases.len() - 1 {
                    let j = choose|j: int| 0 <= j < r.crates@.len() && (#[trigger] r.crates@[j]).prs@.contains(p);
                    assert(r.crates@[j].prs@.contains(p));
                } else {
                    assert(rest[i] == releases[i]);
                }
            }
        }
        assert forall|p: u64|
            #[trigger] pr_release_tags(releases).contains_key(p) <==> exists|i: int|
                0 <= i < releases.len() && release_lists_pr(#[trigger] releases[i], p) by {
            if exists|i: int| 0 <= i < releases.len() && release_lists_pr(#[trigger] releases[i], p) {
                let i = choose|i: int| 0 <= i < releases.len() && release_lists_pr(#[trigger] releases[i], p);
                if i == releases.len() - 1 {
                    let j = choose|j: int| 0 <= j < r.crates@.len() && (#[trigger] r.crates@[j]).prs@.contains(p);
                    assert(r.crates@[j].prs@.contains(p));
                } else {
                    assert(rest[i] == releases[i]);
                }
            }
        }
    }
}

/// A release tag is listed for a PR if and only if that release has a
/// crate release whose PRs include it; a PR has tags if and only if some
/// release lists it.
pub proof fn law_pr_release_tags(releases: Seq<Release>, pr: u64, tag: Seq<char>)
    ensures
        tag_table_has(pr_release_tags(releases), pr, tag) <==> exists|i: int|
            0 <= i < releases.len() && (#[trigger] releases[i]).tag@ == tag && release_lists_pr(
                releases[i],
                pr,
            ),
        pr_release_tags(releases).contains_key(pr) <==> exists|i: int|
            0 <= i < releases.len() && release_lists_pr(#[trigger] releases[i], pr),
{
    lemma_pr_release_tags(releases);
}

/// Strictly increasing in code point order: sorted and without repeats.
pub open spec fn sorted_unique(s: Seq<Seq<char>>) -> bool {
    forall|i: int, j: int| 0 <= i < j < s.len() ==> seq_lt(s[i], s[j])
}

/// The executable table matches the model: same PRs, and each PR's tags
/// sorted, without repeats, and exactly the model's tags.
pub open spec fn tags_table_ok(m: Map<u64, Seq<Seq<char>>>, model: Map<u64, Set<Seq<char>>>) -> bool {
    &&& m.dom() == model.dom()
    &&& forall|pr: u64|
        #[trigger] m.contains_key(pr) ==> sorted_unique(m[pr]) && m[pr].to_set() == model[pr]
}

/// Adds `t` to a sorted vector of distinct strings, keeping it so.
fn insert_sorted_string(v: &mut Vec<String>, t: String)
    requires
        sorted_unique(old(v).deep_view()),
    ensures
        sorted_unique(final(v).deep_view()),
        final(v).deep_view().to_set() == old(v).deep_view().to_set().insert(t@),
{
    let ghost s = v.deep_view();
    let mut p: usize = 0;
    while p < v.len() && str_less(v[p].as_str(), t.as_str())
        invariant
            p <= v@.len(),
            v.deep_view() == s,
            forall|i: int| 0 <= i < p ==> seq_lt(#[trigger] s[i], t@),
        decreases v@.len() - p,
    {
        p += 1;
    }
    if p < v.len() && v[p] == t {
        assert(s[p as int] == t@);
        assert(s.to_set().insert(t@) =~= s.to_set());
        return ;
    }
    proof {
        if p < s.len() {
            lemma_seq_lt_total(s[p as int], t@);
        }
    }
    v.insert(p, t);
    proof {
        let r = v.deep_view();
        assert(r =~= s.take(p as int) + seq![t@] + s.skip(p as int));
        assert forall|i: int, j: int| 0 <= i < j < r.len() implies seq_lt(r[i], r[j]) by {
            if j < p {
                assert(r[i] == s[i] && r[j] == s[j]);
            } else if j == p {
                assert(r[i] == s[i]);
            } else if i < p {
                assert(r[i] == s[i] && r[j] == s[j - 1]);
                if j - 1 > p {
                    lemma_seq_lt_transitive(t@, s[p as int], s[j - 1]);
                }
                lemma_seq_lt_transitive(s[i], t@, s[j - 1]);
            } else if i == p {
                assert(r[j] == s[j - 1]);
                if j - 1 > p {
                    lemma_seq_lt_transitive(t@, s[p as int], s[j - 1]);
                }
            } else {
                assert(r[i] == s[i - 1] && r[j] == s[j - 1]);
            }
        }
        assert forall|a: Seq<char>| s.to_set().insert(t@).contains(a) <==> r.to_set().contains(a) by {
            if s.to_set().contains(a) {
                let k = choose|k: int| 0 <= k < s.len() && s[k] == a;
                if k < p {
                    assert(r[k] == a);
                } else {
                    assert(r[k + 1] == a);
                }
            }
            if a == t@ {
                assert(r[p as int] == t@);
            }
            if r.to_set().contains(a) {
                let k = choose|k: int| 0 <= k < r.len() && r[k] == a;
                if k < p {
                    assert(s[k] == a);
                } else if k > p {
                    assert(s[k - 1] == a);
                }
            }
        }
        assert(r.to_set() =~= s.to_set().insert(t@));
    }
}

/// Applies `record_tag` to the executable table.
fn record_pr_tag(m: &mut KeyMap<u64, Vec<String>>, pr: u64, tag: &String, Ghost(model): Ghost<
    Map<u64, Set<Seq<char>>>,
>)
    requires
        tags_table_ok(old(m)@, model),
    ensures
        tags_table_ok(final(m)@, record_tag(model, pr, tag@)),
{
    let ghost m0 = m@;
    let mut tags = match m.remove(&pr) {
        Some(t) => t,
        None => Vec::new(),
    };
    let ghost t0 = tags.deep_view();
    proof {
        if !m0.contains_key(pr) {
            assert(t0 =~= Seq::<Seq<char>>::empty());
            assert(t0.to_set() =~= Set::<Seq<char>>::empty());
        }
    }
    insert_sorted_string(&mut tags, tag.clone());
    m.insert(pr, tags);
    proof {
        let nm = record_tag(model, pr, tag@);
        assert(m@.dom() =~= nm.dom());
        assert forall|q: u64| #[trigger] m@.contains_key(q) implies sorted_unique(m@[q])
            && m@[q].to_set() == nm[q] by {
            if q != pr {
                assert(m@[q] == m0[q]);
            }
        }
    }
}

/// Build the PR -> release tags table: for every PR listed by some crate
/// release, the tags of the releases listing it, sorted and without repeats.
pub fn build_pr_tags(state: &State) -> (m: KeyMap<u64, Vec<String>>)
    ensures
        tags_table_ok(m@, pr_release_tags(state.releases@)),
{
    let mut m: KeyMap<u64, Vec<String>> = KeyMap::new();
    let ghost releases = state.releases@;
    let ghost mut model: Map<u64, Set<Seq<char>>> = Map::empty();
    assert(tags_table_ok(m@, model));
    let mut i: usize = 0;
    while i < state.releases.len()
        invariant
            releases == state.releases@,
            i <= releases.len(),
            model == pr_release_tags(releases.take(i as int)),
            tags_table_ok(m@, model),
        decreases releases.len() - i,
    {
        let release = &state.releases[i];
        let ghost base = model;
        let mut j: usize = 0;
        while j < release.crates.len()
            invariant
                j <= release.crates@.len(),
                model == record_tag_crates(base, release.crates@.take(j as int), release.tag@),
                tags_table_ok(m@, model),
            decreases release.crates@.len() - j,
        {
            let c = &release.crates[j];
            let ghost base2 = model;
            let mut k: usize = 0;
            while k < c.prs.len()
                invariant
                    k <= c.prs@.len(),
                    model == record_tag_prs(base2, c.prs@.take(k as int), release.tag@),
                    tags_table_ok(m@, model),
                decreases c.prs@.len() - k,
            {
                record_pr_tag(&mut m, c.prs[k], &release.tag, Ghost(model));
                proof {
                    model = record_tag(model, c.prs@[k as int], release.tag@);
                    assert(c.prs@.take(k + 1).drop_last() =~= c.prs@.take(k as int));
                }
                k += 1;
            }
            assert(c.prs@.take(k as int) =~= c.prs@);
            assert(release.crates@.take(j + 1).drop_last() =~= release.crates@.take(j as int));
            j += 1;
        }
        assert(release.crates@.take(j as int) =~= release.crates@);
        assert(releases.take(i + 1).drop_last() =~= releases.take(i as int));
        i += 1;
    }
    assert(releases.take(i as int) =~= releases);
    m
}

/// The strings joined with ", ".
pub fn join_with_comma(items: &Vec<String>) -> (s: String)
    ensures
        s@ == join(items.deep_view(), ", "@),
{
    let mut s = String::new();
    let mut i: usize = 0;
    while i < items.len()
        invariant
            i <= items@.len(),
            s@ == join(items.deep_view().take(i as int), ", "@),
        decreases items@.len() - i,
    {
        let ghost prev = items.deep_view().take(i as int);
        let ghost next = items.deep_view().take(i + 1);
        assert(next.drop_last() =~= prev);
        assert(next.last() == items@[i as int]@);
        if i > 0 {
            push_str(&mut s, ", ");
        }
        push_str(&mut s, items[i].as_str());
        proof {
            if i == 0 {
                assert(prev =~= Seq::<Seq<char>>::empty());
                assert(s@ =~= next[0]);
            } else {
                assert(s@ =~= join(prev, ", "@) + ", "@ + next.last());
            }
        }
        i += 1;
    }
    assert(items.deep_view().take(i as int) =~= items.deep_view());
    s
}

} // verus!
