//! Downstream runtime consumption: which crate versions a runtime resolves,
//! which crates it depends on, and how much of a PR it has adopted.

use vstd::prelude::*;

use crate::bindings::{spec_toml_table_keys, strings_view, toml_table_keys};
use crate::maps::{KeyMap, KeySet};
use crate::state::{DownstreamInfo, Runtime};
use crate::text::{
    all_whitespace, first_index, has_prefix, has_prefix_at, is_blank,
    lemma_first_index, lines, spec_lines, str_chars, string_from_chars, views_of,
};

verus! {

broadcast use vstd::seq_lib::group_seq_properties;

// ---------------------------------------------------------------------------
// PR coverage
// ---------------------------------------------------------------------------

/// The PR's crate names that are dependencies of the runtime (with repeats).
pub open spec fn relevant_names(names: Seq<Seq<char>>, deps: Set<Seq<char>>) -> Seq<Seq<char>> {
    names.filter(|n: Seq<char>| deps.contains(n))
}

/// The lock file resolves crate `n` to the version the release has.
pub open spec fn lock_matches_release(
    release: Map<Seq<char>, Seq<char>>,
    lock: Map<Seq<char>, Seq<char>>,
    n: Seq<char>,
) -> bool {
    release.contains_key(n) && lock.contains_key(n) && lock[n] == release[n]
}

/// Returns (adopted_count, total_relevant_count): the PR's crates that the
/// runtime depends on, and those of them whose lock version equals the
/// release version.
pub fn compute_pr_coverage(
    pr_crate_names: &[String],
    release_crates: &KeyMap<String, String>,
    lock_versions: &KeyMap<String, String>,
    runtime_deps: &KeySet<String>,
) -> (r: (usize, usize))
    ensures
        ({
            let relevant = relevant_names(pr_crate_names@.map_values(|s: String| s@), runtime_deps@);
            &&& r.1 == relevant.len()
            &&& r.0 == relevant.filter(
                |n: Seq<char>| lock_matches_release(release_crates@, lock_versions@, n),
            ).len()
        }),
        r.0 <= r.1,
{
    let ghost names = pr_crate_names@.map_values(|s: String| s@);
    let ghost deps = runtime_deps@;
    let ghost p_rel = |n: Seq<char>| deps.contains(n);
    let ghost p_ad = |n: Seq<char>| lock_matches_release(release_crates@, lock_versions@, n);
    let mut total: usize = 0;
    let mut adopted: usize = 0;
    let mut i: usize = 0;
    while i < pr_crate_names.len()
        invariant
            i <= pr_crate_names@.len(),
            names == pr_crate_names@.map_values(|s: String| s@),
            deps == runtime_deps@,
            p_rel == (|n: Seq<char>| deps.contains(n)),
            p_ad == (|n: Seq<char>| lock_matches_release(release_crates@, lock_versions@, n)),
            total == names.take(i as int).filter(p_rel).len(),
            adopted == names.take(i as int).filter(p_rel).filter(p_ad).len(),
            adopted <= total <= i,
        decreases pr_crate_names@.len() - i,
    {
        let name = &pr_crate_names[i];
        let ghost x = name@;
        assert(names[i as int] == x);
        assert(names.take(i + 1) =~= names.take(i as int).push(x));
        proof {
            names.take(i as int).lemma_filter_push(x, p_rel);
            names.take(i as int).filter(p_rel).lemma_filter_push(x, p_ad);
        }
        if runtime_deps.contains(name) {
            total += 1;
            let matched = match (release_crates.get(name), lock_versions.get(name)) {
                (Some(release_ver), Some(lock_ver)) => *lock_ver == *release_ver,
                _ => false,
            };
            if matched {
                adopted += 1;
            }
        }
        i += 1;
    }
    assert(names.take(i as int) =~= names);
    (adopted, total)
}

// ---------------------------------------------------------------------------
// owner/repo
// ---------------------------------------------------------------------------

/// `owner/repo` split at its first '/'.
pub open spec fn repo_parts(full: Seq<char>) -> (Seq<char>, Seq<char>) {
    let i = first_index(full, '/');
    (full.take(i), full.skip(i + 1))
}

/// Split an `owner/repo` string into `(owner, repo)`.
pub fn parse_repo(full: &str) -> (r: (&str, &str))
    requires
        full@.contains('/'),
    ensures
        (r.0@, r.1@) == repo_parts(full@),
{
    let cs = str_chars(full);
    proof {
        lemma_first_index(full@, '/');
        let k = choose|k: int| 0 <= k < full@.len() && full@[k] == '/';
        assert(first_index(full@, '/') <= k);
    }
    let mut i: usize = 0;
    while cs[i] != '/'
        invariant
            i <= first_index(full@, '/') < cs@.len(),
            cs@ == full@,
            full@[first_index(full@, '/')] == '/',
            forall|j: int| 0 <= j < first_index(full@, '/') ==> full@[j] != '/',
        decreases first_index(full@, '/') - i,
    {
        assert(i != first_index(full@, '/'));
        i += 1;
    }
    assert(i < cs.len());
    assert(i == first_index(full@, '/'));
    (full.substring_char(0, i), full.substring_char(i + 1, cs.len()))
}

// ---------------------------------------------------------------------------
// Cargo.lock
// ---------------------------------------------------------------------------

/// The value of a line `prefix"value"`.
pub open spec fn quoted_value(line: Seq<char>, prefix: Seq<char>) -> Option<Seq<char>> {
    if has_prefix(line, prefix) {
        let rest = line.skip(prefix.len() as int);
        if rest.len() > 0 && rest[0] == '"' {
            let inner = rest.drop_first();
            if inner.len() > 0 && inner.last() == '"' {
                Some(inner.drop_last())
            } else {
                None
            }
        } else {
            None
        }
    } else {
        None
    }
}

/// The state of the Cargo.lock reader: the versions so far and the package
/// name waiting for its version.
pub type LockState = (Map<Seq<char>, Seq<char>>, Option<Seq<char>>);

/// One line of Cargo.lock: a `name = "..."` line starts a package, a
/// `version = "..."` line records the version of the waiting package, and a
/// blank line ends a package.
pub open spec fn lock_step(st: LockState, line: Seq<char>) -> LockState {
    if has_prefix(line, "name = "@) {
        (st.0, quoted_value(line, "name = "@))
    } else if has_prefix(line, "version = "@) {
        match st.1 {
            Some(name) => (
                match quoted_value(line, "version = "@) {
                    Some(v) => st.0.insert(name, v),
                    None => st.0,
                },
                None,
            ),
            None => st,
        }
    } else if all_whitespace(line) {
        (st.0, None)
    } else {
        st
    }
}

/// The reader's state after the lines.
pub open spec fn lock_fold(ls: Seq<Seq<char>>) -> LockState
    decreases ls.len(),
{
    if ls.len() == 0 {
        (Map::empty(), None)
    } else {
        lock_step(lock_fold(ls.drop_last()), ls.last())
    }
}

/// Package name -> version of a Cargo.lock text.
pub open spec fn cargo_lock_versions(content: Seq<char>) -> Map<Seq<char>, Seq<char>> {
    lock_fold(spec_lines(content)).0
}

/// The value between the quotes after `prefix` on `line`.
fn read_quoted(line: &Vec<char>, prefix: &Vec<char>) -> (r: Option<String>)
    requires
        has_prefix(line@, prefix@),
    ensures
        match r {
            Some(v) => quoted_value(line@, prefix@) == Some(v@),
            None => quoted_value(line@, prefix@) is None,
        },
{
    let start = prefix.len();
    let n = line.len();
    if start < n && line[start] == '"' && start + 1 < n && line[n - 1] == '"' {
        let v = string_from_chars(line, start + 1, n - 1);
        assert(line@.skip(start as int).drop_first().drop_last() =~= line@.subrange(
            start + 1,
            n - 1,
        ));
        Some(v)
    } else {
        proof {
            let rest = line@.skip(start as int);
            if rest.len() > 0 && rest[0] == '"' {
                assert(rest.drop_first().len() == n - start - 1);
                if rest.drop_first().len() > 0 {
                    assert(rest.drop_first().last() == line@[n - 1]);
                }
            }
        }
        None
    }
}

/// Parse Cargo.lock to extract package name -> version mapping.
pub fn parse_cargo_lock_versions(content: &str) -> (versions: KeyMap<String, String>)
    ensures
        versions@ == cargo_lock_versions(content@),
{
    let cs = str_chars(content);
    let ls = lines(&cs);
    let ghost lv = views_of(ls@);
    let name_prefix = str_chars("name = ");
    let version_prefix = str_chars("version = ");
    let mut versions: KeyMap<String, String> = KeyMap::new();
    let mut current_name: Option<String> = None;
    let mut i: usize = 0;
    while i < ls.len()
        invariant
            i <= ls@.len(),
            lv == views_of(ls@),
            lv == spec_lines(content@),
            name_prefix@ == "name = "@,
            version_prefix@ == "version = "@,
            lock_fold(lv.take(i as int)) == (
                versions@,
                match current_name {
                    Some(n) => Some(n@),
                    None => None,
                },
            ),
        decreases ls@.len() - i,
    {
        let line = &ls[i];
        assert(lv.take(i + 1).drop_last() =~= lv.take(i as int));
        assert(lv.take(i + 1).last() == line@);
        assert(line@.skip(0) =~= line@);
        if has_prefix_at(line, 0, &name_prefix) {
            current_name = read_quoted(line, &name_prefix);
        } else if has_prefix_at(line, 0, &version_prefix) {
            if let Some(name) = current_name.take() {
                if let Some(ver) = read_quoted(line, &version_prefix) {
                    versions.insert(name, ver);
                }
            }
        } else if is_blank(line) {
            current_name = None;
        }
        i += 1;
    }
    assert(lv.take(i as int) =~= lv);
    versions
}

// ---------------------------------------------------------------------------
// Cargo.toml dependencies
// ---------------------------------------------------------------------------

/// The keys of the table at `path`, or none when there is no such table.
pub open spec fn table_keys(content: Seq<char>, path: Seq<Seq<char>>) -> Set<Seq<char>> {
    match spec_toml_table_keys(content, path) {
        Some(Some(keys)) => keys.to_set(),
        _ => Set::empty(),
    }
}

/// The keys of the `[target]` table, in the order `toml` lists them (none
/// when there is no such table).
pub open spec fn target_keys(content: Seq<char>) -> Seq<Seq<char>> {
    match spec_toml_table_keys(content, seq!["target"@]) {
        Some(Some(keys)) => keys,
        _ => Seq::empty(),
    }
}

/// The dependency names that target `t` lists: the keys of
/// `[target.t.dependencies]`, `[target.t.dev-dependencies]` and
/// `[target.t.build-dependencies]`.
pub open spec fn target_dep_names(content: Seq<char>, t: Seq<char>) -> Set<Seq<char>> {
    table_keys(content, seq!["target"@, t, "dependencies"@]).union(
        table_keys(content, seq!["target"@, t, "dev-dependencies"@]),
    ).union(table_keys(content, seq!["target"@, t, "build-dependencies"@]))
}

/// The dependency names that some target among `targets` lists.
pub open spec fn targets_dep_names(content: Seq<char>, targets: Seq<Seq<char>>) -> Set<Seq<char>> {
    Set::new(
        |k: Seq<char>|
            exists|i: int| 0 <= i < targets.len() && #[trigger] target_dep_names(content, targets[i]).contains(k),
    )
}

/// The dependency names of a manifest, from all its dependency sections: the
/// keys of `[dependencies]`, `[dev-dependencies]`, `[build-dependencies]`,
/// `[workspace.dependencies]`, and of the dependency, dev-dependency and
/// build-dependency tables of every `[target.*]`.
pub open spec fn runtime_dep_names(content: Seq<char>) -> Set<Seq<char>> {
    table_keys(content, seq!["dependencies"@]).union(
        table_keys(content, seq!["dev-dependencies"@]),
    ).union(table_keys(content, seq!["build-dependencies"@])).union(
        table_keys(content, seq!["workspace"@, "dependencies"@]),
    ).union(targets_dep_names(content, target_keys(content)))
}

/// Adds the keys of the table at `path` to `deps`.
fn add_table_keys(deps: &mut KeySet<String>, content: &str, path: Vec<String>)
    ensures
        final(deps)@ == old(deps)@.union(table_keys(content@, strings_view(path@))),
{
    match toml_table_keys(content, &path) {
        Ok(Some(keys)) => {
            let ghost kv = strings_view(keys@);
            let mut i: usize = 0;
            while i < keys.len()
                invariant
                    i <= keys@.len(),
                    kv == strings_view(keys@),
                    deps@ == old(deps)@.union(kv.take(i as int).to_set()),
                decreases keys@.len() - i,
            {
                let k = keys[i].clone();
                deps.insert(k);
                proof {
                    assert(kv.take(i + 1) =~= kv.take(i as int).push(kv[i as int]));
                    kv.take(i as int).lemma_push_to_set_commute(kv[i as int]);
                    assert(deps@ =~= old(deps)@.union(kv.take(i + 1).to_set()));
                }
                i += 1;
            }
            assert(kv.take(i as int) =~= kv);
        },
        _ => {
            assert(old(deps)@.union(Set::empty()) =~= old(deps)@);
        },
    }
}

/// A one-key path.
fn path1(a: &str) -> (p: Vec<String>)
    ensures
        strings_view(p@) == seq![a@],
{
    let mut p = Vec::new();
    p.push(a.to_owned());
    assert(strings_view(p@) =~= seq![a@]);
    p
}

/// A two-key path.
fn path2(a: &str, b: &str) -> (p: Vec<String>)
    ensures
        strings_view(p@) == seq![a@, b@],
{
    let mut p = Vec::new();
    p.push(a.to_owned());
    p.push(b.to_owned());
    assert(strings_view(p@) =~= seq![a@, b@]);
    p
}

/// A three-key path.
fn path3(a: &str, b: &str, c: &str) -> (p: Vec<String>)
    ensures
        strings_view(p@) == seq![a@, b@, c@],
{
    let mut p = Vec::new();
    p.push(a.to_owned());
    p.push(b.to_owned());
    p.push(c.to_owned());
    assert(strings_view(p@) =~= seq![a@, b@, c@]);
    p
}

/// Adds the dependency names of every target of the manifest to `deps`.
fn add_target_deps(deps: &mut KeySet<String>, content: &str)
    ensures
        final(deps)@ == old(deps)@.union(targets_dep_names(content@, target_keys(content@))),
{
    match toml_table_keys(content, &path1("target")) {
        Ok(Some(targets)) => {
            let ghost tv = strings_view(targets@);
            assert(tv == target_keys(content@));
            let mut i: usize = 0;
            assert(targets_dep_names(content@, tv.take(0)) =~= Set::empty());
            assert(old(deps)@.union(Set::empty()) =~= old(deps)@);
            while i < targets.len()
                invariant
                    i <= targets@.len(),
                    tv == strings_view(targets@),
                    deps@ == old(deps)@.union(targets_dep_names(content@, tv.take(i as int))),
                decreases targets@.len() - i,
            {
                let t = targets[i].as_str();
                let ghost before = deps@;
                add_table_keys(deps, content, path3("target", t, "dependencies"));
                add_table_keys(deps, content, path3("target", t, "dev-dependencies"));
                add_table_keys(deps, content, path3("target", t, "build-dependencies"));
                proof {
                    let prev = tv.take(i as int);
                    let next = tv.take(i + 1);
                    assert(tv[i as int] == t@);
                    assert forall|k: Seq<char>|
                        targets_dep_names(content@, next).contains(k) <==> targets_dep_names(
                            content@,
                            prev,
                        ).contains(k) || target_dep_names(content@, t@).contains(k) by {
                        if targets_dep_names(content@, next).contains(k) {
                            let j = choose|j: int|
                                0 <= j < next.len() && #[trigger] target_dep_names(content@, next[j]).contains(k);
                            if j < i {
                                assert(prev[j] == next[j]);
                            }
                        }
                        if targets_dep_names(content@, prev).contains(k) {
                            let j = choose|j: int|
                                0 <= j < prev.len() && #[trigger] target_dep_names(content@, prev[j]).contains(k);
                            assert(next[j] == prev[j]);
                        }
                        if target_dep_names(content@, t@).contains(k) {
                            assert(next[i as int] == t@);
                        }
                    }
                    assert(deps@ =~= old(deps)@.union(targets_dep_names(content@, next)));
                }
                i += 1;
            }
            assert(tv.take(i as int) =~= tv);
        },
        _ => {
            assert(targets_dep_names(content@, target_keys(content@)) =~= Set::empty());
            assert(old(deps)@.union(Set::empty()) =~= old(deps)@);
        },
    }
}

/// Parse Cargo.toml to extract dependency names (all dependency sections).
/// A manifest that does not parse has none.
pub fn parse_runtime_deps(content: &str) -> (deps: KeySet<String>)
    ensures
        deps@ == runtime_dep_names(content@),
{
    let mut deps = KeySet::new();
    add_table_keys(&mut deps, content, path1("dependencies"));
    add_table_keys(&mut deps, content, path1("dev-dependencies"));
    add_table_keys(&mut deps, content, path1("build-dependencies"));
    add_table_keys(&mut deps, content, path2("workspace", "dependencies"));
    add_target_deps(&mut deps, content);
    assert(deps@ =~= runtime_dep_names(content@));
    deps
}

// ---------------------------------------------------------------------------
// Updating a runtime
// ---------------------------------------------------------------------------

/// The runtime was already checked at this commit and has its dependencies.
pub open spec fn is_current(rt: Runtime, latest_commit: Seq<char>) -> bool {
    &&& rt.last_seen_commit matches Some(c) && c@ == latest_commit
    &&& rt.downstream.deps@.len() > 0
}

/// Whether a runtime needs no new check: its last seen commit is the latest
/// one and its dependencies are known.
pub fn downstream_is_current(runtime: &Runtime, latest_commit: &String) -> (r: bool)
    ensures
        r == is_current(*runtime, latest_commit@),
{
    let has_downstream = runtime.downstream.deps.len() > 0;
    match &runtime.last_seen_commit {
        Some(c) => *c == *latest_commit && has_downstream,
        None => false,
    }
}

/// The versions of `versions` whose crate is in `deps`.
fn restrict_versions(versions: &KeyMap<String, String>, deps: &KeySet<String>) -> (r: KeyMap<
    String,
    String,
>)
    ensures
        r@ == versions@.restrict(deps@),
{
    let keys = versions.keys();
    let ghost kv = keys.deep_view();
    let mut r: KeyMap<String, String> = KeyMap::new();
    let mut i: usize = 0;
    while i < keys.len()
        invariant
            i <= keys@.len(),
            kv == keys.deep_view(),
            kv.to_set() == versions@.dom(),
            r@ == versions@.restrict(deps@.intersect(kv.take(i as int).to_set())),
        decreases keys@.len() - i,
    {
        let k = &keys[i];
        assert(kv[i as int] == k@);
        assert(kv.to_set().contains(k@));
        proof {
            assert(kv.take(i + 1) =~= kv.take(i as int).push(k@));
            kv.take(i as int).lemma_push_to_set_commute(k@);
        }
        if deps.contains(k) {
            let v = versions.get(k).unwrap().clone();
            r.insert(k.clone(), v);
            assert(r@ =~= versions@.restrict(deps@.intersect(kv.take(i + 1).to_set())));
        } else {
            assert(r@ =~= versions@.restrict(deps@.intersect(kv.take(i + 1).to_set())));
        }
        i += 1;
    }
    assert(kv.take(i as int) =~= kv);
    assert(r@ =~= versions@.restrict(deps@));
    r
}

/// The fields of a runtime that a downstream check leaves as they are.
pub open spec fn same_config(a: Runtime, b: Runtime) -> bool {
    &&& a.runtime == b.runtime
    &&& a.short == b.short
    &&& a.repo == b.repo
    &&& a.branch == b.branch
    &&& a.cargo_lock_path == b.cargo_lock_path
    &&& a.cargo_toml_path == b.cargo_toml_path
    &&& a.spec_version_path == b.spec_version_path
    &&& a.network == b.network
    &&& a.rpc == b.rpc
    &&& a.ws == b.ws
    &&& a.field_name == b.field_name
    &&& a.block_explorer_url == b.block_explorer_url
    &&& a.in_repo == b.in_repo
    &&& a.upgrades == b.upgrades
}

/// Record what a downstream check found at `latest_commit`: the resolved
/// versions of the runtime's dependencies, its dependencies, the spec version
/// of its code, and (unless it is a dry run) the commit itself.
pub fn apply_downstream(
    runtime: &mut Runtime,
    current_versions: &KeyMap<String, String>,
    runtime_deps: KeySet<String>,
    spec_version: Option<u64>,
    latest_commit: String,
    dry_run: bool,
)
    ensures
        same_config(*final(runtime), *old(runtime)),
        final(runtime).downstream.versions@ == current_versions@.restrict(runtime_deps@),
        final(runtime).downstream.deps@ == runtime_deps@,
        final(runtime).downstream.spec_version == spec_version,
        final(runtime).last_seen_commit == if dry_run {
            old(runtime).last_seen_commit
        } else {
            Some(latest_commit)
        },
{
    let versions = restrict_versions(current_versions, &runtime_deps);
    runtime.downstream = DownstreamInfo { versions, deps: runtime_deps, spec_version };
    if !dry_run {
        runtime.last_seen_commit = Some(latest_commit);
    }
}

} // verus!
