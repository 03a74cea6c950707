use tracker::downstream::{
    apply_downstream, compute_pr_coverage, downstream_is_current, parse_cargo_lock_versions,
};
use tracker::github::{commit_url, compare_url, contents_url, decode_file_content, raw_url, ContentError};
use tracker::maps::{KeyMap, KeySet};
use tracker::onchain::{
    bisect_midpoint, bisect_narrow, block_url, first_upgraded_block, has_new_upgrade, record_upgrade,
    search_start_block, spec_version_digits, upgrade_date,
};
use tracker::project::{
    build_pr_tags, compute_runtime_status, fields_to_create, join_with_comma, runtime_statuses,
};
use tracker::releases::{
    assemble_release, build_prdoc_index, changed_cargo_tomls, crate_version_from_manifest,
    extract_pr_numbers, plan_discovery, prdoc_pr_number, record_discovery, sorted_distinct,
    subject_pr_number, ManifestError, ManifestPair, PublishedTag,
};
use tracker::rpc::{decode_storage_u64, parse_hex_quantity};
use tracker::state::{CrateRelease, DownstreamInfo, Project, Release, Runtime, State, Upgrade};

fn st(x: &str) -> String {
    x.to_string()
}

fn strings(items: &[&str]) -> Vec<String> {
    items.iter().map(|x| st(x)).collect()
}

fn runtime_with(upgrades: Vec<Upgrade>) -> Runtime {
    Runtime {
        runtime: st("asset-hub-test"),
        short: st("AH Test"),
        repo: st("org/runtimes"),
        branch: st("main"),
        cargo_lock_path: st("Cargo.lock"),
        cargo_toml_path: st("runtime/Cargo.toml"),
        spec_version_path: st("runtime/src/lib.rs"),
        network: st("testnet"),
        rpc: st("https://rpc.example"),
        ws: st("wss://rpc.example"),
        field_name: st("AH Test"),
        block_explorer_url: st("https://explorer.example"),
        in_repo: false,
        last_seen_commit: None,
        upgrades,
        downstream: DownstreamInfo::default(),
    }
}

fn upgrade(spec_version: u64, block_number: u64) -> Upgrade {
    Upgrade {
        spec_version,
        block_number,
        block_hash: st("0xab"),
        date: st("2025-01-01T00:00:00+00:00"),
        block_url: st("https://explorer.example/block/1"),
    }
}

fn release(tag: &str, prev: &str, crates: Vec<(&str, Vec<u64>)>) -> Release {
    Release {
        tag: st(tag),
        prev_tag: st(prev),
        crates: crates
            .into_iter()
            .map(|(name, prs)| CrateRelease {
                name: st(name),
                version: st("1.0.0"),
                published: st("2025-01-01"),
                prs,
            })
            .collect(),
    }
}

fn state_with(releases: Vec<Release>, last: Option<&str>) -> State {
    State {
        project: Project { org: st("org"), number: 7 },
        runtimes: vec![],
        last_processed_tags_date: last.map(st),
        releases,
    }
}

fn published(tag: &str, name: &str, date: &str) -> PublishedTag {
    PublishedTag { tag: st(tag), name: st(name), date: st(date) }
}

// ---------------------------------------------------------------------------
// git output
// ---------------------------------------------------------------------------

#[test]
fn changed_cargo_tomls_skips_hidden_paths() {
    let out = "substrate/frame/balances/Cargo.toml\n.github/scripts/Cargo.toml\ncumulus/Cargo.toml\n";
    assert_eq!(
        changed_cargo_tomls(out),
        strings(&["substrate/frame/balances/Cargo.toml", "cumulus/Cargo.toml"])
    );
    assert!(changed_cargo_tomls("").is_empty());
}

#[test]
fn extract_pr_numbers_sorted_and_distinct() {
    let out = "Fix thing (#1234)\n[stable2506] Backport #99\nMerge branch 'x'\nAnother fix (#1234)\n[stable2412] Backport #5 (#777)\n";
    assert_eq!(extract_pr_numbers(out), vec![5, 99, 1234]);
}

#[test]
fn extract_pr_numbers_skips_numbers_too_large() {
    assert_eq!(extract_pr_numbers("Huge (#99999999999999999999)\nSmall (#3)"), vec![3]);
    assert!(extract_pr_numbers("no numbers here").is_empty());
}

#[test]
fn subject_pr_number_prefers_backport() {
    assert_eq!(subject_pr_number("[stable2412] Backport #5 (#777)"), Some(5));
    assert_eq!(subject_pr_number("Fix thing (#1234)  "), Some(1234));
    assert_eq!(subject_pr_number("Fix thing (#1234) and more"), None);
    assert_eq!(subject_pr_number("[stable24] Backport #5"), None);
}

#[test]
fn sorted_distinct_orders_and_dedups() {
    assert_eq!(sorted_distinct(&vec![30, 10, 20, 10, 30]), vec![10, 20, 30]);
    assert!(sorted_distinct(&vec![]).is_empty());
}

#[test]
fn prdoc_pr_number_both_layouts() {
    assert_eq!(prdoc_pr_number("prdoc/stable2512/pr_10861.prdoc"), Some(10861));
    assert_eq!(prdoc_pr_number("prdoc/pr_42.prdoc"), Some(42));
    assert_eq!(prdoc_pr_number("prdoc/README.md"), None);
    assert_eq!(prdoc_pr_number("prdoc/pr_x.prdoc"), None);
}

#[test]
fn build_prdoc_index_drops_empty_and_keeps_last() {
    let entries = vec![
        (1, strings(&["a"])),
        (2, vec![]),
        (1, strings(&["b", "c"])),
        (3, strings(&["d"])),
        (3, vec![]),
    ];
    let index = build_prdoc_index(entries);
    assert_eq!(index.len(), 2);
    assert_eq!(index.get(&1), Some(&strings(&["b", "c"])));
    assert_eq!(index.get(&3), Some(&strings(&["d"])));
    assert!(!index.contains_key(&2));
}

#[test]
fn crate_version_from_manifest_cases() {
    let m = "[package]\nname = \"pallet-foo\"\nversion = \"1.2.3\"\nedition = \"2021\"\n";
    assert!(matches!(
        crate_version_from_manifest(m),
        Ok(Some((n, v))) if n == "pallet-foo" && v == "1.2.3"
    ));
    let inherited = "[package]\nname = \"pallet-bar\"\nversion.workspace = true\n";
    assert!(matches!(
        crate_version_from_manifest(inherited),
        Ok(Some((n, v))) if n == "pallet-bar" && v.is_empty()
    ));
    assert!(matches!(crate_version_from_manifest("[workspace]\nmembers = []\n"), Ok(None)));
    assert!(matches!(crate_version_from_manifest("[package\nname ="), Err(ManifestError::Invalid)));
}

// ---------------------------------------------------------------------------
// Releases
// ---------------------------------------------------------------------------

#[test]
fn assemble_release_bumps_and_prs() {
    let pair = |a: Option<(&str, &str)>, b: Option<(&str, &str)>| -> ManifestPair {
        (a.map(|(n, v)| (st(n), st(v))), b.map(|(n, v)| (st(n), st(v))))
    };
    let manifests = vec![
        pair(Some(("foo", "1.0.0")), Some(("foo", "1.1.0"))),
        pair(Some(("bar", "2.0.0")), Some(("bar", "2.0.0"))),
        pair(Some(("old", "1.0.0")), Some(("new", "1.0.1"))),
        pair(None, Some(("baz", "0.1.0"))),
        pair(Some(("qux", "3.0.0")), Some(("qux", "3.0.1"))),
    ];
    let index = build_prdoc_index(vec![
        (10, strings(&["foo"])),
        (20, strings(&["foo", "qux", "bar"])),
        (30, strings(&["zzz"])),
    ]);
    let r = assemble_release("polkadot-stable2506-1", "polkadot-stable2506", "2025-06-15", &manifests, &vec![10, 20, 30], &index);
    assert_eq!(r.tag, "polkadot-stable2506-1");
    assert_eq!(r.prev_tag, "polkadot-stable2506");
    let mut crates: Vec<(String, String, String, Vec<u64>)> = r
        .crates
        .iter()
        .map(|c| (c.name.clone(), c.version.clone(), c.published.clone(), c.prs.clone()))
        .collect();
    crates.sort();
    assert_eq!(
        crates,
        vec![
            (st("foo"), st("1.1.0"), st("2025-06-15"), vec![10, 20]),
            (st("qux"), st("3.0.1"), st("2025-06-15"), vec![20]),
        ]
    );
}

#[test]
fn plan_discovery_skips_known_and_old_tags() {
    let tags = vec![
        published("polkadot-stable2407", "stable2407", "2024-04-29"),
        published("polkadot-stable2407-1", "stable2407-1", "2024-08-15"),
        published("polkadot-stable2506", "stable2506", "2025-06-01"),
        published("polkadot-stable2506-1", "stable2506-1", "2025-06-15"),
    ];
    let state = state_with(vec![release("polkadot-stable2506", "polkadot-stable2407-1", vec![])], Some("2024-08-15"));
    let plan = plan_discovery(&state, &tags);
    assert_eq!(plan.jobs.len(), 1);
    assert_eq!(plan.jobs[0].tag, "polkadot-stable2506-1");
    assert_eq!(plan.jobs[0].prev_tag, "polkadot-stable2506");
    assert_eq!(plan.jobs[0].date, "2025-06-15");
    assert_eq!(plan.latest_date.as_deref(), Some("2025-06-15"));
}

#[test]
fn plan_discovery_first_release_has_no_job() {
    let tags = vec![published("polkadot-stable2407", "stable2407", "2024-04-29")];
    let plan = plan_discovery(&state_with(vec![], None), &tags);
    assert!(plan.jobs.is_empty());
    assert_eq!(plan.latest_date.as_deref(), Some("2024-04-29"));
}

#[test]
fn rerun_after_recording_finds_nothing() {
    let tags = vec![
        published("polkadot-stable2407", "stable2407", "2024-04-29"),
        published("polkadot-stable2407-1", "stable2407-1", "2024-08-15"),
        published("polkadot-stable2409", "stable2409", "2024-09-26"),
    ];
    let mut state = state_with(vec![], None);
    let plan = plan_discovery(&state, &tags);
    assert_eq!(plan.jobs.len(), 2);
    let releases: Vec<Release> = plan
        .jobs
        .iter()
        .map(|j| release(&j.tag, &j.prev_tag, vec![]))
        .collect();
    record_discovery(&mut state, releases, plan.latest_date);
    assert_eq!(state.releases.len(), 2);
    assert_eq!(state.releases[1].tag, "polkadot-stable2409");
    assert_eq!(state.releases[1].prev_tag, "polkadot-stable2407-1");
    assert_eq!(state.last_processed_tags_date.as_deref(), Some("2024-09-26"));

    let again = plan_discovery(&state, &tags);
    assert!(again.jobs.is_empty());
    assert!(again.latest_date.is_none());
}

#[test]
fn record_discovery_without_new_tags_keeps_date() {
    let mut state = state_with(vec![], Some("2024-01-01"));
    record_discovery(&mut state, vec![], None);
    assert_eq!(state.last_processed_tags_date.as_deref(), Some("2024-01-01"));
    assert!(state.releases.is_empty());
}

// ---------------------------------------------------------------------------
// Annotation
// ---------------------------------------------------------------------------

#[test]
fn build_pr_tags_sorted_without_repeats() {
    let state = state_with(
        vec![
            release("v2", "v1", vec![("a", vec![1, 2]), ("b", vec![1])]),
            release("v1", "v0", vec![("a", vec![1])]),
            release("v3", "v2", vec![("c", vec![])]),
        ],
        None,
    );
    let m = build_pr_tags(&state);
    assert_eq!(m.len(), 2);
    assert_eq!(m.get(&1), Some(&strings(&["v1", "v2"])));
    assert_eq!(m.get(&2), Some(&strings(&["v2"])));
    assert_eq!(join_with_comma(m.get(&1).unwrap()), "v1, v2");
}

#[test]
fn join_with_comma_edges() {
    assert_eq!(join_with_comma(&vec![]), "");
    assert_eq!(join_with_comma(&strings(&["only"])), "only");
    assert_eq!(join_with_comma(&strings(&["a", "b", "c"])), "a, b, c");
}

// ---------------------------------------------------------------------------
// GitHub
// ---------------------------------------------------------------------------

#[test]
fn github_urls() {
    assert_eq!(
        compare_url("paritytech", "polkadot-sdk", "v1", "v2"),
        "https://api.github.com/repos/paritytech/polkadot-sdk/compare/v1...v2"
    );
    assert_eq!(
        contents_url("o", "r", "src/lib.rs", "main"),
        "https://api.github.com/repos/o/r/contents/src/lib.rs?ref=main"
    );
    assert_eq!(commit_url("o", "r", "main"), "https://api.github.com/repos/o/r/commits/main");
    assert_eq!(
        raw_url("o", "r", "Cargo.lock", "abc123"),
        "https://raw.githubusercontent.com/o/r/abc123/Cargo.lock"
    );
}

#[test]
fn decode_file_content_cases() {
    assert_eq!(decode_file_content("aGVsbG8=").ok().as_deref(), Some("hello"));
    assert_eq!(decode_file_content("aGVs\nbG8=\n").ok().as_deref(), Some("hello"));
    assert!(matches!(decode_file_content("!!!"), Err(ContentError::Base64)));
    assert!(matches!(decode_file_content("/w=="), Err(ContentError::Utf8)));
}

// ---------------------------------------------------------------------------
// Downstream
// ---------------------------------------------------------------------------

#[test]
fn apply_downstream_keeps_dependencies_only() {
    let lock = parse_cargo_lock_versions(
        "[[package]]\nname = \"a\"\nversion = \"1.0.0\"\n\n[[package]]\nname = \"b\"\nversion = \"2.0.0\"\n\n[[package]]\nname = \"c\"\nversion = \"3.0.0\"\n",
    );
    let deps = KeySet::from_vec(strings(&["a", "c", "z"]));
    let mut rt = runtime_with(vec![]);
    apply_downstream(&mut rt, &lock, deps, Some(7), st("0123456789abcdef"), true);
    assert_eq!(rt.downstream.versions.len(), 2);
    assert_eq!(rt.downstream.versions.get(&st("a")), Some(&st("1.0.0")));
    assert_eq!(rt.downstream.versions.get(&st("c")), Some(&st("3.0.0")));
    assert!(!rt.downstream.versions.contains_key(&st("b")));
    assert_eq!(rt.downstream.deps.len(), 3);
    assert_eq!(rt.downstream.spec_version, Some(7));
    assert_eq!(rt.last_seen_commit, None);

    let deps = KeySet::from_vec(strings(&["a"]));
    apply_downstream(&mut rt, &lock, deps, None, st("0123456789abcdef"), false);
    assert_eq!(rt.last_seen_commit.as_deref(), Some("0123456789abcdef"));
    assert!(downstream_is_current(&rt, &st("0123456789abcdef")));
    assert!(!downstream_is_current(&rt, &st("fedcba9876543210")));
}

#[test]
fn downstream_not_current_without_dependencies() {
    let mut rt = runtime_with(vec![]);
    rt.last_seen_commit = Some(st("abc"));
    assert!(!downstream_is_current(&rt, &st("abc")));
}

#[test]
fn compute_pr_coverage_adopted_within_total() {
    let names = strings(&["a", "b", "c", "d"]);
    let release = KeyMap::from_entries(vec![(st("a"), st("1")), (st("b"), st("2")), (st("c"), st("3"))]);
    let lock = KeyMap::from_entries(vec![(st("a"), st("1")), (st("b"), st("9")), (st("d"), st("4"))]);
    let deps = KeySet::from_vec(strings(&["a", "b", "d"]));
    let (adopted, total) = compute_pr_coverage(&names, &release, &lock, &deps);
    assert_eq!((adopted, total), (1, 3));
    assert!(adopted <= total);
}

// ---------------------------------------------------------------------------
// On-chain
// ---------------------------------------------------------------------------

fn bisect_on(lower: u32, upper: u32, target: u32, spec_at: impl Fn(u32) -> u32) -> (u32, u32) {
    let (mut lower, mut upper) = (lower, upper);
    let mut queries = 0;
    while let Some(mid) = bisect_midpoint(lower, upper) {
        assert!(lower < mid && mid < upper);
        queries += 1;
        (lower, upper) = bisect_narrow(lower, upper, mid, spec_at(mid), target);
    }
    (upper, queries)
}

#[test]
fn bisect_finds_first_block_with_target_spec() {
    let spec_at = |b: u32| if b >= 57 { 2 } else { 1 };
    assert_eq!(bisect_on(10, 100, 2, spec_at).0, 57);
    assert_eq!(bisect_on(56, 57, 2, spec_at), (57, 0));
    assert_eq!(bisect_on(0, 1_000_000, 5, |b| if b >= 999_999 { 5 } else { 4 }).0, 999_999);
}

#[test]
fn bisect_edge_ranges_and_query_bound() {
    // A single block: nothing to query, the answer is that block.
    assert_eq!(bisect_on(40, 40, 3, |_| 3), (40, 0));
    // The block after `lower` already runs the target.
    assert_eq!(bisect_on(10, 100, 2, |_| 3).0, 11);
    // At most ceil(log2(upper - lower)) queries: 2^7 >= 90.
    let (r, q) = bisect_on(10, 100, 2, |b| if b >= 57 { 2 } else { 1 });
    assert_eq!(r, 57);
    assert!(q <= 7);
    let (_, q) = bisect_on(0, 1 << 20, 2, |b| if b >= 12_345 { 2 } else { 1 });
    assert!(q <= 20);
}

#[test]
fn bisect_midpoint_and_narrow_values() {
    assert_eq!(bisect_midpoint(10, 11), None);
    assert_eq!(bisect_midpoint(10, 10), None);
    assert_eq!(bisect_midpoint(10, 20), Some(15));
    assert_eq!(bisect_narrow(10, 20, 15, 3, 3), (10, 15));
    assert_eq!(bisect_narrow(10, 20, 15, 2, 3), (15, 20));
}

#[test]
fn upgrade_detection_and_start_block() {
    let rt = runtime_with(vec![upgrade(5, 100), upgrade(9, 300), upgrade(7, 200)]);
    assert!(!has_new_upgrade(&rt, 9));
    assert!(has_new_upgrade(&rt, 10));
    assert_eq!(search_start_block(&rt), 300);
    assert_eq!(search_start_block(&runtime_with(vec![])), 0);
    assert!(has_new_upgrade(&runtime_with(vec![]), 1));
    assert_eq!(search_start_block(&runtime_with(vec![upgrade(1, (1u64 << 32) + 5)])), 5);
    assert_eq!(first_upgraded_block(41), 42);
}

#[test]
fn record_upgrade_appends_with_block_url() {
    let mut rt = runtime_with(vec![upgrade(5, 100)]);
    record_upgrade(&mut rt, 1_002_000, 4242, st("0xbeef"), st("2025-06-01T12:00:00+00:00"));
    assert_eq!(rt.upgrades.len(), 2);
    let u = &rt.upgrades[1];
    assert_eq!(u.spec_version, 1_002_000);
    assert_eq!(u.block_number, 4242);
    assert_eq!(u.block_hash, "0xbeef");
    assert_eq!(u.date, "2025-06-01T12:00:00+00:00");
    assert_eq!(u.block_url, "https://explorer.example/block/4242");
    // Once recorded, the same spec version is no longer a new upgrade.
    assert!(!has_new_upgrade(&rt, 1_002_000));
    assert_eq!(block_url("https://x", 0), "https://x/block/0");
}

#[test]
fn upgrade_date_rfc3339() {
    assert_eq!(upgrade_date(0).as_deref(), Some("1970-01-01T00:00:00+00:00"));
    assert_eq!(upgrade_date(1_700_000_000_123).as_deref(), Some("2023-11-14T22:13:20.123+00:00"));
    // The chain value is read as a signed number of milliseconds.
    assert_eq!(upgrade_date(u64::MAX).as_deref(), Some("1969-12-31T23:59:59.999+00:00"));
    assert_eq!(upgrade_date(i64::MAX as u64), None);
}

#[test]
fn spec_version_digits_ignores_underscores() {
    assert_eq!(spec_version_digits("2_000_006"), Some(2_000_006));
    assert_eq!(spec_version_digits("1002003"), Some(1_002_003));
    assert_eq!(spec_version_digits("99999999999999999999"), None);
    assert_eq!(spec_version_digits("_"), None);
}

#[test]
fn hex_quantities() {
    assert_eq!(parse_hex_quantity("0x1a"), Some(26));
    assert_eq!(parse_hex_quantity("0x00FF"), Some(255));
    assert_eq!(parse_hex_quantity("0xffffffffffffffff"), Some(u64::MAX));
    assert_eq!(parse_hex_quantity("0x10000000000000000"), None);
    assert_eq!(parse_hex_quantity("0x"), None);
    assert_eq!(parse_hex_quantity("1a"), None);
    assert_eq!(parse_hex_quantity("0xzz"), None);
}

#[test]
fn storage_timestamp_little_endian() {
    assert_eq!(decode_storage_u64("0x7b68e5cf8b010000"), Some(1_700_000_000_123));
    assert_eq!(decode_storage_u64("0x0100000000000000"), Some(1));
    assert_eq!(decode_storage_u64("0xffffffffffffffff"), Some(u64::MAX));
    assert_eq!(decode_storage_u64("0x7b68e5cf8b0100"), None);
    assert_eq!(decode_storage_u64("0x7b68e5cf8b01000g"), None);
}

#[test]
fn fields_to_create_lists_missing_fields() {
    let mut a = runtime_with(vec![]);
    a.field_name = st("AH Paseo");
    let mut b = runtime_with(vec![]);
    b.field_name = st("AH Kusama");
    let runtimes = vec![a, b];
    let existing = KeySet::from_vec(strings(&["AH Kusama", "Status"]));
    assert_eq!(fields_to_create(&existing, &runtimes), strings(&["Release Tags", "AH Paseo"]));
    let all = KeySet::from_vec(strings(&["Release Tags", "AH Paseo", "AH Kusama"]));
    assert!(fields_to_create(&all, &runtimes).is_empty());
}

#[test]
fn runtime_statuses_follow_runtime_order() {
    let mut adopted = runtime_with(vec![upgrade(1_002_000, 10)]);
    adopted.downstream = DownstreamInfo {
        versions: KeyMap::from_entries(vec![(st("pallet-x"), st("2.0.0"))]),
        deps: KeySet::from_vec(strings(&["pallet-x"])),
        spec_version: Some(1_002_000),
    };
    let other = runtime_with(vec![]);
    let crates: KeyMap<String, Vec<String>> =
        KeyMap::from_entries(vec![(st("pallet-x"), strings(&["2.0.0"]))]);
    let runtimes = vec![adopted, other];
    let statuses = runtime_statuses(&runtimes, Some(&crates));
    assert_eq!(statuses, strings(&["v1002000", ""]));
    assert_eq!(statuses[0], compute_runtime_status(&runtimes[0], Some(&crates)));
    assert_eq!(runtime_statuses(&runtimes, None), strings(&["", ""]));
}
