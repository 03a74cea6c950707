use tracker::downstream::{compute_pr_coverage, parse_cargo_lock_versions, parse_repo, parse_runtime_deps};
use tracker::maps::{KeyMap, KeySet};
use tracker::onchain::parse_spec_version;
use tracker::project::{build_pr_crate_map, compute_runtime_status, format_status_summary};
use tracker::releases::{
    collect_published_tags, find_prev_tag, parse_release_name, DateAndTag, MaintainedState,
    PatchInfo, ProjectInfo, PublishedTag, ReleaseInfo, ReleasesJson, SimpleState,
};
use tracker::state::{CrateRelease, DownstreamInfo, Project, Release, Runtime, State, Upgrade};

fn s(x: &str) -> String {
    x.to_string()
}

fn make_state(releases: Vec<Release>, runtimes: Vec<Runtime>) -> State {
    State {
        project: Project { org: s("test"), number: 1 },
        runtimes,
        last_processed_tags_date: None,
        releases,
    }
}

fn make_upgrade(spec_version: u64) -> Upgrade {
    Upgrade {
        spec_version,
        block_number: 100,
        block_hash: s("0x00"),
        date: s("2025-01-01"),
        block_url: s("https://explorer/100"),
    }
}

fn versions(pairs: &[(&str, &str)]) -> KeyMap<String, String> {
    KeyMap::from_entries(pairs.iter().map(|(k, v)| (s(k), s(v))).collect())
}

fn names(items: &[&str]) -> KeySet<String> {
    KeySet::from_vec(items.iter().map(|x| s(x)).collect())
}

fn crate_versions(pairs: &[(&str, &[&str])]) -> KeyMap<String, Vec<String>> {
    KeyMap::from_entries(
        pairs.iter().map(|(k, vs)| (s(k), vs.iter().map(|v| s(v)).collect())).collect(),
    )
}

fn make_runtime(
    versions: KeyMap<String, String>,
    deps: KeySet<String>,
    spec_version: Option<u64>,
    upgrades: Vec<Upgrade>,
) -> Runtime {
    Runtime {
        runtime: s("test-runtime"),
        short: s("TR"),
        repo: s("org/repo"),
        branch: s("main"),
        cargo_lock_path: s("Cargo.lock"),
        cargo_toml_path: s("Cargo.toml"),
        spec_version_path: s("lib.rs"),
        network: s("testnet"),
        rpc: s("https://rpc"),
        ws: s("wss://ws"),
        field_name: s("TR Test"),
        block_explorer_url: s("https://explorer"),
        in_repo: false,
        last_seen_commit: None,
        upgrades,
        downstream: DownstreamInfo { versions, deps, spec_version },
    }
}

fn crate_release(name: &str, version: &str, published: &str, prs: Vec<u64>) -> CrateRelease {
    CrateRelease { name: s(name), version: s(version), published: s(published), prs }
}

fn tag(tag: &str, name: &str, date: &str) -> PublishedTag {
    PublishedTag { tag: s(tag), name: s(name), date: s(date) }
}

// ---------------------------------------------------------------------------
// project
// ---------------------------------------------------------------------------

#[test]
fn build_pr_crate_map_basic() {
    let state = make_state(
        vec![Release {
            tag: s("v1"),
            prev_tag: s("v0"),
            crates: vec![crate_release("crate-a", "1.0.0", "2025-01-01", vec![10, 20])],
        }],
        vec![],
    );

    let map = build_pr_crate_map(&state);
    assert_eq!(map.get(&10).unwrap().get(&s("crate-a")).unwrap(), &vec![s("1.0.0")]);
    assert_eq!(map.get(&20).unwrap().get(&s("crate-a")).unwrap(), &vec![s("1.0.0")]);
}

#[test]
fn build_pr_crate_map_collects_all_versions() {
    let state = make_state(
        vec![
            Release {
                tag: s("v1"),
                prev_tag: s("v0"),
                crates: vec![crate_release("crate-a", "1.0.0", "2025-01-01", vec![10])],
            },
            Release {
                tag: s("v2"),
                prev_tag: s("v1"),
                crates: vec![crate_release("crate-a", "2.0.0", "2025-02-01", vec![10])],
            },
        ],
        vec![],
    );

    let map = build_pr_crate_map(&state);
    assert_eq!(
        map.get(&10).unwrap().get(&s("crate-a")).unwrap(),
        &vec![s("1.0.0"), s("2.0.0")]
    );
}

#[test]
fn compute_runtime_status_no_crates() {
    let rt = make_runtime(KeyMap::new(), KeySet::new(), None, vec![]);
    assert_eq!(compute_runtime_status(&rt, None), "");
}

#[test]
fn compute_runtime_status_not_in_deps() {
    let rt = make_runtime(KeyMap::new(), KeySet::new(), None, vec![]);
    let crates = crate_versions(&[("crate-a", &["1.0.0"])]);
    assert_eq!(compute_runtime_status(&rt, Some(&crates)), "");
}

#[test]
fn compute_runtime_status_adopted_enacted() {
    let rt = make_runtime(
        versions(&[("crate-a", "1.0.0")]),
        names(&["crate-a"]),
        Some(2000006),
        vec![make_upgrade(2000006)],
    );
    let crates = crate_versions(&[("crate-a", &["1.0.0"])]);
    assert_eq!(compute_runtime_status(&rt, Some(&crates)), "v2000006");
}

#[test]
fn compute_runtime_status_adopted_pending() {
    let rt = make_runtime(
        versions(&[("crate-a", "1.0.0")]),
        names(&["crate-a"]),
        Some(3000000),
        vec![make_upgrade(2000006)],
    );
    let crates = crate_versions(&[("crate-a", &["1.0.0"])]);
    assert_eq!(compute_runtime_status(&rt, Some(&crates)), "pending v3000000");
}

#[test]
fn compute_runtime_status_partial_adoption() {
    let rt = make_runtime(
        versions(&[("crate-a", "2.0.0")]),
        names(&["crate-a", "crate-b"]),
        Some(2000006),
        vec![make_upgrade(2000006)],
    );
    let crates = crate_versions(&[("crate-a", &["1.0.0", "2.0.0"]), ("crate-b", &["1.0.0"])]);
    assert_eq!(compute_runtime_status(&rt, Some(&crates)), "v2000006 (1/2 crates)");
}

#[test]
fn compute_runtime_status_version_from_different_branch_not_adopted() {
    let rt = make_runtime(
        // Downstream has version 0.24.1 (from a branch without the backport)
        versions(&[("crate-a", "0.24.1")]),
        names(&["crate-a"]),
        Some(2000006),
        vec![make_upgrade(2000006)],
    );
    // PR was backported to branches producing 0.21.1, 0.23.1, and 0.25.0
    let crates = crate_versions(&[("crate-a", &["0.21.1", "0.23.1", "0.25.0"])]);
    // 0.24.1 is not in the known versions, so not adopted
    assert_eq!(compute_runtime_status(&rt, Some(&crates)), "");
}

#[test]
fn compute_runtime_status_in_repo_enacted() {
    let mut rt = make_runtime(KeyMap::new(), KeySet::new(), Some(1022001), vec![make_upgrade(1022001)]);
    rt.in_repo = true;
    let crates = crate_versions(&[("crate-a", &["1.0.0"])]);
    assert_eq!(compute_runtime_status(&rt, Some(&crates)), "v1022001");
}

#[test]
fn compute_runtime_status_in_repo_pending() {
    let mut rt = make_runtime(KeyMap::new(), KeySet::new(), Some(1023000), vec![make_upgrade(1022001)]);
    rt.in_repo = true;
    let crates = crate_versions(&[("crate-a", &["1.0.0"])]);
    assert_eq!(compute_runtime_status(&rt, Some(&crates)), "pending v1023000");
}

#[test]
fn compute_runtime_status_in_repo_no_crates() {
    let mut rt = make_runtime(KeyMap::new(), KeySet::new(), Some(1022001), vec![make_upgrade(1022001)]);
    rt.in_repo = true;
    assert_eq!(compute_runtime_status(&rt, None), "");
}

#[test]
fn compute_runtime_status_picked_up_spec_not_bumped() {
    // Adopted, but neither the code spec nor any on-chain upgrade is known.
    let rt = make_runtime(versions(&[("crate-a", "1.0.0")]), names(&["crate-a"]), None, vec![]);
    let crates = crate_versions(&[("crate-a", &["1.0.0"])]);
    assert_eq!(compute_runtime_status(&rt, Some(&crates)), "pending > v0");
}

#[test]
fn compute_runtime_status_uses_highest_upgrade() {
    let rt = make_runtime(
        versions(&[("crate-a", "1.0.0")]),
        names(&["crate-a"]),
        Some(5),
        vec![make_upgrade(7), make_upgrade(9), make_upgrade(8)],
    );
    let crates = crate_versions(&[("crate-a", &["1.0.0"])]);
    assert_eq!(compute_runtime_status(&rt, Some(&crates)), "v9");
}

#[test]
fn format_status_summary_lists_runtimes_with_status() {
    let mut adopted = make_runtime(
        versions(&[("crate-a", "1.0.0")]),
        names(&["crate-a"]),
        Some(2000006),
        vec![make_upgrade(2000006)],
    );
    adopted.field_name = s("AH Paseo");
    let mut other = make_runtime(KeyMap::new(), KeySet::new(), None, vec![]);
    other.field_name = s("Other");
    let mut in_repo = make_runtime(KeyMap::new(), KeySet::new(), Some(3), vec![]);
    in_repo.field_name = s("Westend");
    in_repo.in_repo = true;
    let state = make_state(
        vec![Release {
            tag: s("v1"),
            prev_tag: s("v0"),
            crates: vec![crate_release("crate-a", "1.0.0", "2025-01-01", vec![42])],
        }],
        vec![adopted, other, in_repo],
    );
    let map = build_pr_crate_map(&state);
    assert_eq!(format_status_summary(&state, &map, 42), " [AH Paseo=v2000006, Westend=pending v3]");
    assert_eq!(format_status_summary(&state, &map, 7), "");
}

// ---------------------------------------------------------------------------
// releases
// ---------------------------------------------------------------------------

#[test]
fn parse_release_name_with_patch() {
    assert_eq!(parse_release_name("stable2506-9"), ("stable2506", 9));
}

#[test]
fn parse_release_name_without_patch() {
    assert_eq!(parse_release_name("stable2506"), ("stable2506", 0));
}

#[test]
fn parse_release_name_non_numeric_suffix() {
    assert_eq!(parse_release_name("stable2506-rc1"), ("stable2506-rc1", 0));
}

#[test]
fn parse_release_name_edge_cases() {
    // `str::parse` accepts a leading '+', and rejects numbers beyond u32.
    assert_eq!(parse_release_name("stable2506-+3"), ("stable2506", 3));
    assert_eq!(parse_release_name("stable2506-4294967296"), ("stable2506-4294967296", 0));
    assert_eq!(parse_release_name("stable2506-"), ("stable2506-", 0));
    assert_eq!(parse_release_name("a-b-12"), ("a-b", 12));
}

#[test]
fn maintained_state_released() {
    // The value that the JSON string "released" stands for.
    let s = MaintainedState::Simple(SimpleState::Released);
    assert!(s.is_released());
}

#[test]
fn maintained_state_deprecated() {
    // The value that {"deprecated": {...}} stands for.
    let s = MaintainedState::Deprecated {};
    assert!(s.is_released());
}

#[test]
fn maintained_state_planned() {
    // The value that the JSON string "planned" stands for.
    let s = MaintainedState::Simple(SimpleState::Planned);
    assert!(!s.is_released());
}

#[test]
fn published_tag_from_published() {
    let publish = DateAndTag::Published { when: s("2025-06-15"), tag: s("polkadot-stable2506-1") };
    let info = PublishedTag::from_entry("stable2506-1", &publish).unwrap();
    assert_eq!(info.tag, "polkadot-stable2506-1");
    assert_eq!(info.name, "stable2506-1");
    assert_eq!(info.date, "2025-06-15");
}

#[test]
fn published_tag_from_estimated() {
    let publish = DateAndTag::Estimated {};
    assert!(PublishedTag::from_entry("stable2506-3", &publish).is_none());
}

fn published(date: &str, tag: &str) -> DateAndTag {
    DateAndTag::Published { when: s(date), tag: s(tag) }
}

#[test]
fn collect_published_tags_from_fixture() {
    // stable2407 + stable2407-1 (deprecated = released) + stable2506 + stable2506-1 + stable2506-2
    // stable2506-3 is "planned", excluded. Sorted by date.
    let json = ReleasesJson {
        polkadot_sdk: ProjectInfo {
            releases: vec![
                ReleaseInfo {
                    name: s("stable2506"),
                    publish: published("2025-06-01", "polkadot-stable2506"),
                    state: MaintainedState::Simple(SimpleState::Released),
                    patches: vec![
                        PatchInfo {
                            name: s("stable2506-1"),
                            publish: published("2025-06-15", "polkadot-stable2506-1"),
                            state: MaintainedState::Simple(SimpleState::Released),
                        },
                        PatchInfo {
                            name: s("stable2506-2"),
                            publish: published("2025-07-01", "polkadot-stable2506-2"),
                            state: MaintainedState::Simple(SimpleState::Released),
                        },
                        PatchInfo {
                            name: s("stable2506-3"),
                            publish: DateAndTag::Estimated {},
                            state: MaintainedState::Simple(SimpleState::Planned),
                        },
                    ],
                },
                ReleaseInfo {
                    name: s("stable2407"),
                    publish: published("2024-04-29", "polkadot-stable2407"),
                    state: MaintainedState::Simple(SimpleState::Released),
                    patches: vec![PatchInfo {
                        name: s("stable2407-1"),
                        publish: published("2024-08-15", "polkadot-stable2407-1"),
                        state: MaintainedState::Deprecated {},
                    }],
                },
                ReleaseInfo {
                    name: s("stable2512"),
                    publish: DateAndTag::Estimated {},
                    state: MaintainedState::Simple(SimpleState::Planned),
                    patches: vec![],
                },
            ],
        },
    };
    let tags = collect_published_tags(&json);

    let names: Vec<&str> = tags.iter().map(|t| t.name.as_str()).collect();
    assert_eq!(names, vec!["stable2407", "stable2407-1", "stable2506", "stable2506-1", "stable2506-2"]);
}

#[test]
fn collect_published_tags_keeps_order_of_same_date() {
    let json = ReleasesJson {
        polkadot_sdk: ProjectInfo {
            releases: vec![
                ReleaseInfo {
                    name: s("b"),
                    publish: published("2025-01-02", "tag-b"),
                    state: MaintainedState::Simple(SimpleState::Released),
                    patches: vec![],
                },
                ReleaseInfo {
                    name: s("a"),
                    publish: published("2025-01-01", "tag-a"),
                    state: MaintainedState::Simple(SimpleState::Released),
                    patches: vec![],
                },
                ReleaseInfo {
                    name: s("c"),
                    publish: published("2025-01-02", "tag-c"),
                    state: MaintainedState::Simple(SimpleState::Released),
                    patches: vec![],
                },
                ReleaseInfo {
                    name: s("skipped"),
                    publish: published("2024-01-01", "tag-skipped"),
                    state: MaintainedState::Simple(SimpleState::Skipped),
                    patches: vec![],
                },
            ],
        },
    };
    let tags = collect_published_tags(&json);
    let names: Vec<&str> = tags.iter().map(|t| t.name.as_str()).collect();
    assert_eq!(names, vec!["a", "b", "c"]);
}

#[test]
fn find_prev_tag_same_branch() {
    let tags = vec![
        tag("polkadot-stable2506", "stable2506", "2025-06-01"),
        tag("polkadot-stable2506-1", "stable2506-1", "2025-06-15"),
        tag("polkadot-stable2506-2", "stable2506-2", "2025-07-01"),
    ];
    assert_eq!(find_prev_tag("stable2506-2", &tags).unwrap(), "polkadot-stable2506-1");
}

#[test]
fn find_prev_tag_cross_branch() {
    let tags = vec![
        tag("polkadot-stable2407", "stable2407", "2024-04-29"),
        tag("polkadot-stable2407-1", "stable2407-1", "2024-08-15"),
        tag("polkadot-stable2506", "stable2506", "2025-06-01"),
    ];
    assert_eq!(find_prev_tag("stable2506", &tags).unwrap(), "polkadot-stable2407-1");
}

#[test]
fn find_prev_tag_no_previous() {
    let tags = vec![tag("polkadot-stable2407", "stable2407", "2024-04-29")];
    assert!(find_prev_tag("stable2407", &tags).is_err());
}

#[test]
fn find_prev_tag_error_message_and_skipped_patch() {
    let tags = vec![
        tag("polkadot-stable2407", "stable2407", "2024-04-29"),
        tag("polkadot-stable2506", "stable2506", "2025-06-01"),
        tag("polkadot-stable2506-2", "stable2506-2", "2025-07-01"),
    ];
    // Patch 3 skips the missing patch 1... and takes the latest earlier patch.
    assert_eq!(find_prev_tag("stable2506-3", &tags).unwrap(), "polkadot-stable2506-2");
    // The first patch of a branch without earlier patches goes to the branch before.
    assert_eq!(find_prev_tag("stable2407-1", &tags).unwrap(), "polkadot-stable2407");
    assert_eq!(
        find_prev_tag("stable2300", &tags).unwrap_err(),
        "cannot determine prev_tag for stable2300"
    );
}

// ---------------------------------------------------------------------------
// downstream
// ---------------------------------------------------------------------------

#[test]
fn parse_cargo_lock_from_fixture() {
    let content = "version = 3\n\n[[package]]\nname = \"pallet-balances\"\nversion = \"39.0.1\"\nsource = \"registry+https://github.com/rust-lang/crates.io-index\"\n\n[[package]]\nname = \"pallet-revive\"\nversion = \"0.3.0\"\n\n[[package]]\nname = \"frame-system\"\nversion = \"38.1.0\"\ndependencies = [\n \"sp-core\",\n]\n\n[[package]]\nname = \"sp-core\"\nversion = \"34.0.0\"\n";
    let v = parse_cargo_lock_versions(content);
    assert_eq!(v.len(), 4);
    assert_eq!(v.get(&s("pallet-balances")).unwrap(), "39.0.1");
    assert_eq!(v.get(&s("pallet-revive")).unwrap(), "0.3.0");
    assert_eq!(v.get(&s("frame-system")).unwrap(), "38.1.0");
    assert_eq!(v.get(&s("sp-core")).unwrap(), "34.0.0");
}

#[test]
fn parse_cargo_lock_blank_line_ends_package() {
    // A version after a blank line belongs to no package; CRLF lines are read too.
    let content = "name = \"a\"\r\n   \r\nversion = \"1.0.0\"\r\nname = \"b\"\r\nversion = \"2.0.0\"\r\nname = \"c\"\nversion = 3\nversion = \"4\"\n";
    let v = parse_cargo_lock_versions(content);
    assert_eq!(v.len(), 1);
    assert_eq!(v.get(&s("b")).unwrap(), "2.0.0");
    assert!(v.get(&s("a")).is_none());
    assert!(v.get(&s("c")).is_none());
}

#[test]
fn parse_runtime_deps_from_fixture() {
    let content = "[package]\nname = \"runtime\"\nversion = \"1.0.0\"\n\n[dependencies]\npallet-balances = { version = \"39.0.1\", default-features = false }\nframe-system = \"38.1.0\"\n\n[dev-dependencies]\npallet-revive = \"0.3.0\"\n\n[build-dependencies]\nsp-io = \"38.0.0\"\n\n[workspace.dependencies]\nsp-core = \"34.0.0\"\n";
    let deps = parse_runtime_deps(content);
    assert_eq!(deps.len(), 5);
    for name in ["pallet-balances", "frame-system", "pallet-revive", "sp-io", "sp-core"] {
        assert!(deps.contains(&s(name)), "missing {name}");
    }
}

#[test]
fn parse_runtime_deps_invalid_toml() {
    let deps = parse_runtime_deps("[dependencies\nfoo = ");
    assert_eq!(deps.len(), 0);
}

#[test]
fn compute_pr_coverage_counts() {
    let names_list = vec![s("a"), s("b"), s("c"), s("a")];
    let release = versions(&[("a", "1.0.0"), ("b", "2.0.0"), ("c", "3.0.0")]);
    let lock = versions(&[("a", "1.0.0"), ("b", "1.9.0")]);
    let deps = names(&["a", "b"]);
    assert_eq!(compute_pr_coverage(&names_list, &release, &lock, &deps), (2, 3));
}

#[test]
fn parse_repo_splits_at_first_slash() {
    assert_eq!(parse_repo("paseo-network/runtimes"), ("paseo-network", "runtimes"));
    assert_eq!(parse_repo("a/b/c"), ("a", "b/c"));
}

// ---------------------------------------------------------------------------
// onchain
// ---------------------------------------------------------------------------

#[test]
fn parse_spec_version_standard() {
    assert_eq!(parse_spec_version("spec_version: 1002003"), Some(1002003));
}

#[test]
fn parse_spec_version_underscored() {
    assert_eq!(parse_spec_version("spec_version: 2_000_006"), Some(2000006));
}

#[test]
fn parse_spec_version_extra_whitespace() {
    assert_eq!(parse_spec_version("spec_version:   42"), Some(42));
}

#[test]
fn parse_spec_version_missing() {
    assert_eq!(parse_spec_version("impl_version: 0"), None);
}

#[test]
fn parse_spec_version_from_fixture() {
    let content = "pub const VERSION: RuntimeVersion = RuntimeVersion {\n\tspec_name: alloc::borrow::Cow::Borrowed(\"asset-hub-paseo\"),\n\timpl_name: alloc::borrow::Cow::Borrowed(\"asset-hub-paseo\"),\n\tauthoring_version: 1,\n\tspec_version: 2_000_006,\n\timpl_version: 0,\n\tapis: RUNTIME_API_VERSIONS,\n\ttransaction_version: 15,\n\tsystem_version: 1,\n};\n";
    assert_eq!(parse_spec_version(content), Some(2_000_006));
}

#[test]
fn parse_spec_version_overflow() {
    assert_eq!(parse_spec_version("spec_version: 99999999999999999999"), None);
    assert_eq!(parse_spec_version("spec_version: 1 spec_version: 2"), Some(1));
}

#[test]
fn parse_runtime_deps_reads_target_tables() {
    let content = "[package]\nname = \"runtime\"\nversion = \"1.0.0\"\n\n[dependencies]\nframe-system = \"38.1.0\"\n\n[target.'cfg(unix)'.dependencies]\nsp-io = \"38.0.0\"\n\n[target.x86_64-unknown-linux-gnu.dev-dependencies]\npallet-revive = \"0.3.0\"\n\n[target.'cfg(windows)'.build-dependencies]\nsp-core = \"34.0.0\"\n\n[features]\nstd = []\n";
    let deps = parse_runtime_deps(content);
    assert_eq!(deps.len(), 4);
    for name in ["frame-system", "sp-io", "pallet-revive", "sp-core"] {
        assert!(deps.contains(&s(name)), "missing {name}");
    }
    assert!(!deps.contains(&s("std")));
    assert!(!deps.contains(&s("runtime")));
}

#[test]
fn parse_release_name_reads_back_written_names() {
    for (base, n) in [("stable2506", 9u32), ("a-1", 2), ("", 5), ("x", u32::MAX), ("stable2407", 0)] {
        let name = format!("{base}-{n}");
        assert_eq!(parse_release_name(&name), (base, n));
    }
}
