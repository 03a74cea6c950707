# tracker

Tracks when polkadot-sdk pull requests reach downstream runtimes and go live
on-chain, and annotates a GitHub Project V2 with each PR's release tags and
per-runtime deployment status.

The pipeline has four steps: **discover** (new release tags from
`releases-v1.json`, resolved to crate version bumps and PRs with a local
polkadot-sdk checkout), **downstream** (which crate versions each runtime's
`Cargo.lock` resolves), **onchain** (binary search for the block of each new
runtime upgrade) and **annotate** (release tags and a status such as
`pending v{spec}` or `v{spec} (2/3 crates)` per runtime).

## Layout

- `src/` is the library, verified with Verus: the state model, the parsers of
  `Cargo.lock`, commit subjects, prdoc paths and node answers, release
  discovery and the choice of each tag's previous tag, the assembly of a
  release, the search for an upgrade block, and the status of a PR on each
  runtime. Every public function carries a contract, and the properties that
  span several functions are proved as `law_*` proof functions.
  `src/bindings.rs` holds the trusted calls into `regex`, `toml`,
  `cargo_toml`, `base64`, `chrono` and the parts of std that vstd does not
  describe.
- `app/` is the command-line program: GitHub and chain clients, git, the JSON
  files, and the loops that run each step with the library's decisions.
  The onchain step posts JSON-RPC requests to each runtime's `rpc` field,
  which must be the node's HTTP(S) endpoint (not a `ws://` or `wss://` URL).
  Without `--state-path`, the state is `tracker/state.json` under the working
  directory (`state.json` when the working directory is `tracker`).
- `tests/` runs the library on concrete inputs.
