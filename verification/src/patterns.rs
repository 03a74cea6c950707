//! The regular expressions of the tracker and the numbers they capture.

use vstd::prelude::*;

use crate::bindings::{opt_strings_view, regex_captures, spec_regex_captures};
use crate::text::{parse_u64, spec_parse_u64, str_chars};

verus! {

/// Backport commit messages like `[stable2506] Backport #1234`.
pub const BACKPORT_PATTERN: &'static str = r"\[stable\d{4}\] Backport #(\d+)";

/// Merge commit messages like `Fix thing (#1234)`.
pub const MERGE_PATTERN: &'static str = r"\(#(\d+)\)\s*$";

/// prdoc file names like `prdoc/stable2512/pr_10861.prdoc`.
pub const PRDOC_PATTERN: &'static str = r"prdoc/.*/pr_(\d+)\.prdoc$|prdoc/pr_(\d+)\.prdoc$";

/// `spec_version: N` in Rust source.
pub const SPEC_VERSION_PATTERN: &'static str = r"spec_version:\s*(\d[\d_]*)";

/// Whether `pattern` compiles and matches `text`.
pub open spec fn spec_matches(pattern: Seq<char>, text: Seq<char>) -> bool {
    spec_regex_captures(pattern, text) matches Some(Some(_))
}

/// The text of capture group `g` of the match of `pattern` in `text`, when
/// there is a match and the group took part in it.
pub open spec fn spec_group(pattern: Seq<char>, text: Seq<char>, g: int) -> Option<Seq<char>> {
    match spec_regex_captures(pattern, text) {
        Some(Some(groups)) => if 0 <= g < groups.len() {
            groups[g]
        } else {
            None
        },
        _ => None,
    }
}

/// The number that capture group `g` holds, when it parses as a `u64`.
pub open spec fn spec_group_number(pattern: Seq<char>, text: Seq<char>, g: int) -> Option<u64> {
    match spec_group(pattern, text, g) {
        Some(t) => spec_parse_u64(t),
        None => None,
    }
}

/// Matches `pattern` against `text`: whether it matched, and the text of
/// capture group `g`.
pub fn capture_group(pattern: &str, text: &str, g: usize) -> (r: (bool, Option<String>))
    ensures
        r.0 == spec_matches(pattern@, text@),
        match r.1 {
            Some(t) => spec_group(pattern@, text@, g as int) == Some(t@),
            None => spec_group(pattern@, text@, g as int) is None,
        },
{
    match regex_captures(pattern, text) {
        Ok(Some(groups)) => {
            if g < groups.len() {
                let ghost gv = opt_strings_view(groups@);
                assert(gv[g as int] == match groups@[g as int] {
                    Some(s) => Some(s@),
                    None => None,
                });
                match &groups[g] {
                    Some(t) => (true, Some(t.clone())),
                    None => (true, None),
                }
            } else {
                (true, None)
            }
        },
        _ => (false, None),
    }
}

/// Parses a whole string as `str::parse::<u64>()` does.
pub fn parse_u64_str(s: &str) -> (r: Option<u64>)
    ensures
        r == spec_parse_u64(s@),
{
    let cs = str_chars(s);
    assert(cs@.subrange(0, cs@.len() as int) =~= s@);
    parse_u64(&cs, 0, cs.len())
}

/// The number in capture group `g` of the match of `pattern` in `text`.
pub fn group_number(pattern: &str, text: &str, g: usize) -> (r: (bool, Option<u64>))
    ensures
        r.0 == spec_matches(pattern@, text@),
        r.1 == spec_group_number(pattern@, text@, g as int),
{
    let (matched, group) = capture_group(pattern, text, g);
    match group {
        Some(t) => (matched, parse_u64_str(t.as_str())),
        None => (matched, None),
    }
}

} // verus!
