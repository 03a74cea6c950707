//! The calls into outside crates and into parts of std that vstd does not
//! describe.
//!
//! Each function here is trusted: Verus believes its contract without reading
//! its body.  Results that would take pages to describe (what a regular
//! expression matches, how a TOML or Cargo manifest parses, what a base64 text
//! decodes to, how a timestamp is written out) are given a name, a spec
//! function without a body, and the contracts say only that the result is that
//! name applied to the arguments.

use base64::Engine;
use vstd::prelude::*;
use vstd::utf8::{decode_utf8, valid_utf8};

verus! {

/// `regex::Error`, the error of a pattern that does not compile.
#[verifier::external_type_specification]
#[verifier::external_body]
pub struct ExRegexError(regex::Error);

/// `toml::de::Error`, the error of a document that does not parse.
#[verifier::external_type_specification]
#[verifier::external_body]
pub struct ExTomlError(toml::de::Error);

/// `cargo_toml::Error`, the error of a manifest that does not parse.
#[verifier::external_type_specification]
#[verifier::external_body]
pub struct ExCargoTomlError(cargo_toml::Error);

/// `base64::DecodeError`, the error of a text that is not base64.
#[verifier::external_type_specification]
#[verifier::external_body]
pub struct ExBase64DecodeError(base64::DecodeError);

/// `std::string::FromUtf8Error`, the error of bytes that are not UTF-8.
#[verifier::external_type_specification]
#[verifier::external_body]
pub struct ExFromUtf8Error(std::string::FromUtf8Error);

/// The views of optional strings.
pub open spec fn opt_strings_view(v: Seq<Option<String>>) -> Seq<Option<Seq<char>>> {
    Seq::new(
        v.len(),
        |i: int|
            match v[i] {
                Some(s) => Some(s@),
                None => None,
            },
    )
}

/// The views of strings.
pub open spec fn strings_view(v: Seq<String>) -> Seq<Seq<char>> {
    Seq::new(v.len(), |i: int| v[i]@)
}

/// What the `regex` crate yields for the leftmost-first match of `pattern`
/// in `text`: `None` when the pattern does not compile, `Some(None)` when
/// nothing matches, and otherwise the text of each capture group (group 0 is
/// the whole match; a group that took no part in the match is `None`).
pub uninterp spec fn spec_regex_captures(pattern: Seq<char>, text: Seq<char>) -> Option<
    Option<Seq<Option<Seq<char>>>>,
>;

/// Compiles `pattern` with `regex::Regex::new` and returns the capture
/// groups of `Regex::captures` on `text`, each group converted to an owned
/// string.  The contract claims only that the result is
/// `spec_regex_captures` of the two strings; what a pattern matches is left
/// to the `regex` crate.
#[verifier::external_body]
pub(crate) fn regex_captures(pattern: &str, text: &str) -> (r: Result<Option<Vec<Option<String>>>, regex::Error>)
    ensures
        match r {
            Err(_) => spec_regex_captures(pattern@, text@) is None,
            Ok(None) => spec_regex_captures(pattern@, text@) == Some(
                None::<Seq<Option<Seq<char>>>>,
            ),
            Ok(Some(groups)) => spec_regex_captures(pattern@, text@) == Some(
                Some(opt_strings_view(groups@)),
            ),
        },
{
    let re = regex::Regex::new(pattern)?;
    Ok(re.captures(text).map(|caps| caps.iter().map(|m| m.map(|m| m.as_str().to_string())).collect()))
}

/// The keys of the TOML table reached from the root of the document `content`
/// by following the keys of `path`: `None` when the document does not parse,
/// `Some(None)` when no table is there, otherwise the table's keys.
pub uninterp spec fn spec_toml_table_keys(content: Seq<char>, path: Seq<Seq<char>>) -> Option<
    Option<Seq<Seq<char>>>,
>;

/// Parses `content` with `toml::from_str` into a `toml::Value`, follows
/// `path` with `Value::get`, and returns the keys of the table found there
/// (`Value::as_table`).  The contract claims only that the result is
/// `spec_toml_table_keys` of the content and the path.
#[verifier::external_body]
pub(crate) fn toml_table_keys(content: &str, path: &Vec<String>) -> (r: Result<Option<Vec<String>>, toml::de::Error>)
    ensures
        match r {
            Err(_) => spec_toml_table_keys(content@, strings_view(path@)) is None,
            Ok(None) => spec_toml_table_keys(content@, strings_view(path@)) == Some(
                None::<Seq<Seq<char>>>,
            ),
            Ok(Some(keys)) => spec_toml_table_keys(content@, strings_view(path@)) == Some(
                Some(strings_view(keys@)),
            ),
        },
{
    let doc: toml::Value = toml::from_str(content)?;
    let mut node = Some(&doc);
    for key in path.iter() {
        node = node.and_then(|v| v.get(key.as_str()));
    }
    Ok(node.and_then(|v| v.as_table()).map(|t| t.keys().cloned().collect()))
}

/// The `[package]` of a Cargo manifest as `cargo_toml` reads it: `None` when
/// the manifest does not parse, `Some(None)` when it has no package, and
/// otherwise the package name and its version as text (`None` when the
/// version is inherited from the workspace).
pub uninterp spec fn spec_manifest_package(content: Seq<char>) -> Option<
    Option<(Seq<char>, Option<Seq<char>>)>,
>;

/// Parses `content` with `cargo_toml::Manifest::from_str` and returns the
/// package name and version (`Inheritable::get`, written out with
/// `to_string`).  The contract claims only that the result is
/// `spec_manifest_package` of the content.
#[verifier::external_body]
pub(crate) fn manifest_package(content: &str) -> (r: Result<Option<(String, Option<String>)>, cargo_toml::Error>)
    ensures
        match r {
            Err(_) => spec_manifest_package(content@) is None,
            Ok(None) => spec_manifest_package(content@) == Some(
                None::<(Seq<char>, Option<Seq<char>>)>,
            ),
            Ok(Some((name, version))) => spec_manifest_package(content@) == Some(
                Some(
                    (
                        name@,
                        match version {
                            Some(v) => Some(v@),
                            None => None,
                        },
                    ),
                ),
            ),
        },
{
    let manifest = cargo_toml::Manifest::from_str(content)?;
    Ok(manifest.package.map(|p| (p.name, p.version.get().ok().map(|v| v.to_string()))))
}

/// What the standard base64 engine (`base64::engine::general_purpose::STANDARD`)
/// decodes `text` to, or `None` when it rejects the text.
pub uninterp spec fn spec_base64_decode(text: Seq<char>) -> Option<Seq<u8>>;

/// Decodes `text` with `base64::engine::general_purpose::STANDARD`.  The
/// contract claims only that the result is `spec_base64_decode` of the text.
#[verifier::external_body]
pub(crate) fn base64_decode(text: &str) -> (r: Result<Vec<u8>, base64::DecodeError>)
    ensures
        match r {
            Ok(bytes) => spec_base64_decode(text@) == Some(bytes@),
            Err(_) => spec_base64_decode(text@) is None,
        },
{
    base64::engine::general_purpose::STANDARD.decode(text)
}

/// `String::from_utf8` from std: the bytes become a string exactly when they
/// are valid UTF-8, and the string holds the characters they encode.
#[verifier::external_body]
pub(crate) fn string_from_utf8(bytes: Vec<u8>) -> (r: Result<String, std::string::FromUtf8Error>)
    ensures
        match r {
            Ok(s) => valid_utf8(bytes@) && s@ == decode_utf8(bytes@),
            Err(_) => !valid_utf8(bytes@),
        },
{
    String::from_utf8(bytes)
}

/// The RFC 3339 text that `chrono` writes for the UTC instant `millis`
/// milliseconds after the Unix epoch, or `None` when the instant is out of
/// chrono's range.
pub uninterp spec fn spec_rfc3339_from_millis(millis: i64) -> Option<Seq<char>>;

/// `chrono::DateTime::from_timestamp_millis`, written out with
/// `DateTime::to_rfc3339`.  The contract claims only that the result is
/// `spec_rfc3339_from_millis` of the argument.
#[verifier::external_body]
pub(crate) fn rfc3339_from_millis(millis: i64) -> (r: Option<String>)
    ensures
        match r {
            Some(s) => spec_rfc3339_from_millis(millis) == Some(s@),
            None => spec_rfc3339_from_millis(millis) is None,
        },
{
    chrono::DateTime::from_timestamp_millis(millis).map(|t| t.to_rfc3339())
}

/// `String::push` from std: appends one character.
#[verifier::external_body]
pub(crate) fn string_push(s: &mut String, c: char)
    ensures
        final(s)@ == old(s)@.push(c),
{
    s.push(c);
}

/// `PartialEq` for `str` from std: two string slices are equal when they hold
/// the same characters.
#[verifier::external_body]
pub(crate) fn str_eq(a: &str, b: &str) -> (r: bool)
    ensures
        r == (a@ == b@),
{
    a == b
}

} // verus!
