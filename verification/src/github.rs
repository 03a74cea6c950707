//! GitHub request addresses and file contents.
//!
//! The HTTP client lives outside the library; it asks these functions which
//! URL to fetch and how to decode what the contents API returns.

use vstd::prelude::*;
use vstd::utf8::{decode_utf8, valid_utf8};

use crate::bindings::{base64_decode, spec_base64_decode, string_from_utf8};
use crate::text::{push_str, remove_char, remove_char_vec, str_chars, string_from_chars};

verus! {

/// `https://api.github.com/repos/{owner}/{repo}/`.
pub open spec fn api_repo_prefix(owner: Seq<char>, repo: Seq<char>) -> Seq<char> {
    "https://api.github.com/repos/"@ + owner + "/"@ + repo + "/"@
}

/// Appends `https://api.github.com/repos/{owner}/{repo}/` to `url`.
fn push_api_repo_prefix(url: &mut String, owner: &str, repo: &str)
    ensures
        final(url)@ == old(url)@ + api_repo_prefix(owner@, repo@),
{
    push_str(url, "https://api.github.com/repos/");
    push_str(url, owner);
    push_str(url, "/");
    push_str(url, repo);
    push_str(url, "/");
    assert(url@ =~= old(url)@ + api_repo_prefix(owner@, repo@));
}

/// The REST URL comparing two refs.
pub fn compare_url(owner: &str, repo: &str, base: &str, head: &str) -> (url: String)
    ensures
        url@ == api_repo_prefix(owner@, repo@) + "compare/"@ + base@ + "..."@ + head@,
{
    let mut url = String::new();
    push_api_repo_prefix(&mut url, owner, repo);
    push_str(&mut url, "compare/");
    push_str(&mut url, base);
    push_str(&mut url, "...");
    push_str(&mut url, head);
    url
}

/// The REST URL of a file's contents at a ref.
pub fn contents_url(owner: &str, repo: &str, path: &str, git_ref: &str) -> (url: String)
    ensures
        url@ == api_repo_prefix(owner@, repo@) + "contents/"@ + path@ + "?ref="@ + git_ref@,
{
    let mut url = String::new();
    push_api_repo_prefix(&mut url, owner, repo);
    push_str(&mut url, "contents/");
    push_str(&mut url, path);
    push_str(&mut url, "?ref=");
    push_str(&mut url, git_ref);
    url
}

/// The REST URL of the latest commit on a branch.
pub fn commit_url(owner: &str, repo: &str, branch: &str) -> (url: String)
    ensures
        url@ == api_repo_prefix(owner@, repo@) + "commits/"@ + branch@,
{
    let mut url = String::new();
    push_api_repo_prefix(&mut url, owner, repo);
    push_str(&mut url, "commits/");
    push_str(&mut url, branch);
    url
}

/// The URL of a raw file at a ref (for files too large for the contents API).
pub fn raw_url(owner: &str, repo: &str, path: &str, git_ref: &str) -> (url: String)
    ensures
        url@ == "https://raw.githubusercontent.com/"@ + owner@ + "/"@ + repo@ + "/"@ + git_ref@
            + "/"@ + path@,
{
    let mut url = String::new();
    push_str(&mut url, "https://raw.githubusercontent.com/");
    push_str(&mut url, owner);
    push_str(&mut url, "/");
    push_str(&mut url, repo);
    push_str(&mut url, "/");
    push_str(&mut url, git_ref);
    push_str(&mut url, "/");
    push_str(&mut url, path);
    url
}

/// Why a file's contents could not be decoded.
pub enum ContentError {
    /// The content field is not base64.
    Base64,
    /// The decoded bytes are not UTF-8.
    Utf8,
}

/// Decode the `content` field of the contents API: base64 text broken into
/// lines, holding UTF-8 bytes.
pub fn decode_file_content(encoded: &str) -> (r: Result<String, ContentError>)
    ensures
        match spec_base64_decode(remove_char(encoded@, '\n')) {
            None => r matches Err(ContentError::Base64),
            Some(bytes) => if valid_utf8(bytes) {
                r matches Ok(s) && s@ == decode_utf8(bytes)
            } else {
                r matches Err(ContentError::Utf8)
            },
        },
{
    let cs = str_chars(encoded);
    let joined_chars = remove_char_vec(&cs, '\n');
    let joined = string_from_chars(&joined_chars, 0, joined_chars.len());
    assert(joined_chars@.subrange(0, joined_chars@.len() as int) =~= joined_chars@);
    match base64_decode(joined.as_str()) {
        Err(_) => Err(ContentError::Base64),
        Ok(bytes) => match string_from_utf8(bytes) {
            Ok(s) => Ok(s),
            Err(_) => Err(ContentError::Utf8),
        },
    }
}

} // verus!
