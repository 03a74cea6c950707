//! Release discovery: published tags from releases-v1.json, the previous tag
//! of a release, and the crate bumps and PRs of a release.

use vstd::prelude::*;

use crate::bindings::{
    manifest_package, opt_strings_view, regex_captures, spec_manifest_package,
    spec_regex_captures, str_eq,
};
use crate::maps::{KeyMap, entries_map};
use crate::patterns::{
    BACKPORT_PATTERN, MERGE_PATTERN, PRDOC_PATTERN, capture_group, group_number, parse_u64_str,
    spec_group, spec_group_number, spec_matches,
};
use crate::state::{CrateRelease, Release, State};
use crate::text::{
    decimal, is_digit, last_index, lemma_decimal_digits, lemma_last_index_append,
    lemma_seq_lt_asymmetric, lemma_seq_lt_irreflexive, lemma_seq_lt_total,
    lemma_seq_lt_transitive, lines,
    parse_u64, push_str, rfind_char, seq_le, seq_lt, spec_lines, spec_parse_u32, spec_parse_u64,
    str_chars, str_less, string_from_chars, views_of,
};

verus! {

broadcast use vstd::seq_lib::group_seq_properties;

/// GitHub owner for polkadot-sdk.
pub const SDK_OWNER: &'static str = "paritytech";

/// GitHub repo name.
pub const SDK_REPO: &'static str = "polkadot-sdk";

/// Top-level releases-v1.json structure.
pub struct ReleasesJson {
    /// The "Polkadot SDK" project.
    pub polkadot_sdk: ProjectInfo,
}

/// A project of releases-v1.json.
pub struct ProjectInfo {
    /// Its releases.
    pub releases: Vec<ReleaseInfo>,
}

/// A stable release of releases-v1.json.
pub struct ReleaseInfo {
    /// Release name (e.g. "stable2506").
    pub name: String,
    /// Publish date and tag, or an estimate.
    pub publish: DateAndTag,
    /// Maintenance state.
    pub state: MaintainedState,
    /// Patch releases.
    pub patches: Vec<PatchInfo>,
}

/// A patch release of releases-v1.json.
pub struct PatchInfo {
    /// Patch name (e.g. "stable2506-1").
    pub name: String,
    /// Publish date and tag, or an estimate.
    pub publish: DateAndTag,
    /// Maintenance state.
    pub state: MaintainedState,
}

/// When and under which tag a release was published.
pub enum DateAndTag {
    /// Published on `when` as git tag `tag`.
    Published { when: String, tag: String },
    /// Only an estimated date is known.
    Estimated {},
}

/// Maintenance state of a release.
pub enum MaintainedState {
    /// One of the simple states.
    Simple(SimpleState),
    /// Deprecated (and so released before).
    Deprecated {},
}

/// The simple maintenance states.
pub enum SimpleState {
    /// Planned.
    Planned,
    /// Staging.
    Staging,
    /// Released.
    Released,
    /// Skipped.
    Skipped,
}

/// The state is "released" or deprecated (which implies previously released).
pub open spec fn state_released(s: MaintainedState) -> bool {
    match s {
        MaintainedState::Simple(SimpleState::Released) => true,
        MaintainedState::Deprecated {  } => true,
        _ => false,
    }
}

impl MaintainedState {
    /// Returns true if the state is "released" or deprecated (which implies
    /// previously released).
    pub fn is_released(&self) -> (r: bool)
        ensures
            r == state_released(*self),
    {
        match self {
            MaintainedState::Simple(SimpleState::Released) => true,
            MaintainedState::Deprecated {  } => true,
            _ => false,
        }
    }
}

/// A published tag from releases-v1.json with its publish date.
pub struct PublishedTag {
    /// Git tag (e.g. "polkadot-stable2506-9").
    pub tag: String,
    /// Release name (e.g. "stable2506-9").
    pub name: String,
    /// Publish date (ISO 8601).
    pub date: String,
}

/// The view of a published tag: (tag, name, date).
pub type TagV = (Seq<char>, Seq<char>, Seq<char>);

impl View for PublishedTag {
    type V = TagV;

    open spec fn view(&self) -> TagV {
        (self.tag@, self.name@, self.date@)
    }
}

impl DeepView for PublishedTag {
    type V = TagV;

    open spec fn deep_view(&self) -> TagV {
        self@
    }
}

/// The tag of a releases-v1.json entry: one for a published entry, none for
/// an estimated one.
pub open spec fn entry_tag(name: Seq<char>, publish: DateAndTag) -> Seq<TagV> {
    match publish {
        DateAndTag::Published { when, tag } => seq![(tag@, name, when@)],
        DateAndTag::Estimated {  } => Seq::empty(),
    }
}

impl PublishedTag {
    /// Build from a releases-v1.json entry. Returns None for estimated
    /// (unpublished) dates.
    pub fn from_entry(name: &str, publish: &DateAndTag) -> (r: Option<PublishedTag>)
        ensures
            match r {
                Some(t) => entry_tag(name@, *publish) == seq![t@],
                None => entry_tag(name@, *publish).len() == 0,
            },
    {
        match publish {
            DateAndTag::Published { when, tag } => Some(
                PublishedTag { tag: tag.clone(), name: name.to_owned(), date: when.clone() },
            ),
            DateAndTag::Estimated {  } => None,
        }
    }
}

// ---------------------------------------------------------------------------
// Collecting the published tags
// ---------------------------------------------------------------------------

/// The tags of the released patches, in order.
pub open spec fn patch_tags(patches: Seq<PatchInfo>) -> Seq<TagV>
    decreases patches.len(),
{
    if patches.len() == 0 {
        Seq::empty()
    } else {
        let p = patches.last();
        patch_tags(patches.drop_last()) + if state_released(p.state) {
            entry_tag(p.name@, p.publish)
        } else {
            Seq::empty()
        }
    }
}

/// The tags of a release and of its patches, when the release is released.
pub open spec fn release_tags(r: ReleaseInfo) -> Seq<TagV> {
    if state_released(r.state) {
        entry_tag(r.name@, r.publish) + patch_tags(r.patches@)
    } else {
        Seq::empty()
    }
}

/// The published tags in the order releases-v1.json lists them.
pub open spec fn listed_tags(releases: Seq<ReleaseInfo>) -> Seq<TagV>
    decreases releases.len(),
{
    if releases.len() == 0 {
        Seq::empty()
    } else {
        listed_tags(releases.drop_last()) + release_tags(releases.last())
    }
}

/// The tags of `s` published on date `d`, in order.
pub open spec fn with_date(s: Seq<TagV>, d: Seq<char>) -> Seq<TagV> {
    s.filter(|t: TagV| t.2 == d)
}

/// The dates do not decrease.
pub open spec fn sorted_by_date(s: Seq<TagV>) -> bool {
    forall|i: int, j: int| 0 <= i < j < s.len() ==> seq_le(s[i].2, s[j].2)
}

/// `r` is `s` sorted by date, tags of the same date keeping their order.
pub open spec fn stable_sorted_by_date(r: Seq<TagV>, s: Seq<TagV>) -> bool {
    &&& r.len() == s.len()
    &&& sorted_by_date(r)
    &&& forall|d: Seq<char>| #[trigger] with_date(r, d) == with_date(s, d)
}

/// Inserts `t` after every tag of a date not later than its own.
fn insert_by_date(sorted: &mut Vec<PublishedTag>, t: PublishedTag)
    requires
        sorted_by_date(old(sorted).deep_view()),
    ensures
        sorted_by_date(final(sorted).deep_view()),
        final(sorted).deep_view().len() == old(sorted).deep_view().len() + 1,
        forall|d: Seq<char>| #[trigger]
            with_date(final(sorted).deep_view(), d) == with_date(
                old(sorted).deep_view().push(t@),
                d,
            ),
{
    let ghost s = sorted.deep_view();
    let ghost x = t@;
    let mut p: usize = 0;
    while p < sorted.len()
        invariant
            p <= sorted@.len(),
            s == sorted.deep_view(),
            x == t@,
            forall|i: int| 0 <= i < p ==> !seq_lt(x.2, #[trigger] s[i].2),
        ensures
            p <= sorted@.len(),
            forall|i: int| 0 <= i < p ==> !seq_lt(x.2, #[trigger] s[i].2),
            p < sorted@.len() ==> seq_lt(x.2, s[p as int].2),
        decreases sorted@.len() - p,
    {
        if str_less(t.date.as_str(), sorted[p].date.as_str()) {
            break;
        }
        p += 1;
    }
    // Every tag from `p` on has a later date than `t`.
    assert forall|j: int| p <= j < s.len() implies seq_lt(x.2, #[trigger] s[j].2) by {
        assert(seq_lt(x.2, s[p as int].2));
        if j > p {
            assert(seq_le(s[p as int].2, s[j].2));
            if s[p as int].2 != s[j].2 {
                lemma_seq_lt_transitive(x.2, s[p as int].2, s[j].2);
            }
        }
    }
    sorted.insert(p, t);
    let ghost r = sorted.deep_view();
    proof {
        assert(r =~= s.take(p as int) + seq![x] + s.skip(p as int));
        assert forall|i: int, j: int| 0 <= i < j < r.len() implies seq_le(r[i].2, r[j].2) by {
            if j < p {
                assert(r[i] == s[i] && r[j] == s[j]);
            } else if j == p {
                assert(r[i] == s[i]);
                lemma_seq_lt_total(s[i].2, x.2);
            } else if i < p {
                assert(r[i] == s[i] && r[j] == s[j - 1]);
                lemma_seq_lt_total(s[i].2, x.2);
                if s[i].2 != x.2 {
                    lemma_seq_lt_transitive(s[i].2, x.2, s[j - 1].2);
                }
            } else if i == p {
                assert(r[j] == s[j - 1]);
            } else {
                assert(r[i] == s[i - 1] && r[j] == s[j - 1]);
            }
        }
        assert forall|d: Seq<char>| #[trigger] with_date(r, d) == with_date(s.push(x), d) by {
            let f = |t: TagV| t.2 == d;
            let a = s.take(p as int);
            let b = s.skip(p as int);
            assert(s =~= a + b);
            vstd::seq::Seq::filter_distributes_over_add(a + seq![x], b, f);
            vstd::seq::Seq::filter_distributes_over_add(a, seq![x], f);
            vstd::seq::Seq::filter_distributes_over_add(a, b, f);
            s.lemma_filter_push(x, f);
            if x.2 == d {
                assert forall|j: int| 0 <= j < b.len() implies !f(b[j]) by {
                    assert(b[j] == s[p + j]);
                    assert(seq_lt(x.2, s[p + j].2));
                    lemma_seq_lt_irreflexive(x.2);
                }
                b.lemma_all_neg_filter_empty(f);
                assert(b.filter(f) =~= Seq::<TagV>::empty());
            }
            assert(seq![x] =~= Seq::<TagV>::empty().push(x));
            Seq::<TagV>::empty().lemma_filter_push(x, f);
            assert(Seq::<TagV>::empty().filter(f) =~= Seq::<TagV>::empty());
        }
    }
}

/// Collect all published (released) tags from releases-v1.json, sorted by date
/// (tags of the same date stay in the order the file lists them).
pub fn collect_published_tags(releases_json: &ReleasesJson) -> (tags: Vec<PublishedTag>)
    ensures
        stable_sorted_by_date(tags.deep_view(), listed_tags(releases_json.polkadot_sdk.releases@)),
{
    let releases = &releases_json.polkadot_sdk.releases;
    let mut tags: Vec<PublishedTag> = Vec::new();
    let ghost mut listed: Seq<TagV> = Seq::empty();
    let mut i: usize = 0;
    while i < releases.len()
        invariant
            i <= releases@.len(),
            listed == listed_tags(releases@.take(i as int)),
            stable_sorted_by_date(tags.deep_view(), listed),
        decreases releases@.len() - i,
    {
        let release = &releases[i];
        let ghost before = listed;
        assert(releases@.take(i + 1).drop_last() =~= releases@.take(i as int));
        if release.state.is_released() {
            if let Some(tag_info) = PublishedTag::from_entry(release.name.as_str(), &release.publish) {
                let ghost x = tag_info@;
                let ghost tb = tags.deep_view();
                insert_by_date(&mut tags, tag_info);
                proof {
                    lemma_insert_keeps_stable(tb, tags.deep_view(), listed, x);
                    listed = listed.push(x);
                }
            }
            assert(listed == before + entry_tag(release.name@, release.publish));
            let mut j: usize = 0;
            while j < release.patches.len()
                invariant
                    j <= release.patches@.len(),
                    listed == before + entry_tag(release.name@, release.publish) + patch_tags(
                        release.patches@.take(j as int),
                    ),
                    stable_sorted_by_date(tags.deep_view(), listed),
                decreases release.patches@.len() - j,
            {
                let patch = &release.patches[j];
                let ghost before_patch = listed;
                assert(release.patches@.take(j + 1).drop_last() =~= release.patches@.take(
                    j as int,
                ));
                if patch.state.is_released() {
                    if let Some(tag_info) = PublishedTag::from_entry(
                        patch.name.as_str(),
                        &patch.publish,
                    ) {
                        let ghost x = tag_info@;
                        let ghost tb = tags.deep_view();
                        insert_by_date(&mut tags, tag_info);
                        proof {
                            lemma_insert_keeps_stable(tb, tags.deep_view(), listed, x);
                            listed = listed.push(x);
                        }
                    }
                }
                assert(listed =~= before + entry_tag(release.name@, release.publish) + patch_tags(
                    release.patches@.take(j + 1),
                ));
                j += 1;
            }
            assert(release.patches@.take(j as int) =~= release.patches@);
            assert(listed =~= listed_tags(releases@.take(i + 1)));
        } else {
            assert(listed =~= listed_tags(releases@.take(i + 1)));
        }
        i += 1;
    }
    assert(releases@.take(i as int) =~= releases@);
    tags
}

/// Inserting the next listed tag keeps the sorted tags a stable sort of
/// the tags listed so far.
proof fn lemma_insert_keeps_stable(before: Seq<TagV>, after: Seq<TagV>, listed: Seq<TagV>, x: TagV)
    requires
        stable_sorted_by_date(before, listed),
        sorted_by_date(after),
        after.len() == before.len() + 1,
        forall|d: Seq<char>| #[trigger] with_date(after, d) == with_date(before.push(x), d),
    ensures
        stable_sorted_by_date(after, listed.push(x)),
{
    assert forall|d: Seq<char>| #[trigger] with_date(after, d) == with_date(listed.push(x), d) by {
        before.lemma_filter_push(x, |t: TagV| t.2 == d);
        listed.lemma_filter_push(x, |t: TagV| t.2 == d);
        assert(with_date(before, d) == with_date(listed, d));
    }
}

// ---------------------------------------------------------------------------
// Release names and previous tags
// ---------------------------------------------------------------------------

/// "stable2506-9" is ("stable2506", 9); a name without a numeric suffix
/// after its last '-' has patch 0.
pub open spec fn release_name_parts(name: Seq<char>) -> (Seq<char>, u32) {
    match last_index(name, '-') {
        Some(pos) => match spec_parse_u32(name.skip(pos + 1)) {
            Some(n) => (name.take(pos), n),
            None => (name, 0),
        },
        None => (name, 0),
    }
}

/// The branch (base release name) of a tag.
pub open spec fn base_of(t: TagV) -> Seq<char> {
    release_name_parts(t.1).0
}

/// The patch number of a tag.
pub open spec fn patch_of(t: TagV) -> u32 {
    release_name_parts(t.1).1
}

/// Index of the last tag satisfying `f`.
pub open spec fn last_where(tags: Seq<TagV>, f: spec_fn(TagV) -> bool) -> Option<int>
    decreases tags.len(),
{
    if tags.len() == 0 {
        None
    } else if f(tags.last()) {
        Some(tags.len() - 1)
    } else {
        last_where(tags.drop_last(), f)
    }
}

/// The greatest branch name among the tags that sorts before `base`.
pub open spec fn greatest_base_below(tags: Seq<TagV>, base: Seq<char>) -> Option<Seq<char>>
    decreases tags.len(),
{
    if tags.len() == 0 {
        None
    } else {
        let prev = greatest_base_below(tags.drop_last(), base);
        let b = base_of(tags.last());
        if seq_lt(b, base) && (prev is None || seq_lt(prev->0, b)) {
            Some(b)
        } else {
            prev
        }
    }
}

/// The error for a release without a previous tag.
pub open spec fn no_prev_tag_message(name: Seq<char>) -> Seq<char> {
    "cannot determine prev_tag for "@ + name
}

/// The previous tag of a release: for a patch, the latest tag of an earlier
/// patch on the same branch; otherwise (or when there is none) the latest tag
/// of the greatest earlier branch.
pub open spec fn spec_find_prev_tag(name: Seq<char>, tags: Seq<TagV>) -> Result<Seq<char>, Seq<char>> {
    let (base, patch) = release_name_parts(name);
    let same_branch = if patch > 0 {
        last_where(tags, |t: TagV| base_of(t) == base && patch_of(t) < patch)
    } else {
        None
    };
    match same_branch {
        Some(i) => Ok(tags[i].0),
        None => match greatest_base_below(tags, base) {
            Some(prev_base) => match last_where(tags, |t: TagV| base_of(t) == prev_base) {
                Some(i) => Ok(tags[i].0),
                None => Err(no_prev_tag_message(name)),
            },
            None => Err(no_prev_tag_message(name)),
        },
    }
}

/// Parse "stable2506-9" into ("stable2506", 9). Returns patch 0 if no suffix.
pub fn parse_release_name(name: &str) -> (r: (&str, u32))
    ensures
        (r.0@, r.1) == release_name_parts(name@),
{
    let cs = str_chars(name);
    if let Some(pos) = rfind_char(&cs, '-') {
        if let Some(n) = parse_u64(&cs, pos + 1, cs.len()) {
            assert(cs@.subrange(pos + 1, cs@.len() as int) =~= name@.skip(pos + 1));
            if n <= 4294967295 {
                return (name.substring_char(0, pos), n as u32);
            }
        } else {
            assert(cs@.subrange(pos + 1, cs@.len() as int) =~= name@.skip(pos + 1));
        }
    }
    (name, 0)
}

/// The index of the last tag whose branch is `base` and patch below `patch`.
fn last_same_branch(all_tags: &[PublishedTag], base: &str, patch: u32) -> (r: Option<usize>)
    ensures
        r matches Some(i) ==> i < all_tags@.len(),
        match r {
            Some(i) => last_where(
                all_tags@.map_values(|t: PublishedTag| t@),
                |t: TagV| base_of(t) == base@ && patch_of(t) < patch,
            ) == Some(i as int),
            None => last_where(
                all_tags@.map_values(|t: PublishedTag| t@),
                |t: TagV| base_of(t) == base@ && patch_of(t) < patch,
            ) is None,
        },
{
    let ghost tv = all_tags@.map_values(|t: PublishedTag| t@);
    let ghost f = |t: TagV| base_of(t) == base@ && patch_of(t) < patch;
    let mut i = all_tags.len();
    assert(tv.take(i as int) =~= tv);
    while i > 0
        invariant
            i <= all_tags@.len(),
            tv == all_tags@.map_values(|t: PublishedTag| t@),
            f == (|t: TagV| base_of(t) == base@ && patch_of(t) < patch),
            last_where(tv, f) == last_where(tv.take(i as int), f),
        decreases i,
    {
        let (b, p) = parse_release_name(all_tags[i - 1].name.as_str());
        assert(tv.take(i as int).drop_last() =~= tv.take(i - 1));
        assert(tv.take(i as int).last() == all_tags@[i - 1]@);
        if str_eq(b, base) && p < patch {
            return Some(i - 1);
        }
        i -= 1;
    }
    assert(tv.take(0) =~= Seq::<TagV>::empty());
    None
}

/// The index of the last tag whose branch is `base`.
fn last_on_branch(all_tags: &[PublishedTag], base: &str) -> (r: Option<usize>)
    ensures
        r matches Some(i) ==> i < all_tags@.len(),
        match r {
            Some(i) => last_where(
                all_tags@.map_values(|t: PublishedTag| t@),
                |t: TagV| base_of(t) == base@,
            ) == Some(i as int),
            None => last_where(
                all_tags@.map_values(|t: PublishedTag| t@),
                |t: TagV| base_of(t) == base@,
            ) is None,
        },
{
    let ghost tv = all_tags@.map_values(|t: PublishedTag| t@);
    let ghost f = |t: TagV| base_of(t) == base@;
    let mut i = all_tags.len();
    assert(tv.take(i as int) =~= tv);
    while i > 0
        invariant
            i <= all_tags@.len(),
            tv == all_tags@.map_values(|t: PublishedTag| t@),
            f == (|t: TagV| base_of(t) == base@),
            last_where(tv, f) == last_where(tv.take(i as int), f),
        decreases i,
    {
        let (b, _p) = parse_release_name(all_tags[i - 1].name.as_str());
        assert(tv.take(i as int).drop_last() =~= tv.take(i - 1));
        assert(tv.take(i as int).last() == all_tags@[i - 1]@);
        if str_eq(b, base) {
            return Some(i - 1);
        }
        i -= 1;
    }
    assert(tv.take(0) =~= Seq::<TagV>::empty());
    None
}

/// The greatest branch among the tags that sorts before `base`.
fn greatest_branch_below(all_tags: &[PublishedTag], base: &str) -> (r: Option<String>)
    ensures
        match r {
            Some(b) => greatest_base_below(all_tags@.map_values(|t: PublishedTag| t@), base@)
                == Some(b@),
            None => greatest_base_below(all_tags@.map_values(|t: PublishedTag| t@), base@) is None,
        },
{
    let ghost tv = all_tags@.map_values(|t: PublishedTag| t@);
    let mut best: Option<String> = None;
    let mut i: usize = 0;
    while i < all_tags.len()
        invariant
            i <= all_tags@.len(),
            tv == all_tags@.map_values(|t: PublishedTag| t@),
            match best {
                Some(b) => greatest_base_below(tv.take(i as int), base@) == Some(b@),
                None => greatest_base_below(tv.take(i as int), base@) is None,
            },
        decreases all_tags@.len() - i,
    {
        let (b, _p) = parse_release_name(all_tags[i].name.as_str());
        assert(tv.take(i + 1).drop_last() =~= tv.take(i as int));
        assert(tv.take(i + 1).last() == all_tags@[i as int]@);
        if str_less(b, base) {
            let better = match &best {
                None => true,
                Some(cur) => str_less(cur.as_str(), b),
            };
            if better {
                best = Some(b.to_owned());
            }
        }
        i += 1;
    }
    assert(tv.take(i as int) =~= tv);
    best
}

/// Find the previous tag for a given release/patch name.
pub fn find_prev_tag(name: &str, all_tags: &[PublishedTag]) -> (r: Result<String, String>)
    ensures
        match r {
            Ok(t) => spec_find_prev_tag(name@, all_tags@.map_values(|t: PublishedTag| t@)) == Ok::<
                Seq<char>,
                Seq<char>,
            >(t@),
            Err(e) => spec_find_prev_tag(name@, all_tags@.map_values(|t: PublishedTag| t@))
                == Err::<Seq<char>, Seq<char>>(e@),
        },
{
    let ghost tv = all_tags@.map_values(|t: PublishedTag| t@);
    let (base, patch) = parse_release_name(name);
    if patch > 0 {
        if let Some(i) = last_same_branch(all_tags, base, patch) {
            return Ok(all_tags[i].tag.clone());
        }
    }
    if let Some(prev_base) = greatest_branch_below(all_tags, base) {
        if let Some(i) = last_on_branch(all_tags, prev_base.as_str()) {
            return Ok(all_tags[i].tag.clone());
        }
    }
    let mut msg = String::new();
    push_str(&mut msg, "cannot determine prev_tag for ");
    push_str(&mut msg, name);
    Err(msg)
}

/// The greatest branch below `base` is a branch of some tag, sorts before
/// `base`, and no branch of a tag lies between it and `base`: it is what the
/// ordered set of branches yields as the last one before `base`.
pub proof fn law_greatest_branch_below(tags: Seq<TagV>, base: Seq<char>)
    ensures
        match greatest_base_below(tags, base) {
            Some(b) => {
                &&& seq_lt(b, base)
                &&& exists|i: int| 0 <= i < tags.len() && base_of(tags[i]) == b
                &&& forall|i: int|
                    0 <= i < tags.len() && seq_lt(base_of(tags[i]), base) ==> seq_le(
                        base_of(#[trigger] tags[i]),
                        b,
                    )
            },
            None => forall|i: int| 0 <= i < tags.len() ==> !seq_lt(base_of(#[trigger] tags[i]), base),
        },
    decreases tags.len(),
{
    if tags.len() > 0 {
        let p = tags.drop_last();
        law_greatest_branch_below(p, base);
        let last = tags.last();
        let b = base_of(last);
        assert forall|i: int| 0 <= i < p.len() implies tags[i] == #[trigger] p[i] by {}
        match greatest_base_below(tags, base) {
            Some(g) => {
                if g == b && seq_lt(b, base) && (greatest_base_below(p, base) is None || seq_lt(
                    greatest_base_below(p, base)->0,
                    b,
                )) {
                    assert(base_of(tags[tags.len() - 1]) == g);
                    assert forall|i: int|
                        0 <= i < tags.len() && seq_lt(base_of(tags[i]), base) implies seq_le(
                        base_of(#[trigger] tags[i]),
                        g,
                    ) by {
                        if i < p.len() {
                            assert(tags[i] == p[i]);
                            if let Some(pg) = greatest_base_below(p, base) {
                                if base_of(p[i]) != pg {
                                    lemma_seq_lt_transitive(base_of(p[i]), pg, g);
                                }
                            }
                        }
                    }
                } else {
                    let pg = greatest_base_below(p, base)->0;
                    assert(greatest_base_below(p, base) == Some(g));
                    let k = choose|k: int| 0 <= k < p.len() && base_of(p[k]) == g;
                    assert(tags[k] == p[k]);
                    assert forall|i: int|
                        0 <= i < tags.len() && seq_lt(base_of(tags[i]), base) implies seq_le(
                        base_of(#[trigger] tags[i]),
                        g,
                    ) by {
                        if i < p.len() {
                            assert(tags[i] == p[i]);
                        } else {
                            assert(tags[i] == last);
                            lemma_seq_lt_total(b, g);
                        }
                    }
                }
            },
            None => {
                assert forall|i: int| 0 <= i < tags.len() implies !seq_lt(
                    base_of(#[trigger] tags[i]),
                    base,
                ) by {
                    if i < p.len() {
                        assert(tags[i] == p[i]);
                    }
                }
            },
        }
    }
}

// ---------------------------------------------------------------------------
// Reading git output
// ---------------------------------------------------------------------------

/// The lines of `git diff --name-only` output that are not hidden paths.
pub open spec fn changed_toml_lines(output: Seq<char>) -> Seq<Seq<char>> {
    spec_lines(output).filter(|l: Seq<char>| !(l.len() > 0 && l[0] == '.'))
}

/// List changed Cargo.toml files from `git diff --name-only` output,
/// leaving out paths that start with '.'.
pub fn changed_cargo_tomls(output: &str) -> (paths: Vec<String>)
    ensures
        paths.deep_view() == changed_toml_lines(output@),
{
    let cs = str_chars(output);
    let ls = lines(&cs);
    let ghost lv = views_of(ls@);
    let ghost f = |l: Seq<char>| !(l.len() > 0 && l[0] == '.');
    let mut paths: Vec<String> = Vec::new();
    let mut i: usize = 0;
    while i < ls.len()
        invariant
            i <= ls@.len(),
            lv == views_of(ls@),
            f == (|l: Seq<char>| !(l.len() > 0 && l[0] == '.')),
            paths.deep_view() == lv.take(i as int).filter(f),
        decreases ls@.len() - i,
    {
        let line = &ls[i];
        assert(lv.take(i + 1) =~= lv.take(i as int).push(line@));
        proof {
            lv.take(i as int).lemma_filter_push(line@, f);
        }
        if !(line.len() > 0 && line[0] == '.') {
            let ghost before = paths.deep_view();
            let p = string_from_chars(line, 0, line.len());
            assert(line@.subrange(0, line@.len() as int) =~= line@);
            paths.push(p);
            assert(paths.deep_view() =~= before.push(line@));
        }
        i += 1;
    }
    assert(lv.take(i as int) =~= lv);
    paths
}

/// Why a Cargo manifest could not be read.
pub enum ManifestError {
    /// `cargo_toml` rejected the manifest.
    Invalid,
}

/// The package name and version of a manifest; an inherited version reads as
/// the empty string.
pub open spec fn manifest_name_version(content: Seq<char>) -> Option<Option<(Seq<char>, Seq<char>)>> {
    match spec_manifest_package(content) {
        None => None,
        Some(None) => Some(None),
        Some(Some((name, version))) => Some(
            Some(
                (
                    name,
                    match version {
                        Some(v) => v,
                        None => Seq::empty(),
                    },
                ),
            ),
        ),
    }
}

/// Read a Cargo.toml's content and return `(name, version)` of its package.
pub fn crate_version_from_manifest(content: &str) -> (r: Result<Option<(String, String)>, ManifestError>)
    ensures
        match r {
            Err(_) => manifest_name_version(content@) is None,
            Ok(None) => manifest_name_version(content@) == Some(None::<(Seq<char>, Seq<char>)>),
            Ok(Some((n, v))) => manifest_name_version(content@) == Some(Some((n@, v@))),
        },
{
    match manifest_package(content) {
        Err(_) => Err(ManifestError::Invalid),
        Ok(None) => Ok(None),
        Ok(Some((name, version))) => {
            let v = match version {
                Some(v) => v,
                None => String::new(),
            };
            Ok(Some((name, v)))
        },
    }
}

/// The PR number of a commit subject: a backport subject is read with the
/// backport expression only; otherwise a merge subject gives its number.
pub open spec fn subject_pr(line: Seq<char>) -> Option<u64> {
    if spec_matches(BACKPORT_PATTERN@, line) {
        spec_group_number(BACKPORT_PATTERN@, line, 1)
    } else if spec_matches(MERGE_PATTERN@, line) {
        spec_group_number(MERGE_PATTERN@, line, 1)
    } else {
        None
    }
}

/// The PR numbers of the commit subjects.
pub open spec fn subject_prs(lines: Seq<Seq<char>>) -> Set<u64>
    decreases lines.len(),
{
    if lines.len() == 0 {
        Set::empty()
    } else {
        let prev = subject_prs(lines.drop_last());
        match subject_pr(lines.last()) {
            Some(n) => prev.insert(n),
            None => prev,
        }
    }
}

/// Strictly increasing.
pub open spec fn strictly_increasing(s: Seq<u64>) -> bool {
    forall|i: int, j: int| 0 <= i < j < s.len() ==> s[i] < s[j]
}

/// Adds `x` to a strictly increasing vector, keeping it so.
fn insert_sorted_unique(v: &mut Vec<u64>, x: u64)
    requires
        strictly_increasing(old(v)@),
    ensures
        strictly_increasing(final(v)@),
        final(v)@.to_set() == old(v)@.to_set().insert(x),
{
    let ghost s = v@;
    let mut p: usize = 0;
    while p < v.len() && v[p] < x
        invariant
            p <= v@.len(),
            v@ == s,
            forall|i: int| 0 <= i < p ==> v@[i] < x,
        decreases v@.len() - p,
    {
        p += 1;
    }
    if p < v.len() && v[p] == x {
        assert(s.to_set().insert(x) =~= s.to_set());
        return ;
    }
    v.insert(p, x);
    proof {
        assert(v@ =~= s.take(p as int) + seq![x] + s.skip(p as int));
        assert forall|a: u64| s.to_set().insert(x).contains(a) <==> v@.to_set().contains(a) by {
            if s.to_set().contains(a) {
                let k = choose|k: int| 0 <= k < s.len() && s[k] == a;
                if k < p {
                    assert(v@[k] == a);
                } else {
                    assert(v@[k + 1] == a);
                }
            }
            if a == x {
                assert(v@[p as int] == x);
            }
            if v@.to_set().contains(a) {
                let k = choose|k: int| 0 <= k < v@.len() && v@[k] == a;
                if k < p {
                    assert(s[k] == a);
                } else if k > p {
                    assert(s[k - 1] == a);
                }
            }
        }
        assert(v@.to_set() =~= s.to_set().insert(x));
    }
}

/// The PR number of one commit subject.
pub fn subject_pr_number(subject: &str) -> (r: Option<u64>)
    ensures
        r == subject_pr(subject@),
{
    let (backport, n) = group_number(BACKPORT_PATTERN, subject, 1);
    if backport {
        n
    } else {
        let (merge, m) = group_number(MERGE_PATTERN, subject, 1);
        if merge {
            m
        } else {
            None
        }
    }
}

/// The distinct numbers of `found`, in increasing order.
pub fn sorted_distinct(found: &Vec<u64>) -> (out: Vec<u64>)
    ensures
        strictly_increasing(out@),
        out@.to_set() == found@.to_set(),
{
    let mut out: Vec<u64> = Vec::new();
    let mut i: usize = 0;
    assert(out@.to_set() =~= found@.take(0).to_set());
    while i < found.len()
        invariant
            i <= found@.len(),
            strictly_increasing(out@),
            out@.to_set() == found@.take(i as int).to_set(),
        decreases found@.len() - i,
    {
        insert_sorted_unique(&mut out, found[i]);
        proof {
            assert(found@.take(i + 1) =~= found@.take(i as int).push(found@[i as int]));
            found@.take(i as int).lemma_push_to_set_commute(found@[i as int]);
        }
        i += 1;
    }
    assert(found@.take(i as int) =~= found@);
    out
}

/// Extract PR numbers from `git log --format=%s` output: the distinct
/// numbers, in increasing order.
pub fn extract_pr_numbers(output: &str) -> (prs: Vec<u64>)
    ensures
        strictly_increasing(prs@),
        prs@.to_set() == subject_prs(spec_lines(output@)),
{
    let cs = str_chars(output);
    let ls = lines(&cs);
    let ghost lv = views_of(ls@);
    let mut found: Vec<u64> = Vec::new();
    let mut i: usize = 0;
    assert(found@.to_set() =~= Set::<u64>::empty());
    while i < ls.len()
        invariant
            i <= ls@.len(),
            lv == views_of(ls@),
            found@.to_set() == subject_prs(lv.take(i as int)),
        decreases ls@.len() - i,
    {
        let line = string_from_chars(&ls[i], 0, ls[i].len());
        assert(ls@[i as int]@.subrange(0, ls@[i as int]@.len() as int) =~= ls@[i as int]@);
        assert(lv.take(i + 1).drop_last() =~= lv.take(i as int));
        assert(lv.take(i + 1).last() == line@);
        if let Some(n) = subject_pr_number(line.as_str()) {
            proof {
                found@.lemma_push_to_set_commute(n);
            }
            found.push(n);
        }
        i += 1;
    }
    assert(lv.take(i as int) =~= lv);
    sorted_distinct(&found)
}

/// The PR number in a prdoc file name (the first alternative's group, or
/// else the second's).
pub open spec fn prdoc_number(path: Seq<char>) -> Option<u64> {
    if spec_matches(PRDOC_PATTERN@, path) {
        match spec_group(PRDOC_PATTERN@, path, 1) {
            Some(t) => spec_parse_u64(t),
            None => spec_group_number(PRDOC_PATTERN@, path, 2),
        }
    } else {
        None
    }
}

/// The PR number of a prdoc path like `prdoc/stable2512/pr_10861.prdoc`.
pub fn prdoc_pr_number(path: &str) -> (r: Option<u64>)
    ensures
        r == prdoc_number(path@),
{
    let (matched, first) = capture_group(PRDOC_PATTERN, path, 1);
    if !matched {
        return None;
    }
    match first {
        Some(t) => parse_u64_str(t.as_str()),
        None => group_number(PRDOC_PATTERN, path, 2).1,
    }
}

/// The prdoc entries that name at least one crate.
pub open spec fn nonempty_prdocs(entries: Seq<(u64, Vec<String>)>) -> Seq<(u64, Vec<String>)> {
    entries.filter(|e: (u64, Vec<String>)| e.1@.len() > 0)
}

/// Build the PR number -> affected crate names index from the prdoc files
/// (in order; a later file of the same PR replaces an earlier one), keeping
/// files that name at least one crate.
pub fn build_prdoc_index(entries: Vec<(u64, Vec<String>)>) -> (index: KeyMap<u64, Vec<String>>)
    ensures
        index@ == entries_map(nonempty_prdocs(entries@)),
{
    let ghost all = entries@;
    let ghost f = |e: (u64, Vec<String>)| e.1@.len() > 0;
    let mut index = KeyMap::new();
    let mut rest = entries;
    let ghost mut taken: Seq<(u64, Vec<String>)> = Seq::empty();
    assert(taken + rest@ =~= all);
    while rest.len() > 0
        invariant
            taken + rest@ == all,
            f == (|e: (u64, Vec<String>)| e.1@.len() > 0),
            index@ == entries_map(taken.filter(f)),
        decreases rest@.len(),
    {
        let ghost before = rest@;
        let (pr, crates) = rest.remove(0);
        let ghost e = (pr, crates);
        proof {
            taken.lemma_filter_push(e, f);
        }
        if crates.len() > 0 {
            index.insert(pr, crates);
            proof {
                assert(taken.push(e).filter(f).drop_last() =~= taken.filter(f));
            }
        }
        proof {
            assert(taken.push(e) + rest@ =~= taken + before);
            taken = taken.push(e);
        }
    }
    assert(taken =~= all);
    index
}

// ---------------------------------------------------------------------------
// Assembling a release
// ---------------------------------------------------------------------------

/// A manifest read at the previous and at the new tag: (name, version) of
/// its package, when it could be read.
pub type ManifestPair = (Option<(String, String)>, Option<(String, String)>);

/// Crate name -> new version, for the manifests whose package kept its name
/// and changed its version (a later manifest replaces an earlier one).
pub open spec fn version_bumps(ms: Seq<ManifestPair>) -> Map<Seq<char>, Seq<char>>
    decreases ms.len(),
{
    if ms.len() == 0 {
        Map::empty()
    } else {
        let prev = version_bumps(ms.drop_last());
        match ms.last() {
            (Some((name_old, ver_old)), Some((name_new, ver_new))) => if name_old@ == name_new@
                && ver_old@ != ver_new@ {
                prev.insert(name_new@, ver_new@)
            } else {
                prev
            },
            _ => prev,
        }
    }
}

/// How many times `name` is listed among `crates`.
pub open spec fn times_listed(crates: Seq<Seq<char>>, name: Seq<char>) -> nat {
    crates.filter(|c: Seq<char>| c == name).len()
}

/// The PRs that touch crate `name`, in order: each PR once for every time its
/// prdoc lists the crate.
pub open spec fn prs_touching(name: Seq<char>, prs: Seq<u64>, index: Map<u64, Seq<Seq<char>>>) -> Seq<
    u64,
>
    decreases prs.len(),
{
    if prs.len() == 0 {
        Seq::empty()
    } else {
        let prev = prs_touching(name, prs.drop_last(), index);
        let p = prs.last();
        if index.contains_key(p) {
            prev + Seq::new(times_listed(index[p], name), |_i: int| p)
        } else {
            prev
        }
    }
}

/// The PRs of `prs` whose prdoc lists crate `name`.
fn collect_prs(name: &String, prs: &Vec<u64>, index: &KeyMap<u64, Vec<String>>) -> (out: Vec<u64>)
    ensures
        out@ == prs_touching(name@, prs@, index@),
{
    let mut out: Vec<u64> = Vec::new();
    let mut i: usize = 0;
    while i < prs.len()
        invariant
            i <= prs@.len(),
            out@ == prs_touching(name@, prs@.take(i as int), index@),
        decreases prs@.len() - i,
    {
        let p = prs[i];
        assert(prs@.take(i + 1).drop_last() =~= prs@.take(i as int));
        if let Some(crates) = index.get(&p) {
            let ghost cv = crates.deep_view();
            let ghost f = |c: Seq<char>| c == name@;
            let ghost base = out@;
            let mut j: usize = 0;
            while j < crates.len()
                invariant
                    j <= crates@.len(),
                    cv == crates.deep_view(),
                    f == (|c: Seq<char>| c == name@),
                    out@ == base + Seq::new(cv.take(j as int).filter(f).len(), |_i: int| p),
                decreases crates@.len() - j,
            {
                proof {
                    assert(cv.take(j + 1) =~= cv.take(j as int).push(cv[j as int]));
                    cv.take(j as int).lemma_filter_push(cv[j as int], f);
                }
                if crates[j] == *name {
                    out.push(p);
                    assert(out@ =~= base + Seq::new(cv.take(j + 1).filter(f).len(), |_i: int| p));
                } else {
                    assert(out@ =~= base + Seq::new(cv.take(j + 1).filter(f).len(), |_i: int| p));
                }
                j += 1;
            }
            assert(cv.take(j as int) =~= cv);
        }
        i += 1;
    }
    assert(prs@.take(i as int) =~= prs@);
    out
}

/// The crate releases of a release: one for each bumped crate, with its new
/// version, the publish date and the PRs that touch it.
pub open spec fn release_crates_ok(
    crates: Seq<CrateRelease>,
    bumps: Map<Seq<char>, Seq<char>>,
    date: Seq<char>,
    prs: Seq<u64>,
    index: Map<u64, Seq<Seq<char>>>,
) -> bool {
    &&& Seq::new(crates.len(), |i: int| crates[i].name@).no_duplicates()
    &&& Seq::new(crates.len(), |i: int| crates[i].name@).to_set() == bumps.dom()
    &&& forall|i: int|
        0 <= i < crates.len() ==> {
            &&& (#[trigger] crates[i]).version@ == bumps[crates[i].name@]
            &&& crates[i].published@ == date
            &&& crates[i].prs@ == prs_touching(crates[i].name@, prs, index)
        }
}

/// Build the release entry of a tag from the manifests of its changed
/// Cargo.toml files, the PR numbers of its commits and the prdoc index.
pub fn assemble_release(
    tag: &str,
    prev_tag: &str,
    publish_date: &str,
    manifests: &Vec<ManifestPair>,
    pr_numbers: &Vec<u64>,
    prdoc_crates: &KeyMap<u64, Vec<String>>,
) -> (r: Release)
    ensures
        r.tag@ == tag@,
        r.prev_tag@ == prev_tag@,
        release_crates_ok(
            r.crates@,
            version_bumps(manifests@),
            publish_date@,
            pr_numbers@,
            prdoc_crates@,
        ),
{
    let mut bumps: KeyMap<String, String> = KeyMap::new();
    let mut i: usize = 0;
    while i < manifests.len()
        invariant
            i <= manifests@.len(),
            bumps@ == version_bumps(manifests@.take(i as int)),
        decreases manifests@.len() - i,
    {
        assert(manifests@.take(i + 1).drop_last() =~= manifests@.take(i as int));
        assert(manifests@.take(i + 1).last() == manifests@[i as int]);
        match &manifests[i] {
            (Some((name_old, ver_old)), Some((name_new, ver_new))) => {
                if *name_old == *name_new && *ver_old != *ver_new {
                    bumps.insert(name_new.clone(), ver_new.clone());
                }
            },
            _ => {},
        }
        i += 1;
    }
    assert(manifests@.take(i as int) =~= manifests@);
    let ghost bm = bumps@;
    let names = bumps.keys();
    let ghost nv = names.deep_view();
    let mut crates: Vec<CrateRelease> = Vec::new();
    let mut k: usize = 0;
    while k < names.len()
        invariant
            k <= names@.len(),
            nv == names.deep_view(),
            bm == bumps@,
            nv.to_set() == bm.dom(),
            crates@.len() == k,
            forall|j: int| 0 <= j < k ==> (#[trigger] crates@[j]).name@ == nv[j],
            forall|j: int|
                0 <= j < k ==> {
                    &&& (#[trigger] crates@[j]).version@ == bm[crates@[j].name@]
                    &&& crates@[j].published@ == publish_date@
                    &&& crates@[j].prs@ == prs_touching(
                        crates@[j].name@,
                        pr_numbers@,
                        prdoc_crates@,
                    )
                },
        decreases names@.len() - k,
    {
        let name = &names[k];
        assert(nv[k as int] == name@);
        assert(nv.to_set().contains(name@));
        let version = bumps.get(name).unwrap().clone();
        let prs = collect_prs(name, pr_numbers, prdoc_crates);
        crates.push(
            CrateRelease {
                name: name.clone(),
                version,
                published: publish_date.to_owned(),
                prs,
            },
        );
        k += 1;
    }
    assert(Seq::new(crates@.len(), |j: int| crates@[j].name@) =~= nv);
    Release { tag: tag.to_owned(), prev_tag: prev_tag.to_owned(), crates }
}

// ---------------------------------------------------------------------------
// Planning a discovery run
// ---------------------------------------------------------------------------

/// A tag to process, with the tag it is compared against.
pub struct TagJob {
    /// Git tag of the release.
    pub tag: String,
    /// Git tag of the previous release.
    pub prev_tag: String,
    /// Publish date of the release.
    pub date: String,
}

/// What a discovery run does: the tags to process, in order, and the date
/// to record as processed (`None` when there is no new tag).
pub struct DiscoveryPlan {
    /// The tags to process.
    pub jobs: Vec<TagJob>,
    /// The latest publish date among the new tags.
    pub latest_date: Option<String>,
}

/// The tags published after the cutoff date (all of them without one).
pub open spec fn tags_after(tags: Seq<TagV>, cutoff: Option<Seq<char>>) -> Seq<TagV> {
    tags.filter(
        |t: TagV|
            match cutoff {
                Some(c) => seq_lt(c, t.2),
                None => true,
            },
    )
}

/// The latest date among the tags.
pub open spec fn latest_date_of(tags: Seq<TagV>) -> Option<Seq<char>>
    decreases tags.len(),
{
    if tags.len() == 0 {
        None
    } else {
        let prev = latest_date_of(tags.drop_last());
        match prev {
            Some(m) => if seq_lt(tags.last().2, m) {
                prev
            } else {
                Some(tags.last().2)
            },
            None => Some(tags.last().2),
        }
    }
}

/// Whether a release with this tag is already recorded.
pub open spec fn known_tag(releases: Seq<Release>, tag: Seq<char>) -> bool {
    exists|i: int| 0 <= i < releases.len() && (#[trigger] releases[i]).tag@ == tag
}

/// The view of an optional string.
pub open spec fn opt_string_view(o: Option<String>) -> Option<Seq<char>> {
    match o {
        Some(s) => Some(s@),
        None => None,
    }
}

/// The jobs for the new tags: tags not yet recorded and with a previous tag.
pub open spec fn planned_jobs(new_tags: Seq<TagV>, all: Seq<TagV>, releases: Seq<Release>) -> Seq<
    (Seq<char>, Seq<char>, Seq<char>),
>
    decreases new_tags.len(),
{
    if new_tags.len() == 0 {
        Seq::empty()
    } else {
        let prev = planned_jobs(new_tags.drop_last(), all, releases);
        let t = new_tags.last();
        if known_tag(releases, t.0) {
            prev
        } else {
            match spec_find_prev_tag(t.1, all) {
                Ok(p) => prev.push((t.0, p, t.2)),
                Err(_) => prev,
            }
        }
    }
}

/// The view of a job: (tag, previous tag, date).
pub open spec fn jobs_view(jobs: Seq<TagJob>) -> Seq<(Seq<char>, Seq<char>, Seq<char>)> {
    Seq::new(jobs.len(), |i: int| (jobs[i].tag@, jobs[i].prev_tag@, jobs[i].date@))
}

/// Whether some release of `releases` has tag `tag`.
fn is_known_tag(releases: &Vec<Release>, tag: &String) -> (r: bool)
    ensures
        r == known_tag(releases@, tag@),
{
    let mut i: usize = 0;
    while i < releases.len()
        invariant
            i <= releases@.len(),
            forall|j: int| 0 <= j < i ==> (#[trigger] releases@[j]).tag@ != tag@,
        decreases releases@.len() - i,
    {
        if releases[i].tag == *tag {
            return true;
        }
        i += 1;
    }
    false
}

/// Decide what a discovery run does with the published tags (sorted by
/// date): which new tags to process against which previous tag, and which
/// date to record afterwards.
pub fn plan_discovery(state: &State, tags: &Vec<PublishedTag>) -> (plan: DiscoveryPlan)
    ensures
        ({
            let all = tags@.map_values(|t: PublishedTag| t@);
            let cutoff = opt_string_view(state.last_processed_tags_date);
            let new_tags = tags_after(all, cutoff);
            &&& jobs_view(plan.jobs@) == planned_jobs(new_tags, all, state.releases@)
            &&& match plan.latest_date {
                Some(d) => latest_date_of(new_tags) == Some(d@),
                None => latest_date_of(new_tags) is None,
            }
        }),
{
    let ghost all = tags@.map_values(|t: PublishedTag| t@);
    let ghost cutoff = opt_string_view(state.last_processed_tags_date);
    let ghost after = |t: TagV|
        match cutoff {
            Some(c) => seq_lt(c, t.2),
            None => true,
        };
    let mut jobs: Vec<TagJob> = Vec::new();
    let mut latest: Option<String> = None;
    let ghost mut new_tags: Seq<TagV> = Seq::empty();
    let mut i: usize = 0;
    while i < tags.len()
        invariant
            i <= tags@.len(),
            all == tags@.map_values(|t: PublishedTag| t@),
            cutoff == opt_string_view(state.last_processed_tags_date),
            after == (|t: TagV|
                match cutoff {
                    Some(c) => seq_lt(c, t.2),
                    None => true,
                }),
            new_tags == all.take(i as int).filter(after),
            jobs_view(jobs@) == planned_jobs(new_tags, all, state.releases@),
            match latest {
                Some(d) => latest_date_of(new_tags) == Some(d@),
                None => latest_date_of(new_tags) is None,
            },
        decreases tags@.len() - i,
    {
        let t = &tags[i];
        let ghost x = t@;
        assert(all[i as int] == x);
        assert(all.take(i + 1) =~= all.take(i as int).push(x));
        proof {
            all.take(i as int).lemma_filter_push(x, after);
        }
        let is_new = match &state.last_processed_tags_date {
            Some(c) => str_less(c.as_str(), t.date.as_str()),
            None => true,
        };
        if is_new {
            let ghost nt = new_tags.push(x);
            assert(nt.drop_last() =~= new_tags);
            let later = match &latest {
                Some(m) => !str_less(t.date.as_str(), m.as_str()),
                None => true,
            };
            if later {
                latest = Some(t.date.clone());
            }
            if !is_known_tag(&state.releases, &t.tag) {
                match find_prev_tag(t.name.as_str(), tags.as_slice()) {
                    Ok(prev_tag) => {
                        let ghost before = jobs_view(jobs@);
                        jobs.push(TagJob { tag: t.tag.clone(), prev_tag, date: t.date.clone() });
                        assert(jobs_view(jobs@) =~= before.push((x.0, prev_tag@, x.2)));
                    },
                    Err(_) => {},
                }
            }
            proof {
                new_tags = nt;
            }
        }
        i += 1;
    }
    assert(all.take(i as int) =~= all);
    DiscoveryPlan { jobs, latest_date: latest }
}


/// Record the outcome of a discovery run: the releases built for the planned
/// jobs are appended in order, and the latest publish date among the new tags
/// (when there was a new tag) becomes the processed date.
pub fn record_discovery(state: &mut State, releases: Vec<Release>, latest_date: Option<String>)
    ensures
        final(state).releases@ == old(state).releases@ + releases@,
        final(state).last_processed_tags_date == match latest_date {
            Some(d) => Some(d),
            None => old(state).last_processed_tags_date,
        },
        final(state).project == old(state).project,
        final(state).runtimes == old(state).runtimes,
{
    let mut releases = releases;
    state.releases.append(&mut releases);
    if let Some(d) = latest_date {
        state.last_processed_tags_date = Some(d);
    }
}

/// Two steps that do not go down in code point order do not go down.
proof fn lemma_not_lt_chain(a: Seq<char>, b: Seq<char>, c: Seq<char>)
    requires
        !seq_lt(a, b),
        !seq_lt(b, c),
    ensures
        !seq_lt(a, c),
{
    lemma_seq_lt_total(a, b);
    if seq_lt(a, c) && seq_lt(b, a) {
        lemma_seq_lt_transitive(b, a, c);
    }
}

/// The latest date is the date of one of the tags, and no tag is later.
proof fn lemma_latest_date_of(tags: Seq<TagV>)
    ensures
        latest_date_of(tags) is None <==> tags.len() == 0,
        latest_date_of(tags) matches Some(d) ==> {
            &&& exists|i: int| 0 <= i < tags.len() && (#[trigger] tags[i]).2 == d
            &&& forall|i: int| 0 <= i < tags.len() ==> !seq_lt(d, (#[trigger] tags[i]).2)
        },
    decreases tags.len(),
{
    if tags.len() > 0 {
        let rest = tags.drop_last();
        let t = tags.last();
        lemma_latest_date_of(rest);
        assert(tags[tags.len() - 1] == t);
        assert forall|i: int| 0 <= i < rest.len() implies #[trigger] tags[i] == rest[i] by {}
        match latest_date_of(rest) {
            Some(m) => {
                if seq_lt(t.2, m) {
                    lemma_seq_lt_asymmetric(t.2, m);
                    let k = choose|i: int| 0 <= i < rest.len() && (#[trigger] rest[i]).2 == m;
                    assert(tags[k].2 == m);
                } else {
                    assert forall|i: int| 0 <= i < tags.len() implies !seq_lt(t.2, (#[trigger] tags[i]).2) by {
                        if i < rest.len() {
                            assert(!seq_lt(m, rest[i].2));
                            lemma_not_lt_chain(t.2, m, rest[i].2);
                        } else {
                            lemma_seq_lt_irreflexive(t.2);
                        }
                    }
                }
            },
            None => {
                lemma_seq_lt_irreflexive(t.2);
            },
        }
    }
}

/// No tag is published after a date that none of them passes.
proof fn lemma_tags_after_none(all: Seq<TagV>, d: Seq<char>)
    requires
        forall|i: int| 0 <= i < all.len() ==> !seq_lt(d, (#[trigger] all[i]).2),
    ensures
        tags_after(all, Some(d)).len() == 0,
{
    let cutoff = Some(d);
    let pred = |t: TagV|
        match cutoff {
            Some(c) => seq_lt(c, t.2),
            None => true,
        };
    assert(tags_after(all, cutoff) == all.filter(pred));
    assert forall|i: int| 0 <= i < all.len() implies !#[trigger] pred(all[i]) by {}
    all.lemma_all_neg_filter_empty(pred);
}

/// Once a run has recorded the latest date of the tags it found new, a later
/// run over the same published tags finds no new tag, and so plans no job.
pub proof fn law_rerun_finds_no_new_tag(all: Seq<TagV>, cutoff: Option<Seq<char>>, releases: Seq<Release>)
    ensures
        match latest_date_of(tags_after(all, cutoff)) {
            Some(d) => {
                &&& tags_after(all, Some(d)).len() == 0
                &&& planned_jobs(tags_after(all, Some(d)), all, releases).len() == 0
            },
            None => tags_after(all, cutoff).len() == 0,
        },
{
    let new_tags = tags_after(all, cutoff);
    let pred = |t: TagV|
        match cutoff {
            Some(c) => seq_lt(c, t.2),
            None => true,
        };
    assert(new_tags == all.filter(pred));
    lemma_latest_date_of(new_tags);
    if let Some(d) = latest_date_of(new_tags) {
        let k = choose|i: int| 0 <= i < new_tags.len() && (#[trigger] new_tags[i]).2 == d;
        all.lemma_filter_pred(pred, k);
        assert forall|i: int| 0 <= i < all.len() implies !seq_lt(d, (#[trigger] all[i]).2) by {
            if pred(all[i]) {
                all.lemma_filter_contains(pred, i);
                let j = choose|j: int| 0 <= j < new_tags.len() && new_tags[j] == all[i];
                assert(!seq_lt(d, new_tags[j].2));
            } else {
                let c = cutoff.unwrap();
                if seq_lt(d, all[i].2) {
                    lemma_seq_lt_transitive(c, d, all[i].2);
                }
            }
        }
        lemma_tags_after_none(all, d);
    }
}

/// No planned job is for a tag whose release is already recorded, and each
/// job compares its tag against the tag that `find_prev_tag` picks.
pub proof fn law_planned_jobs_are_new(new_tags: Seq<TagV>, all: Seq<TagV>, releases: Seq<Release>)
    ensures
        forall|k: int|
            0 <= k < planned_jobs(new_tags, all, releases).len() ==> {
                let job = #[trigger] planned_jobs(new_tags, all, releases)[k];
                &&& !known_tag(releases, job.0)
                &&& exists|i: int|
                    0 <= i < new_tags.len() && (#[trigger] new_tags[i]).0 == job.0 && new_tags[i].2
                        == job.2 && spec_find_prev_tag(new_tags[i].1, all) == Ok::<Seq<char>, Seq<char>>(
                        job.1,
                    )
            },
    decreases new_tags.len(),
{
    if new_tags.len() > 0 {
        let rest = new_tags.drop_last();
        law_planned_jobs_are_new(rest, all, releases);
        let prev = planned_jobs(rest, all, releases);
        let t = new_tags.last();
        assert(new_tags[new_tags.len() - 1] == t);
        assert forall|i: int| 0 <= i < rest.len() implies #[trigger] new_tags[i] == rest[i] by {}
        assert forall|k: int| 0 <= k < planned_jobs(new_tags, all, releases).len() implies {
            let job = #[trigger] planned_jobs(new_tags, all, releases)[k];
            &&& !known_tag(releases, job.0)
            &&& exists|i: int|
                0 <= i < new_tags.len() && (#[trigger] new_tags[i]).0 == job.0 && new_tags[i].2 == job.2
                    && spec_find_prev_tag(new_tags[i].1, all) == Ok::<Seq<char>, Seq<char>>(job.1)
        } by {
            let jobs = planned_jobs(new_tags, all, releases);
            if k < prev.len() {
                assert(jobs[k] == prev[k]);
                let i = choose|i: int|
                    0 <= i < rest.len() && (#[trigger] rest[i]).0 == prev[k].0 && rest[i].2 == prev[k].2
                        && spec_find_prev_tag(rest[i].1, all) == Ok::<Seq<char>, Seq<char>>(prev[k].1);
                assert(new_tags[i] == rest[i]);
            } else {
                assert(new_tags[new_tags.len() - 1] == t);
            }
        }
    }
}

/// Reading a release name undoes writing one: the name `b-n` made of a
/// branch `b` (any text, dashes included) and a patch number `n` reads back as
/// `(b, n)`.
pub proof fn law_release_name_roundtrip(b: Seq<char>, n: u32)
    ensures
        release_name_parts(b + seq!['-'] + decimal(n as nat)) == (b, n),
{
    let d = decimal(n as nat);
    let name = b + seq!['-'] + d;
    lemma_decimal_digits(n as nat);
    assert forall|i: int| 0 <= i < d.len() implies d[i] != '-' by {
        assert(is_digit(d[i]));
    }
    lemma_last_index_append(b + seq!['-'], d, '-');
    assert((b + seq!['-']).last() == '-');
    assert(last_index(name, '-') == Some(b.len() as int));
    assert(name.skip(b.len() + 1 as int) =~= d);
    assert(name.take(b.len() as int) =~= b);
    assert(d[0] != '+') by {
        assert(is_digit(d[0]));
    }
    assert(spec_parse_u32(d) == Some(n));
}

/// What `last_where` finds: the last index whose tag satisfies `f`.
proof fn lemma_last_where(tags: Seq<TagV>, f: spec_fn(TagV) -> bool)
    ensures
        match last_where(tags, f) {
            Some(i) => {
                &&& 0 <= i < tags.len()
                &&& f(tags[i])
                &&& forall|j: int| i < j < tags.len() ==> !f(#[trigger] tags[j])
            },
            None => forall|j: int| 0 <= j < tags.len() ==> !f(#[trigger] tags[j]),
        },
    decreases tags.len(),
{
    if tags.len() > 0 {
        let p = tags.drop_last();
        lemma_last_where(p, f);
        assert forall|j: int| 0 <= j < p.len() implies #[trigger] tags[j] == p[j] by {}
        assert(tags[tags.len() - 1] == tags.last());
    }
}

/// The previous tag of a release `base-patch`, over the published tags in
/// date order:
/// - for a patch (`patch > 0`) with an earlier patch of the same branch among
///   the tags, it is the latest-listed tag of the same branch whose patch
///   number is strictly smaller;
/// - otherwise, when some tag's branch sorts before `base`, it is the
///   latest-listed tag whose branch is the greatest of those branches;
/// - otherwise there is none.
pub proof fn law_find_prev_tag(name: Seq<char>, tags: Seq<TagV>)
    ensures
        ({
            let base = release_name_parts(name).0;
            let patch = release_name_parts(name).1;
            let r = spec_find_prev_tag(name, tags);
            let has_earlier_patch = patch > 0 && exists|j: int|
                0 <= j < tags.len() && base_of(#[trigger] tags[j]) == base && patch_of(tags[j]) < patch;
            let has_earlier_branch = exists|j: int|
                0 <= j < tags.len() && seq_lt(base_of(#[trigger] tags[j]), base);
            &&& has_earlier_patch ==> exists|i: int|
                0 <= i < tags.len() && base_of(#[trigger] tags[i]) == base && patch_of(tags[i]) < patch
                    && (forall|j: int|
                    i < j < tags.len() ==> !(base_of(#[trigger] tags[j]) == base && patch_of(tags[j])
                        < patch)) && r == Ok::<Seq<char>, Seq<char>>(tags[i].0)
            &&& !has_earlier_patch && has_earlier_branch ==> exists|i: int|
                0 <= i < tags.len() && seq_lt(base_of(#[trigger] tags[i]), base) && (forall|j: int|
                    0 <= j < tags.len() && seq_lt(base_of(#[trigger] tags[j]), base) ==> seq_le(
                        base_of(tags[j]),
                        base_of(tags[i]),
                    )) && (forall|j: int|
                    i < j < tags.len() ==> base_of(#[trigger] tags[j]) != base_of(tags[i])) && r
                    == Ok::<Seq<char>, Seq<char>>(tags[i].0)
            &&& !has_earlier_patch && !has_earlier_branch ==> r is Err
        }),
{
    let base = release_name_parts(name).0;
    let patch = release_name_parts(name).1;
    let f_same = |t: TagV| base_of(t) == base && patch_of(t) < patch;
    lemma_last_where(tags, f_same);
    law_greatest_branch_below(tags, base);
    let has_earlier_patch = patch > 0 && exists|j: int|
        0 <= j < tags.len() && base_of(#[trigger] tags[j]) == base && patch_of(tags[j]) < patch;
    if has_earlier_patch {
        let j = choose|j: int|
            0 <= j < tags.len() && base_of(#[trigger] tags[j]) == base && patch_of(tags[j]) < patch;
        assert(f_same(tags[j]));
        let i = last_where(tags, f_same)->0;
        assert(spec_find_prev_tag(name, tags) == Ok::<Seq<char>, Seq<char>>(tags[i].0));
    } else {
        if patch > 0 {
            if let Some(i) = last_where(tags, f_same) {
                assert(f_same(tags[i]));
                assert(false);
            }
        }
        match greatest_base_below(tags, base) {
            Some(g) => {
                let f_branch = |t: TagV| base_of(t) == g;
                lemma_last_where(tags, f_branch);
                let k = choose|k: int| 0 <= k < tags.len() && base_of(tags[k]) == g;
                assert(f_branch(tags[k]));
                let i = last_where(tags, f_branch)->0;
                assert(spec_find_prev_tag(name, tags) == Ok::<Seq<char>, Seq<char>>(tags[i].0));
                assert(seq_lt(base_of(tags[i]), base));
            },
            None => {},
        }
    }
}

} // verus!
