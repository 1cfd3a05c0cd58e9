//! The opt-in update check's pure parts: comparing release versions and
//! reading the release tag out of a redirect location.
use vstd::prelude::*;
use crate::strings::{lemma_split_nonempty, parse_u64, parse_u64_spec, split_chars, split_spec, trim, trim_spec};
use crate::text::{strip_prefix_ascii, trim_end_char, trim_end_char_spec, trim_start_char, trim_start_char_spec};

verus! {

/// A parsed release version: the numeric core and whether it is a pre-release.
#[derive(Clone, Copy, Debug, PartialEq, Eq)]
pub struct Version {
    pub major: u64,
    pub minor: u64,
    pub patch: u64,
    pub is_prerelease: bool,
}

/// The text of a tag that carries the version: trimmed, leading `v`s dropped,
/// and build metadata after the first `+` dropped.
pub open spec fn version_text(tag: Seq<char>) -> Seq<char> {
    split_spec(trim_start_char_spec(trim_spec(tag), 'v'), seq!['+'])[0]
}

/// The `i`-th dot-separated field of `core` parsed as a number, where a
/// missing field reads as `0`.
pub open spec fn field_spec(parts: Seq<Seq<char>>, i: int) -> Option<u64> {
    if i < parts.len() {
        parse_u64_spec(parts[i])
    } else {
        Some(0)
    }
}

/// What a tag says about its version: `MAJOR[.MINOR[.PATCH]][-PRE][+BUILD]`,
/// with an optional leading `v`; anything else is `None`.
pub open spec fn version_spec(tag: Seq<char>) -> Option<Version> {
    let t = version_text(tag);
    let dash = split_spec(t, seq!['-']);
    let core = dash[0];
    let pre = dash.len() > 1;
    let parts = split_spec(core, seq!['.']);
    if parts.len() <= 3 && field_spec(parts, 0) is Some && field_spec(parts, 1) is Some
        && field_spec(parts, 2) is Some {
        Some(Version {
            major: field_spec(parts, 0)->0,
            minor: field_spec(parts, 1)->0,
            patch: field_spec(parts, 2)->0,
            is_prerelease: pre,
        })
    } else {
        None
    }
}

/// Whether release `l` is strictly newer than `c`: a larger numeric core, or
/// the same core where only `c` is a pre-release.
pub open spec fn newer_spec(l: Version, c: Version) -> bool {
    if l.major != c.major {
        l.major > c.major
    } else if l.minor != c.minor {
        l.minor > c.minor
    } else if l.patch != c.patch {
        l.patch > c.patch
    } else {
        c.is_prerelease && !l.is_prerelease
    }
}

/// Whether tag `latest` names a strictly newer release than `current`;
/// false whenever either does not parse.
pub open spec fn is_newer_spec(latest: Seq<char>, current: Seq<char>) -> bool {
    match (version_spec(latest), version_spec(current)) {
        (Some(l), Some(c)) => newer_spec(l, c),
        _ => false,
    }
}

/// Parses one field: present fields must be numbers, a missing one is `0`.
fn field(parts: &Vec<&str>, i: usize) -> (r: Option<u64>)
    ensures
        r == field_spec(parts@.map_values(|w: &str| w@), i as int),
{
    if i < parts.len() {
        parse_u64(parts[i])
    } else {
        Some(0)
    }
}

/// Parses a release tag such as `v0.6.0`, `1.0.0-rc.1` or `0.5`.
pub fn parse_version(tag: &str) -> (r: Option<Version>)
    ensures
        r == version_spec(tag@),
{
    let t0 = trim(tag);
    let t1 = trim_start_char(t0, 'v', 118u8);
    let plus = split_chars(t1, &['+']);
    proof {
        lemma_split_nonempty(t1@, seq!['+']);
        assert(seq!['+'] =~= ['+']@);
    }
    let t = plus[0];
    let dash = split_chars(t, &['-']);
    proof {
        lemma_split_nonempty(t@, seq!['-']);
        assert(seq!['-'] =~= ['-']@);
    }
    let core = dash[0];
    let pre = dash.len() > 1;
    let parts = split_chars(core, &['.']);
    proof {
        assert(seq!['.'] =~= ['.']@);
    }
    if parts.len() > 3 {
        return None;
    }
    let major = field(&parts, 0);
    let minor = field(&parts, 1);
    let patch = field(&parts, 2);
    match (major, minor, patch) {
        (Some(a), Some(b), Some(c)) => Some(Version { major: a, minor: b, patch: c, is_prerelease: pre }),
        _ => None,
    }
}

/// Whether `l` is strictly newer than `c`.
pub fn version_newer(l: &Version, c: &Version) -> (b: bool)
    ensures
        b == newer_spec(*l, *c),
{
    if l.major != c.major {
        l.major > c.major
    } else if l.minor != c.minor {
        l.minor > c.minor
    } else if l.patch != c.patch {
        l.patch > c.patch
    } else {
        c.is_prerelease && !l.is_prerelease
    }
}

/// Whether `latest` is a strictly newer release than `current`. `false` on
/// any unparseable input — garbage never nags.
pub fn is_newer(latest: &str, current: &str) -> (b: bool)
    ensures
        b == is_newer_spec(latest@, current@),
{
    match (parse_version(latest), parse_version(current)) {
        (Some(l), Some(c)) => version_newer(&l, &c),
        _ => false,
    }
}

/// The tag in a `.../releases/tag/<tag>` location: the last path segment
/// (after dropping trailing slashes), which must start with `v`.
pub open spec fn tag_spec(location: Seq<char>) -> Option<Seq<char>> {
    let last = split_spec(trim_end_char_spec(location, '/'), seq!['/']).last();
    if last.len() == 0 || last[0] != 'v' {
        None
    } else {
        Some(last)
    }
}

/// Extracts the version tag from a `.../releases/tag/<tag>` URL.
pub fn tag_from_location(location: &str) -> (r: Option<String>)
    ensures
        r is Some <==> tag_spec(location@) is Some,
        r matches Some(t) ==> t@ == tag_spec(location@)->0,
{
    let t = trim_end_char(location, '/', 47u8);
    let pieces = split_chars(t, &['/']);
    proof {
        lemma_split_nonempty(t@, seq!['/']);
        assert(seq!['/'] =~= ['/']@);
    }
    let last = pieces[pieces.len() - 1];
    match strip_prefix_ascii(last, 'v', 118u8) {
        Some(_) => Some(last.to_string()),
        None => None,
    }
}


/// No release is newer than itself.
pub proof fn law_newer_irreflexive(tag: Seq<char>)
    ensures
        !is_newer_spec(tag, tag),
{
}

/// If `a` is newer than `b`, then `b` is not newer than `a`.
pub proof fn law_newer_asymmetric(a: Seq<char>, b: Seq<char>)
    ensures
        is_newer_spec(a, b) ==> !is_newer_spec(b, a),
{
}

/// Newer-than is transitive.
pub proof fn law_newer_transitive(a: Seq<char>, b: Seq<char>, c: Seq<char>)
    ensures
        is_newer_spec(a, b) && is_newer_spec(b, c) ==> is_newer_spec(a, c),
{
}

/// A tag that does not parse is never newer than anything, and nothing is
/// newer than it.
pub proof fn law_garbage_never_nags(garbage: Seq<char>, other: Seq<char>)
    requires
        version_spec(garbage) is None,
    ensures
        !is_newer_spec(garbage, other),
        !is_newer_spec(other, garbage),
{
}

/// A finished release is newer than a pre-release of the same core, never
/// the other way round.
pub proof fn law_prerelease_ranks_below(l: Version, c: Version)
    requires
        l.major == c.major && l.minor == c.minor && l.patch == c.patch,
        !l.is_prerelease,
        c.is_prerelease,
    ensures
        newer_spec(l, c),
        !newer_spec(c, l),
{
}

/// Where releases are published.
pub const RELEASES_URL: &'static str = "https://github.com/StruisICT/InSearch/releases/latest";

/// What the startup check announces once the latest tag is known: the
/// version (the tag without leading `v`s) when it is newer than `current`
/// and differs from the version announced last; otherwise nothing.
pub open spec fn announcement_spec(tag: Seq<char>, current: Seq<char>, last: Option<Seq<char>>) -> Option<Seq<char>> {
    let v = trim_start_char_spec(tag, 'v');
    if is_newer_spec(tag, current) && last != Some(v) { Some(v) } else { None }
}

/// The startup check's decision (see [`announcement_spec`]); the announced
/// version is also what is remembered as announced.
pub fn announcement(tag: &str, current: &str, last_notified: Option<&str>) -> (r: Option<String>)
    ensures
        match r {
            Some(v) => announcement_spec(tag@, current@, match last_notified { Some(l) => Some(l@), None => None })
                == Some(v@),
            None => announcement_spec(tag@, current@, match last_notified { Some(l) => Some(l@), None => None })
                is None,
        },
{
    if !is_newer(tag, current) {
        return None;
    }
    let v = trim_start_char(tag, 'v', 118u8);
    match last_notified {
        Some(l) => if crate::strings::str_eq(l, v) { None } else { Some(v.to_string()) },
        None => Some(v.to_string()),
    }
}

/// What an on-demand check reports.
#[derive(Clone, Debug, PartialEq, Eq)]
pub enum CheckOutcome {
    /// A newer version (the tag without leading `v`s) is available.
    Newer(String),
    /// The running version is the latest.
    UpToDate,
    /// The latest tag could not be learned.
    Unavailable,
}

/// The on-demand check's report, given the latest tag if it could be learned.
pub fn check_outcome(tag: Option<&str>, current: &str) -> (r: CheckOutcome)
    ensures
        match tag {
            None => r == CheckOutcome::Unavailable,
            Some(t) => if is_newer_spec(t@, current@) {
                r matches CheckOutcome::Newer(v) && v@ == trim_start_char_spec(t@, 'v')
            } else {
                r == CheckOutcome::UpToDate
            },
        },
{
    match tag {
        None => CheckOutcome::Unavailable,
        Some(t) => if is_newer(t, current) {
            CheckOutcome::Newer(trim_start_char(t, 'v', 118u8).to_string())
        } else {
            CheckOutcome::UpToDate
        },
    }
}

/// Whether the automatic check is on. There is no automatic check outside
/// Windows, so it is always off.
pub fn auto_check_enabled() -> (b: bool)
    ensures
        !b,
{
    false
}

/// Turning the automatic check on or off does nothing outside Windows.
pub fn set_auto_check(enabled: bool) {
}

/// The startup check does nothing outside Windows.
pub fn maybe_run() {
}

} // verus!
