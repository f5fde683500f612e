//! Updating the program itself.

use vstd::prelude::*;
use crate::error::{fails, other, Result};
use crate::json::{boolean, held, held_fields, object, put, record, string, Json};
use crate::resolution::opt_text;
use crate::strmap::StrMap;
use crate::text::{
    base_name, basename, begins, cat, cat3, char_is_white, chars_of, cut_front, ends, ends_with,
    is_white, lowercase, same, slice_text, starts_with, texts, to_lower, trim_front, trim_start,
};
use crate::version::{
    opt_version, order_of, parse_semver_text, semver_order, semver_parsed, strict, version_text,
    Order, Version, VersionView,
};

verus! {

pub const REPO: &'static str = "x87/chef";

/// A newer program is looked for once in this many seconds.
pub const CHECK_INTERVAL_SECS: u64 = 604800;

/// The text of the version in the tag of a release: without any `v` in front,
/// `?` where there is no tag.
pub open spec fn tag_version(tag: Option<Seq<char>>) -> Seq<char> {
    cut_front(
        match tag {
            Some(t) => t,
            None => "?"@,
        },
        'v',
    )
}

/// The version of the newest release, from its tag.
pub fn latest_version(tag: Option<&str>) -> (r: Result<Version>)
    ensures
        match semver_parsed(tag_version(opt_text(tag))) {
            Ok(v) => r matches Ok(w) && w@ == v,
            Err(e) => fails(r, e),
        },
{
    let t: &str = match tag {
        Some(t) => t,
        None => "?",
    };
    let bare = trim_start(t, 'v');
    match parse_semver_text(bare.as_str()) {
        Ok(v) => Ok(v),
        Err(e) => other(e),
    }
}

/// What is done about a newer program.
#[derive(Debug, Clone, Copy, PartialEq, Eq, Structural)]
pub enum UpgradeStep {
    /// Only whether there is one is told.
    Tell { available: bool },
    /// Nothing: there is none.
    UpToDate,
    /// It is downloaded and put in place.
    Upgrade,
}

/// What is done about the newest release, where `check` asks only whether it is
/// newer.
pub fn upgrade_step(latest: &Version, current: &Version, check: bool) -> (s: UpgradeStep)
    ensures
        s == if check {
            UpgradeStep::Tell {
                available: semver_order(latest@, current@) == Order::Greater,
            }
        } else if semver_order(latest@, current@) == Order::Greater {
            UpgradeStep::Upgrade
        } else {
            UpgradeStep::UpToDate
        },
        crate::version::numbers_order(latest@, current@) == Order::Greater ==> s
            == if check {
            UpgradeStep::Tell { available: true }
        } else {
            UpgradeStep::Upgrade
        },
        crate::version::numbers_order(latest@, current@) == Order::Less ==> s
            == if check {
            UpgradeStep::Tell { available: false }
        } else {
            UpgradeStep::UpToDate
        },
        latest@ == current@ ==> s == if check {
            UpgradeStep::Tell { available: false }
        } else {
            UpgradeStep::UpToDate
        },
{
    let newer: bool = order_of(latest, current) == Order::Greater;
    if check {
        UpgradeStep::Tell { available: newer }
    } else if newer {
        UpgradeStep::Upgrade
    } else {
        UpgradeStep::UpToDate
    }
}

/// What is said of a newer program, or that there is none.
pub fn upgrade_text(latest: &Version, current: &Version, available: bool) -> (out: String)
    ensures
        out@ == if available {
            "new version v"@ + version_text(latest@) + " available (current: v"@ + version_text(
                current@,
            ) + ") - run 'chef upgrade'"@
        } else {
            "chef is up to date (v"@ + version_text(current@) + ")"@
        },
{
    let c = current.text();
    if available {
        let l = latest.text();
        let mut m = cat3("new version v", l.as_str(), " available (current: v");
        m.append(c.as_str());
        m.append(") - run 'chef upgrade'");
        m
    } else {
        cat3("chef is up to date (v", c.as_str(), ")")
    }
}

/// The document about the search for a newer program.
pub open spec fn check_document(
    current: VersionView,
    latest: VersionView,
    available: Option<bool>,
) -> Json {
    let base = seq![
        ("updated"@, Json::Bool(false)),
        ("current"@, Json::Text(version_text(current))),
        ("latest"@, Json::Text(version_text(latest))),
    ];
    match available {
        Some(a) => record(base.push(("updateAvailable"@, Json::Bool(a)))),
        None => record(base),
    }
}

/// The document about the search for a newer program: whether there is one is
/// told only where it was asked.
pub fn check_value(latest: &Version, current: &Version, available: Option<bool>) -> (v: serde_json::Value)
    ensures
        held(v) == check_document(current@, latest@, available),
{
    let mut f: Vec<(String, serde_json::Value)> = Vec::new();
    let c = current.text();
    let l = latest.text();
    put(&mut f, "updated", boolean(false));
    put(&mut f, "current", string(c.as_str()));
    put(&mut f, "latest", string(l.as_str()));
    proof {
        assert(held_fields(f@) =~= seq![
            ("updated"@, Json::Bool(false)),
            ("current"@, Json::Text(version_text(current@))),
            ("latest"@, Json::Text(version_text(latest@))),
        ]);
    }
    if let Some(a) = available {
        put(&mut f, "updateAvailable", boolean(a));
    }
    object(f)
}

/// The document about an update of the program.
pub fn upgraded_value(latest: &Version, current: &Version) -> (v: serde_json::Value)
    ensures
        held(v) == record(
            seq![
                ("updated"@, Json::Bool(true)),
                ("from"@, Json::Text(version_text(current@))),
                ("to"@, Json::Text(version_text(latest@))),
            ],
        ),
{
    let mut f: Vec<(String, serde_json::Value)> = Vec::new();
    let c = current.text();
    let l = latest.text();
    put(&mut f, "updated", boolean(true));
    put(&mut f, "from", string(c.as_str()));
    put(&mut f, "to", string(l.as_str()));
    proof {
        assert(held_fields(f@) =~= seq![
            ("updated"@, Json::Bool(true)),
            ("from"@, Json::Text(version_text(current@))),
            ("to"@, Json::Text(version_text(latest@))),
        ]);
    }
    object(f)
}

// ---------------------------------------------------------------------------
// The notice
// ---------------------------------------------------------------------------

/// Is it time to look for a newer program again? A clock that went back does not
/// count.
pub fn notice_is_due(now: u64, last: u64) -> (b: bool)
    ensures
        b == (now - last >= CHECK_INTERVAL_SECS),
{
    now.saturating_sub(last) >= CHECK_INTERVAL_SECS
}

/// The version that the tag of a release names behind any `v` in front, if there
/// is a tag and it is one.
pub fn parse_tag(tag: Option<&str>) -> (r: Option<Version>)
    ensures
        opt_version(r) == match tag {
            Some(t) => strict(cut_front(t@, 'v')),
            None => None,
        },
{
    match tag {
        Some(t) => match parse_semver_text(trim_start(t, 'v').as_str()) {
            Ok(v) => Some(v),
            Err(_) => None,
        },
        None => None,
    }
}

/// What is said of a newer program in passing; nothing where it is not newer.
pub fn update_notice(latest: &Version, current: &Version) -> (r: Option<String>)
    ensures
        match r {
            Some(m) => semver_order(latest@, current@) == Order::Greater && m@ == "new version v"@
                + version_text(latest@) + " available - run 'chef upgrade'"@,
            None => semver_order(latest@, current@) != Order::Greater,
        },
{
    if order_of(latest, current) == Order::Greater {
        let l = latest.text();
        Some(cat3("new version v", l.as_str(), " available - run 'chef upgrade'"))
    } else {
        None
    }
}

// ---------------------------------------------------------------------------
// The archive of the program
// ---------------------------------------------------------------------------

/// How the name of the archive for a platform begins, where there are releases
/// for it.
pub fn asset_stem(os: &str, arch: &str) -> (r: Option<&'static str>)
    ensures
        if os@ == "windows"@ && arch@ == "x86_64"@ {
            r matches Some(s) && s@ == "chef-x86_64-pc-windows-msvc"@
        } else if os@ == "windows"@ && arch@ == "aarch64"@ {
            r matches Some(s) && s@ == "chef-aarch64-pc-windows-msvc"@
        } else {
            r is None
        },
{
    if same(os, "windows") && same(arch, "x86_64") {
        Some("chef-x86_64-pc-windows-msvc")
    } else if same(os, "windows") && same(arch, "aarch64") {
        Some("chef-aarch64-pc-windows-msvc")
    } else {
        None
    }
}

/// An archive of a release: its name and its address, as far as they are given.
#[derive(Debug)]
pub struct ReleaseAsset {
    pub name: Option<String>,
    pub url: Option<String>,
}

/// The archive has a name that begins like this.
pub open spec fn name_begins(a: ReleaseAsset, stem: Seq<char>) -> bool {
    a.name matches Some(n) && begins(n@, stem)
}

/// The first archive from position `from` on whose name begins like this.
pub open spec fn first_asset(assets: Seq<ReleaseAsset>, stem: Seq<char>, from: int) -> Option<
    ReleaseAsset,
>
    decreases assets.len() - from,
{
    if from >= assets.len() {
        None
    } else if name_begins(assets[from], stem) {
        Some(assets[from])
    } else {
        first_asset(assets, stem, from + 1)
    }
}

/// The name and the address of the archive for this platform.
pub fn upgrade_asset(assets: &Vec<ReleaseAsset>, stem: &str) -> (r: Result<(String, String)>)
    ensures
        match first_asset(assets@, stem@, 0) {
            None => fails(r, "release has no asset matching "@ + stem@ + ".*"@),
            Some(a) => match a.url {
                None => fails(r, "asset "@ + a.name->0@ + " lacks a download URL"@),
                Some(u) => r matches Ok(t) && t.0@ == a.name->0@ && t.1@ == u@,
            },
        },
{
    let mut i: usize = 0;
    while i < assets.len()
        invariant
            i <= assets@.len(),
            first_asset(assets@, stem@, 0) == first_asset(assets@, stem@, i as int),
        decreases assets.len() - i,
    {
        if let Some(n) = &assets[i].name {
            if starts_with(n.as_str(), stem) {
                return match &assets[i].url {
                    None => other(cat3("asset ", n.as_str(), " lacks a download URL")),
                    Some(u) => Ok((n.clone(), u.clone())),
                };
            }
        }
        i = i + 1;
    }
    other(cat3("release has no asset matching ", stem, ".*"))
}

/// The characters up to the first white space.
pub open spec fn word_front(s: Seq<char>) -> Seq<char>
    decreases s.len(),
{
    if s.len() == 0 || is_white(s[0]) {
        Seq::empty()
    } else {
        seq![s[0]] + word_front(s.drop_first())
    }
}

/// The first word of a text.
pub open spec fn first_word(s: Seq<char>) -> Seq<char> {
    word_front(trim_front(s))
}

/// A hexadecimal digit.
pub open spec fn is_hex(c: char) -> bool {
    '0' <= c <= '9' || 'a' <= c <= 'f' || 'A' <= c <= 'F'
}

/// The text of a digest: 64 hexadecimal digits.
pub open spec fn is_digest(s: Seq<char>) -> bool {
    s.len() == 64 && forall|i: int| 0 <= i < s.len() ==> is_hex(#[trigger] s[i])
}

fn leading_word(s: &str) -> (out: String)
    ensures
        out@ == first_word(s@),
{
    let v = chars_of(s);
    let mut i: usize = 0;
    proof {
        assert(v@.skip(0) =~= v@);
    }
    while i < v.len() && char_is_white(v[i])
        invariant
            i <= v@.len(),
            trim_front(v@) == trim_front(v@.skip(i as int)),
        decreases v.len() - i,
    {
        proof {
            assert(v@.skip(i as int).drop_first() =~= v@.skip(i + 1));
        }
        i = i + 1;
    }
    let mut j: usize = i;
    let ghost rest = v@.skip(i as int);
    proof {
        assert(trim_front(v@) == rest);
        assert(v@.subrange(i as int, j as int) + word_front(v@.skip(j as int)) =~= word_front(rest));
    }
    while j < v.len() && !char_is_white(v[j])
        invariant
            i <= j <= v@.len(),
            v@.subrange(i as int, j as int) + word_front(v@.skip(j as int)) == word_front(rest),
        decreases v.len() - j,
    {
        proof {
            let t = v@.skip(j as int);
            assert(t.drop_first() =~= v@.skip(j + 1));
            assert(v@.subrange(i as int, j as int) + (seq![t[0]] + word_front(v@.skip(j + 1)))
                =~= v@.subrange(i as int, j + 1) + word_front(v@.skip(j + 1)));
        }
        j = j + 1;
    }
    proof {
        assert(word_front(v@.skip(j as int)).len() == 0);
        assert(v@.subrange(i as int, j as int) + word_front(v@.skip(j as int)) =~= v@.subrange(
            i as int,
            j as int,
        ));
    }
    slice_text(&v, i, j)
}

fn is_digest_text(s: &str) -> (b: bool)
    ensures
        b == is_digest(s@),
{
    let v = chars_of(s);
    if v.len() != 64 {
        return false;
    }
    let mut i: usize = 0;
    while i < v.len()
        invariant
            i <= v@.len(),
            v@ == s@,
            v@.len() == 64,
            forall|k: int| 0 <= k < i ==> is_hex(#[trigger] v@[k]),
        decreases v.len() - i,
    {
        let c = v[i];
        if !(('0' <= c && c <= '9') || ('a' <= c && c <= 'f') || ('A' <= c && c <= 'F')) {
            proof {
                assert(!is_hex(s@[i as int]));
            }
            return false;
        }
        i = i + 1;
    }
    true
}

/// Reads the digest that is published beside an archive: the first word of the
/// file, in small letters.
pub fn sidecar_digest(asset: &str, sidecar: &str) -> (r: Result<String>)
    ensures
        ({
            let first = lowercase(first_word(sidecar@));
            if is_digest(first) {
                r matches Ok(d) && d@ == first
            } else {
                fails(r, "sidecar digest for "@ + asset@ + " is malformed"@)
            }
        }),
{
    let word = leading_word(sidecar);
    let first = to_lower(word.as_str());
    if is_digest_text(first.as_str()) {
        Ok(first)
    } else {
        other(cat3("sidecar digest for ", asset, " is malformed"))
    }
}

/// Where the digest of the program's archive comes from.
#[derive(Debug)]
pub enum DigestSource {
    /// It is known.
    Known(String),
    /// The archive is downloaded, and its digest trusted and remembered.
    TrustFirst,
}

/// Where the digest of an archive comes from: the file published beside it, else
/// what was remembered of it, else the archive when it is first seen.
pub fn expected_digest(
    asset: &str,
    sidecar: Option<&str>,
    seen: &StrMap<String>,
) -> (r: Result<DigestSource>)
    ensures
        match sidecar {
            Some(s) => if is_digest(lowercase(first_word(s@))) {
                r matches Ok(DigestSource::Known(d)) && d@ == lowercase(first_word(s@))
            } else {
                fails(r, "sidecar digest for "@ + asset@ + " is malformed"@)
            },
            None => if seen@.dom().contains(asset@) {
                r matches Ok(DigestSource::Known(d)) && d@ == seen@[asset@]@
            } else {
                r matches Ok(DigestSource::TrustFirst)
            },
        },
{
    match sidecar {
        Some(s) => match sidecar_digest(asset, s) {
            Ok(d) => Ok(DigestSource::Known(d)),
            Err(e) => Err(e),
        },
        None => match seen.get(asset) {
            Some(d) => Ok(DigestSource::Known(d.clone())),
            None => Ok(DigestSource::TrustFirst),
        },
    }
}

/// Accepts a downloaded archive whose digest is the expected one.
pub fn verify_upgrade(name: &str, digest: &str, got: &str) -> (r: Result<()>)
    ensures
        if got@ == digest@ {
            r is Ok
        } else {
            fails(
                r,
                "checksum mismatch for "@ + name@ + ": expected "@ + digest@ + ", got "@ + got@,
            )
        },
{
    if same(got, digest) {
        return Ok(());
    }
    let mut m = cat3("checksum mismatch for ", name, ": expected ");
    m.append(digest);
    m.append(", got ");
    m.append(got);
    other(m)
}

/// Is the archive one that is unzipped? Any other is a compressed tar file.
pub fn is_zip(name: &str) -> (b: bool)
    ensures
        b == ends(name@, ".zip"@),
{
    ends_with(name, ".zip")
}

/// The name of the program in its archive.
pub open spec fn program_name(windows: bool) -> Seq<char> {
    if windows {
        "chef.exe"@
    } else {
        "chef"@
    }
}

/// The first of the paths, from `from` on, that ends in a file of this name.
pub open spec fn first_named(paths: Seq<Seq<char>>, name: Seq<char>, from: int) -> Option<
    Seq<char>,
>
    decreases paths.len() - from,
{
    if from < 0 || from >= paths.len() {
        None
    } else if base_name(paths[from]) == name {
        Some(paths[from])
    } else {
        first_named(paths, name, from + 1)
    }
}

fn binary_name(windows: bool) -> (n: &'static str)
    ensures
        n@ == program_name(windows),
{
    if windows {
        "chef.exe"
    } else {
        "chef"
    }
}

/// The program in its unpacked archive, in which these files are: the first with
/// its name.
pub fn extract_binary(paths: &Vec<String>, windows: bool) -> (r: Result<String>)
    ensures
        match first_named(texts(paths@), program_name(windows), 0) {
            Some(p) => r matches Ok(f) && f@ == p,
            None => fails(r, "archive does not contain "@ + program_name(windows)),
        },
{
    let name = binary_name(windows);
    let ghost ps = texts(paths@);
    let mut i: usize = 0;
    while i < paths.len()
        invariant
            i <= paths@.len(),
            ps == texts(paths@),
            name@ == program_name(windows),
            first_named(ps, program_name(windows), 0) == first_named(
                ps,
                program_name(windows),
                i as int,
            ),
        decreases paths.len() - i,
    {
        let base = basename(paths[i].as_str());
        assert(ps[i as int] == paths@[i as int]@);
        if same(base.as_str(), name) {
            return Ok(paths[i].clone());
        }
        i = i + 1;
    }
    other(cat("archive does not contain ", name))
}

proof fn lemma_first_asset(assets: Seq<ReleaseAsset>, stem: Seq<char>, from: int)
    requires
        0 <= from <= assets.len(),
    ensures
        match first_asset(assets, stem, from) {
            Some(x) => exists|i: int|
                from <= i < assets.len() && #[trigger] assets[i] == x && named_for(x, stem)
                    && forall|j: int| from <= j < i ==> !named_for(#[trigger] assets[j], stem),
            None => forall|i: int|
                from <= i < assets.len() ==> !named_for(#[trigger] assets[i], stem),
        },
    decreases assets.len() - from,
{
    assert forall|i: int| 0 <= i < assets.len() implies named_for(#[trigger] assets[i], stem)
        == name_begins(assets[i], stem) by {
        if assets[i].name is Some {
            let n = assets[i].name->0@;
            if n.len() >= stem.len() {
                assert(n.subrange(0, stem.len() as int) =~= n.take(stem.len() as int));
            }
        }
    }
    if from < assets.len() {
        if name_begins(assets[from], stem) {
            assert(assets[from] == first_asset(assets, stem, from)->0);
        } else {
            lemma_first_asset(assets, stem, from + 1);
        }
    }
}

/// The archive is for the platform: its name begins with the stem.
pub open spec fn named_for(a: ReleaseAsset, stem: Seq<char>) -> bool {
    a.name is Some && stem.len() <= a.name->0@.len() && a.name->0@.take(stem.len() as int) == stem
}

/// The archive of the program is the first one that is for the platform; there is
/// none exactly where no archive of the release is.
pub proof fn law_the_archive_is_for_the_platform(assets: Seq<ReleaseAsset>, stem: Seq<char>)
    ensures
        match first_asset(assets, stem, 0) {
            Some(x) => exists|i: int|
                0 <= i < assets.len() && #[trigger] assets[i] == x && named_for(x, stem)
                    && forall|j: int| 0 <= j < i ==> !named_for(#[trigger] assets[j], stem),
            None => forall|i: int| 0 <= i < assets.len() ==> !named_for(#[trigger] assets[i], stem),
        },
{
    lemma_first_asset(assets, stem, 0);
}

proof fn lemma_word_front(s: Seq<char>) -> (n: int)
    ensures
        0 <= n <= s.len(),
        word_front(s) == s.take(n),
        forall|i: int| 0 <= i < n ==> !is_white(#[trigger] s[i]),
        n < s.len() ==> is_white(s[n]),
    decreases s.len(),
{
    if s.len() == 0 || is_white(s[0]) {
        assert(s.take(0) =~= Seq::empty());
        0
    } else {
        let t = s.drop_first();
        let n = lemma_word_front(t);
        assert(s.take(n + 1) =~= seq![s[0]] + t.take(n));
        assert forall|i: int| 0 <= i < n + 1 implies !is_white(#[trigger] s[i]) by {
            if i > 0 {
                assert(t[i - 1] == s[i]);
            }
        }
        if n + 1 < s.len() {
            assert(t[n] == s[n + 1]);
        }
        n + 1
    }
}

proof fn lemma_trim_front_at(s: Seq<char>) -> (n: int)
    ensures
        0 <= n <= s.len(),
        trim_front(s) == s.skip(n),
        forall|i: int| 0 <= i < n ==> is_white(#[trigger] s[i]),
        n < s.len() ==> !is_white(s[n]),
    decreases s.len(),
{
    if s.len() > 0 && is_white(s[0]) {
        let t = s.drop_first();
        let n = lemma_trim_front_at(t);
        assert(s.skip(n + 1) =~= t.skip(n));
        assert forall|i: int| 0 <= i < n + 1 implies is_white(#[trigger] s[i]) by {
            if i > 0 {
                assert(t[i - 1] == s[i]);
            }
        }
        if n + 1 < s.len() {
            assert(t[n] == s[n + 1]);
        }
        n + 1
    } else {
        assert(s.skip(0) =~= s);
        0
    }
}

/// The first word of a text stands between white space, or its ends, and holds
/// none.
pub proof fn law_the_first_word_is_whole(s: Seq<char>) -> (r: (int, int))
    ensures
        0 <= r.0 <= r.1 <= s.len(),
        first_word(s) == s.subrange(r.0, r.1),
        forall|i: int| 0 <= i < r.0 ==> is_white(#[trigger] s[i]),
        forall|i: int| r.0 <= i < r.1 ==> !is_white(#[trigger] s[i]),
        r.1 < s.len() ==> is_white(s[r.1]),
        r.0 == r.1 ==> r.1 == s.len(),
{
    let n = lemma_trim_front_at(s);
    let t = s.skip(n);
    let m = lemma_word_front(t);
    assert(t.take(m) =~= s.subrange(n, n + m));
    assert forall|i: int| n <= i < n + m implies !is_white(#[trigger] s[i]) by {
        assert(t[i - n] == s[i]);
    }
    if n + m < s.len() {
        assert(t[m] == s[n + m]);
    }
    (n, n + m)
}

proof fn lemma_first_named(paths: Seq<Seq<char>>, name: Seq<char>, from: int)
    requires
        0 <= from <= paths.len(),
    ensures
        match first_named(paths, name, from) {
            Some(p) => exists|i: int|
                from <= i < paths.len() && #[trigger] paths[i] == p && base_name(p) == name
                    && forall|j: int| from <= j < i ==> base_name(#[trigger] paths[j]) != name,
            None => forall|i: int|
                from <= i < paths.len() ==> base_name(#[trigger] paths[i]) != name,
        },
    decreases paths.len() - from,
{
    if from < paths.len() {
        if base_name(paths[from]) == name {
            assert(paths[from] == first_named(paths, name, from)->0);
        } else {
            lemma_first_named(paths, name, from + 1);
        }
    }
}

/// The program in its archive is the first file with its name, and there is none
/// exactly where no file has it.
pub proof fn law_the_program_goes_by_its_name(paths: Seq<Seq<char>>, windows: bool)
    ensures
        ({
            let name = if windows {
                "chef.exe"@
            } else {
                "chef"@
            };
            match first_named(paths, program_name(windows), 0) {
                Some(p) => exists|i: int|
                    0 <= i < paths.len() && #[trigger] paths[i] == p && base_name(p) == name
                        && forall|j: int| 0 <= j < i ==> base_name(#[trigger] paths[j]) != name,
                None => forall|i: int|
                    0 <= i < paths.len() ==> base_name(#[trigger] paths[i]) != name,
            }
        }),
{
    lemma_first_named(paths, program_name(windows), 0);
}

/// The version in a tag is what stands behind its `v`s.
pub proof fn law_tags_are_read_behind_the_v(lead: nat, rest: Seq<char>)
    requires
        rest.len() > 0 ==> rest[0] != 'v',
    ensures
        tag_version(Some(Seq::new(lead, |i: int| 'v') + rest)) == rest,
    decreases lead,
{
    let t = Seq::new(lead, |i: int| 'v') + rest;
    if lead > 0 {
        law_tags_are_read_behind_the_v((lead - 1) as nat, rest);
        assert(t.drop_first() =~= Seq::new((lead - 1) as nat, |i: int| 'v') + rest);
        assert(t[0] == 'v');
    } else {
        assert(t =~= rest);
    }
}

/// Asking for a newer program only tells of it, and tells exactly of what would be
/// installed otherwise; the notice in passing agrees. Greater numbers make a
/// version newer, and no version is newer than itself.
pub proof fn law_asking_installs_nothing(
    latest: &Version,
    current: &Version,
    told: UpgradeStep,
    done: UpgradeStep,
    notice: Option<String>,
)
    requires
        call_ensures(upgrade_step, (latest, current, true), told),
        call_ensures(upgrade_step, (latest, current, false), done),
        call_ensures(update_notice, (latest, current), notice),
    ensures
        told is Tell,
        told->available <==> done == UpgradeStep::Upgrade,
        !told->available <==> done == UpgradeStep::UpToDate,
        notice is Some <==> done == UpgradeStep::Upgrade,
        done == UpgradeStep::Upgrade || done == UpgradeStep::UpToDate,
        latest@.major > current@.major ==> done == UpgradeStep::Upgrade,
        latest@.major == current@.major && latest@.minor > current@.minor ==> done
            == UpgradeStep::Upgrade,
        latest@.major == current@.major && latest@.minor == current@.minor && latest@.patch
            > current@.patch ==> done == UpgradeStep::Upgrade,
        latest@.major < current@.major ==> done == UpgradeStep::UpToDate,
        latest@ == current@ ==> done == UpgradeStep::UpToDate,
{
}

/// A newer program is looked for once a week, and not at all while the clock shows
/// a time before the last search.
pub proof fn law_notices_come_once_a_week(now: u64, last: u64, due: bool)
    requires
        call_ensures(notice_is_due, (now, last), due),
    ensures
        due <==> now >= last + 7 * 24 * 60 * 60,
{
}

/// A digest that is published beside an archive counts before one that was
/// remembered, and only a well-formed one does; an archive is trusted without a
/// digest only where there is neither.
pub proof fn law_published_digests_come_first(
    asset: &str,
    sidecar: Option<&str>,
    seen: &StrMap<String>,
    r: Result<DigestSource>,
)
    requires
        call_ensures(expected_digest, (asset, sidecar, seen), r),
    ensures
        sidecar is Some && r is Ok ==> (r->Ok_0 matches DigestSource::Known(d) && d@ == lowercase(
            first_word(sidecar->0@),
        ) && d@.len() == 64),
        sidecar is Some && r is Err ==> !is_digest(lowercase(first_word(sidecar->0@))),
        sidecar is None ==> r is Ok,
        sidecar is None && seen@.dom().contains(asset@) ==> (r->Ok_0 matches DigestSource::Known(d)
            && d@ == seen@[asset@]@),
        r is Ok && r->Ok_0 is TrustFirst <==> sidecar is None && !seen@.dom().contains(asset@),
{
}

/// A downloaded program is accepted only with the expected digest.
pub proof fn law_programs_are_held_to_their_digest(
    name: &str,
    digest: &str,
    got: &str,
    r: Result<()>,
)
    requires
        call_ensures(verify_upgrade, (name, digest, got), r),
    ensures
        r is Ok <==> got@ == digest@,
{
}

/// A digest is 64 hexadecimal digits: its length counts, and every character.
pub proof fn law_digests_are_hexadecimal(s: Seq<char>, i: int)
    requires
        is_digest(s),
        0 <= i < s.len(),
    ensures
        s.len() == 64,
        '0' <= s[i] <= '9' || 'a' <= s[i] <= 'f' || 'A' <= s[i] <= 'F',
{
}

/// There are programs for Windows only, and a different one for each processor.
pub proof fn law_programs_are_for_windows(
    os: &str,
    arch: &str,
    other_arch: &str,
    a: Option<&'static str>,
    b: Option<&'static str>,
)
    requires
        call_ensures(asset_stem, (os, arch), a),
        call_ensures(asset_stem, (os, other_arch), b),
    ensures
        a is Some ==> os@ == "windows"@,
        os@ == "windows"@ && (arch@ == "x86_64"@ || arch@ == "aarch64"@) ==> a is Some,
        a is Some && b is Some && arch@ != other_arch@ ==> a->0@ != b->0@,
{
    reveal_strlit("chef-x86_64-pc-windows-msvc");
    reveal_strlit("chef-aarch64-pc-windows-msvc");
    assert("chef-x86_64-pc-windows-msvc"@.len() != "chef-aarch64-pc-windows-msvc"@.len());
}

} // verus!
