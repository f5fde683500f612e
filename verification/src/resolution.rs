//! From `package@spec` to one release, its archive and its files.

use vstd::prelude::*;
use crate::assets::{chosen_asset, law_chosen_asset, select_asset_url};
use crate::catalog::{
    existent_slot, for_game, known_slot, law_the_slot_that_counts, lemma_lookup, lookup, slot,
    version_covers_game, LockFile, LockedAsset, LockedFile, PackageEntry, PackagesFile,
    PostInstall, VersionEntry,
};
use crate::deploy::lemma_lists;
use crate::error::{fails, other, Result};
use crate::order::{
    drop_repeats, lemma_sorted, lemma_without_repeats, lt, sort_texts, sorted, without_repeats,
};
use crate::restoring::lemma_sorted_contains;
use crate::text::{
    all_digits, begins, cat, cat3, char_is_digit, chars_of, cut_back, decimal, decimal_text,
    is_digit, join, joined, law_cut_back, law_decimal_reads_back, law_front_pieces,
    law_pieces_of_both, lemma_pieces_nonempty, lists, lowercase, own, own_all, pieces, same,
    starts_with, texts, to_lower, trim, trim_end, trimmed,
};
use crate::version::{
    is_preview, is_preview_rec, law_what_is_a_preview, lemma_under, list_version, numbers_order,
    opt_reading, opt_version, order_of, quad_version, read, read_release, semver_order, sound,
    strict, strict_or_quad, strict_quad, strip_v_prefix, table_version, under, version_text,
    without_v, Order, Reading, ReadingView, Version, VersionView,
};

verus! {

// ---------------------------------------------------------------------------
// What is asked for
// ---------------------------------------------------------------------------

/// What stands behind the `@` of a request.
#[derive(Debug)]
pub enum VerSpec {
    /// The newest release, previews included.
    Latest,
    /// The newest release that is no preview.
    Stable,
    /// The newest preview.
    Preview,
    /// This version.
    Exact(Version),
    /// The newest release that is no preview and starts with these numbers.
    Prefix(String),
}

/// What a request asks for.
pub enum Wanted {
    Latest,
    Stable,
    Preview,
    Exact(VersionView),
    Prefix(Seq<char>),
}

impl View for VerSpec {
    type V = Wanted;

    open spec fn view(&self) -> Wanted {
        match self {
            VerSpec::Latest => Wanted::Latest,
            VerSpec::Stable => Wanted::Stable,
            VerSpec::Preview => Wanted::Preview,
            VerSpec::Exact(v) => Wanted::Exact(v@),
            VerSpec::Prefix(p) => Wanted::Prefix(p@),
        }
    }
}

/// Only digits and dots.
pub open spec fn numeric(s: Seq<char>) -> bool {
    forall|i: int| 0 <= i < s.len() ==> is_digit(#[trigger] s[i]) || s[i] == '.'
}

/// What the text behind the `@` asks for, where it spells the version `exact`
/// or none; if it is a proper request.
pub open spec fn wanted_from(spec: Seq<char>, exact: Option<VersionView>) -> Option<Wanted> {
    let word = lowercase(trimmed(spec));
    let norm = without_v(spec);
    if word == ""@ || word == "stable"@ {
        Some(Wanted::Stable)
    } else if word == "latest"@ {
        Some(Wanted::Latest)
    } else if word == "preview"@ || word == "beta"@ {
        Some(Wanted::Preview)
    } else if exact is Some {
        Some(Wanted::Exact(exact->0))
    } else if norm.len() > 0 && numeric(norm) {
        Some(Wanted::Prefix(cut_back(norm, '.')))
    } else {
        None
    }
}

/// What the text behind the `@` asks for, if it is a proper request.
pub open spec fn wanted(spec: Seq<char>) -> Option<Wanted> {
    wanted_from(spec, strict_or_quad(without_v(spec)))
}

/// The message for a text behind the `@` that asks for nothing.
pub open spec fn bad_spec(spec: Seq<char>) -> Seq<char> {
    "invalid version spec '"@ + spec
        + "' (expected latest, stable, preview, or a version like 5, 5.4, 4.4.4)"@
}

/// Only digits and dots?
pub fn is_numeric(s: &str) -> (b: bool)
    ensures
        b == numeric(s@),
{
    let v = chars_of(s);
    let mut i: usize = 0;
    while i < v.len()
        invariant
            i <= v@.len(),
            v@ == s@,
            forall|k: int| 0 <= k < i ==> is_digit(#[trigger] v@[k]) || v@[k] == '.',
        decreases v.len() - i,
    {
        if !char_is_digit(v[i]) && v[i] != '.' {
            proof {
                assert(!(is_digit(s@[i as int]) || s@[i as int] == '.'));
            }
            return false;
        }
        i = i + 1;
    }
    true
}

/// Reads what stands behind the `@`, where it spells the version `exact` or
/// none.
pub fn ver_spec_from(spec: &str, exact: Option<Version>) -> (r: Result<VerSpec>)
    ensures
        match wanted_from(spec@, opt_version(exact)) {
            Some(w) => r matches Ok(v) && v@ == w,
            None => fails(r, bad_spec(spec@)),
        },
{
    let trimmed_spec = trim(spec);
    let lowered = to_lower(trimmed_spec.as_str());
    let word: &str = lowered.as_str();
    if same(word, "") || same(word, "stable") {
        return Ok(VerSpec::Stable);
    }
    if same(word, "latest") {
        return Ok(VerSpec::Latest);
    }
    if same(word, "preview") || same(word, "beta") {
        return Ok(VerSpec::Preview);
    }
    if let Some(v) = exact {
        return Ok(VerSpec::Exact(v));
    }
    let norm = strip_v_prefix(spec);
    if norm.as_str().unicode_len() > 0 && is_numeric(norm.as_str()) {
        return Ok(VerSpec::Prefix(trim_end(norm.as_str(), '.')));
    }
    other(
        cat3(
            "invalid version spec '",
            spec,
            "' (expected latest, stable, preview, or a version like 5, 5.4, 4.4.4)",
        ),
    )
}

/// Reads what stands behind the `@`.
pub fn parse_ver_spec(spec: &str) -> (r: Result<VerSpec>)
    ensures
        match wanted(spec@) {
            Some(w) => r matches Ok(v) && v@ == w,
            None => fails(r, bad_spec(spec@)),
        },
{
    let norm = strip_v_prefix(spec);
    ver_spec_from(spec, quad_version(norm.as_str()))
}

/// The version is the one with these numbers or starts with them and a dot.
pub open spec fn has_prefix(v: VersionView, pref: Seq<char>) -> bool {
    version_text(v) == pref || begins(version_text(v), pref + "."@)
}

fn prefix_matches(v: &Version, pref: &str) -> (b: bool)
    ensures
        b == has_prefix(v@, pref@),
{
    let s = v.text();
    let dotted = cat(pref, ".");
    same(s.as_str(), pref) || starts_with(s.as_str(), dotted.as_str())
}

// ---------------------------------------------------------------------------
// What there is
// ---------------------------------------------------------------------------

/// A release that can be installed: where it stands among the releases of its
/// package, its version and its archive.
#[verifier::ext_equal]
pub struct Candidate {
    pub at: int,
    pub version: VersionView,
    pub shown: Seq<char>,
    pub url: Seq<char>,
}

struct Entry {
    at: usize,
    version: Version,
    shown: String,
    url: String,
}

impl View for Entry {
    type V = Candidate;

    closed spec fn view(&self) -> Candidate {
        Candidate {
            at: self.at as int,
            version: self.version@,
            shown: self.shown@,
            url: self.url@,
        }
    }
}

/// One of the candidates has this version.
pub open spec fn has_version(c: Seq<Candidate>, v: VersionView) -> bool {
    exists|i: int| 0 <= i < c.len() && (#[trigger] c[i]).version == v
}

/// The release counts in this game; without a game every release does.
pub open spec fn in_game(rec: VersionEntry, game: Option<Seq<char>>) -> bool {
    match game {
        Some(g) => for_game(rec, g),
        None => true,
    }
}

/// The readings of the version texts of releases.
pub open spec fn readings(recs: Seq<VersionEntry>) -> Seq<Option<ReadingView>> {
    recs.map_values(|v: VersionEntry| read(v.version@))
}

/// What the readings in a list say.
pub open spec fn reading_views(reads: Seq<Option<Reading>>) -> Seq<Option<ReadingView>> {
    reads.map_values(|r: Option<Reading>| opt_reading(r))
}

/// The releases that can be installed, in the order of the catalog, the first
/// of those with the same version; or the message of what is wrong with one.
/// `reads` holds what was read of the version text of each.
pub open spec fn candidates(
    recs: Seq<VersionEntry>,
    reads: Seq<Option<ReadingView>>,
    lock: Map<Seq<char>, LockedAsset>,
    game: Option<Seq<char>>,
    platform: Seq<char>,
) -> core::result::Result<Seq<Candidate>, Seq<char>>
    decreases recs.len(),
{
    if recs.len() == 0 {
        Ok(Seq::empty())
    } else {
        match candidates(recs.drop_last(), reads, lock, game, platform) {
            Err(e) => Err(e),
            Ok(c) => {
                let rec = recs.last();
                let read = reads[recs.len() - 1];
                if !in_game(rec, game) || read is None || has_version(c, read->0.version) {
                    Ok(c)
                } else {
                    match chosen_asset(rec.assets@, platform) {
                        None => Err("version declares no assets"@),
                        Some(url) => if lock.dom().contains(url) {
                            Ok(
                                c.push(
                                    Candidate {
                                        at: recs.len() - 1,
                                        version: read->0.version,
                                        shown: read->0.shown,
                                        url,
                                    },
                                ),
                            )
                        } else {
                            Err(
                                "no digest recorded for "@ + url
                                    + " - regenerate packages.lock (tools/gen_hashes)"@,
                            )
                        },
                    }
                }
            },
        }
    }
}

/// The candidate is one of those that are asked for.
pub open spec fn fits(recs: Seq<VersionEntry>, c: Candidate, w: Wanted) -> bool {
    match w {
        Wanted::Latest => true,
        Wanted::Stable => !is_preview(recs[c.at], c.version),
        Wanted::Preview => is_preview(recs[c.at], c.version),
        Wanted::Exact(v) => c.version == v,
        Wanted::Prefix(p) => !is_preview(recs[c.at], c.version) && has_prefix(c.version, p),
    }
}

/// The newest of the candidates that are asked for, the first among equals.
pub open spec fn newest(recs: Seq<VersionEntry>, c: Seq<Candidate>, w: Wanted) -> Option<Candidate>
    decreases c.len(),
{
    if c.len() == 0 {
        None
    } else {
        let before = newest(recs, c.drop_last(), w);
        if !fits(recs, c.last(), w) {
            before
        } else {
            match before {
                None => Some(c.last()),
                Some(b) => if semver_order(c.last().version, b.version) == Order::Greater {
                    Some(c.last())
                } else {
                    before
                },
            }
        }
    }
}

/// The release that is picked is one of those that there are and that are asked
/// for; where none is picked, none is asked for.
pub proof fn law_pick_is_asked_for(recs: Seq<VersionEntry>, c: Seq<Candidate>, w: Wanted)
    ensures
        match newest(recs, c, w) {
            Some(n) => c.contains(n) && fits(recs, n, w),
            None => forall|k: int| 0 <= k < c.len() ==> !fits(recs, #[trigger] c[k], w),
        },
    decreases c.len(),
{
    if c.len() > 0 {
        let rest = c.drop_last();
        law_pick_is_asked_for(recs, rest, w);
        assert(c[c.len() - 1] == c.last());
        match newest(recs, rest, w) {
            Some(b) => {
                let k = rest.index_of(b);
                assert(c[k] == b);
            },
            None => {
                assert forall|k: int| 0 <= k < c.len() - 1 implies !fits(
                    recs,
                    #[trigger] c[k],
                    w,
                ) by {
                    assert(rest[k] == c[k]);
                }
            },
        }
    }
}

/// A preview is picked only where `latest`, `preview` or its very version is
/// asked for, and `preview` picks nothing else.
pub proof fn law_previews_only_on_request(recs: Seq<VersionEntry>, c: Seq<Candidate>, w: Wanted)
    requires
        newest(recs, c, w) is Some,
    ensures
        ({
            let n = newest(recs, c, w)->0;
            &&& w is Stable || w is Prefix ==> !is_preview(recs[n.at], n.version)
            &&& w is Preview ==> is_preview(recs[n.at], n.version)
        }),
{
    law_pick_is_asked_for(recs, c, w);
}

/// The versions of a package as tables show them, in order, each once.
pub open spec fn listing(recs: Seq<VersionEntry>) -> Seq<Seq<char>> {
    without_repeats(sorted(recs.map_values(|v: VersionEntry| table_version(v.version@))))
}

/// The number put into an increasing list, unless it is in it.
pub open spec fn with_number(s: Seq<u64>, n: u64) -> Seq<u64>
    decreases s.len(),
{
    if s.len() == 0 || s.last() < n {
        s.push(n)
    } else if s.last() == n {
        s
    } else {
        with_number(s.drop_last(), n).push(s.last())
    }
}

/// The first numbers of the versions, in increasing order, each once.
pub open spec fn majors(c: Seq<Candidate>) -> Seq<u64>
    decreases c.len(),
{
    if c.len() == 0 {
        Seq::empty()
    } else {
        with_number(majors(c.drop_last()), c.last().version.major)
    }
}

/// The message where none of the candidates is what was asked for.
pub open spec fn none_message(
    id: Seq<char>,
    recs: Seq<VersionEntry>,
    c: Seq<Candidate>,
    w: Wanted,
) -> Seq<char> {
    match w {
        Wanted::Latest => "no releases found for "@ + id,
        Wanted::Stable => "no stable (non-prerelease) release found for "@ + id,
        Wanted::Preview => "no preview releases available for "@ + id,
        Wanted::Exact(v) => "version "@ + version_text(v) + " not tracked (available: "@ + joined(
            listing(recs),
            ", "@,
        ) + ")"@,
        Wanted::Prefix(p) => "version '"@ + p
            + "' does not match any tracked release (available majors: "@ + joined(
            majors(c).map_values(|m: u64| decimal(m as nat)),
            ", "@,
        ) + ")"@,
    }
}

// ---------------------------------------------------------------------------
// What comes out
// ---------------------------------------------------------------------------

/// A release that was picked, with all that deploying it needs.
#[derive(Debug)]
pub struct ResolvedVersion {
    /// Id of the package.
    pub id: String,
    /// Name that users see.
    pub name: String,
    /// Version that users see.
    pub version: String,
    /// The page of the release.
    pub release: Option<String>,
    /// Address of the archive.
    pub url: String,
    /// Digest of the archive.
    pub asset_sha256: String,
    /// The files: where each is deployed, and its entry in the archive.
    pub payload: Vec<(String, String)>,
    /// Ids of the packages that must be there beside it.
    pub dependencies: Vec<String>,
    /// Ids that share its slot, its own among them.
    pub slot: Vec<String>,
}

impl ResolvedVersion {
    /// The part of store paths that stands for the package.
    pub fn store_key(&self) -> (k: &str)
        ensures
            k@ == self.id@,
    {
        self.id.as_str()
    }
}

/// The views of a list of pairs of texts.
pub open spec fn pairs(v: Seq<(String, String)>) -> Seq<(Seq<char>, Seq<char>)> {
    v.map_values(|p: (String, String)| (p.0@, p.1@))
}

/// Where the entry is deployed: under the name that it is renamed to, if any.
pub open spec fn deployed_as(post: Option<PostInstall>, path: Seq<char>) -> Seq<char> {
    match post {
        Some(p) => if p.rename@.dom().contains(path) {
            p.rename@[path]@
        } else {
            path
        },
        None => path,
    }
}

/// The files to deploy: every entry that the lock names, renamed.
pub open spec fn payload_of(files: Seq<LockedFile>, post: Option<PostInstall>) -> Seq<
    (Seq<char>, Seq<char>),
> {
    files.map_values(|f: LockedFile| (deployed_as(post, f.path@), f.path@))
}

/// The files to deploy.
pub fn resolve_payload(locked: &LockedAsset, post: &Option<PostInstall>) -> (out: Vec<
    (String, String),
>)
    ensures
        pairs(out@) == payload_of(locked.files@, *post),
{
    let mut out: Vec<(String, String)> = Vec::new();
    let mut i: usize = 0;
    while i < locked.files.len()
        invariant
            i <= locked.files@.len(),
            pairs(out@) =~= payload_of(locked.files@, *post).take(i as int),
        decreases locked.files.len() - i,
    {
        let path = &locked.files[i].path;
        let mut to: String = path.clone();
        if let Some(p) = post {
            if let Some(t) = p.rename.get(path.as_str()) {
                to = t.clone();
            }
        }
        let ghost before = out@;
        let ghost want = payload_of(locked.files@, *post);
        out.push((to, path.clone()));
        proof {
            assert(pairs(out@) =~= pairs(before).push(want[i as int]));
            assert(want.take(i + 1) =~= want.take(i as int).push(want[i as int]));
        }
        i = i + 1;
    }
    out
}

/// `r` is the release `c` of package `p`, ready to deploy.
pub open spec fn resolves_to(
    r: ResolvedVersion,
    pkgs: Seq<PackageEntry>,
    lock: Map<Seq<char>, LockedAsset>,
    p: PackageEntry,
    c: Candidate,
) -> bool {
    let rec = p.versions@[c.at];
    &&& r.id@ == p.id@
    &&& r.name@ == p.name@
    &&& r.version@ == c.shown
    &&& match (r.release, rec.release) {
        (Some(a), Some(b)) => a@ == b@,
        (None, None) => true,
        _ => false,
    }
    &&& r.url@ == c.url
    &&& r.asset_sha256@ == lock[c.url].sha256@
    &&& pairs(r.payload@) == payload_of(lock[c.url].files@, rec.postinstall)
    &&& texts(r.dependencies@) == texts(rec.dependencies@)
    &&& texts(r.slot@) == known_slot(pkgs, p.id@)
}

/// The versions of the candidates are made of identifiers.
pub open spec fn all_sound(c: Seq<Candidate>) -> bool {
    forall|k: int| 0 <= k < c.len() ==> sound((#[trigger] c[k]).version)
}

/// No candidate that is asked for is newer than `n`, neither in the order of
/// versions nor by the three numbers alone; each has the version of `n` or is
/// older, where the versions are made of identifiers.
pub open spec fn tops(recs: Seq<VersionEntry>, c: Seq<Candidate>, w: Wanted, n: Candidate) -> bool {
    &&& forall|k: int|
        0 <= k < c.len() && fits(recs, #[trigger] c[k], w) && c[k].version != n.version
            ==> semver_order(c[k].version, n.version) != Order::Greater && numbers_order(
            c[k].version,
            n.version,
        ) != Order::Greater
    &&& all_sound(c) ==> forall|k: int|
        0 <= k < c.len() && fits(recs, #[trigger] c[k], w) ==> under(c[k].version, n.version)
}

/// The versions that were read are made of identifiers.
pub open spec fn sound_reads(reads: Seq<Option<ReadingView>>) -> bool {
    forall|i: int|
        0 <= i < reads.len() && (#[trigger] reads[i]) is Some ==> sound(reads[i]->0.version)
}

spec fn entries_of(es: Seq<Entry>) -> Seq<Candidate> {
    es.map_values(|e: Entry| e@)
}

/// Where a text stands for a game, if there is one.
pub open spec fn opt_text(o: Option<&str>) -> Option<Seq<char>> {
    match o {
        Some(s) => Some(s@),
        None => None,
    }
}

/// Does the release count in this game?
pub fn counts_in(rec: &VersionEntry, game: Option<&str>) -> (b: bool)
    ensures
        b == in_game(*rec, opt_text(game)),
{
    match game {
        Some(g) => version_covers_game(rec, g),
        None => true,
    }
}

fn knows_version(es: &Vec<Entry>, v: &Version) -> (b: bool)
    ensures
        b == has_version(entries_of(es@), v@),
{
    let mut i: usize = 0;
    while i < es.len()
        invariant
            i <= es@.len(),
            forall|k: int| 0 <= k < i ==> (#[trigger] entries_of(es@)[k]).version != v@,
        decreases es.len() - i,
    {
        if es[i].version.same(v) {
            proof {
                assert(entries_of(es@)[i as int].version == v@);
            }
            return true;
        }
        i = i + 1;
    }
    false
}

/// The releases that can be installed.
fn gather(
    recs: &Vec<VersionEntry>,
    reads: &Vec<Option<Reading>>,
    lock: &LockFile,
    game: Option<&str>,
    platform: &str,
) -> (r: Result<Vec<Entry>>)
    requires
        reads@.len() == recs@.len(),
    ensures
        match candidates(
            recs@,
            reading_views(reads@),
            lock.assets@,
            opt_text(game),
            platform@,
        ) {
            Ok(c) => r matches Ok(es) && entries_of(es@) == c && forall|k: int|
                0 <= k < c.len() ==> 0 <= (#[trigger] c[k]).at < recs@.len()
                    && lock.assets@.dom().contains(c[k].url),
            Err(m) => fails(r, m),
        },
{
    let mut es: Vec<Entry> = Vec::new();
    let mut i: usize = 0;
    let ghost rs = reading_views(reads@);
    proof {
        assert(recs@.take(0) =~= Seq::<VersionEntry>::empty());
        assert(entries_of(es@) =~= Seq::<Candidate>::empty());
    }
    while i < recs.len()
        invariant
            i <= recs@.len(),
            reads@.len() == recs@.len(),
            rs == reading_views(reads@),
            candidates(recs@.take(i as int), rs, lock.assets@, opt_text(game), platform@) == Ok::<
                Seq<Candidate>,
                Seq<char>,
            >(entries_of(es@)),
            forall|k: int|
                0 <= k < es@.len() ==> 0 <= (#[trigger] entries_of(es@)[k]).at < i
                    && lock.assets@.dom().contains(entries_of(es@)[k].url),
        decreases recs@.len() - i,
    {
        let rec = &recs[i];
        let ghost now = recs@.take(i + 1);
        proof {
            assert(now.drop_last() =~= recs@.take(i as int));
            assert(now.last() == *rec);
            assert(rs[i as int] == opt_reading(reads@[i as int]));
        }
        if counts_in(rec, game) {
            if let Some(read) = &reads[i] {
                if !knows_version(&es, &read.version) {
                    match select_asset_url(rec.assets.as_slice(), platform) {
                        Ok(url) => {
                            if lock.assets.contains_key(url.as_str()) {
                                let ghost before = es@;
                                let e = Entry {
                                    at: i,
                                    version: read.version.copy(),
                                    shown: read.shown.clone(),
                                    url,
                                };
                                let ghost ev = e@;
                                es.push(e);
                                proof {
                                    assert(entries_of(es@) =~= entries_of(before).push(ev));
                                    assert(forall|k: int|
                                        0 <= k < before.len() ==> #[trigger] entries_of(es@)[k]
                                            == entries_of(before)[k]);
                                }
                            } else {
                                let m = cat3(
                                    "no digest recorded for ",
                                    url.as_str(),
                                    " - regenerate packages.lock (tools/gen_hashes)",
                                );
                                proof {
                                    lemma_candidates_fail(
                                        recs@,
                                        rs,
                                        lock.assets@,
                                        opt_text(game),
                                        platform@,
                                        i + 1,
                                        m@,
                                    );
                                }
                                return other(m);
                            }
                        },
                        Err(e) => {
                            proof {
                                lemma_candidates_fail(
                                    recs@,
                                    rs,
                                    lock.assets@,
                                    opt_text(game),
                                    platform@,
                                    i + 1,
                                    "version declares no assets"@,
                                );
                            }
                            return Err(e);
                        },
                    }
                }
            }
        }
        i = i + 1;
    }
    proof {
        assert(recs@.take(i as int) =~= recs@);
    }
    Ok(es)
}

/// A message that stands for the first `n` releases stands for all of them.
proof fn lemma_candidates_fail(
    recs: Seq<VersionEntry>,
    reads: Seq<Option<ReadingView>>,
    lock: Map<Seq<char>, LockedAsset>,
    game: Option<Seq<char>>,
    platform: Seq<char>,
    n: int,
    m: Seq<char>,
)
    requires
        0 <= n <= recs.len(),
        candidates(recs.take(n), reads, lock, game, platform) == Err::<Seq<Candidate>, Seq<char>>(m),
    ensures
        candidates(recs, reads, lock, game, platform) == Err::<Seq<Candidate>, Seq<char>>(m),
    decreases recs.len() - n,
{
    if n < recs.len() {
        assert(recs.take(n + 1).drop_last() =~= recs.take(n));
        lemma_candidates_fail(recs, reads, lock, game, platform, n + 1, m);
    } else {
        assert(recs.take(n) =~= recs);
    }
}

fn is_wanted(rec: &VersionEntry, v: &Version, vs: &VerSpec) -> (b: bool)
    ensures
        forall|recs: Seq<VersionEntry>, c: Candidate|
            recs[c.at] == *rec && c.version == v@ ==> b == #[trigger] fits(recs, c, vs@),
{
    match vs {
        VerSpec::Latest => true,
        VerSpec::Stable => !is_preview_rec(rec, v),
        VerSpec::Preview => is_preview_rec(rec, v),
        VerSpec::Exact(want) => v.same(want),
        VerSpec::Prefix(p) => !is_preview_rec(rec, v) && prefix_matches(v, p.as_str()),
    }
}

/// The position of the newest entry that is asked for, the first among equals.
fn pick(recs: &Vec<VersionEntry>, es: &Vec<Entry>, vs: &VerSpec) -> (r: Option<usize>)
    requires
        forall|k: int| 0 <= k < es@.len() ==> (#[trigger] es@[k]).at < recs@.len(),
    ensures
        match r {
            Some(i) => i < es@.len() && newest(recs@, entries_of(es@), vs@) == Some(
                entries_of(es@)[i as int],
            ) && tops(recs@, entries_of(es@), vs@, entries_of(es@)[i as int]) && fits(
                recs@,
                entries_of(es@)[i as int],
                vs@,
            ),
            None => newest(recs@, entries_of(es@), vs@) is None && forall|k: int|
                0 <= k < es@.len() ==> !fits(recs@, #[trigger] entries_of(es@)[k], vs@),
        },
{
    let ghost c = entries_of(es@);
    let mut best: Option<usize> = None;
    let mut i: usize = 0;
    proof {
        assert(c.take(0) =~= Seq::<Candidate>::empty());
    }
    while i < es.len()
        invariant
            i <= es@.len(),
            c == entries_of(es@),
            forall|k: int| 0 <= k < es@.len() ==> (#[trigger] es@[k]).at < recs@.len(),
            match best {
                Some(b) => b < i && newest(recs@, c.take(i as int), vs@) == Some(c[b as int])
                    && fits(recs@, c[b as int], vs@) && forall|k: int|
                    0 <= k < i && fits(recs@, #[trigger] c[k], vs@) && c[k].version
                        != c[b as int].version ==> semver_order(
                        c[k].version,
                        c[b as int].version,
                    ) != Order::Greater && numbers_order(c[k].version, c[b as int].version)
                        != Order::Greater,
                None => newest(recs@, c.take(i as int), vs@) is None && forall|k: int|
                    0 <= k < i ==> !fits(recs@, #[trigger] c[k], vs@),
            },
            best is Some && all_sound(c) ==> forall|k: int|
                0 <= k < i && fits(recs@, #[trigger] c[k], vs@) ==> under(
                    c[k].version,
                    c[best->0 as int].version,
                ),
        decreases es.len() - i,
    {
        let e = &es[i];
        proof {
            assert(c.take(i + 1).drop_last() =~= c.take(i as int));
            assert(c.take(i + 1).last() == e@);
            assert(c[i as int] == e@);
        }
        let wanted_here: bool = is_wanted(&recs[e.at], &e.version, vs);
        assert(wanted_here == fits(recs@, e@, vs@));
        if wanted_here {
            match best {
                Some(b) => {
                    assert(c[b as int] == es@[b as int]@);
                    let o = order_of(&e.version, &es[b].version);
                    if o == Order::Greater {
                        best = Some(i);
                    }
                    proof {
                        if all_sound(c) {
                            assert(sound(c[b as int].version) && sound(c[i as int].version));
                            assert forall|k: int|
                                0 <= k < i + 1 && fits(recs@, #[trigger] c[k], vs@) implies under(
                                c[k].version,
                                c[best->0 as int].version,
                            ) by {
                                if k < i && o == Order::Greater {
                                    lemma_under(
                                        c[k].version,
                                        c[b as int].version,
                                        c[i as int].version,
                                    );
                                }
                            }
                        }
                    }
                },
                None => {
                    best = Some(i);
                },
            }
        }
        i = i + 1;
    }
    proof {
        assert(c.take(i as int) =~= c);
    }
    best
}

fn major_list(es: &Vec<Entry>) -> (out: Vec<u64>)
    ensures
        out@ == majors(entries_of(es@)),
{
    let ghost c = entries_of(es@);
    let mut out: Vec<u64> = Vec::new();
    let mut i: usize = 0;
    proof {
        assert(c.take(0) =~= Seq::<Candidate>::empty());
    }
    while i < es.len()
        invariant
            i <= es@.len(),
            c == entries_of(es@),
            out@ == majors(c.take(i as int)),
        decreases es.len() - i,
    {
        proof {
            assert(c.take(i + 1).drop_last() =~= c.take(i as int));
            assert(c.take(i + 1).last() == es@[i as int]@);
        }
        add_number(&mut out, es[i].version.major);
        i = i + 1;
    }
    proof {
        assert(c.take(i as int) =~= c);
    }
    out
}

fn add_number(v: &mut Vec<u64>, n: u64)
    ensures
        final(v)@ == with_number(old(v)@, n),
{
    let mut j: usize = v.len();
    let ghost s = v@;
    while j > 0 && v[j - 1] > n
        invariant
            j <= v@.len(),
            v@ == s,
            forall|k: int| j <= k < s.len() ==> s[k] > n,
        decreases j,
    {
        j = j - 1;
    }
    proof {
        lemma_with_number(s, n, j as int);
    }
    if j == 0 || v[j - 1] != n {
        v.insert(j, n);
    }
}

proof fn lemma_with_number(s: Seq<u64>, n: u64, j: int)
    requires
        0 <= j <= s.len(),
        forall|k: int| j <= k < s.len() ==> s[k] > n,
        j > 0 ==> s[j - 1] <= n,
    ensures
        with_number(s, n) == if j > 0 && s[j - 1] == n {
            s
        } else {
            s.insert(j, n)
        },
    decreases s.len(),
{
    if s.len() > j {
        lemma_with_number(s.drop_last(), n, j);
        let t = s.drop_last();
        if j > 0 && s[j - 1] == n {
            assert(t.push(s.last()) =~= s);
        } else {
            assert(t.insert(j, n).push(s.last()) =~= s.insert(j, n));
        }
    } else {
        assert(s.push(n) =~= s.insert(j, n));
    }
}

/// The versions of the package as tables show them, in order, each once.
fn version_listing(pkg: &PackageEntry) -> (out: Vec<String>)
    ensures
        texts(out@) == listing(pkg.versions@),
{
    let mut all: Vec<String> = Vec::new();
    let mut i: usize = 0;
    let ghost want = pkg.versions@.map_values(|v: VersionEntry| table_version(v.version@));
    while i < pkg.versions.len()
        invariant
            i <= pkg.versions@.len(),
            want == pkg.versions@.map_values(|v: VersionEntry| table_version(v.version@)),
            texts(all@) =~= want.take(i as int),
        decreases pkg.versions.len() - i,
    {
        let ghost before = all@;
        all.push(own(list_version(pkg.versions[i].version.as_str())));
        proof {
            assert(texts(all@) =~= texts(before).push(want[i as int]));
            assert(want.take(i + 1) =~= want.take(i as int).push(want[i as int]));
        }
        i = i + 1;
    }
    proof {
        assert(want.take(i as int) =~= want);
    }
    let ordered = sort_texts(&all);
    drop_repeats(&ordered)
}

/// The message where none of the entries is what was asked for.
fn none_text(id: &str, pkg: &PackageEntry, es: &Vec<Entry>, vs: &VerSpec) -> (m: String)
    ensures
        m@ == none_message(id@, pkg.versions@, entries_of(es@), vs@),
{
    match vs {
        VerSpec::Latest => cat("no releases found for ", id),
        VerSpec::Stable => cat("no stable (non-prerelease) release found for ", id),
        VerSpec::Preview => cat("no preview releases available for ", id),
        VerSpec::Exact(v) => {
            let t = v.text();
            let mut m = cat3("version ", t.as_str(), " not tracked (available: ");
            let l = version_listing(pkg);
            let j = join(&l, ", ");
            m.append(j.as_str());
            m.append(")");
            m
        },
        VerSpec::Prefix(p) => {
            let mut m = cat3(
                "version '",
                p.as_str(),
                "' does not match any tracked release (available majors: ",
            );
            let ms = major_list(es);
            let mut l: Vec<String> = Vec::new();
            let mut i: usize = 0;
            let ghost want = ms@.map_values(|m: u64| decimal(m as nat));
            while i < ms.len()
                invariant
                    i <= ms@.len(),
                    want == ms@.map_values(|m: u64| decimal(m as nat)),
                    texts(l@) =~= want.take(i as int),
                decreases ms.len() - i,
            {
                let ghost before = l@;
                l.push(decimal_text(ms[i]));
                proof {
                    assert(texts(l@) =~= texts(before).push(want[i as int]));
                    assert(want.take(i + 1) =~= want.take(i as int).push(want[i as int]));
                }
                i = i + 1;
            }
            proof {
                assert(want.take(i as int) =~= want);
            }
            let j = join(&l, ", ");
            m.append(j.as_str());
            m.append(")");
            m
        },
    }
}

/// The text behind the `@`, or `stable` where there is none.
pub open spec fn spec_or_stable(spec: Option<&str>) -> Seq<char> {
    match spec {
        Some(s) => s@,
        None => "stable"@,
    }
}

/// What picking a release of package `p` comes to: the newest of those that are
/// asked for, or the message of why there is none.
pub open spec fn picks(
    r: Result<ResolvedVersion>,
    pkgs: Seq<PackageEntry>,
    lock: Map<Seq<char>, LockedAsset>,
    p: PackageEntry,
    c: core::result::Result<Seq<Candidate>, Seq<char>>,
    w: Wanted,
) -> bool {
    match c {
        Err(m) => fails(r, m),
        Ok(c) => if c.len() == 0 {
            fails(
                r,
                "no tracked releases for "@ + p.id@
                    + " - run 'chef menu --refresh' or check packages.json"@,
            )
        } else {
            match newest(p.versions@, c, w) {
                None => fails(r, none_message(p.id@, p.versions@, c, w)) && forall|k: int|
                    0 <= k < c.len() ==> !fits(p.versions@, #[trigger] c[k], w),
                Some(n) => r matches Ok(v) && resolves_to(v, pkgs, lock, p, n) && fits(
                    p.versions@,
                    n,
                    w,
                ) && tops(p.versions@, c, w, n),
            }
        },
    }
}

/// Picks one release of the package for the game, where the version texts of its
/// releases were read as `reads`.
pub fn resolve_read(
    pkgs: &PackagesFile,
    lock: &LockFile,
    pkg: &PackageEntry,
    game: Option<&str>,
    vs: &VerSpec,
    reads: &Vec<Option<Reading>>,
    platform: &str,
) -> (r: Result<ResolvedVersion>)
    requires
        reads@.len() == pkg.versions@.len(),
    ensures
        picks(
            r,
            pkgs.packages@,
            lock.assets@,
            *pkg,
            candidates(
                pkg.versions@,
                reading_views(reads@),
                lock.assets@,
                opt_text(game),
                platform@,
            ),
            vs@,
        ),
{
    let id: &str = pkg.id.as_str();
    let es = match gather(&pkg.versions, reads, lock, game, platform) {
        Ok(es) => es,
        Err(e) => {
            return Err(e);
        },
    };
    if es.len() == 0 {
        return other(
            cat3(
                "no tracked releases for ",
                id,
                " - run 'chef menu --refresh' or check packages.json",
            ),
        );
    }
    proof {
        assert(forall|k: int| 0 <= k < es@.len() ==> #[trigger] entries_of(es@)[k] == es@[k]@);
        assert forall|k: int| 0 <= k < es@.len() implies (#[trigger] es@[k]).at
            < pkg.versions@.len() by {
            assert(entries_of(es@)[k].at < pkg.versions@.len());
        }
    }
    match pick(&pkg.versions, &es, vs) {
        None => other(none_text(id, pkg, &es, vs)),
        Some(i) => {
            let e = &es[i];
            let rec = &pkg.versions[e.at];
            proof {
                assert(entries_of(es@)[i as int] == e@);
            }
            match lock.assets.get(e.url.as_str()) {
                Some(locked) => {
                    let release = match &rec.release {
                        Some(t) => Some(t.clone()),
                        None => None,
                    };
                    let v = ResolvedVersion {
                        id: own(id),
                        name: pkg.name.clone(),
                        version: e.shown.clone(),
                        release,
                        url: e.url.clone(),
                        asset_sha256: locked.sha256.clone(),
                        payload: resolve_payload(locked, &rec.postinstall),
                        dependencies: own_all(&rec.dependencies),
                        slot: existent_slot(pkgs, id),
                    };
                    Ok(v)
                },
                None => {
                    proof {
                        assert(false);
                    }
                    other(String::new())
                },
            }
        },
    }
}

/// Reads the version texts of releases.
pub fn read_releases(recs: &Vec<VersionEntry>) -> (out: Vec<Option<Reading>>)
    ensures
        reading_views(out@) == readings(recs@),
        out@.len() == recs@.len(),
        sound_reads(reading_views(out@)),
{
    let mut out: Vec<Option<Reading>> = Vec::new();
    let mut i: usize = 0;
    while i < recs.len()
        invariant
            i <= recs@.len(),
            out@.len() == i,
            reading_views(out@) =~= readings(recs@).take(i as int),
            sound_reads(reading_views(out@)),
        decreases recs.len() - i,
    {
        let ghost before = out@;
        out.push(read_release(recs[i].version.as_str()));
        proof {
            assert(reading_views(out@) =~= reading_views(before).push(readings(recs@)[i as int]));
            assert(readings(recs@).take(i + 1) =~= readings(recs@).take(i as int).push(
                readings(recs@)[i as int],
            ));
        }
        i = i + 1;
    }
    proof {
        assert(readings(recs@).take(i as int) =~= readings(recs@));
    }
    out
}

/// What picking a release of the package `id` for the game comes to, where the
/// text behind the `@` is `spec`.
pub open spec fn spec_resolved(
    r: Result<ResolvedVersion>,
    pkgs: Seq<PackageEntry>,
    lock: Map<Seq<char>, LockedAsset>,
    id: Seq<char>,
    game: Option<Seq<char>>,
    spec: Seq<char>,
    platform: Seq<char>,
) -> bool {
    match lookup(pkgs, id) {
        None => fails(r, "unknown package '"@ + id + "'"@),
        Some(p) => match wanted(spec) {
            None => fails(r, bad_spec(spec)),
            Some(w) => picks(
                r,
                pkgs,
                lock,
                p,
                candidates(p.versions@, readings(p.versions@), lock, game, platform),
                w,
            ),
        },
    }
}

/// Picks one release of the package `id` for the game: the newest of those
/// that the spec asks for. Without a game every release counts, without a spec
/// the newest stable one is meant.
pub fn resolve_spec(
    pkgs: &PackagesFile,
    lock: &LockFile,
    id: &str,
    game: Option<&str>,
    spec: Option<&str>,
    platform: &str,
) -> (r: Result<ResolvedVersion>)
    ensures
        spec_resolved(
            r,
            pkgs.packages@,
            lock.assets@,
            id@,
            opt_text(game),
            spec_or_stable(spec),
            platform@,
        ),
{
    let pkg = match pkgs.pkg(id) {
        Some(p) => p,
        None => {
            return other(cat3("unknown package '", id, "'"));
        },
    };
    let text: &str = match spec {
        Some(s) => s,
        None => "stable",
    };
    match parse_ver_spec(text) {
        Ok(vs) => {
            let reads = read_releases(&pkg.versions);
            resolve_read(pkgs, lock, pkg, game, &vs, &reads, platform)
        },
        Err(e) => Err(e),
    }
}

// ---------------------------------------------------------------------------
// What holds of a release that is picked
// ---------------------------------------------------------------------------

/// What can be picked are releases of the package that count in the game and whose
/// version was read, each with one of its archives, whose digest is recorded; every
/// such version is among them.
pub proof fn law_candidates(
    recs: Seq<VersionEntry>,
    reads: Seq<Option<ReadingView>>,
    lock: Map<Seq<char>, LockedAsset>,
    game: Option<Seq<char>>,
    platform: Seq<char>,
    c: Seq<Candidate>,
)
    requires
        recs.len() <= reads.len(),
        candidates(recs, reads, lock, game, platform) == Ok::<Seq<Candidate>, Seq<char>>(c),
    ensures
        forall|k: int|
            0 <= k < c.len() ==> {
                let x = #[trigger] c[k];
                let rec = recs[x.at];
                &&& 0 <= x.at < recs.len()
                &&& game matches Some(g) ==> rec.games@.len() == 0 || lists(rec.games@, g)
                &&& reads[x.at] is Some
                &&& x.version == reads[x.at]->0.version
                &&& x.shown == reads[x.at]->0.shown
                &&& lock.dom().contains(x.url)
                &&& exists|a: int| 0 <= a < rec.assets@.len() && #[trigger] rec.assets@[a]@ == x.url
            },
        forall|i: int|
            0 <= i < recs.len() && (#[trigger] reads[i]) is Some && (game matches Some(g)
                ==> recs[i].games@.len() == 0 || lists(recs[i].games@, g)) ==> exists|k: int|
                0 <= k < c.len() && (#[trigger] c[k]).version == reads[i]->0.version && c[k].at
                    <= i,
        forall|k: int, l: int|
            0 <= k < l < c.len() ==> (#[trigger] c[k]).version != (#[trigger] c[l]).version,
    decreases recs.len(),
{
    if recs.len() > 0 {
        let t = recs.drop_last();
        let e = recs.len() - 1;
        let b = candidates(t, reads, lock, game, platform)->Ok_0;
        law_candidates(t, reads, lock, game, platform, b);
        let rec = recs[e];
        law_chosen_asset(rec.assets@, platform);
        assert forall|k: int| 0 <= k < c.len() implies {
            let x = #[trigger] c[k];
            let rec = recs[x.at];
            &&& 0 <= x.at < recs.len()
            &&& game matches Some(g) ==> rec.games@.len() == 0 || lists(rec.games@, g)
            &&& reads[x.at] is Some
            &&& x.version == reads[x.at]->0.version
            &&& x.shown == reads[x.at]->0.shown
            &&& lock.dom().contains(x.url)
            &&& exists|a: int| 0 <= a < rec.assets@.len() && #[trigger] rec.assets@[a]@ == x.url
        } by {
            if k < b.len() {
                assert(c[k] == b[k]);
                assert(t[b[k].at] == recs[b[k].at]);
            }
        }
        assert forall|i: int|
            0 <= i < recs.len() && (#[trigger] reads[i]) is Some && (game matches Some(g)
                ==> recs[i].games@.len() == 0 || lists(recs[i].games@, g)) implies exists|k: int|
            0 <= k < c.len() && (#[trigger] c[k]).version == reads[i]->0.version && c[k].at
                <= i by {
            if i < e {
                assert(t[i] == recs[i]);
                let k = choose|k: int|
                    0 <= k < b.len() && (#[trigger] b[k]).version == reads[i]->0.version && b[k].at
                        <= i;
                assert(c[k] == b[k]);
            } else if has_version(b, reads[e]->0.version) {
                let k = choose|k: int|
                    0 <= k < b.len() && (#[trigger] b[k]).version == reads[e]->0.version;
                assert(c[k] == b[k]);
            } else {
                assert(c[b.len() as int].version == reads[e]->0.version);
            }
        }
        assert forall|k: int, l: int| 0 <= k < l < c.len() implies (#[trigger] c[k]).version != (
        #[trigger] c[l]).version by {
            assert(c[k] == b[k]);
            if l < b.len() {
                assert(c[l] == b[l]);
            } else if c[k].version == c[l].version {
                assert(has_version(b, c[l].version));
            }
        }
    }
}

/// A version starts with numbers exactly where these are, between their dots, the
/// first numbers of the version: 5.4 is a start of 5.4.1, and not of 5.40.0.
pub proof fn law_prefix_goes_by_numbers(v: VersionView, pref: Seq<char>)
    requires
        has_prefix(v, pref),
    ensures
        pieces(pref, seq!['.'])[0] == decimal(v.major as nat),
        pieces(pref, seq!['.']).len() > 1 ==> pieces(pref, seq!['.'])[1] == decimal(
            v.minor as nat,
        ),
        pieces(pref, seq!['.']).len() > 2 && v.pre.len() == 0 && v.build.len() == 0 ==> pieces(
            pref,
            seq!['.'],
        )[2] == decimal(v.patch as nat) && pieces(pref, seq!['.']).len() == 3,
{
    reveal_strlit(".");
    assert("."@ =~= seq!['.']);
    let t = version_text(v);
    law_front_pieces(t, pref, '.');
    lemma_pieces_nonempty(pref, seq!['.']);
    let (a, b, c) = (decimal(v.major as nat), decimal(v.minor as nat), decimal(v.patch as nat));
    let p = if v.pre.len() > 0 {
        "-"@ + v.pre
    } else {
        Seq::empty()
    };
    let q = if v.build.len() > 0 {
        "+"@ + v.build
    } else {
        Seq::empty()
    };
    let d = seq!['.'];
    let rest = c + p + q;
    assert(t == a + d + b + d + c + p + q);
    assert(t =~= a + d + (b + d + rest));
    law_pieces_of_both(a, '.', b + d + rest);
    law_pieces_of_both(b, '.', rest);
    lemma_plain_piece(v.major as nat);
    lemma_plain_piece(v.minor as nat);
    lemma_pieces_nonempty(rest, d);
    assert(pieces(t, d) =~= seq![a] + (seq![b] + pieces(rest, d)));
    assert(pieces(t, d)[0] == a);
    assert(pieces(t, d)[1] == b);
    if v.pre.len() == 0 && v.build.len() == 0 {
        assert(rest =~= c);
        lemma_plain_piece(v.patch as nat);
        assert(pieces(t, d)[2] == c);
        assert(pieces(t, d).len() == 3);
    }
}

proof fn lemma_plain_piece(n: nat)
    ensures
        pieces(decimal(n), seq!['.']) == seq![decimal(n)],
{
    law_decimal_reads_back(n);
    lemma_one_piece(decimal(n));
}

proof fn lemma_one_piece(s: Seq<char>)
    requires
        all_digits(s),
    ensures
        pieces(s, seq!['.']) == seq![s],
    decreases s.len(),
{
    if s.len() > 0 {
        lemma_one_piece(s.drop_last());
        assert(s.last() == s[s.len() - 1]);
        assert(!seq!['.'].contains(s.last()));
        assert(s.drop_last().push(s.last()) =~= s);
        assert(pieces(s, seq!['.']) =~= seq![s]);
    } else {
        assert(s =~= Seq::empty());
    }
}

/// What stands behind the `@` is read without the white space around it and
/// without regard to case: nothing and `stable` ask for the newest stable release,
/// `latest` for the newest, `preview` and `beta` for the newest preview, a version
/// for that one, and the first numbers of a version for a release that starts with
/// them. Anything else is no request.
pub proof fn law_what_is_asked_for(spec: Seq<char>)
    ensures
        ({
            let word = lowercase(trimmed(spec));
            let norm = without_v(spec);
            let plain = word != ""@ && word != "stable"@ && word != "latest"@ && word != "preview"@
                && word != "beta"@;
            &&& word == ""@ || word == "stable"@ ==> wanted(spec) == Some(Wanted::Stable)
            &&& word == "latest"@ ==> wanted(spec) == Some(Wanted::Latest)
            &&& word == "preview"@ || word == "beta"@ ==> wanted(spec) == Some(Wanted::Preview)
            &&& plain && strict(norm) is Some ==> wanted(spec) == Some(
                Wanted::Exact(strict(norm)->0),
            )
            &&& plain && strict(norm) is None && strict_quad(norm) is None ==> match wanted(spec) {
                Some(w) => w matches Wanted::Prefix(p) && norm.len() > 0 && p.len() <= norm.len()
                    && p == norm.take(p.len() as int) && (p.len() > 0 ==> p.last() != '.')
                    && forall|i: int|
                    0 <= i < norm.len() ==> ('0' <= #[trigger] norm[i] <= '9' || norm[i] == '.')
                        && (i >= p.len() ==> norm[i] == '.'),
                None => norm.len() == 0 || exists|i: int|
                    0 <= i < norm.len() && !('0' <= #[trigger] norm[i] <= '9') && norm[i] != '.',
            }
        }),
{
    reveal_strlit("");
    reveal_strlit("stable");
    reveal_strlit("latest");
    reveal_strlit("preview");
    reveal_strlit("beta");
    assert("stable"@[0] == 's' && "latest"@[0] == 'l' && "preview"@[0] == 'p' && "beta"@[0] == 'b');
    assert(""@.len() == 0 && "stable"@.len() == 6 && "latest"@.len() == 6 && "preview"@.len() == 7
        && "beta"@.len() == 4);
    let norm = without_v(spec);
    law_cut_back(norm, '.');
    if numeric(norm) {
        assert forall|i: int| 0 <= i < norm.len() implies '0' <= #[trigger] norm[i] <= '9' || norm[i]
            == '.' by {
            assert(is_digit(norm[i]) || norm[i] == '.');
        }
    }
}

/// A release that the catalog marks as a preview, or whose version is a
/// pre-release, is never picked as the stable one or by its first numbers, and
/// where there is one, `preview` and `latest` pick something. Where there is a plain
/// release, there is a stable one, and `preview` picks no plain release.
pub proof fn law_previews_are_not_stable(recs: Seq<VersionEntry>, c: Seq<Candidate>, w: Wanted)
    ensures
        (w is Stable || w is Prefix) && newest(recs, c, w) is Some ==> {
            let n = newest(recs, c, w)->0;
            !recs[n.at].preview && n.version.pre.len() == 0
        },
        forall|k: int|
            0 <= k < c.len() && (recs[(#[trigger] c[k]).at].preview || c[k].version.pre.len() > 0)
                ==> newest(recs, c, Wanted::Preview) is Some && newest(recs, c, Wanted::Latest) is Some,
        forall|k: int|
            0 <= k < c.len() && !recs[(#[trigger] c[k]).at].preview && c[k].version.pre.len() == 0
                && numeric(recs[c[k].at].version@) ==> newest(recs, c, Wanted::Stable) is Some
                && newest(recs, c, Wanted::Latest) is Some,
        newest(recs, c, Wanted::Preview) is Some ==> {
            let n = newest(recs, c, Wanted::Preview)->0;
            recs[n.at].preview || n.version.pre.len() > 0 || !numeric(recs[n.at].version@)
        },
{
    law_pick_is_asked_for(recs, c, w);
    law_pick_is_asked_for(recs, c, Wanted::Preview);
    law_pick_is_asked_for(recs, c, Wanted::Stable);
    law_pick_is_asked_for(recs, c, Wanted::Latest);
    if newest(recs, c, w) is Some {
        let n = newest(recs, c, w)->0;
        law_what_is_a_preview(recs[n.at], n.version);
    }
    if newest(recs, c, Wanted::Preview) is Some {
        let n = newest(recs, c, Wanted::Preview)->0;
        law_what_is_a_preview(recs[n.at], n.version);
    }
    assert forall|k: int|
        0 <= k < c.len() && (recs[(#[trigger] c[k]).at].preview || c[k].version.pre.len() > 0) implies newest(
        recs,
        c,
        Wanted::Preview,
    ) is Some && newest(recs, c, Wanted::Latest) is Some by {
        law_what_is_a_preview(recs[c[k].at], c[k].version);
        assert(fits(recs, c[k], Wanted::Preview));
        assert(fits(recs, c[k], Wanted::Latest));
    }
    assert forall|k: int|
        0 <= k < c.len() && !recs[(#[trigger] c[k]).at].preview && c[k].version.pre.len() == 0
            && numeric(recs[c[k].at].version@) implies newest(recs, c, Wanted::Stable) is Some
        && newest(recs, c, Wanted::Latest) is Some by {
        law_what_is_a_preview(recs[c[k].at], c[k].version);
        assert(fits(recs, c[k], Wanted::Stable));
        assert(fits(recs, c[k], Wanted::Latest));
    }
}

/// What a request comes to is a release of that package: it counts in the game, its
/// archive is one of the release's, with the recorded digest, and its files are all
/// those that are recorded for the archive, each under its own path or the one that
/// the release gives it. It is no preview unless one is asked for, and no release
/// that is asked for is newer.
pub proof fn law_what_is_resolved(
    v: ResolvedVersion,
    pkgs: Seq<PackageEntry>,
    lock: Map<Seq<char>, LockedAsset>,
    id: Seq<char>,
    game: Option<Seq<char>>,
    spec: Seq<char>,
    platform: Seq<char>,
) -> (at: (int, int))
    requires
        spec_resolved(Ok(v), pkgs, lock, id, game, spec, platform),
    ensures
        0 <= at.0 < pkgs.len(),
        pkgs[at.0].id@ == id,
        0 <= at.1 < pkgs[at.0].versions@.len(),
        ({
            let p = pkgs[at.0];
            let rec = p.versions@[at.1];
            let files = lock[v.url@].files@;
            let word = lowercase(trimmed(spec));
            &&& v.id@ == id
            &&& v.name@ == p.name@
            &&& game matches Some(g) ==> rec.games@.len() == 0 || lists(rec.games@, g)
            &&& exists|a: int| 0 <= a < rec.assets@.len() && #[trigger] rec.assets@[a]@ == v.url@
            &&& lock.dom().contains(v.url@)
            &&& v.asset_sha256@ == lock[v.url@].sha256@
            &&& v.payload@.len() == files.len()
            &&& forall|j: int|
                0 <= j < files.len() ==> {
                    let from = (#[trigger] files[j]).path@;
                    &&& v.payload@[j].1@ == from
                    &&& match rec.postinstall {
                        Some(post) => if post.rename@.dom().contains(from) {
                            v.payload@[j].0@ == post.rename@[from]@
                        } else {
                            v.payload@[j].0@ == from
                        },
                        None => v.payload@[j].0@ == from,
                    }
                }
            &&& v.dependencies@.len() == rec.dependencies@.len()
            &&& forall|j: int|
                0 <= j < rec.dependencies@.len() ==> v.dependencies@[j]@
                    == (#[trigger] rec.dependencies@[j])@
            &&& read(rec.version@) is Some
            &&& v.version@ == read(rec.version@)->0.shown
            &&& word == ""@ || word == "stable"@ ==> !rec.preview
            &&& forall|i: int|
                0 <= i < p.versions@.len() && read((#[trigger] p.versions@[i]).version@) is Some && (
                game matches Some(g) ==> p.versions@[i].games@.len() == 0 || lists(
                    p.versions@[i].games@,
                    g,
                )) && word == "latest"@ && read(p.versions@[i].version@)->0.version != read(
                    rec.version@,
                )->0.version ==> semver_order(
                    read(p.versions@[i].version@)->0.version,
                    read(rec.version@)->0.version,
                ) != Order::Greater
        }),
{
    let p = lookup(pkgs, id)->0;
    lemma_lookup(pkgs, id);
    let pi = pkgs.index_of(p);
    let recs = p.versions@;
    let reads = readings(recs);
    let w = wanted(spec)->0;
    let c = candidates(recs, reads, lock, game, platform)->Ok_0;
    law_candidates(recs, reads, lock, game, platform, c);
    law_pick_is_asked_for(recs, c, w);
    law_previews_are_not_stable(recs, c, w);
    law_what_is_asked_for(spec);
    let n = newest(recs, c, w)->0;
    let k = c.index_of(n);
    assert(c[k] == n);
    let rec = recs[n.at];
    assert(reads[n.at] == read(rec.version@));
    let files = lock[v.url@].files@;
    assert(pairs(v.payload@).len() == files.len());
    assert forall|j: int| 0 <= j < files.len() implies {
        let from = (#[trigger] files[j]).path@;
        &&& v.payload@[j].1@ == from
        &&& match rec.postinstall {
            Some(post) => if post.rename@.dom().contains(from) {
                v.payload@[j].0@ == post.rename@[from]@
            } else {
                v.payload@[j].0@ == from
            },
            None => v.payload@[j].0@ == from,
        }
    } by {
        assert(pairs(v.payload@)[j] == (v.payload@[j].0@, v.payload@[j].1@));
    }
    assert(texts(v.dependencies@).len() == texts(rec.dependencies@).len());
    assert forall|j: int| 0 <= j < rec.dependencies@.len() implies v.dependencies@[j]@
        == (#[trigger] rec.dependencies@[j])@ by {
        assert(texts(v.dependencies@)[j] == texts(rec.dependencies@)[j]);
    }
    assert forall|i: int|
        0 <= i < recs.len() && read((#[trigger] recs[i]).version@) is Some && (
        game matches Some(g) ==> recs[i].games@.len() == 0 || lists(recs[i].games@, g)) && lowercase(
            trimmed(spec),
        ) == "latest"@ && read(recs[i].version@)->0.version != n.version implies semver_order(
        read(recs[i].version@)->0.version,
        n.version,
    ) != Order::Greater by {
        assert(reads[i] == read(recs[i].version@));
        let m = choose|m: int|
            0 <= m < c.len() && (#[trigger] c[m]).version == reads[i]->0.version && c[m].at <= i;
        assert(fits(recs, c[m], w));
    }
    (pi, n.at)
}

/// Every entry of an archive that the lock names is deployed, and no other: under
/// the name that the release gives it, where it gives one, else under its path.
pub proof fn law_every_entry_is_deployed(files: Seq<LockedFile>, post: Option<PostInstall>)
    ensures
        payload_of(files, post).len() == files.len(),
        forall|i: int|
            0 <= i < files.len() ==> (#[trigger] payload_of(files, post)[i]).1 == files[i].path@,
        forall|i: int|
            0 <= i < files.len() && (post is None || !post->0.rename@.dom().contains(
                files[i].path@,
            )) ==> (#[trigger] payload_of(files, post)[i]).0 == files[i].path@,
        forall|i: int|
            0 <= i < files.len() && post is Some && post->0.rename@.dom().contains(files[i].path@)
                ==> (#[trigger] payload_of(files, post)[i]).0 == post->0.rename@[files[i].path@]@,
{
}

/// What is picked goes by what is asked for: a version gets that very version,
/// preview or not; first numbers get a release that starts with them; and where
/// there is a release that is asked for, one is picked.
pub proof fn law_versions_are_picked_exactly(
    recs: Seq<VersionEntry>,
    c: Seq<Candidate>,
    v: VersionView,
    pref: Seq<char>,
)
    ensures
        newest(recs, c, Wanted::Exact(v)) matches Some(n) ==> n.version == v && c.contains(n),
        (exists|k: int| 0 <= k < c.len() && (#[trigger] c[k]).version == v) ==> newest(
            recs,
            c,
            Wanted::Exact(v),
        ) is Some,
        newest(recs, c, Wanted::Prefix(pref)) matches Some(n) ==> c.contains(n) && (version_text(
            n.version,
        ) == pref || begins(version_text(n.version), pref.push('.'))),
        (exists|k: int|
            0 <= k < c.len() && !recs[(#[trigger] c[k]).at].preview && c[k].version.pre.len() == 0
                && numeric(recs[c[k].at].version@) && (version_text(c[k].version) == pref || begins(
                version_text(c[k].version),
                pref.push('.'),
            ))) ==> newest(recs, c, Wanted::Prefix(pref)) is Some,
        c.len() > 0 ==> newest(recs, c, Wanted::Latest) is Some,
{
    reveal_strlit(".");
    assert("."@ =~= seq!['.']);
    assert(pref + "."@ =~= pref.push('.'));
    law_pick_is_asked_for(recs, c, Wanted::Exact(v));
    law_pick_is_asked_for(recs, c, Wanted::Prefix(pref));
    law_pick_is_asked_for(recs, c, Wanted::Latest);
    if exists|k: int| 0 <= k < c.len() && (#[trigger] c[k]).version == v {
        let k = choose|k: int| 0 <= k < c.len() && (#[trigger] c[k]).version == v;
        assert(fits(recs, c[k], Wanted::Exact(v)));
    }
    if exists|k: int|
        0 <= k < c.len() && !recs[(#[trigger] c[k]).at].preview && c[k].version.pre.len() == 0
            && numeric(recs[c[k].at].version@) && (version_text(c[k].version) == pref || begins(
            version_text(c[k].version),
            pref.push('.'),
        )) {
        let k = choose|k: int|
            0 <= k < c.len() && !recs[(#[trigger] c[k]).at].preview && c[k].version.pre.len() == 0
                && numeric(recs[c[k].at].version@) && (version_text(c[k].version) == pref || begins(
                version_text(c[k].version),
                pref.push('.'),
            ));
        law_what_is_a_preview(recs[c[k].at], c[k].version);
        assert(fits(recs, c[k], Wanted::Prefix(pref)));
    }
    if c.len() > 0 {
        assert(fits(recs, c[0], Wanted::Latest));
    }
}

/// A version starts with its first number, with its first two, and with all three.
pub proof fn law_numbers_start_a_version(v: VersionView)
    requires
        v.pre.len() == 0,
        v.build.len() == 0,
    ensures
        has_prefix(v, decimal(v.major as nat)),
        has_prefix(v, decimal(v.major as nat).push('.') + decimal(v.minor as nat)),
        has_prefix(
            v,
            decimal(v.major as nat).push('.') + decimal(v.minor as nat).push('.') + decimal(
                v.patch as nat,
            ),
        ),
{
    reveal_strlit(".");
    assert("."@ =~= seq!['.']);
    let (a, b, c) = (decimal(v.major as nat), decimal(v.minor as nat), decimal(v.patch as nat));
    let t = version_text(v);
    assert(t =~= a.push('.') + b.push('.') + c);
    assert(t.subrange(0, (a + "."@).len() as int) =~= a + "."@);
    let two = a.push('.') + b;
    assert(t.subrange(0, (two + "."@).len() as int) =~= two + "."@);
}

/// Of the stable releases the one that is picked as such is not surpassed: any
/// other that the catalog does not mark, whose version is no pre-release and is
/// written in numbers, is older.
pub proof fn law_no_stable_release_is_newer(
    v: ResolvedVersion,
    pkgs: Seq<PackageEntry>,
    lock: Map<Seq<char>, LockedAsset>,
    p: PackageEntry,
    c: Seq<Candidate>,
)
    requires
        picks(Ok(v), pkgs, lock, p, Ok(c), Wanted::Stable),
    ensures
        ({
            let n = newest(p.versions@, c, Wanted::Stable)->0;
            &&& c.contains(n)
            &&& v.version@ == n.shown
            &&& v.url@ == n.url
            &&& forall|k: int|
                0 <= k < c.len() && !p.versions@[(#[trigger] c[k]).at].preview
                    && c[k].version.pre.len() == 0 && numeric(p.versions@[c[k].at].version@)
                    && c[k].version != n.version ==> semver_order(c[k].version, n.version)
                    != Order::Greater
        }),
{
    let n = newest(p.versions@, c, Wanted::Stable)->0;
    law_pick_is_asked_for(p.versions@, c, Wanted::Stable);
    assert forall|k: int|
        0 <= k < c.len() && !p.versions@[(#[trigger] c[k]).at].preview && c[k].version.pre.len()
            == 0 && numeric(p.versions@[c[k].at].version@) && c[k].version
            != n.version implies semver_order(c[k].version, n.version) != Order::Greater by {
        law_what_is_a_preview(p.versions@[c[k].at], c[k].version);
        assert(fits(p.versions@, c[k], Wanted::Stable));
    }
}

/// What is resolved gives way to exactly the packages of its slot, itself among
/// them, and keeps the page of its release.
pub proof fn law_what_a_release_replaces(
    v: ResolvedVersion,
    pkgs: Seq<PackageEntry>,
    lock: Map<Seq<char>, LockedAsset>,
    p: PackageEntry,
    c: Candidate,
    x: Seq<char>,
)
    requires
        resolves_to(v, pkgs, lock, p, c),
    ensures
        lists(v.slot@, x) <==> slot(pkgs, p.id@).contains(x) && (x == p.id@ || exists|i: int|
            0 <= i < pkgs.len() && (#[trigger] pkgs[i]).id@ == x),
        lists(v.slot@, p.id@),
        v.release is Some <==> p.versions@[c.at].release is Some,
        v.release is Some ==> v.release->0@ == p.versions@[c.at].release->0@,
{
    law_the_slot_that_counts(pkgs, p.id@, x);
    lemma_lists(v.slot@, x);
    lemma_lists(v.slot@, p.id@);
}

proof fn lemma_with_number_has(s: Seq<u64>, n: u64, m: u64)
    requires
        forall|i: int, j: int| 0 <= i < j < s.len() ==> s[i] < s[j],
    ensures
        with_number(s, n).contains(m) <==> s.contains(m) || m == n,
        forall|i: int, j: int|
            0 <= i < j < with_number(s, n).len() ==> with_number(s, n)[i] < with_number(s, n)[j],
    decreases s.len(),
{
    let w = with_number(s, n);
    if s.len() == 0 || s.last() < n {
        assert(w[s.len() as int] == n);
        if s.contains(m) {
            let i = s.index_of(m);
            assert(w[i] == m);
        }
        if w.contains(m) && m != n {
            let i = w.index_of(m);
            assert(s[i] == m);
        }
    } else if s.last() == n {
        assert(s[s.len() - 1] == n);
    } else {
        let t = s.drop_last();
        let b = with_number(t, n);
        assert forall|i: int, j: int| 0 <= i < j < t.len() implies t[i] < t[j] by {
            assert(s[i] < s[j]);
        }
        lemma_with_number_has(t, n, m);
        assert(w[b.len() as int] == s.last());
        assert(s[s.len() - 1] == s.last());
        if b.contains(m) {
            let i = b.index_of(m);
            assert(w[i] == m);
        }
        if w.contains(m) && m != s.last() {
            let i = w.index_of(m);
            assert(b[i] == m);
        }
        if t.contains(m) {
            let i = t.index_of(m);
            assert(s[i] == m);
        }
        if s.contains(m) && m != s.last() {
            let i = s.index_of(m);
            assert(t[i] == m);
        }
        assert forall|i: int, j: int| 0 <= i < j < w.len() implies w[i] < w[j] by {
            if j == b.len() {
                lemma_with_number_has(t, n, b[i]);
                assert(b.contains(b[i]));
                if t.contains(b[i]) {
                    let k = t.index_of(b[i]);
                    assert(s[k] < s[s.len() - 1]);
                }
            } else {
                assert(b[i] < b[j]);
            }
        }
    }
}

/// The first numbers that a message offers are those of the releases that there
/// are, in increasing order and each once.
pub proof fn law_all_first_numbers_are_offered(c: Seq<Candidate>, m: u64)
    ensures
        majors(c).contains(m) <==> exists|k: int|
            0 <= k < c.len() && (#[trigger] c[k]).version.major == m,
        forall|i: int, j: int| 0 <= i < j < majors(c).len() ==> majors(c)[i] < majors(c)[j],
    decreases c.len(),
{
    if c.len() > 0 {
        let t = c.drop_last();
        let l = c.len() - 1;
        law_all_first_numbers_are_offered(t, m);
        lemma_with_number_has(majors(t), c.last().version.major, m);
        assert(c[l] == c.last());
        if exists|k: int| 0 <= k < t.len() && (#[trigger] t[k]).version.major == m {
            let k = choose|k: int| 0 <= k < t.len() && (#[trigger] t[k]).version.major == m;
            assert(c[k] == t[k]);
        }
        if exists|k: int| 0 <= k < c.len() && (#[trigger] c[k]).version.major == m {
            let k = choose|k: int| 0 <= k < c.len() && (#[trigger] c[k]).version.major == m;
            if k < l {
                assert(t[k] == c[k]);
            }
        }
    }
}

/// The versions that a message lists are those of all releases of the package, as
/// tables show them, in order and each once.
pub proof fn law_all_versions_are_listed(recs: Seq<VersionEntry>)
    ensures
        forall|i: int|
            0 <= i < recs.len() ==> listing(recs).contains(
                table_version((#[trigger] recs[i]).version@),
            ),
        forall|k: int|
            0 <= k < listing(recs).len() ==> exists|i: int|
                0 <= i < recs.len() && #[trigger] listing(recs)[k] == table_version(
                    (#[trigger] recs[i]).version@,
                ),
        forall|k: int, l: int|
            0 <= k < l < listing(recs).len() ==> lt(
                #[trigger] listing(recs)[k],
                #[trigger] listing(recs)[l],
            ),
{
    let v = recs.map_values(|x: VersionEntry| table_version(x.version@));
    lemma_sorted(v);
    lemma_without_repeats(sorted(v));
    assert forall|i: int| 0 <= i < recs.len() implies listing(recs).contains(
        table_version((#[trigger] recs[i]).version@),
    ) by {
        assert(v[i] == table_version(recs[i].version@));
        lemma_sorted_contains(v, v[i]);
        assert(v.contains(v[i]));
    }
    assert forall|k: int| 0 <= k < listing(recs).len() implies exists|i: int|
        0 <= i < recs.len() && #[trigger] listing(recs)[k] == table_version(
            (#[trigger] recs[i]).version@,
        ) by {
        let x = listing(recs)[k];
        assert(listing(recs).contains(x));
        lemma_sorted_contains(v, x);
        let i = v.index_of(x);
        assert(v[i] == table_version(recs[i].version@));
    }
}

/// Without a request the newest stable release is meant.
pub proof fn law_stable_is_meant_without_a_request(spec: Option<&str>)
    ensures
        spec is None ==> wanted(spec_or_stable(spec)) == Some(Wanted::Stable),
        spec matches Some(s) ==> spec_or_stable(spec) == s@,
{
    reveal_strlit("stable");
    reveal_strlit("");
    let w = "stable"@;
    assert(w.len() == 6 && w[0] == 's' && w[5] == 'e');
    assert(crate::text::all_ascii(w));
    let (a, b) = crate::text::law_trimmed(w);
    assert(a == 0) by {
        if a > 0 {
            assert(crate::text::is_white(w[0]));
        }
    }
    assert(b == 6) by {
        if b < 6 {
            assert(crate::text::is_white(w[5]));
        }
    }
    assert(trimmed(w) =~= w);
    assert(lowercase(w) =~= w) by {
        assert forall|i: int| 0 <= i < 6 implies crate::text::lower_char(#[trigger] w[i]) == w[i] by {}
    }
    law_what_is_asked_for(w);
}

/// Four numbers ask for the version that they spell, like any whole version does.
pub proof fn law_four_numbers_ask_for_a_version(spec: Seq<char>)
    requires
        numeric(without_v(spec)),
        without_v(spec).len() > 0,
        strict(without_v(spec)) is None,
        strict_quad(without_v(spec)) is Some,
        !is_kind_word(spec),
    ensures
        wanted(spec) == Some(Wanted::Exact(strict_quad(without_v(spec))->0)),
{
}

/// What stands behind the `@` is one of the words for a kind of release.
pub open spec fn is_kind_word(spec: Seq<char>) -> bool {
    let word = lowercase(trimmed(spec));
    word == ""@ || word == "stable"@ || word == "latest"@ || word == "preview"@ || word == "beta"@
}

} // verus!
