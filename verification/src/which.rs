//! What is in a game directory: the releases that its files belong to.

use vstd::prelude::*;
use crate::catalog::{
    joined_once, lookup, LockFile, LockedAsset, LockedFile, PackageEntry, PackagesFile,
    PostInstall, VersionEntry,
};
use crate::deploy::dir_map;
use crate::json::{
    array, held, held_all, held_fields, lemma_shows, object, put, record, shows, string,
    string_or_null, strings, text_list, text_or_null, Json,
};
use crate::menu::{command_ref, typed_name};
use crate::plan::{pad, padded};
use crate::remove::title_or_id;
use crate::resolution::{
    counts_in, deployed_as, in_game, opt_text, pairs, payload_of, resolve_payload,
};
use crate::order::{sort_texts, sorted};
use crate::state::{opt, GameDirState, Install};
use crate::strmap::StrMap;
use crate::text::{
    begins, cat, cat3, chars_of, ends, ends_with, list_has, lists, lowercase, own, replace_char,
    same, swapped_char, texts, to_lower,
};
use crate::update::{outdated, update_hint, update_text_of};
use crate::version::{
    law_newer_is_an_order, list_version, loose, newer_text, same_release, same_version,
    table_version, version_before,
};

verus! {

// ---------------------------------------------------------------------------
// Attribution
// ---------------------------------------------------------------------------

/// The views of a list of texts.
pub open spec fn str_views(v: Seq<&str>) -> Seq<Seq<char>> {
    v.map_values(|s: &str| s@)
}

/// The newest of the versions, the first among equals; nothing where there is
/// none.
pub open spec fn newest_of(v: Seq<Seq<char>>) -> Seq<char>
    decreases v.len(),
{
    if v.len() == 0 {
        ""@
    } else if v.len() == 1 {
        v[0]
    } else {
        let before = newest_of(v.drop_last());
        if newer_text(v.last(), before) {
            v.last()
        } else {
            before
        }
    }
}

/// The version that a file is put down to: the installed one where the file
/// matches it, else the newest that it matches; nothing where it matches none.
pub open spec fn attributed(installed: Option<Seq<char>>, matches: Seq<Seq<char>>) -> Seq<char> {
    match installed {
        Some(i) => if matches.contains(i) {
            i
        } else {
            newest_of(matches)
        },
        None => newest_of(matches),
    }
}

/// The newest of the versions.
pub fn newest_match(matches: &[&str]) -> (out: String)
    ensures
        out@ == newest_of(str_views(matches@)),
{
    if matches.len() == 0 {
        return own("");
    }
    let ghost ms = str_views(matches@);
    let mut best: usize = 0;
    let mut i: usize = 1;
    proof {
        assert(ms.take(1)[0] == ms[0]);
    }
    while i < matches.len()
        invariant
            1 <= i <= matches@.len(),
            best < i,
            ms == str_views(matches@),
            newest_of(ms.take(i as int)) == ms[best as int],
        decreases matches@.len() - i,
    {
        proof {
            assert(ms.take(i + 1).drop_last() =~= ms.take(i as int));
            assert(ms.take(i + 1).last() == matches@[i as int]@);
            assert(ms[best as int] == matches@[best as int]@);
        }
        if version_before(matches[i], matches[best]) {
            best = i;
        }
        i = i + 1;
    }
    proof {
        assert(ms.take(i as int) =~= ms);
    }
    own(matches[best])
}

/// The version that a file is put down to.
pub fn attribute(installed: Option<&str>, matches: &[&str]) -> (out: String)
    ensures
        out@ == attributed(opt_text(installed), str_views(matches@)),
{
    if let Some(v) = installed {
        let ghost ms = str_views(matches@);
        let mut i: usize = 0;
        while i < matches.len()
            invariant
                i <= matches@.len(),
                ms == str_views(matches@),
                installed matches Some(w) && w@ == v@,
                forall|k: int| 0 <= k < i ==> #[trigger] ms[k] != v@,
            decreases matches@.len() - i,
        {
            proof {
                assert(ms[i as int] == matches@[i as int]@);
            }
            if same(matches[i], v) {
                proof {
                    assert(ms.contains(v@));
                }
                return own(v);
            }
            i = i + 1;
        }
        proof {
            assert(!ms.contains(v@));
        }
    }
    newest_match(matches)
}

/// A file that users edit: its content tells nothing of the release.
pub fn is_ignored_config(path: &str) -> (b: bool)
    ensures
        b == ends(lowercase(path@), ".ini"@),
{
    let low = to_lower(path);
    ends_with(low.as_str(), ".ini")
}

// ---------------------------------------------------------------------------
// The files of the releases
// ---------------------------------------------------------------------------

/// A release: its version, and its files with their digests.
#[verifier::ext_equal]
pub struct ReleaseFiles {
    pub version: Seq<char>,
    pub files: Seq<(Seq<char>, Seq<char>)>,
}

/// What the releases in a list are.
pub open spec fn release_views(v: Seq<(String, Vec<(String, String)>)>) -> Seq<ReleaseFiles> {
    v.map_values(
        |r: (String, Vec<(String, String)>)| ReleaseFiles { version: r.0@, files: pairs(r.1@) },
    )
}

/// The deployed files of an archive, with their digests.
pub open spec fn deployed_files(files: Seq<LockedFile>, post: Option<PostInstall>) -> Seq<
    (Seq<char>, Seq<char>),
> {
    files.map_values(|f: LockedFile| (deployed_as(post, f.path@), f.sha256@))
}

/// The deployed files of all archives of a release whose digests are recorded.
pub open spec fn files_of_assets(
    assets: Seq<String>,
    lock: Map<Seq<char>, LockedAsset>,
    post: Option<PostInstall>,
) -> Seq<(Seq<char>, Seq<char>)>
    decreases assets.len(),
{
    if assets.len() == 0 {
        Seq::empty()
    } else {
        let before = files_of_assets(assets.drop_last(), lock, post);
        if lock.dom().contains(assets.last()@) {
            before + deployed_files(lock[assets.last()@].files@, post)
        } else {
            before
        }
    }
}

/// The releases that count in the game, with their files, those without any left
/// out.
pub open spec fn releases(
    recs: Seq<VersionEntry>,
    lock: Map<Seq<char>, LockedAsset>,
    game: Option<Seq<char>>,
) -> Seq<ReleaseFiles>
    decreases recs.len(),
{
    if recs.len() == 0 {
        Seq::empty()
    } else {
        let before = releases(recs.drop_last(), lock, game);
        let rec = recs.last();
        let files = files_of_assets(rec.assets@, lock, rec.postinstall);
        if in_game(rec, game) && files.len() > 0 {
            before.push(ReleaseFiles { version: rec.version@, files })
        } else {
            before
        }
    }
}

/// The releases of the package `id`.
pub open spec fn releases_of(
    s: Seq<PackageEntry>,
    lock: Map<Seq<char>, LockedAsset>,
    id: Seq<char>,
    game: Option<Seq<char>>,
) -> Seq<ReleaseFiles> {
    match lookup(s, id) {
        Some(p) => releases(p.versions@, lock, game),
        None => Seq::empty(),
    }
}

fn asset_files(rec: &VersionEntry, lock: &LockFile) -> (out: Vec<(String, String)>)
    ensures
        pairs(out@) == files_of_assets(rec.assets@, lock.assets@, rec.postinstall),
{
    let mut out: Vec<(String, String)> = Vec::new();
    let mut i: usize = 0;
    proof {
        assert(rec.assets@.take(0) =~= Seq::<String>::empty());
        assert(pairs(out@) =~= Seq::<(Seq<char>, Seq<char>)>::empty());
    }
    while i < rec.assets.len()
        invariant
            i <= rec.assets@.len(),
            pairs(out@) == files_of_assets(
                rec.assets@.take(i as int),
                lock.assets@,
                rec.postinstall,
            ),
        decreases rec.assets.len() - i,
    {
        proof {
            assert(rec.assets@.take(i + 1).drop_last() =~= rec.assets@.take(i as int));
            assert(rec.assets@.take(i + 1).last() == rec.assets@[i as int]);
        }
        if let Some(locked) = lock.assets.get(rec.assets[i].as_str()) {
            let deployed = resolve_payload(locked, &rec.postinstall);
            let ghost start = pairs(out@);
            let ghost want = deployed_files(locked.files@, rec.postinstall);
            proof {
                assert(pairs(deployed@).len() == deployed@.len());
                assert(start + want.take(0) =~= start);
            }
            let mut j: usize = 0;
            while j < locked.files.len()
                invariant
                    j <= locked.files@.len(),
                    deployed@.len() == locked.files@.len(),
                    pairs(deployed@) == payload_of(locked.files@, rec.postinstall),
                    want == deployed_files(locked.files@, rec.postinstall),
                    pairs(out@) == start + want.take(j as int),
                decreases locked.files.len() - j,
            {
                let ghost before = out@;
                proof {
                    assert(pairs(deployed@)[j as int].0 == deployed@[j as int].0@);
                }
                out.push((deployed[j].0.clone(), locked.files[j].sha256.clone()));
                proof {
                    assert(pairs(out@) =~= pairs(before).push(want[j as int]));
                    assert(start + want.take(j + 1) =~= (start + want.take(j as int)).push(
                        want[j as int],
                    ));
                }
                j = j + 1;
            }
            proof {
                assert(want.take(j as int) =~= want);
            }
        }
        i = i + 1;
    }
    proof {
        assert(rec.assets@.take(i as int) =~= rec.assets@);
    }
    out
}

/// The releases of the package `id` that count in the game, with their deployed
/// files and digests.
pub fn version_files(
    pkgs: &PackagesFile,
    lock: &LockFile,
    id: &str,
    game: Option<&str>,
) -> (out: Vec<(String, Vec<(String, String)>)>)
    ensures
        release_views(out@) == releases_of(pkgs.packages@, lock.assets@, id@, opt_text(game)),
{
    let mut out: Vec<(String, Vec<(String, String)>)> = Vec::new();
    proof {
        assert(release_views(out@) =~= Seq::<ReleaseFiles>::empty());
    }
    if let Some(p) = pkgs.pkg(id) {
        let ghost recs = p.versions@;
        let mut i: usize = 0;
        proof {
            assert(recs.take(0) =~= Seq::<VersionEntry>::empty());
        }
        while i < p.versions.len()
            invariant
                i <= recs.len(),
                recs == p.versions@,
                release_views(out@) == releases(
                    recs.take(i as int),
                    lock.assets@,
                    opt_text(game),
                ),
            decreases recs.len() - i,
        {
            let rec = &p.versions[i];
            proof {
                assert(recs.take(i + 1).drop_last() =~= recs.take(i as int));
                assert(recs.take(i + 1).last() == *rec);
            }
            if counts_in(rec, game) {
                let files = asset_files(rec, lock);
                proof {
                    assert(pairs(files@).len() == files@.len());
                }
                if files.len() > 0 {
                    let ghost before = out@;
                    let ghost rv = ReleaseFiles { version: rec.version@, files: pairs(files@) };
                    out.push((rec.version.clone(), files));
                    proof {
                        assert(release_views(out@) =~= release_views(before).push(rv));
                    }
                }
            }
            i = i + 1;
        }
        proof {
            assert(recs.take(i as int) =~= recs);
        }
    }
    out
}

// ---------------------------------------------------------------------------
// What the files say
// ---------------------------------------------------------------------------

/// The form in which paths are compared: small letters, with `\` between the
/// parts.
pub open spec fn path_key(path: Seq<char>) -> Seq<char> {
    lowercase(swapped_char(path, '/', '\\'))
}

/// Among the files is one at this path, in the form of a key, and with this
/// digest where one is asked for.
pub open spec fn owned(
    files: Seq<(Seq<char>, Seq<char>)>,
    key: Seq<char>,
    sha: Option<Seq<char>>,
) -> bool {
    exists|i: int|
        0 <= i < files.len() && path_key((#[trigger] files[i]).0) == key && (sha is None
            || sha == Some(files[i].1))
}

/// The versions whose release has this very file.
pub open spec fn matches_of(rel: Seq<ReleaseFiles>, key: Seq<char>, sha: Seq<char>) -> Seq<
    Seq<char>,
>
    decreases rel.len(),
{
    if rel.len() == 0 {
        Seq::empty()
    } else if owned(rel.last().files, key, Some(sha)) {
        matches_of(rel.drop_last(), key, sha).push(rel.last().version)
    } else {
        matches_of(rel.drop_last(), key, sha)
    }
}

/// The keys of the paths of a release.
pub open spec fn keys_of_files(files: Seq<(Seq<char>, Seq<char>)>) -> Seq<Seq<char>> {
    files.map_values(|f: (Seq<char>, Seq<char>)| path_key(f.0))
}

/// The keys of all paths of the releases, each once.
pub open spec fn all_paths(rel: Seq<ReleaseFiles>) -> Seq<Seq<char>>
    decreases rel.len(),
{
    if rel.len() == 0 {
        Seq::empty()
    } else {
        joined_once(all_paths(rel.drop_last()), keys_of_files(rel.last().files))
    }
}

/// A file that is there and counts.
pub open spec fn counted_file(tree: Map<Seq<char>, String>, key: Seq<char>) -> bool {
    tree.dom().contains(key) && !ends(lowercase(key), ".ini"@)
}

/// The version that the file at a path is put down to.
pub open spec fn label_at(
    rel: Seq<ReleaseFiles>,
    tree: Map<Seq<char>, String>,
    key: Seq<char>,
    installed: Option<Seq<char>>,
) -> Seq<char> {
    attributed(installed, matches_of(rel, key, tree[key]@))
}

/// The versions that the files are put down to, each once.
pub open spec fn versions_found(
    keys: Seq<Seq<char>>,
    rel: Seq<ReleaseFiles>,
    tree: Map<Seq<char>, String>,
    installed: Option<Seq<char>>,
) -> Seq<Seq<char>>
    decreases keys.len(),
{
    if keys.len() == 0 {
        Seq::empty()
    } else {
        let before = versions_found(keys.drop_last(), rel, tree, installed);
        let k = keys.last();
        if counted_file(tree, k) && matches_of(rel, k, tree[k]@).len() > 0 && !before.contains(
            label_at(rel, tree, k, installed),
        ) {
            before.push(label_at(rel, tree, k, installed))
        } else {
            before
        }
    }
}

/// A file is there that belongs to no release.
pub open spec fn some_unknown(
    keys: Seq<Seq<char>>,
    rel: Seq<ReleaseFiles>,
    tree: Map<Seq<char>, String>,
) -> bool {
    exists|i: int|
        0 <= i < keys.len() && counted_file(tree, #[trigger] keys[i]) && matches_of(
            rel,
            keys[i],
            tree[keys[i]]@,
        ).len() == 0
}

/// A file is there.
pub open spec fn some_there(keys: Seq<Seq<char>>, tree: Map<Seq<char>, String>) -> bool {
    exists|i: int| 0 <= i < keys.len() && counted_file(tree, #[trigger] keys[i])
}

/// The version put into its place where the newest comes first.
pub open spec fn version_placed(s: Seq<Seq<char>>, x: Seq<char>) -> Seq<Seq<char>>
    decreases s.len(),
{
    if s.len() > 0 && newer_text(x, s.last()) {
        version_placed(s.drop_last(), x).push(s.last())
    } else {
        s.push(x)
    }
}

/// The versions, the newest first.
pub open spec fn newest_first(s: Seq<Seq<char>>) -> Seq<Seq<char>>
    decreases s.len(),
{
    if s.len() == 0 {
        s
    } else {
        version_placed(newest_first(s.drop_last()), s.last())
    }
}

/// How a package stands in a game directory.
#[derive(Debug, Clone, Copy, PartialEq, Eq, Structural)]
pub enum Standing {
    /// All files belong to one release.
    Installed,
    /// They belong to several.
    Multiple,
    /// Some belong to none.
    Unknown,
    /// It is recorded, but nothing is left of it.
    NotFound,
}

impl Standing {
    /// The word for it.
    pub open spec fn word_of(self) -> Seq<char> {
        match self {
            Standing::Installed => "installed"@,
            Standing::Multiple => "multiple"@,
            Standing::Unknown => "unknown"@,
            Standing::NotFound => "not-found"@,
        }
    }

    /// The word for it.
    pub fn word(&self) -> (w: &'static str)
        ensures
            w@ == self.word_of(),
    {
        match self {
            Standing::Installed => "installed",
            Standing::Multiple => "multiple",
            Standing::Unknown => "unknown",
            Standing::NotFound => "not-found",
        }
    }
}

/// What is told of a package.
#[derive(Debug)]
pub struct WhichRow {
    pub id: String,
    pub managed: bool,
    /// The word for how it stands.
    pub status: &'static str,
    pub version: String,
    /// The versions that its files belong to, the newest first.
    pub versions: Vec<String>,
    pub notes: String,
}

/// How the package stands, where `found` are the versions of its files.
pub open spec fn standing(there: bool, unknown: bool, found: nat) -> Standing {
    if !there {
        Standing::NotFound
    } else if unknown {
        Standing::Unknown
    } else if found > 1 {
        Standing::Multiple
    } else {
        Standing::Installed
    }
}

/// What is told of the package `id`.
pub open spec fn summary(
    r: Option<WhichRow>,
    tree: Map<Seq<char>, String>,
    s: Seq<PackageEntry>,
    rel: Seq<ReleaseFiles>,
    id: Seq<char>,
    installed: Option<Seq<char>>,
    managed: bool,
) -> bool {
    let keys = all_paths(rel);
    let found = versions_found(keys, rel, tree, installed);
    let st = standing(some_there(keys, tree), some_unknown(keys, rel, tree), found.len());
    if st is NotFound && !managed {
        r is None
    } else {
        &&& r is Some
        &&& r->0.id@ == id
        &&& r->0.managed == managed
        &&& r->0.status@ == st.word_of()
        &&& texts(r->0.versions@) == newest_first(found)
        &&& r->0.version@ == match st {
            Standing::Installed => newest_first(found)[0],
            Standing::Multiple => "multiple"@,
            Standing::Unknown => "unknown"@,
            Standing::NotFound => "not found"@,
        }
        &&& r->0.notes@ == match st {
            Standing::Installed => ""@,
            Standing::NotFound => "run 'chef remove "@ + typed_name(s, id)
                + "' to restore the backup"@,
            _ => "run 'chef which "@ + typed_name(s, id) + "' for more details"@,
        }
    }
}

/// The key of a path in the tree of a game directory: in lower case, with `\`
/// between its parts.
pub fn key_of(path: &str) -> (out: String)
    ensures
        out@ == path_key(path@),
{
    let b = replace_char(path, '/', '\\');
    to_lower(b.as_str())
}

fn owns_file(files: &Vec<(String, String)>, key: &str, sha: Option<&str>) -> (b: bool)
    ensures
        b == owned(pairs(files@), key@, opt_text(sha)),
{
    let ghost fs = pairs(files@);
    let mut i: usize = 0;
    while i < files.len()
        invariant
            i <= files@.len(),
            fs == pairs(files@),
            forall|k: int|
                0 <= k < i ==> !(path_key((#[trigger] fs[k]).0) == key@ && (sha is None
                    || opt_text(sha) == Some(fs[k].1))),
        decreases files.len() - i,
    {
        proof {
            assert(fs[i as int] == (files@[i as int].0@, files@[i as int].1@));
        }
        let k = key_of(files[i].0.as_str());
        if same(k.as_str(), key) {
            let right: bool = match sha {
                Some(d) => same(files[i].1.as_str(), d),
                None => true,
            };
            if right {
                return true;
            }
        }
        i = i + 1;
    }
    false
}

fn match_file<'a>(
    rel: &'a Vec<(String, Vec<(String, String)>)>,
    key: &str,
    sha: &str,
) -> (out: Vec<&'a str>)
    ensures
        str_views(out@) == matches_of(release_views(rel@), key@, sha@),
{
    let ghost rv = release_views(rel@);
    let mut out: Vec<&'a str> = Vec::new();
    let mut i: usize = 0;
    proof {
        assert(rv.take(0) =~= Seq::<ReleaseFiles>::empty());
        assert(str_views(out@) =~= Seq::<Seq<char>>::empty());
    }
    while i < rel.len()
        invariant
            i <= rel@.len(),
            rv == release_views(rel@),
            str_views(out@) == matches_of(rv.take(i as int), key@, sha@),
        decreases rel.len() - i,
    {
        let b: bool = owns_file(&rel[i].1, key, Some(sha));
        proof {
            assert(rv.take(i + 1).drop_last() =~= rv.take(i as int));
            assert(rv.take(i + 1).last() == rv[i as int]);
            assert(b == owned(rv[i as int].files, key@, Some(sha@)));
        }
        if b {
            let ghost before = out@;
            out.push(rel[i].0.as_str());
            proof {
                assert(str_views(out@) =~= str_views(before).push(rel@[i as int].0@));
            }
        }
        i = i + 1;
    }
    proof {
        assert(rv.take(i as int) =~= rv);
    }
    out
}

fn paths_of_releases(rel: &Vec<(String, Vec<(String, String)>)>) -> (out: Vec<String>)
    ensures
        texts(out@) == all_paths(release_views(rel@)),
{
    let ghost rv = release_views(rel@);
    let mut out: Vec<String> = Vec::new();
    let mut i: usize = 0;
    proof {
        assert(rv.take(0) =~= Seq::<ReleaseFiles>::empty());
        assert(texts(out@) =~= Seq::<Seq<char>>::empty());
    }
    while i < rel.len()
        invariant
            i <= rel@.len(),
            rv == release_views(rel@),
            texts(out@) == all_paths(rv.take(i as int)),
        decreases rel.len() - i,
    {
        let files = &rel[i].1;
        let ghost ks = keys_of_files(pairs(files@));
        let ghost start = texts(out@);
        proof {
            assert(rv.take(i + 1).drop_last() =~= rv.take(i as int));
            assert(rv.take(i + 1).last() == rv[i as int]);
            assert(ks.take(0) =~= Seq::<Seq<char>>::empty());
        }
        let mut j: usize = 0;
        while j < files.len()
            invariant
                j <= files@.len(),
                ks == keys_of_files(pairs(files@)),
                texts(out@) == joined_once(start, ks.take(j as int)),
            decreases files.len() - j,
        {
            let k = key_of(files[j].0.as_str());
            proof {
                assert(ks.take(j + 1).drop_last() =~= ks.take(j as int));
                assert(ks.take(j + 1).last() == k@);
                crate::deploy::lemma_lists(out@, k@);
            }
            if !list_has(&out, k.as_str()) {
                let ghost before = out@;
                let ghost kv = k@;
                out.push(k);
                proof {
                    assert(texts(out@) =~= texts(before).push(kv));
                }
            }
            j = j + 1;
        }
        proof {
            assert(ks.take(j as int) =~= ks);
        }
        i = i + 1;
    }
    proof {
        assert(rv.take(i as int) =~= rv);
    }
    out
}

proof fn lemma_version_placed(s: Seq<Seq<char>>, x: Seq<char>, j: int)
    requires
        0 <= j <= s.len(),
        forall|k: int| j <= k < s.len() ==> newer_text(x, #[trigger] s[k]),
        j > 0 ==> !newer_text(x, s[j - 1]),
    ensures
        version_placed(s, x) == s.insert(j, x),
    decreases s.len(),
{
    if s.len() > j {
        lemma_version_placed(s.drop_last(), x, j);
        assert(s.drop_last().insert(j, x).push(s.last()) =~= s.insert(j, x));
    } else {
        assert(s.push(x) =~= s.insert(j, x));
    }
}

fn sort_versions(v: &Vec<String>) -> (out: Vec<String>)
    ensures
        texts(out@) == newest_first(texts(v@)),
        out@.len() == v@.len(),
{
    let ghost all = texts(v@);
    let mut out: Vec<String> = Vec::new();
    let mut i: usize = 0;
    proof {
        assert(texts(out@) =~= newest_first(all.take(0)));
    }
    while i < v.len()
        invariant
            i <= v@.len(),
            all == texts(v@),
            out@.len() == i,
            texts(out@) == newest_first(all.take(i as int)),
        decreases v.len() - i,
    {
        let x = v[i].clone();
        let ghost s = texts(out@);
        let ghost xv = x@;
        proof {
            assert(all.take(i + 1).drop_last() =~= all.take(i as int));
            assert(all.take(i + 1).last() == xv);
        }
        let mut j: usize = out.len();
        while j > 0 && version_before(x.as_str(), out[j - 1].as_str())
            invariant
                j <= out@.len(),
                s == texts(out@),
                xv == x@,
                forall|k: int| j <= k < s.len() ==> newer_text(xv, #[trigger] s[k]),
            decreases j,
        {
            proof {
                assert(s[j - 1] == out@[j - 1]@);
            }
            j = j - 1;
        }
        proof {
            if j > 0 {
                assert(s[j - 1] == out@[j - 1]@);
            }
            lemma_version_placed(s, xv, j as int);
            assert(texts(out@.insert(j as int, x)) =~= s.insert(j as int, xv));
        }
        out.insert(j, x);
        i = i + 1;
    }
    proof {
        assert(all.take(i as int) =~= all);
    }
    out
}

/// Tells how a package stands: its files are found in `tree`, by their paths in
/// small letters with `\` between the parts, with their digests. A package that
/// is not recorded and of which nothing is there is not told of.
pub fn summarize_package(
    tree: &StrMap<String>,
    pkgs: &PackagesFile,
    lock: &LockFile,
    id: &str,
    game: Option<&str>,
    installed: Option<&str>,
    managed: bool,
) -> (r: Option<WhichRow>)
    ensures
        summary(
            r,
            tree@,
            pkgs.packages@,
            releases_of(pkgs.packages@, lock.assets@, id@, opt_text(game)),
            id@,
            opt_text(installed),
            managed,
        ),
{
    let rel = version_files(pkgs, lock, id, game);
    let ghost rv = release_views(rel@);
    let keys = paths_of_releases(&rel);
    let ghost ks = texts(keys@);
    let mut found: Vec<String> = Vec::new();
    let mut there: bool = false;
    let mut unknown: bool = false;
    let mut i: usize = 0;
    proof {
        assert(ks.take(0) =~= Seq::<Seq<char>>::empty());
        assert(texts(found@) =~= Seq::<Seq<char>>::empty());
    }
    while i < keys.len()
        invariant
            i <= keys@.len(),
            ks == texts(keys@),
            rv == release_views(rel@),
            texts(found@) == versions_found(ks.take(i as int), rv, tree@, opt_text(installed)),
            there == some_there(ks.take(i as int), tree@),
            unknown == some_unknown(ks.take(i as int), rv, tree@),
            there && !unknown ==> found@.len() > 0,
        decreases keys.len() - i,
    {
        let key: &str = keys[i].as_str();
        let ghost was = ks.take(i as int);
        let ghost now = ks.take(i + 1);
        proof {
            assert(now.drop_last() =~= was);
            assert(now.last() == key@);
            assert(now[i as int] == key@);
            assert(forall|k: int| 0 <= k < i ==> #[trigger] was[k] == now[k]);
            if there {
                let k = choose|k: int| 0 <= k < was.len() && counted_file(tree@, #[trigger] was[k]);
                assert(counted_file(tree@, now[k]));
            }
            if unknown {
                let k = choose|k: int|
                    0 <= k < was.len() && counted_file(tree@, #[trigger] was[k]) && matches_of(
                        rv,
                        was[k],
                        tree@[was[k]]@,
                    ).len() == 0;
                assert(counted_file(tree@, now[k]));
            }
        }
        let mut counts: bool = false;
        let mut strange: bool = false;
        if let Some(sha) = tree.get(key) {
            if !is_ignored_config(key) {
                counts = true;
                let ms = match_file(&rel, key, sha.as_str());
                proof {
                    assert(str_views(ms@).len() == ms@.len());
                    assert(counted_file(tree@, key@));
                }
                if ms.len() == 0 {
                    strange = true;
                } else {
                    let label = attribute(installed, ms.as_slice());
                    proof {
                        crate::deploy::lemma_lists(found@, label@);
                    }
                    if !list_has(&found, label.as_str()) {
                        let ghost before = found@;
                        let ghost lv = label@;
                        found.push(label);
                        proof {
                            assert(texts(found@) =~= texts(before).push(lv));
                        }
                    } else {
                        proof {
                            let k = texts(found@).index_of(label@);
                            assert(found@.len() > 0);
                        }
                    }
                }
            }
        }
        proof {
            assert(counts == counted_file(tree@, key@));
            if counts {
                assert(counted_file(tree@, now[i as int]));
            }
            if !counts && some_there(now, tree@) {
                let k = choose|k: int| 0 <= k < now.len() && counted_file(tree@, #[trigger] now[k]);
                assert(k < i);
                assert(counted_file(tree@, was[k]));
            }
            if some_unknown(now, rv, tree@) && !strange {
                let k = choose|k: int|
                    0 <= k < now.len() && counted_file(tree@, #[trigger] now[k]) && matches_of(
                        rv,
                        now[k],
                        tree@[now[k]]@,
                    ).len() == 0;
                assert(k < i);
                assert(counted_file(tree@, was[k]));
            }
        }
        if counts {
            there = true;
        }
        if strange {
            unknown = true;
        }
        i = i + 1;
    }
    proof {
        assert(ks.take(i as int) =~= ks);
        assert(texts(found@).len() == found@.len());
    }
    if !there && !managed {
        return None;
    }
    let versions = sort_versions(&found);
    let name = command_ref(pkgs, id);
    if !there {
        let notes = cat3("run 'chef remove ", name.as_str(), "' to restore the backup");
        return Some(
            WhichRow {
                id: own(id),
                managed,
                status: Standing::NotFound.word(),
                version: own("not found"),
                versions,
                notes,
            },
        );
    }
    let details = cat3("run 'chef which ", name.as_str(), "' for more details");
    if unknown {
        Some(
            WhichRow {
                id: own(id),
                managed,
                status: Standing::Unknown.word(),
                version: own("unknown"),
                versions,
                notes: details,
            },
        )
    } else if versions.len() > 1 {
        Some(
            WhichRow {
                id: own(id),
                managed,
                status: Standing::Multiple.word(),
                version: own("multiple"),
                versions,
                notes: details,
            },
        )
    } else {
        let version = versions[0].clone();
        proof {
            assert(texts(versions@)[0] == versions@[0]@);
        }
        Some(
            WhichRow {
                id: own(id),
                managed,
                status: Standing::Installed.word(),
                version,
                versions,
                notes: own(""),
            },
        )
    }
}

/// The version that is recorded of a package.
pub open spec fn recorded(installs: Map<Seq<char>, Install>, id: Seq<char>) -> Option<Seq<char>> {
    if installs.dom().contains(id) {
        Some(installs[id].version@)
    } else {
        None
    }
}

/// What is told of the packages, one after the other.
pub open spec fn all_told(
    rows: Seq<WhichRow>,
    ids: Seq<Seq<char>>,
    tree: Map<Seq<char>, String>,
    s: Seq<PackageEntry>,
    lock: Map<Seq<char>, LockedAsset>,
    game: Option<Seq<char>>,
    installs: Map<Seq<char>, Install>,
) -> bool
    decreases ids.len(),
{
    if ids.len() == 0 {
        rows.len() == 0
    } else {
        let id = ids.last();
        let rel = releases_of(s, lock, id, game);
        let v = recorded(installs, id);
        if summary(None, tree, s, rel, id, v, v is Some) {
            all_told(rows, ids.drop_last(), tree, s, lock, game, installs)
        } else {
            &&& rows.len() > 0
            &&& summary(Some(rows.last()), tree, s, rel, id, v, v is Some)
            &&& all_told(rows.drop_last(), ids.drop_last(), tree, s, lock, game, installs)
        }
    }
}

/// What is told of the packages `ids` in a game directory: those that are
/// recorded there, and those of which files are there.
pub fn which_rows(
    ids: &Vec<String>,
    tree: &StrMap<String>,
    pkgs: &PackagesFile,
    lock: &LockFile,
    game: Option<&str>,
    dir: Option<&GameDirState>,
) -> (rows: Vec<WhichRow>)
    ensures
        all_told(
            rows@,
            texts(ids@),
            tree@,
            pkgs.packages@,
            lock.assets@,
            opt_text(game),
            dir_map(dir),
        ),
{
    let ghost ts = texts(ids@);
    let mut rows: Vec<WhichRow> = Vec::new();
    let mut i: usize = 0;
    proof {
        assert(ts.take(0) =~= Seq::<Seq<char>>::empty());
    }
    while i < ids.len()
        invariant
            i <= ids@.len(),
            ts == texts(ids@),
            all_told(
                rows@,
                ts.take(i as int),
                tree@,
                pkgs.packages@,
                lock.assets@,
                opt_text(game),
                dir_map(dir),
            ),
        decreases ids.len() - i,
    {
        let id: &str = ids[i].as_str();
        proof {
            assert(ts.take(i + 1).drop_last() =~= ts.take(i as int));
            assert(ts.take(i + 1).last() == id@);
        }
        let installed: Option<&str> = match dir {
            Some(d) => match d.installs.get(id) {
                Some(inst) => Some(inst.version.as_str()),
                None => None,
            },
            None => None,
        };
        assert(opt_text(installed) == recorded(dir_map(dir), id@));
        let managed: bool = installed.is_some();
        if let Some(row) = summarize_package(tree, pkgs, lock, id, game, installed, managed) {
            let ghost before = rows@;
            rows.push(row);
            proof {
                assert(rows@.drop_last() =~= before);
            }
        }
        i = i + 1;
    }
    proof {
        assert(ts.take(i as int) =~= ts);
    }
    rows
}

proof fn lemma_one_version(
    keys: Seq<Seq<char>>,
    rel: Seq<ReleaseFiles>,
    tree: Map<Seq<char>, String>,
    v: Seq<char>,
)
    requires
        forall|i: int|
            0 <= i < keys.len() && counted_file(tree, #[trigger] keys[i]) ==> matches_of(
                rel,
                keys[i],
                tree[keys[i]]@,
            ).contains(v),
    ensures
        versions_found(keys, rel, tree, Some(v)) == if some_there(keys, tree) {
            seq![v]
        } else {
            Seq::empty()
        },
        !some_unknown(keys, rel, tree),
    decreases keys.len(),
{
    if keys.len() > 0 {
        let rest = keys.drop_last();
        assert forall|i: int|
            0 <= i < rest.len() && counted_file(tree, #[trigger] rest[i]) implies matches_of(
            rel,
            rest[i],
            tree[rest[i]]@,
        ).contains(v) by {
            assert(counted_file(tree, keys[i]));
        }
        lemma_one_version(rest, rel, tree, v);
        let k = keys.last();
        assert(k == keys[keys.len() - 1]);
        if some_there(rest, tree) {
            let i = choose|i: int| 0 <= i < rest.len() && counted_file(tree, #[trigger] rest[i]);
            assert(counted_file(tree, keys[i]));
            assert(seq![v].contains(seq![v][0]));
        } else {
            if counted_file(tree, k) {
                assert(Seq::<Seq<char>>::empty().push(v) =~= seq![v]);
            } else if some_there(keys, tree) {
                let i = choose|i: int|
                    0 <= i < keys.len() && counted_file(tree, #[trigger] keys[i]);
                assert(counted_file(tree, rest[i]));
            }
        }
    }
}

/// Where every file that is there belongs to the installed version, the package
/// is told of as installed, with that version alone: other releases that share
/// some of the files do not show.
pub proof fn law_clean_install_shows_its_version(
    rel: Seq<ReleaseFiles>,
    tree: Map<Seq<char>, String>,
    v: Seq<char>,
)
    requires
        some_there(all_paths(rel), tree),
        forall|i: int|
            0 <= i < all_paths(rel).len() && counted_file(
                tree,
                #[trigger] all_paths(rel)[i],
            ) ==> matches_of(rel, all_paths(rel)[i], tree[all_paths(rel)[i]]@).contains(v),
    ensures
        standing(
            some_there(all_paths(rel), tree),
            some_unknown(all_paths(rel), rel, tree),
            versions_found(all_paths(rel), rel, tree, Some(v)).len(),
        ) == Standing::Installed,
        newest_first(versions_found(all_paths(rel), rel, tree, Some(v))) == seq![v],
{
    lemma_one_version(all_paths(rel), rel, tree, v);
    let one = seq![v];
    assert(one.drop_last() =~= Seq::<Seq<char>>::empty());
    assert(newest_first(one.drop_last()) =~= Seq::<Seq<char>>::empty());
    assert(version_placed(Seq::<Seq<char>>::empty(), v) =~= one);
}

// ---------------------------------------------------------------------------
// File by file
// ---------------------------------------------------------------------------

/// The releases of one version, however it is spelled.
pub open spec fn of_version(rel: Seq<ReleaseFiles>, v: Seq<char>) -> Seq<ReleaseFiles>
    decreases rel.len(),
{
    if rel.len() == 0 {
        Seq::empty()
    } else if same_release(rel.last().version, v) {
        of_version(rel.drop_last(), v).push(rel.last())
    } else {
        of_version(rel.drop_last(), v)
    }
}

/// The releases that are looked at: all, or those of the version asked for.
pub open spec fn looked_at(rel: Seq<ReleaseFiles>, asked: Option<Seq<char>>) -> Seq<ReleaseFiles> {
    match asked {
        Some(v) => of_version(rel, v),
        None => rel,
    }
}

/// The version whose files ought to be there: the one asked for, else the
/// installed one, else the newest that any file belongs to.
pub open spec fn anchor(
    rel: Seq<ReleaseFiles>,
    tree: Map<Seq<char>, String>,
    installed: Option<Seq<char>>,
    asked: Option<Seq<char>>,
) -> Seq<char> {
    match (asked, installed) {
        (Some(v), _) => v,
        (None, Some(v)) => v,
        (None, None) => newest_of(versions_found(all_paths(rel), rel, tree, installed)),
    }
}

/// How the path is spelled in a list of files.
pub open spec fn spelled(files: Seq<(Seq<char>, Seq<char>)>, key: Seq<char>) -> Option<Seq<char>>
    decreases files.len(),
{
    if files.len() == 0 {
        None
    } else if spelled(files.drop_last(), key) is Some {
        spelled(files.drop_last(), key)
    } else if path_key(files.last().0) == key {
        Some(files.last().0)
    } else {
        None
    }
}

/// How the path is spelled in the first release that has it.
pub open spec fn spelling(rel: Seq<ReleaseFiles>, key: Seq<char>) -> Option<Seq<char>>
    decreases rel.len(),
{
    if rel.len() == 0 {
        None
    } else if spelling(rel.drop_last(), key) is Some {
        spelling(rel.drop_last(), key)
    } else {
        spelled(rel.last().files, key)
    }
}

/// What is told of the file at a path: the version that it belongs to, that it
/// belongs to none, or that it ought to be there. Of a file that is not there
/// and that the anchor does not have, nothing is told.
pub open spec fn told(
    rel: Seq<ReleaseFiles>,
    tree: Map<Seq<char>, String>,
    key: Seq<char>,
    installed: Option<Seq<char>>,
    at: Seq<char>,
) -> Option<Seq<char>> {
    if tree.dom().contains(key) {
        if matches_of(rel, key, tree[key]@).len() == 0 {
            Some("unknown"@)
        } else {
            Some(label_at(rel, tree, key, installed))
        }
    } else if spelling(of_version(rel, at), key) is Some {
        Some("missing"@)
    } else {
        None
    }
}

/// The paths, with what is told of them; `\\` stands between the parts.
pub open spec fn details(
    keys: Seq<Seq<char>>,
    rel: Seq<ReleaseFiles>,
    tree: Map<Seq<char>, String>,
    installed: Option<Seq<char>>,
    at: Seq<char>,
) -> Seq<(Seq<char>, Seq<char>)>
    decreases keys.len(),
{
    if keys.len() == 0 {
        Seq::empty()
    } else {
        let before = details(keys.drop_last(), rel, tree, installed, at);
        let k = keys.last();
        match (spelling(rel, k), told(rel, tree, k, installed, at)) {
            (Some(path), Some(label)) => before.push((swapped_char(path, '/', '\\'), label)),
            _ => before,
        }
    }
}

fn spell_in(files: &Vec<(String, String)>, key: &str) -> (r: Option<String>)
    ensures
        opt(r) == spelled(pairs(files@), key@),
{
    let ghost fs = pairs(files@);
    let mut out: Option<String> = None;
    let mut i: usize = 0;
    proof {
        assert(fs.take(0) =~= Seq::<(Seq<char>, Seq<char>)>::empty());
    }
    while i < files.len()
        invariant
            i <= files@.len(),
            fs == pairs(files@),
            opt(out) == spelled(fs.take(i as int), key@),
        decreases files.len() - i,
    {
        proof {
            assert(fs.take(i + 1).drop_last() =~= fs.take(i as int));
            assert(fs.take(i + 1).last() == (files@[i as int].0@, files@[i as int].1@));
        }
        if out.is_none() {
            let k = key_of(files[i].0.as_str());
            if same(k.as_str(), key) {
                out = Some(files[i].0.clone());
            }
        }
        i = i + 1;
    }
    proof {
        assert(fs.take(i as int) =~= fs);
    }
    out
}

fn spell(rel: &Vec<(String, Vec<(String, String)>)>, key: &str) -> (r: Option<String>)
    ensures
        opt(r) == spelling(release_views(rel@), key@),
{
    let ghost rv = release_views(rel@);
    let mut out: Option<String> = None;
    let mut i: usize = 0;
    proof {
        assert(rv.take(0) =~= Seq::<ReleaseFiles>::empty());
    }
    while i < rel.len()
        invariant
            i <= rel@.len(),
            rv == release_views(rel@),
            opt(out) == spelling(rv.take(i as int), key@),
        decreases rel.len() - i,
    {
        proof {
            assert(rv.take(i + 1).drop_last() =~= rv.take(i as int));
            assert(rv.take(i + 1).last() == rv[i as int]);
        }
        if out.is_none() {
            out = spell_in(&rel[i].1, key);
        }
        i = i + 1;
    }
    proof {
        assert(rv.take(i as int) =~= rv);
    }
    out
}

fn only_version(
    rel: &Vec<(String, Vec<(String, String)>)>,
    v: &str,
) -> (out: Vec<(String, Vec<(String, String)>)>)
    ensures
        release_views(out@) == of_version(release_views(rel@), v@),
{
    let ghost rv = release_views(rel@);
    let mut out: Vec<(String, Vec<(String, String)>)> = Vec::new();
    let mut i: usize = 0;
    proof {
        assert(rv.take(0) =~= Seq::<ReleaseFiles>::empty());
        assert(release_views(out@) =~= Seq::<ReleaseFiles>::empty());
    }
    while i < rel.len()
        invariant
            i <= rel@.len(),
            rv == release_views(rel@),
            release_views(out@) == of_version(rv.take(i as int), v@),
        decreases rel.len() - i,
    {
        proof {
            assert(rv.take(i + 1).drop_last() =~= rv.take(i as int));
            assert(rv.take(i + 1).last() == rv[i as int]);
        }
        if same_version(rel[i].0.as_str(), v) {
            let files = own_pairs(&rel[i].1);
            let ghost before = out@;
            out.push((rel[i].0.clone(), files));
            proof {
                assert(release_views(out@) =~= release_views(before).push(rv[i as int]));
            }
        }
        i = i + 1;
    }
    proof {
        assert(rv.take(i as int) =~= rv);
    }
    out
}

fn own_pairs(v: &Vec<(String, String)>) -> (out: Vec<(String, String)>)
    ensures
        pairs(out@) == pairs(v@),
{
    let mut out: Vec<(String, String)> = Vec::new();
    let mut i: usize = 0;
    while i < v.len()
        invariant
            i <= v@.len(),
            pairs(out@) =~= pairs(v@).take(i as int),
        decreases v.len() - i,
    {
        let ghost before = out@;
        out.push((v[i].0.clone(), v[i].1.clone()));
        proof {
            assert(pairs(out@) =~= pairs(before).push(pairs(v@)[i as int]));
            assert(pairs(v@).take(i + 1) =~= pairs(v@).take(i as int).push(pairs(v@)[i as int]));
        }
        i = i + 1;
    }
    proof {
        assert(pairs(v@).take(i as int) =~= pairs(v@));
    }
    out
}

fn find_versions(
    keys: &Vec<String>,
    rel: &Vec<(String, Vec<(String, String)>)>,
    tree: &StrMap<String>,
    installed: Option<&str>,
) -> (found: Vec<String>)
    ensures
        texts(found@) == versions_found(
            texts(keys@),
            release_views(rel@),
            tree@,
            opt_text(installed),
        ),
{
    let ghost rv = release_views(rel@);
    let ghost ks = texts(keys@);
    let mut found: Vec<String> = Vec::new();
    let mut i: usize = 0;
    proof {
        assert(ks.take(0) =~= Seq::<Seq<char>>::empty());
        assert(texts(found@) =~= Seq::<Seq<char>>::empty());
    }
    while i < keys.len()
        invariant
            i <= keys@.len(),
            ks == texts(keys@),
            rv == release_views(rel@),
            texts(found@) == versions_found(ks.take(i as int), rv, tree@, opt_text(installed)),
        decreases keys.len() - i,
    {
        let key: &str = keys[i].as_str();
        proof {
            assert(ks.take(i + 1).drop_last() =~= ks.take(i as int));
            assert(ks.take(i + 1).last() == key@);
        }
        if let Some(sha) = tree.get(key) {
            if !is_ignored_config(key) {
                let ms = match_file(rel, key, sha.as_str());
                proof {
                    assert(str_views(ms@).len() == ms@.len());
                }
                if ms.len() > 0 {
                    let label = attribute(installed, ms.as_slice());
                    proof {
                        crate::deploy::lemma_lists(found@, label@);
                    }
                    if !list_has(&found, label.as_str()) {
                        let ghost before = found@;
                        let ghost lv = label@;
                        found.push(label);
                        proof {
                            assert(texts(found@) =~= texts(before).push(lv));
                        }
                    }
                }
            }
        }
        i = i + 1;
    }
    proof {
        assert(ks.take(i as int) =~= ks);
    }
    found
}

fn as_strs(v: &Vec<String>) -> (out: Vec<&str>)
    ensures
        str_views(out@) == texts(v@),
{
    let mut out: Vec<&str> = Vec::new();
    let mut i: usize = 0;
    while i < v.len()
        invariant
            i <= v@.len(),
            str_views(out@) =~= texts(v@).take(i as int),
        decreases v.len() - i,
    {
        let ghost before = out@;
        out.push(v[i].as_str());
        proof {
            assert(str_views(out@) =~= str_views(before).push(v@[i as int]@));
            assert(texts(v@).take(i + 1) =~= texts(v@).take(i as int).push(v@[i as int]@));
        }
        i = i + 1;
    }
    proof {
        assert(texts(v@).take(i as int) =~= texts(v@));
    }
    out
}

/// The files of a package, in order, with what is told of each: the version that
/// it belongs to, `unknown` where it belongs to none, `missing` where it ought to
/// be there. With a version only the files of that release are looked at.
pub fn detail_rows(
    pkgs: &PackagesFile,
    lock: &LockFile,
    id: &str,
    game: Option<&str>,
    installed: Option<&str>,
    asked: Option<&str>,
    tree: &StrMap<String>,
) -> (out: Vec<(String, String)>)
    ensures
        ({
            let rel = looked_at(
                releases_of(pkgs.packages@, lock.assets@, id@, opt_text(game)),
                opt_text(asked),
            );
            pairs(out@) == details(
                sorted(all_paths(rel)),
                rel,
                tree@,
                opt_text(installed),
                anchor(rel, tree@, opt_text(installed), opt_text(asked)),
            )
        }),
{
    let all = version_files(pkgs, lock, id, game);
    let rel = match asked {
        Some(v) => only_version(&all, v),
        None => all,
    };
    let ghost rv = release_views(rel@);
    let paths = paths_of_releases(&rel);
    let at: String = match (asked, installed) {
        (Some(v), _) => own(v),
        (None, Some(v)) => own(v),
        (None, None) => {
            let found = find_versions(&paths, &rel, tree, installed);
            let strs = as_strs(&found);
            newest_match(strs.as_slice())
        },
    };
    let ghost av = at@;
    let wanted = only_version(&rel, at.as_str());
    let keys = sort_texts(&paths);
    let ghost ks = texts(keys@);
    let mut out: Vec<(String, String)> = Vec::new();
    let mut i: usize = 0;
    proof {
        assert(ks.take(0) =~= Seq::<Seq<char>>::empty());
        assert(pairs(out@) =~= Seq::<(Seq<char>, Seq<char>)>::empty());
    }
    while i < keys.len()
        invariant
            i <= keys@.len(),
            ks == texts(keys@),
            rv == release_views(rel@),
            release_views(wanted@) == of_version(rv, av),
            pairs(out@) == details(ks.take(i as int), rv, tree@, opt_text(installed), av),
        decreases keys.len() - i,
    {
        let key: &str = keys[i].as_str();
        proof {
            assert(ks.take(i + 1).drop_last() =~= ks.take(i as int));
            assert(ks.take(i + 1).last() == key@);
        }
        let label: Option<String> = match tree.get(key) {
            Some(sha) => {
                let ms = match_file(&rel, key, sha.as_str());
                proof {
                    assert(str_views(ms@).len() == ms@.len());
                }
                if ms.len() == 0 {
                    Some(own("unknown"))
                } else {
                    Some(attribute(installed, ms.as_slice()))
                }
            },
            None => if spell(&wanted, key).is_some() {
                Some(own("missing"))
            } else {
                None
            },
        };
        assert(opt(label) == told(rv, tree@, key@, opt_text(installed), av));
        if let Some(l) = label {
            if let Some(path) = spell(&rel, key) {
                let ghost before = out@;
                let ghost lv = l@;
                let shown = replace_char(path.as_str(), '/', '\\');
                out.push((shown, l));
                proof {
                    assert(pairs(out@) =~= pairs(before).push(
                        (swapped_char(path@, '/', '\\'), lv),
                    ));
                }
            }
        }
        i = i + 1;
    }
    proof {
        assert(ks.take(i as int) =~= ks);
    }
    out
}

// ---------------------------------------------------------------------------
// As a document
// ---------------------------------------------------------------------------

/// Who installed the package.
pub open spec fn section(managed: bool) -> Seq<char> {
    if managed {
        "chef"@
    } else {
        "user"@
    }
}

/// What is told of a package, as a document.
pub open spec fn which_row_document(r: WhichRow, name: Seq<char>) -> Json {
    record(
        seq![
            ("section"@, Json::Text(section(r.managed))),
            ("id"@, Json::Text(r.id@)),
            ("name"@, Json::Text(name)),
            ("version"@, Json::Text(r.version@)),
            ("status"@, Json::Text(r.status@)),
            ("versions"@, text_list(texts(r.versions@))),
            ("notes"@, Json::Text(r.notes@)),
        ],
    )
}

/// What is told of the packages, as a document.
pub open spec fn which_document(
    dir: Seq<char>,
    game: Option<Seq<char>>,
    rows: Seq<WhichRow>,
    s: Seq<PackageEntry>,
) -> Json {
    record(
        seq![
            ("dir"@, Json::Text(dir)),
            ("game"@, text_or_null(game)),
            (
                "installs"@,
                Json::List(
                    rows.map_values(
                        |r: WhichRow|
                            which_row_document(r, title_or_id(s, r.id@)),
                    ),
                ),
            ),
        ],
    )
}

fn which_row_value(r: &WhichRow, name: &str) -> (v: serde_json::Value)
    ensures
        held(v) == which_row_document(*r, name@),
{
    let mut f: Vec<(String, serde_json::Value)> = Vec::new();
    if r.managed {
        put(&mut f, "section", string("chef"));
    } else {
        put(&mut f, "section", string("user"));
    }
    put(&mut f, "id", string(r.id.as_str()));
    put(&mut f, "name", string(name));
    put(&mut f, "version", string(r.version.as_str()));
    put(&mut f, "status", string(r.status));
    put(&mut f, "versions", strings(&r.versions));
    put(&mut f, "notes", string(r.notes.as_str()));
    proof {
        assert(held_fields(f@) =~= seq![
            ("section"@, Json::Text(section(r.managed))),
            ("id"@, Json::Text(r.id@)),
            ("name"@, Json::Text(name@)),
            ("version"@, Json::Text(r.version@)),
            ("status"@, Json::Text(r.status@)),
            ("versions"@, text_list(texts(r.versions@))),
            ("notes"@, Json::Text(r.notes@)),
        ]);
    }
    object(f)
}

/// What is told of the packages, as a document.
pub fn which_value(
    dir: &str,
    game: Option<&str>,
    rows: &Vec<WhichRow>,
    pkgs: &PackagesFile,
) -> (v: serde_json::Value)
    ensures
        held(v) == which_document(dir@, opt_text(game), rows@, pkgs.packages@),
{
    let ghost s = pkgs.packages@;
    let ghost want = rows@.map_values(
        |r: WhichRow| which_row_document(r, title_or_id(s, r.id@)),
    );
    let mut items: Vec<serde_json::Value> = Vec::new();
    let mut i: usize = 0;
    while i < rows.len()
        invariant
            i <= rows@.len(),
            s == pkgs.packages@,
            want == rows@.map_values(
                |r: WhichRow| which_row_document(r, title_or_id(s, r.id@)),
            ),
            held_all(items@) =~= want.take(i as int),
        decreases rows.len() - i,
    {
        let name = match pkgs.pkg(rows[i].id.as_str()) {
            Some(p) => p.name.clone(),
            None => rows[i].id.clone(),
        };
        let ghost before = items@;
        items.push(which_row_value(&rows[i], name.as_str()));
        proof {
            assert(held_all(items@) =~= held_all(before).push(want[i as int]));
            assert(want.take(i + 1) =~= want.take(i as int).push(want[i as int]));
        }
        i = i + 1;
    }
    proof {
        assert(want.take(i as int) =~= want);
    }
    let mut f: Vec<(String, serde_json::Value)> = Vec::new();
    put(&mut f, "dir", string(dir));
    put(&mut f, "game", string_or_null(game));
    put(&mut f, "installs", array(items));
    proof {
        assert(held_fields(f@) =~= seq![
            ("dir"@, Json::Text(dir@)),
            ("game"@, text_or_null(opt_text(game))),
            ("installs"@, Json::List(want)),
        ]);
    }
    object(f)
}

// ---------------------------------------------------------------------------
// As text
// ---------------------------------------------------------------------------

/// A newer release is hinted at beside an installed package of chef's.
pub open spec fn hinted(r: WhichRow, newest: Option<Seq<char>>) -> Seq<char> {
    if r.managed && r.status@ == "installed"@ && newest is Some && outdated(
        r.version@,
        newest->0,
        loose(r.version@),
        loose(newest->0),
    ) {
        update_text_of(r.version@, newest->0, r.id@)
    } else {
        r.notes@
    }
}

/// The row with a hint at a newer release, where there is one.
pub fn with_hint(r: WhichRow, newest: Option<&str>) -> (out: WhichRow)
    ensures
        out.notes@ == hinted(r, opt_text(newest)),
        (WhichRow { notes: r.notes, ..out }) == r,
{
    let mut out = r;
    if out.managed && same(out.status, "installed") {
        if let Some(n) = newest {
            if let Some(hint) = update_hint(out.version.as_str(), n, out.id.as_str()) {
                out.notes = hint;
            }
        }
    }
    out
}

/// A line of a list: a name, a version, and notes.
pub struct Cells {
    pub name: Seq<char>,
    pub version: Seq<char>,
    pub notes: Seq<char>,
}

/// The lines of the rows of one section.
pub open spec fn section_cells(
    rows: Seq<WhichRow>,
    s: Seq<PackageEntry>,
    managed: bool,
) -> Seq<Cells>
    decreases rows.len(),
{
    if rows.len() == 0 {
        Seq::empty()
    } else {
        let before = section_cells(rows.drop_last(), s, managed);
        let r = rows.last();
        if r.managed == managed {
            before.push(
                Cells {
                    name: title_or_id(s, r.id@),
                    version: table_version(r.version@),
                    notes: r.notes@,
                },
            )
        } else {
            before
        }
    }
}

/// The width of the longest name.
pub open spec fn name_width(c: Seq<Cells>) -> nat
    decreases c.len(),
{
    if c.len() == 0 {
        0
    } else {
        longer(name_width(c.drop_last()), c.last().name.len())
    }
}

/// The width of the longest version.
pub open spec fn version_width(c: Seq<Cells>) -> nat
    decreases c.len(),
{
    if c.len() == 0 {
        0
    } else {
        longer(version_width(c.drop_last()), c.last().version.len())
    }
}

/// The greater one.
pub open spec fn longer(a: nat, b: nat) -> nat {
    if a < b {
        b
    } else {
        a
    }
}

/// A line in columns.
pub open spec fn cells_line(c: Cells, w1: nat, w2: nat) -> Seq<char> {
    if c.notes.len() == 0 {
        padded(c.name, w1) + "  "@ + c.version + "\n"@
    } else {
        padded(c.name, w1) + "  "@ + padded(c.version, w2) + "  "@ + c.notes + "\n"@
    }
}

/// The lines in columns.
pub open spec fn cells_lines(c: Seq<Cells>, w1: nat, w2: nat) -> Seq<char>
    decreases c.len(),
{
    if c.len() == 0 {
        Seq::empty()
    } else {
        cells_lines(c.drop_last(), w1, w2) + cells_line(c.last(), w1, w2)
    }
}

/// The lines, in columns as wide as they need.
pub open spec fn cells_text(c: Seq<Cells>) -> Seq<char> {
    cells_lines(c, name_width(c), version_width(c))
}

/// A section: nothing where it has no line.
pub open spec fn section_text(heading: Seq<char>, c: Seq<Cells>) -> Seq<char> {
    if c.len() == 0 {
        Seq::empty()
    } else {
        "\n"@ + heading + "\n"@ + cells_text(c)
    }
}

/// What is told of a game directory.
pub open spec fn which_told(
    dir: Seq<char>,
    game: Option<Seq<char>>,
    rows: Seq<WhichRow>,
    s: Seq<PackageEntry>,
) -> Seq<char> {
    let head = "\ngame dir: "@ + dir + "\n"@ + match game {
        Some(g) => "game: "@ + g + "\n"@,
        None => Seq::empty(),
    };
    head + section_text("PACKAGES INSTALLED BY CHEF"@, section_cells(rows, s, true))
        + section_text("PACKAGES INSTALLED BY USER"@, section_cells(rows, s, false))
}

struct Line {
    name: String,
    version: String,
    notes: String,
}

spec fn line_views(v: Seq<Line>) -> Seq<Cells> {
    v.map_values(|l: Line| Cells { name: l.name@, version: l.version@, notes: l.notes@ })
}

fn lines_in_columns(v: &Vec<Line>) -> (out: String)
    ensures
        out@ == cells_text(line_views(v@)),
{
    let ghost c = line_views(v@);
    let mut w1: usize = 0;
    let mut w2: usize = 0;
    let mut i: usize = 0;
    proof {
        assert(c.take(0) =~= Seq::<Cells>::empty());
    }
    while i < v.len()
        invariant
            i <= v@.len(),
            c == line_views(v@),
            w1 == name_width(c.take(i as int)),
            w2 == version_width(c.take(i as int)),
        decreases v.len() - i,
    {
        proof {
            assert(c.take(i + 1).drop_last() =~= c.take(i as int));
            assert(c.take(i + 1).last() == c[i as int]);
        }
        let n: usize = chars_of(v[i].name.as_str()).len();
        if w1 < n {
            w1 = n;
        }
        let m: usize = chars_of(v[i].version.as_str()).len();
        if w2 < m {
            w2 = m;
        }
        i = i + 1;
    }
    proof {
        assert(c.take(i as int) =~= c);
    }
    let mut out = String::new();
    let mut j: usize = 0;
    proof {
        assert(out@ =~= cells_lines(c.take(0), w1 as nat, w2 as nat));
    }
    while j < v.len()
        invariant
            j <= v@.len(),
            c == line_views(v@),
            out@ == cells_lines(c.take(j as int), w1 as nat, w2 as nat),
        decreases v.len() - j,
    {
        let l = &v[j];
        let name = pad(l.name.as_str(), w1);
        let mut line = cat(name.as_str(), "  ");
        if l.notes.as_str().is_empty() {
            line.append(l.version.as_str());
        } else {
            let version = pad(l.version.as_str(), w2);
            line.append(version.as_str());
            line.append("  ");
            line.append(l.notes.as_str());
        }
        line.append("\n");
        proof {
            assert(c.take(j + 1).drop_last() =~= c.take(j as int));
            assert(c.take(j + 1).last() == c[j as int]);
        }
        out.append(line.as_str());
        j = j + 1;
    }
    proof {
        assert(c.take(j as int) =~= c);
    }
    out
}

fn section_lines(rows: &Vec<WhichRow>, pkgs: &PackagesFile, managed: bool) -> (out: Vec<Line>)
    ensures
        line_views(out@) == section_cells(rows@, pkgs.packages@, managed),
{
    let mut out: Vec<Line> = Vec::new();
    let mut i: usize = 0;
    proof {
        assert(rows@.take(0) =~= Seq::<WhichRow>::empty());
        assert(line_views(out@) =~= Seq::<Cells>::empty());
    }
    while i < rows.len()
        invariant
            i <= rows@.len(),
            line_views(out@) == section_cells(rows@.take(i as int), pkgs.packages@, managed),
        decreases rows.len() - i,
    {
        let r = &rows[i];
        proof {
            assert(rows@.take(i + 1).drop_last() =~= rows@.take(i as int));
            assert(rows@.take(i + 1).last() == *r);
        }
        if r.managed == managed {
            let name = match pkgs.pkg(r.id.as_str()) {
                Some(p) => p.name.clone(),
                None => r.id.clone(),
            };
            let version = own(list_version(r.version.as_str()));
            let ghost cells = Cells { name: name@, version: version@, notes: r.notes@ };
            let ghost before = out@;
            out.push(Line { name, version, notes: r.notes.clone() });
            proof {
                assert(line_views(out@) =~= line_views(before).push(cells));
            }
        }
        i = i + 1;
    }
    proof {
        assert(rows@.take(i as int) =~= rows@);
    }
    out
}

fn section_of(heading: &str, lines: &Vec<Line>) -> (out: String)
    ensures
        out@ == section_text(heading@, line_views(lines@)),
{
    proof {
        assert(line_views(lines@).len() == lines@.len());
    }
    if lines.len() == 0 {
        String::new()
    } else {
        let body = lines_in_columns(lines);
        let mut out = cat3("\n", heading, "\n");
        out.append(body.as_str());
        out
    }
}

/// What is told of a game directory: the packages that chef installed, and those
/// that the user did.
pub fn which_text(
    dir: &str,
    game: Option<&str>,
    rows: &Vec<WhichRow>,
    pkgs: &PackagesFile,
) -> (out: String)
    ensures
        out@ == which_told(dir@, opt_text(game), rows@, pkgs.packages@),
{
    let mut out = cat3("\ngame dir: ", dir, "\n");
    let ghost start = out@;
    if let Some(g) = game {
        let line = cat3("game: ", g, "\n");
        out.append(line.as_str());
    } else {
        proof {
            assert(start + Seq::<char>::empty() =~= start);
        }
    }
    let ours = section_lines(rows, pkgs, true);
    let chef = section_of("PACKAGES INSTALLED BY CHEF", &ours);
    let theirs = section_lines(rows, pkgs, false);
    let user = section_of("PACKAGES INSTALLED BY USER", &theirs);
    out.append(chef.as_str());
    out.append(user.as_str());
    out
}

/// The lines of the files of a package.
pub open spec fn file_cells(v: Seq<(Seq<char>, Seq<char>)>) -> Seq<Cells> {
    v.map_values(
        |p: (Seq<char>, Seq<char>)| Cells { name: p.0, version: p.1, notes: Seq::empty() },
    )
}

/// The files of a package, line by line.
pub fn details_text(rows: &Vec<(String, String)>) -> (out: String)
    ensures
        out@ == cells_text(file_cells(pairs(rows@))),
{
    let ghost want = file_cells(pairs(rows@));
    let mut lines: Vec<Line> = Vec::new();
    let mut i: usize = 0;
    while i < rows.len()
        invariant
            i <= rows@.len(),
            want == file_cells(pairs(rows@)),
            line_views(lines@) =~= want.take(i as int),
        decreases rows.len() - i,
    {
        let ghost before = lines@;
        let blank = String::new();
        proof {
            assert(blank@ =~= Seq::<char>::empty());
        }
        lines.push(Line { name: rows[i].0.clone(), version: rows[i].1.clone(), notes: blank });
        proof {
            assert(line_views(lines@) =~= line_views(before).push(want[i as int]));
            assert(want.take(i + 1) =~= want.take(i as int).push(want[i as int]));
        }
        i = i + 1;
    }
    proof {
        assert(want.take(i as int) =~= want);
    }
    lines_in_columns(&lines)
}

/// The files of a package as a document.
pub open spec fn details_document(id: Seq<char>, v: Seq<(Seq<char>, Seq<char>)>) -> Json {
    record(
        seq![
            ("id"@, Json::Text(id)),
            (
                "files"@,
                Json::List(
                    v.map_values(
                        |p: (Seq<char>, Seq<char>)|
                            record(
                                seq![("path"@, Json::Text(p.0)), ("version"@, Json::Text(p.1))],
                            ),
                    ),
                ),
            ),
        ],
    )
}

/// The files of a package as a document.
pub fn details_value(id: &str, rows: &Vec<(String, String)>) -> (v: serde_json::Value)
    ensures
        held(v) == details_document(id@, pairs(rows@)),
{
    let ghost want = pairs(rows@).map_values(
        |p: (Seq<char>, Seq<char>)|
            record(seq![("path"@, Json::Text(p.0)), ("version"@, Json::Text(p.1))]),
    );
    let mut items: Vec<serde_json::Value> = Vec::new();
    let mut i: usize = 0;
    while i < rows.len()
        invariant
            i <= rows@.len(),
            want == pairs(rows@).map_values(
                |p: (Seq<char>, Seq<char>)|
                    record(seq![("path"@, Json::Text(p.0)), ("version"@, Json::Text(p.1))]),
            ),
            held_all(items@) =~= want.take(i as int),
        decreases rows.len() - i,
    {
        let mut f: Vec<(String, serde_json::Value)> = Vec::new();
        put(&mut f, "path", string(rows[i].0.as_str()));
        put(&mut f, "version", string(rows[i].1.as_str()));
        proof {
            assert(held_fields(f@) =~= seq![
                ("path"@, Json::Text(rows@[i as int].0@)),
                ("version"@, Json::Text(rows@[i as int].1@)),
            ]);
        }
        let ghost before = items@;
        items.push(object(f));
        proof {
            assert(held_all(items@) =~= held_all(before).push(want[i as int]));
            assert(want.take(i + 1) =~= want.take(i as int).push(want[i as int]));
        }
        i = i + 1;
    }
    proof {
        assert(want.take(i as int) =~= want);
    }
    let mut f: Vec<(String, serde_json::Value)> = Vec::new();
    put(&mut f, "id", string(id));
    put(&mut f, "files", array(items));
    proof {
        assert(held_fields(f@) =~= seq![("id"@, Json::Text(id@)), ("files"@, Json::List(want))]);
    }
    object(f)
}

// ---------------------------------------------------------------------------
// What holds of it
// ---------------------------------------------------------------------------

/// The newest of several versions is one of them, and none of them is newer.
pub proof fn law_newest_is_not_surpassed(v: Seq<Seq<char>>)
    requires
        v.len() > 0,
    ensures
        v.contains(newest_of(v)),
        forall|i: int| 0 <= i < v.len() ==> !newer_text(#[trigger] v[i], newest_of(v)),
    decreases v.len(),
{
    if v.len() == 1 {
        law_newer_is_an_order(v[0], v[0], v[0]);
    } else {
        let t = v.drop_last();
        let before = newest_of(t);
        law_newest_is_not_surpassed(t);
        let k = t.index_of(before);
        assert(v[k] == before);
        assert(v[v.len() - 1] == v.last());
        assert forall|i: int| 0 <= i < v.len() implies !newer_text(
            #[trigger] v[i],
            newest_of(v),
        ) by {
            law_newer_is_an_order(v.last(), v.last(), before);
            if i < t.len() {
                assert(t[i] == v[i]);
                law_newer_is_an_order(v[i], v.last(), before);
            }
        }
    }
}

/// A file that several releases share is put down to one of them: to the installed
/// one where it is among them, else to one that none of the others is newer than.
pub proof fn law_files_are_put_down_to_a_match(
    installed: Option<Seq<char>>,
    matches: Seq<Seq<char>>,
)
    requires
        matches.len() > 0,
    ensures
        matches.contains(attributed(installed, matches)),
        installed is Some && matches.contains(installed->0) ==> attributed(installed, matches)
            == installed->0,
        !(installed is Some && matches.contains(installed->0)) ==> forall|i: int|
            0 <= i < matches.len() ==> !newer_text(
                #[trigger] matches[i],
                attributed(installed, matches),
            ),
{
    law_newest_is_not_surpassed(matches);
}

/// A release of the catalog ships a file at this path, in the form in which paths
/// are compared, with this digest.
pub open spec fn release_has(
    rec: VersionEntry,
    lock: Map<Seq<char>, LockedAsset>,
    key: Seq<char>,
    sha: Seq<char>,
) -> bool {
    exists|a: int, f: int|
        #![trigger lock[rec.assets@[a]@].files@[f]]
        0 <= a < rec.assets@.len() && lock.dom().contains(rec.assets@[a]@) && 0 <= f
            < lock[rec.assets@[a]@].files@.len() && path_key(
            deployed_as(rec.postinstall, lock[rec.assets@[a]@].files@[f].path@),
        ) == key && lock[rec.assets@[a]@].files@[f].sha256@ == sha
}

proof fn lemma_files_of_assets(
    assets: Seq<String>,
    lock: Map<Seq<char>, LockedAsset>,
    post: Option<PostInstall>,
    x: (Seq<char>, Seq<char>),
)
    ensures
        files_of_assets(assets, lock, post).contains(x) <==> exists|a: int, f: int|
            #![trigger lock[assets[a]@].files@[f]]
            0 <= a < assets.len() && lock.dom().contains(assets[a]@) && 0 <= f
                < lock[assets[a]@].files@.len() && x == (
                deployed_as(post, lock[assets[a]@].files@[f].path@),
                lock[assets[a]@].files@[f].sha256@,
            ),
    decreases assets.len(),
{
    if assets.len() > 0 {
        let t = assets.drop_last();
        let l = assets.len() - 1;
        let b = files_of_assets(t, lock, post);
        let all = files_of_assets(assets, lock, post);
        let u = assets.last()@;
        lemma_files_of_assets(t, lock, post, x);
        assert(assets[l] == assets.last());
        if b.contains(x) {
            let (a, f) = choose|a: int, f: int|
                #![trigger lock[t[a]@].files@[f]]
                0 <= a < t.len() && lock.dom().contains(t[a]@) && 0 <= f
                    < lock[t[a]@].files@.len() && x == (
                    deployed_as(post, lock[t[a]@].files@[f].path@),
                    lock[t[a]@].files@[f].sha256@,
                );
            assert(assets[a] == t[a]);
            assert(lock[assets[a]@].files@[f] == lock[t[a]@].files@[f]);
            let i = b.index_of(x);
            assert(all[i] == x);
        }
        if all.contains(x) && !b.contains(x) {
            let i = all.index_of(x);
            if i < b.len() {
                assert(b[i] == x);
            }
            let f = i - b.len();
            assert(deployed_files(lock[u].files@, post)[f] == x);
            assert(lock[assets[l]@].files@[f] == lock[u].files@[f]);
        }
        if exists|a: int, f: int|
            #![trigger lock[assets[a]@].files@[f]]
            0 <= a < assets.len() && lock.dom().contains(assets[a]@) && 0 <= f
                < lock[assets[a]@].files@.len() && x == (
                deployed_as(post, lock[assets[a]@].files@[f].path@),
                lock[assets[a]@].files@[f].sha256@,
            ) {
            let (a, f) = choose|a: int, f: int|
                #![trigger lock[assets[a]@].files@[f]]
                0 <= a < assets.len() && lock.dom().contains(assets[a]@) && 0 <= f
                    < lock[assets[a]@].files@.len() && x == (
                    deployed_as(post, lock[assets[a]@].files@[f].path@),
                    lock[assets[a]@].files@[f].sha256@,
                );
            if a < l {
                assert(t[a] == assets[a]);
                assert(lock[t[a]@].files@[f] == lock[assets[a]@].files@[f]);
                assert(b.contains(x));
            } else {
                assert(deployed_files(lock[u].files@, post)[f] == x);
                assert(all[b.len() + f] == x);
            }
        }
    }
}

proof fn lemma_release_has(
    rec: VersionEntry,
    lock: Map<Seq<char>, LockedAsset>,
    key: Seq<char>,
    sha: Seq<char>,
)
    ensures
        owned(files_of_assets(rec.assets@, lock, rec.postinstall), key, Some(sha)) <==> release_has(
            rec,
            lock,
            key,
            sha,
        ),
{
    let v = files_of_assets(rec.assets@, lock, rec.postinstall);
    if owned(v, key, Some(sha)) {
        let i = choose|i: int|
            0 <= i < v.len() && path_key((#[trigger] v[i]).0) == key && Some(sha) == Some(v[i].1);
        assert(v.contains(v[i]));
        lemma_files_of_assets(rec.assets@, lock, rec.postinstall, v[i]);
    }
    if release_has(rec, lock, key, sha) {
        let (a, f) = choose|a: int, f: int|
            #![trigger lock[rec.assets@[a]@].files@[f]]
            0 <= a < rec.assets@.len() && lock.dom().contains(rec.assets@[a]@) && 0 <= f
                < lock[rec.assets@[a]@].files@.len() && path_key(
                deployed_as(rec.postinstall, lock[rec.assets@[a]@].files@[f].path@),
            ) == key && lock[rec.assets@[a]@].files@[f].sha256@ == sha;
        let x = (
            deployed_as(rec.postinstall, lock[rec.assets@[a]@].files@[f].path@),
            lock[rec.assets@[a]@].files@[f].sha256@,
        );
        lemma_files_of_assets(rec.assets@, lock, rec.postinstall, x);
        let i = v.index_of(x);
        assert(path_key(v[i].0) == key);
    }
}

/// A file belongs to exactly the versions of the releases, of those that count in
/// the game, that ship it at its path with its digest, in an archive whose digests
/// are recorded.
pub proof fn law_files_tell_their_versions(
    recs: Seq<VersionEntry>,
    lock: Map<Seq<char>, LockedAsset>,
    game: Option<Seq<char>>,
    key: Seq<char>,
    sha: Seq<char>,
    v: Seq<char>,
)
    ensures
        matches_of(releases(recs, lock, game), key, sha).contains(v) <==> exists|r: int|
            0 <= r < recs.len() && (#[trigger] recs[r]).version@ == v && (game is None
                || recs[r].games@.len() == 0 || lists(recs[r].games@, game->0)) && release_has(
                recs[r],
                lock,
                key,
                sha,
            ),
    decreases recs.len(),
{
    if recs.len() > 0 {
        let t = recs.drop_last();
        let l = recs.len() - 1;
        let rec = recs.last();
        let files = files_of_assets(rec.assets@, lock, rec.postinstall);
        let b = releases(t, lock, game);
        let all = releases(recs, lock, game);
        let mb = matches_of(b, key, sha);
        law_files_tell_their_versions(t, lock, game, key, sha, v);
        lemma_release_has(rec, lock, key, sha);
        assert(recs[l] == rec);
        assert forall|r: int| 0 <= r < l implies #[trigger] recs[r] == t[r] by {}
        let here = in_game(rec, game) && owned(files, key, Some(sha));
        if in_game(rec, game) && files.len() > 0 {
            let x = ReleaseFiles { version: rec.version@, files };
            assert(all.drop_last() =~= b);
            assert(all.last() == x);
        } else {
            assert(all == b);
        }
        let m = matches_of(all, key, sha);
        assert(m == if here {
            mb.push(rec.version@)
        } else {
            mb
        });
        if here {
            assert(m[mb.len() as int] == rec.version@);
        }
        if mb.contains(v) {
            let i = mb.index_of(v);
            assert(m[i] == v);
            let r = choose|r: int|
                0 <= r < t.len() && (#[trigger] t[r]).version@ == v && (game is None
                    || t[r].games@.len() == 0 || lists(t[r].games@, game->0)) && release_has(
                    t[r],
                    lock,
                    key,
                    sha,
                );
            assert(recs[r] == t[r]);
        }
        if m.contains(v) && !mb.contains(v) {
            let i = m.index_of(v);
            if i < mb.len() {
                assert(mb[i] == v);
            }
            assert(here && v == rec.version@);
            assert(recs[l].version@ == v);
        }
        if exists|r: int|
            0 <= r < recs.len() && (#[trigger] recs[r]).version@ == v && (game is None
                || recs[r].games@.len() == 0 || lists(recs[r].games@, game->0)) && release_has(
                recs[r],
                lock,
                key,
                sha,
            ) {
            let r = choose|r: int|
                0 <= r < recs.len() && (#[trigger] recs[r]).version@ == v && (game is None
                    || recs[r].games@.len() == 0 || lists(recs[r].games@, game->0)) && release_has(
                    recs[r],
                    lock,
                    key,
                    sha,
                );
            if r < l {
                assert(t[r] == recs[r]);
                assert(mb.contains(v));
            }
        }
    }
}

/// One of the releases has a file at this path.
pub open spec fn some_release_has(rel: Seq<ReleaseFiles>, key: Seq<char>) -> bool {
    exists|r: int, f: int|
        #![trigger rel[r].files[f]]
        0 <= r < rel.len() && 0 <= f < rel[r].files.len() && path_key(rel[r].files[f].0) == key
}

proof fn lemma_joined_once_has(known: Seq<Seq<char>>, more: Seq<Seq<char>>, x: Seq<char>)
    ensures
        joined_once(known, more).contains(x) <==> known.contains(x) || more.contains(x),
        known.no_duplicates() ==> joined_once(known, more).no_duplicates(),
    decreases more.len(),
{
    if more.len() > 0 {
        let t = more.drop_last();
        let l = more.last();
        let b = joined_once(known, t);
        let j = joined_once(known, more);
        lemma_joined_once_has(known, t, x);
        assert(more[more.len() - 1] == l);
        if t.contains(x) {
            let i = t.index_of(x);
            assert(more[i] == x);
        }
        if more.contains(x) && x != l {
            let i = more.index_of(x);
            assert(t[i] == x);
        }
        if !b.contains(l) {
            assert(j[b.len() as int] == l);
            if b.contains(x) {
                let i = b.index_of(x);
                assert(j[i] == x);
            }
            if j.contains(x) && x != l {
                let i = j.index_of(x);
                assert(b[i] == x);
            }
        }
    }
}

proof fn lemma_all_paths(rel: Seq<ReleaseFiles>, key: Seq<char>)
    ensures
        all_paths(rel).contains(key) <==> some_release_has(rel, key),
    decreases rel.len(),
{
    if rel.len() > 0 {
        let t = rel.drop_last();
        let l = rel.len() - 1;
        let k = keys_of_files(rel.last().files);
        lemma_all_paths(t, key);
        lemma_joined_once_has(all_paths(t), k, key);
        assert(rel[l] == rel.last());
        if some_release_has(t, key) {
            let (r, f) = choose|r: int, f: int|
                #![trigger t[r].files[f]]
                0 <= r < t.len() && 0 <= f < t[r].files.len() && path_key(t[r].files[f].0) == key;
            assert(rel[r].files[f] == t[r].files[f]);
        }
        if k.contains(key) {
            let f = k.index_of(key);
            assert(path_key(rel[l].files[f].0) == key);
        }
        if some_release_has(rel, key) {
            let (r, f) = choose|r: int, f: int|
                #![trigger rel[r].files[f]]
                0 <= r < rel.len() && 0 <= f < rel[r].files.len() && path_key(rel[r].files[f].0)
                    == key;
            if r < l {
                assert(t[r].files[f] == rel[r].files[f]);
            } else {
                assert(k[f] == key);
            }
        }
    }
}

proof fn lemma_versions_found(
    keys: Seq<Seq<char>>,
    rel: Seq<ReleaseFiles>,
    tree: Map<Seq<char>, String>,
    installed: Option<Seq<char>>,
    v: Seq<char>,
)
    ensures
        versions_found(keys, rel, tree, installed).no_duplicates(),
        versions_found(keys, rel, tree, installed).contains(v) <==> exists|i: int|
            0 <= i < keys.len() && counted_file(tree, #[trigger] keys[i]) && matches_of(
                rel,
                keys[i],
                tree[keys[i]]@,
            ).len() > 0 && label_at(rel, tree, keys[i], installed) == v,
    decreases keys.len(),
{
    if keys.len() > 0 {
        let t = keys.drop_last();
        let l = keys.len() - 1;
        let b = versions_found(t, rel, tree, installed);
        let w = versions_found(keys, rel, tree, installed);
        lemma_versions_found(t, rel, tree, installed, v);
        assert(keys[l] == keys.last());
        assert forall|i: int| 0 <= i < l implies #[trigger] keys[i] == t[i] by {}
        if b.contains(v) {
            let i = choose|i: int|
                0 <= i < t.len() && counted_file(tree, #[trigger] t[i]) && matches_of(
                    rel,
                    t[i],
                    tree[t[i]]@,
                ).len() > 0 && label_at(rel, tree, t[i], installed) == v;
            assert(keys[i] == t[i]);
            let n = b.index_of(v);
            assert(w[n] == v);
        }
        if w.len() > b.len() {
            assert(w[b.len() as int] == label_at(rel, tree, keys[l], installed));
            if w.contains(v) && !b.contains(v) {
                let n = w.index_of(v);
                if n < b.len() {
                    assert(b[n] == v);
                }
            }
        }
        if exists|i: int|
            0 <= i < keys.len() && counted_file(tree, #[trigger] keys[i]) && matches_of(
                rel,
                keys[i],
                tree[keys[i]]@,
            ).len() > 0 && label_at(rel, tree, keys[i], installed) == v {
            let i = choose|i: int|
                0 <= i < keys.len() && counted_file(tree, #[trigger] keys[i]) && matches_of(
                    rel,
                    keys[i],
                    tree[keys[i]]@,
                ).len() > 0 && label_at(rel, tree, keys[i], installed) == v;
            if i < l {
                assert(t[i] == keys[i]);
                assert(b.contains(v));
            }
        }
    }
}

proof fn lemma_version_placed_has(s: Seq<Seq<char>>, x: Seq<char>, y: Seq<char>)
    ensures
        version_placed(s, x).contains(y) <==> s.contains(y) || x == y,
        version_placed(s, x).len() == s.len() + 1,
    decreases s.len(),
{
    let w = version_placed(s, x);
    if s.len() > 0 && newer_text(x, s.last()) {
        let t = s.drop_last();
        let b = version_placed(t, x);
        lemma_version_placed_has(t, x, y);
        assert(s[s.len() - 1] == s.last());
        assert(w[b.len() as int] == s.last());
        if b.contains(y) {
            let i = b.index_of(y);
            assert(w[i] == y);
        }
        if w.contains(y) && y != s.last() {
            let i = w.index_of(y);
            assert(b[i] == y);
        }
        if t.contains(y) {
            let i = t.index_of(y);
            assert(s[i] == y);
        }
        if s.contains(y) && y != s.last() {
            let i = s.index_of(y);
            assert(t[i] == y);
        }
    } else {
        assert(w[s.len() as int] == x);
        if s.contains(y) {
            let i = s.index_of(y);
            assert(w[i] == y);
        }
        if w.contains(y) && x != y {
            let i = w.index_of(y);
            assert(s[i] == y);
        }
    }
}

spec fn falling(s: Seq<Seq<char>>) -> bool {
    forall|i: int, j: int|
        0 <= i < j < s.len() ==> !newer_text(#[trigger] s[j], #[trigger] s[i])
}

proof fn lemma_version_placed_falls(s: Seq<Seq<char>>, x: Seq<char>)
    requires
        falling(s),
    ensures
        falling(version_placed(s, x)),
    decreases s.len(),
{
    let w = version_placed(s, x);
    if s.len() > 0 && newer_text(x, s.last()) {
        let t = s.drop_last();
        let b = version_placed(t, x);
        let e = s.last();
        assert(falling(t)) by {
            assert forall|i: int, j: int| 0 <= i < j < t.len() implies !newer_text(
                #[trigger] t[j],
                #[trigger] t[i],
            ) by {
                assert(t[j] == s[j] && t[i] == s[i]);
            }
        }
        lemma_version_placed_falls(t, x);
        assert forall|i: int, j: int| 0 <= i < j < w.len() implies !newer_text(
            #[trigger] w[j],
            #[trigger] w[i],
        ) by {
            assert(w[i] == b[i]);
            if j < b.len() {
                assert(w[j] == b[j]);
            } else {
                assert(w[j] == e);
                lemma_version_placed_has(t, x, b[i]);
                assert(b.contains(b[i]));
                if b[i] == x {
                    law_newer_is_an_order(x, e, x);
                } else {
                    let k = t.index_of(b[i]);
                    assert(s[k] == b[i]);
                    assert(s[s.len() - 1] == e);
                }
            }
        }
    } else {
        assert forall|i: int, j: int| 0 <= i < j < w.len() implies !newer_text(
            #[trigger] w[j],
            #[trigger] w[i],
        ) by {
            assert(w[i] == s[i]);
            if j < s.len() {
                assert(w[j] == s[j]);
            } else {
                assert(w[j] == x);
                let e = s.last();
                assert(s[s.len() - 1] == e);
                if newer_text(x, s[i]) {
                    law_newer_is_an_order(s[i], e, x);
                    law_newer_is_an_order(x, s[i], e);
                    law_newer_is_an_order(e, x, s[i]);
                    law_newer_is_an_order(x, e, s[i]);
                    if i < s.len() - 1 {
                        assert(!newer_text(s[s.len() - 1], s[i]));
                    }
                }
            }
        }
    }
}

/// Sorting versions keeps each of them and adds none, and none stands behind one
/// that it is newer than.
pub proof fn law_newest_come_first(s: Seq<Seq<char>>)
    ensures
        newest_first(s).len() == s.len(),
        forall|x: Seq<char>| #[trigger] newest_first(s).contains(x) <==> s.contains(x),
        forall|i: int, j: int|
            0 <= i < j < s.len() ==> !newer_text(
                #[trigger] newest_first(s)[j],
                #[trigger] newest_first(s)[i],
            ),
    decreases s.len(),
{
    if s.len() > 0 {
        let t = s.drop_last();
        let b = newest_first(t);
        law_newest_come_first(t);
        assert(falling(b));
        lemma_version_placed_falls(b, s.last());
        lemma_version_placed_has(b, s.last(), s.last());
        assert forall|x: Seq<char>| #[trigger] newest_first(s).contains(x) <==> s.contains(x) by {
            lemma_version_placed_has(b, s.last(), x);
            assert(s[s.len() - 1] == s.last());
            if t.contains(x) {
                let i = t.index_of(x);
                assert(s[i] == x);
            }
            if s.contains(x) && x != s.last() {
                let i = s.index_of(x);
                assert(t[i] == x);
            }
        }
        assert(falling(newest_first(s)));
    }
}

/// How a package stands goes by the files that are there at paths of its releases,
/// other than those that users edit: nothing is told where there is none and the
/// package is not recorded; a file that no release ships makes it unknown; files
/// that are put down to different versions make it multiple; and else it is
/// installed, in the version that they are put down to.
pub proof fn law_how_a_package_stands(
    r: Option<WhichRow>,
    tree: Map<Seq<char>, String>,
    s: Seq<PackageEntry>,
    rel: Seq<ReleaseFiles>,
    id: Seq<char>,
    installed: Option<Seq<char>>,
    managed: bool,
)
    requires
        summary(r, tree, s, rel, id, installed, managed),
    ensures
        r is None ==> !managed && forall|k: Seq<char>| !#[trigger] stands_at(rel, tree, k),
        r matches Some(x) ==> {
            &&& x.id@ == id
            &&& x.managed == managed
            &&& x.status@ == "not-found"@ || x.status@ == "unknown"@ || x.status@ == "multiple"@
                || x.status@ == "installed"@
            &&& x.status@ == "not-found"@ ==> managed && forall|k: Seq<char>|
                !#[trigger] stands_at(rel, tree, k)
            &&& x.status@ == "unknown"@ <==> exists|k: Seq<char>| #[trigger]
                stands_at(rel, tree, k) && matches_of(rel, k, tree[k]@).len() == 0
            &&& x.status@ == "multiple"@ ==> exists|k: Seq<char>, l: Seq<char>|
                #![trigger stands_at(rel, tree, k), stands_at(rel, tree, l)]
                stands_at(rel, tree, k) && stands_at(rel, tree, l) && attributed(
                    installed,
                    matches_of(rel, k, tree[k]@),
                ) != attributed(installed, matches_of(rel, l, tree[l]@))
            &&& x.status@ == "installed"@ ==> (exists|k: Seq<char>| #[trigger]
                stands_at(rel, tree, k)) && forall|k: Seq<char>| #[trigger]
                stands_at(rel, tree, k) ==> attributed(installed, matches_of(rel, k, tree[k]@))
                    == x.version@
        },
{
    reveal_strlit("installed");
    reveal_strlit("multiple");
    reveal_strlit("unknown");
    reveal_strlit("not-found");
    assert("installed"@[0] == 'i');
    assert("not-found"@[0] == 'n');
    assert("installed"@.len() == 9);
    assert("not-found"@.len() == 9);
    assert("multiple"@.len() == 8);
    assert("unknown"@.len() == 7);
    let keys = all_paths(rel);
    let found = versions_found(keys, rel, tree, installed);
    let there = some_there(keys, tree);
    let unknown = some_unknown(keys, rel, tree);
    assert forall|k: Seq<char>| #[trigger] stands_at(rel, tree, k) implies there && exists|i: int|
        0 <= i < keys.len() && #[trigger] keys[i] == k by {
        lemma_all_paths(rel, k);
        let i = keys.index_of(k);
        assert(keys[i] == k);
        assert(counted_file(tree, keys[i]));
    }
    assert forall|i: int|
        0 <= i < keys.len() && counted_file(tree, #[trigger] keys[i]) implies stands_at(
        rel,
        tree,
        keys[i],
    ) by {
        assert(keys.contains(keys[i]));
        lemma_all_paths(rel, keys[i]);
    }
    if unknown {
        let i = choose|i: int|
            0 <= i < keys.len() && counted_file(tree, #[trigger] keys[i]) && matches_of(
                rel,
                keys[i],
                tree[keys[i]]@,
            ).len() == 0;
        assert(stands_at(rel, tree, keys[i]));
    }
    if exists|k: Seq<char>| #[trigger]
        stands_at(rel, tree, k) && matches_of(rel, k, tree[k]@).len() == 0 {
        let k = choose|k: Seq<char>| #[trigger]
            stands_at(rel, tree, k) && matches_of(rel, k, tree[k]@).len() == 0;
        let i = choose|i: int| 0 <= i < keys.len() && #[trigger] keys[i] == k;
        assert(counted_file(tree, keys[i]));
        assert(unknown);
    }
    lemma_versions_found(keys, rel, tree, installed, found[0]);
    if there && !unknown {
        if found.len() > 1 {
            let a = found[0];
            let b = found[1];
            assert(found.contains(a));
            assert(found.contains(b));
            assert(a != b);
            lemma_versions_found(keys, rel, tree, installed, a);
            lemma_versions_found(keys, rel, tree, installed, b);
            let i = choose|i: int|
                0 <= i < keys.len() && counted_file(tree, #[trigger] keys[i]) && matches_of(
                    rel,
                    keys[i],
                    tree[keys[i]]@,
                ).len() > 0 && label_at(rel, tree, keys[i], installed) == a;
            let j = choose|j: int|
                0 <= j < keys.len() && counted_file(tree, #[trigger] keys[j]) && matches_of(
                    rel,
                    keys[j],
                    tree[keys[j]]@,
                ).len() > 0 && label_at(rel, tree, keys[j], installed) == b;
            assert(stands_at(rel, tree, keys[i]));
            assert(stands_at(rel, tree, keys[j]));
        } else {
            let i = choose|i: int| 0 <= i < keys.len() && counted_file(tree, #[trigger] keys[i]);
            assert(stands_at(rel, tree, keys[i]));
            let v = label_at(rel, tree, keys[i], installed);
            lemma_versions_found(keys, rel, tree, installed, v);
            assert(found.contains(v));
            law_newest_come_first(found);
            assert(newest_first(found).contains(newest_first(found)[0]));
            assert forall|k: Seq<char>| #[trigger] stands_at(rel, tree, k) implies attributed(
                installed,
                matches_of(rel, k, tree[k]@),
            ) == newest_first(found)[0] by {
                let j = choose|j: int| 0 <= j < keys.len() && #[trigger] keys[j] == k;
                assert(counted_file(tree, keys[j]));
                assert(matches_of(rel, keys[j], tree[keys[j]]@).len() > 0);
                lemma_versions_found(
                    keys,
                    rel,
                    tree,
                    installed,
                    label_at(rel, tree, k, installed),
                );
                assert(found.contains(label_at(rel, tree, k, installed)));
            }
        }
    }
}

/// At a path of one of the releases is a file that counts: its name does not end
/// in `.ini`.
pub open spec fn stands_at(
    rel: Seq<ReleaseFiles>,
    tree: Map<Seq<char>, String>,
    key: Seq<char>,
) -> bool {
    some_release_has(rel, key) && tree.dom().contains(key) && !ends(lowercase(key), ".ini"@)
}

/// Every package is told of that is recorded or has a file in the game directory,
/// once for each time that it is asked for, and no other.
pub proof fn law_packages_are_told_in_order(
    rows: Seq<WhichRow>,
    ids: Seq<Seq<char>>,
    tree: Map<Seq<char>, String>,
    s: Seq<PackageEntry>,
    lock: Map<Seq<char>, LockedAsset>,
    game: Option<Seq<char>>,
    installs: Map<Seq<char>, Install>,
)
    requires
        all_told(rows, ids, tree, s, lock, game, installs),
    ensures
        rows.len() <= ids.len(),
        forall|n: int|
            0 <= n < rows.len() ==> ids.contains((#[trigger] rows[n]).id@) && (rows[n].managed
                <==> installs.dom().contains(rows[n].id@)),
        forall|i: int|
            0 <= i < ids.len() && (installs.dom().contains(#[trigger] ids[i]) || (exists|
                k: Seq<char>,
            | #[trigger]
                stands_at(releases_of(s, lock, ids[i], game), tree, k))) ==> told_of(rows, ids[i]),
    decreases ids.len(),
{
    if ids.len() > 0 {
        let t = ids.drop_last();
        let l = ids.len() - 1;
        let id = ids.last();
        let rel = releases_of(s, lock, id, game);
        let v = recorded(installs, id);
        assert(ids[l] == id);
        let none = summary(None, tree, s, rel, id, v, v is Some);
        let b = if none {
            rows
        } else {
            rows.drop_last()
        };
        law_packages_are_told_in_order(b, t, tree, s, lock, game, installs);
        if none {
            law_how_a_package_stands(None, tree, s, rel, id, v, v is Some);
        } else {
            law_how_a_package_stands(Some(rows.last()), tree, s, rel, id, v, v is Some);
            assert(rows[rows.len() - 1] == rows.last());
        }
        assert forall|n: int| 0 <= n < rows.len() implies ids.contains((#[trigger] rows[n]).id@) && (
        rows[n].managed <==> installs.dom().contains(rows[n].id@)) by {
            if n < b.len() {
                assert(rows[n] == b[n]);
                let i = t.index_of(b[n].id@);
                assert(ids[i] == rows[n].id@);
            }
        }
        assert forall|i: int|
            0 <= i < ids.len() && (installs.dom().contains(#[trigger] ids[i]) || (exists|
                k: Seq<char>,
            | #[trigger]
                stands_at(releases_of(s, lock, ids[i], game), tree, k))) implies told_of(
            rows,
            ids[i],
        ) by {
            if i < l {
                assert(t[i] == ids[i]);
                assert(told_of(b, t[i]));
                let n = choose|n: int| 0 <= n < b.len() && (#[trigger] b[n]).id@ == t[i];
                assert(rows[n] == b[n]);
            } else {
                assert(!none);
                assert(rows[rows.len() - 1].id@ == id);
            }
        }
    }
}

/// One of the rows is about the package.
pub open spec fn told_of(rows: Seq<WhichRow>, id: Seq<char>) -> bool {
    exists|n: int| 0 <= n < rows.len() && (#[trigger] rows[n]).id@ == id
}

proof fn lemma_spelled(files: Seq<(Seq<char>, Seq<char>)>, key: Seq<char>)
    ensures
        spelled(files, key) is Some <==> owned(files, key, None),
        spelled(files, key) is Some ==> path_key(spelled(files, key)->0) == key,
    decreases files.len(),
{
    if files.len() > 0 {
        let t = files.drop_last();
        lemma_spelled(t, key);
        assert(files[files.len() - 1] == files.last());
        if owned(t, key, None) {
            let i = choose|i: int| 0 <= i < t.len() && path_key((#[trigger] t[i]).0) == key;
            assert(path_key(files[i].0) == key);
        }
        if owned(files, key, None) {
            let i = choose|i: int| 0 <= i < files.len() && path_key((#[trigger] files[i]).0) == key;
            if i < t.len() {
                assert(path_key(t[i].0) == key);
            }
        }
    }
}

proof fn lemma_spelling(rel: Seq<ReleaseFiles>, key: Seq<char>)
    ensures
        spelling(rel, key) is Some <==> exists|r: int|
            0 <= r < rel.len() && owned((#[trigger] rel[r]).files, key, None),
        spelling(rel, key) is Some ==> path_key(spelling(rel, key)->0) == key,
    decreases rel.len(),
{
    if rel.len() > 0 {
        let t = rel.drop_last();
        lemma_spelling(t, key);
        lemma_spelled(rel.last().files, key);
        assert(rel[rel.len() - 1] == rel.last());
        assert forall|r: int| 0 <= r < t.len() implies #[trigger] rel[r] == t[r] by {}
        if exists|r: int| 0 <= r < t.len() && owned((#[trigger] t[r]).files, key, None) {
            let r = choose|r: int| 0 <= r < t.len() && owned((#[trigger] t[r]).files, key, None);
            assert(rel[r] == t[r]);
        }
        if exists|r: int| 0 <= r < rel.len() && owned((#[trigger] rel[r]).files, key, None) {
            let r = choose|r: int|
                0 <= r < rel.len() && owned((#[trigger] rel[r]).files, key, None);
            if r < t.len() {
                assert(t[r] == rel[r]);
            }
        }
    }
}

proof fn lemma_of_version(rel: Seq<ReleaseFiles>, v: Seq<char>, x: ReleaseFiles)
    ensures
        of_version(rel, v).contains(x) <==> rel.contains(x) && same_release(x.version, v),
    decreases rel.len(),
{
    if rel.len() > 0 {
        let t = rel.drop_last();
        let b = of_version(t, v);
        let w = of_version(rel, v);
        lemma_of_version(t, v, x);
        assert(rel[rel.len() - 1] == rel.last());
        if t.contains(x) {
            let i = t.index_of(x);
            assert(rel[i] == x);
        }
        if rel.contains(x) && x != rel.last() {
            let i = rel.index_of(x);
            assert(t[i] == x);
        }
        if same_release(rel.last().version, v) {
            assert(w[b.len() as int] == rel.last());
            if b.contains(x) {
                let i = b.index_of(x);
                assert(w[i] == x);
            }
            if w.contains(x) && x != rel.last() {
                let i = w.index_of(x);
                assert(b[i] == x);
            }
        }
    }
}

/// With the version asked for, exactly its releases are looked at, however the
/// version is spelled.
pub proof fn law_only_the_asked_version_is_looked_at(
    rel: Seq<ReleaseFiles>,
    v: Seq<char>,
    x: ReleaseFiles,
)
    ensures
        looked_at(rel, Some(v)).contains(x) <==> rel.contains(x) && (x.version == v || (loose(
            x.version,
        ) is Some && loose(x.version) == loose(v))),
        looked_at(rel, None) == rel,
{
    lemma_of_version(rel, v, x);
}

/// A release of this version has a file at the path.
pub open spec fn version_has(rel: Seq<ReleaseFiles>, at: Seq<char>, key: Seq<char>) -> bool {
    exists|r: int, f: int|
        #![trigger rel[r].files[f]]
        0 <= r < rel.len() && 0 <= f < rel[r].files.len() && path_key(rel[r].files[f].0) == key
            && same_release(rel[r].version, at)
}

proof fn lemma_version_has(rel: Seq<ReleaseFiles>, at: Seq<char>, key: Seq<char>)
    ensures
        spelling(of_version(rel, at), key) is Some <==> version_has(rel, at, key),
        spelling(rel, key) is Some <==> some_release_has(rel, key),
        spelling(rel, key) is Some ==> path_key(spelling(rel, key)->0) == key,
{
    let w = of_version(rel, at);
    lemma_spelling(w, key);
    lemma_spelling(rel, key);
    if spelling(w, key) is Some {
        let r = choose|r: int| 0 <= r < w.len() && owned((#[trigger] w[r]).files, key, None);
        assert(w.contains(w[r]));
        lemma_of_version(rel, at, w[r]);
        let n = rel.index_of(w[r]);
        let f = choose|f: int|
            0 <= f < w[r].files.len() && path_key((#[trigger] w[r].files[f]).0) == key;
        assert(rel[n].files[f] == w[r].files[f]);
    }
    if version_has(rel, at, key) {
        let (r, f) = choose|r: int, f: int|
            #![trigger rel[r].files[f]]
            0 <= r < rel.len() && 0 <= f < rel[r].files.len() && path_key(rel[r].files[f].0) == key
                && same_release(rel[r].version, at);
        assert(rel.contains(rel[r]));
        lemma_of_version(rel, at, rel[r]);
        let n = w.index_of(rel[r]);
        assert(owned(w[n].files, key, None));
    }
    if spelling(rel, key) is Some {
        let r = choose|r: int| 0 <= r < rel.len() && owned((#[trigger] rel[r]).files, key, None);
        let f = choose|f: int|
            0 <= f < rel[r].files.len() && path_key((#[trigger] rel[r].files[f]).0) == key;
        assert(path_key(rel[r].files[f].0) == key);
    }
    if some_release_has(rel, key) {
        let (r, f) = choose|r: int, f: int|
            #![trigger rel[r].files[f]]
            0 <= r < rel.len() && 0 <= f < rel[r].files.len() && path_key(rel[r].files[f].0) == key;
        assert(owned(rel[r].files, key, None));
    }
}

/// A line tells this of the file at the path.
pub open spec fn says(
    lines: Seq<(Seq<char>, Seq<char>)>,
    key: Seq<char>,
    label: Seq<char>,
) -> bool {
    exists|n: int|
        0 <= n < lines.len() && path_key((#[trigger] lines[n]).0) == key && lines[n].1 == label
}

proof fn lemma_details(
    keys: Seq<Seq<char>>,
    rel: Seq<ReleaseFiles>,
    tree: Map<Seq<char>, String>,
    installed: Option<Seq<char>>,
    at: Seq<char>,
)
    ensures
        ({
            let d = details(keys, rel, tree, installed, at);
            &&& forall|i: int|
                0 <= i < keys.len() && spelling(rel, #[trigger] keys[i]) is Some && told(
                    rel,
                    tree,
                    keys[i],
                    installed,
                    at,
                ) is Some ==> says(d, keys[i], told(rel, tree, keys[i], installed, at)->0)
            &&& forall|n: int|
                0 <= n < d.len() ==> keys.contains(path_key((#[trigger] d[n]).0)) && told(
                    rel,
                    tree,
                    path_key(d[n].0),
                    installed,
                    at,
                ) == Some(d[n].1)
        }),
    decreases keys.len(),
{
    if keys.len() > 0 {
        let t = keys.drop_last();
        let l = keys.len() - 1;
        let k = keys.last();
        let b = details(t, rel, tree, installed, at);
        let d = details(keys, rel, tree, installed, at);
        lemma_details(t, rel, tree, installed, at);
        lemma_version_has(rel, at, k);
        assert(keys[l] == k);
        if d.len() > b.len() {
            let path = spelling(rel, k)->0;
            let w = swapped_char(path, '/', '\\');
            assert(swapped_char(w, '/', '\\') =~= w);
            assert(path_key(w) == k);
            assert(d[b.len() as int].0 == w);
        }
        assert forall|i: int|
            0 <= i < keys.len() && spelling(rel, #[trigger] keys[i]) is Some && told(
                rel,
                tree,
                keys[i],
                installed,
                at,
            ) is Some implies says(d, keys[i], told(rel, tree, keys[i], installed, at)->0) by {
            if i < l {
                assert(t[i] == keys[i]);
                let label = told(rel, tree, keys[i], installed, at)->0;
                assert(says(b, t[i], label));
                let n = choose|n: int|
                    0 <= n < b.len() && path_key((#[trigger] b[n]).0) == t[i] && b[n].1 == label;
                assert(d[n] == b[n]);
            } else {
                assert(path_key(d[b.len() as int].0) == k);
            }
        }
        assert forall|n: int| 0 <= n < d.len() implies keys.contains(
            path_key((#[trigger] d[n]).0),
        ) && told(rel, tree, path_key(d[n].0), installed, at) == Some(d[n].1) by {
            if n < b.len() {
                assert(d[n] == b[n]);
                let i = t.index_of(path_key(b[n].0));
                assert(keys[i] == path_key(d[n].0));
            }
        }
    }
}

/// Every file that is there at a path of one of the releases is told of: with the
/// version that it is put down to, or as unknown where no release ships it. A file
/// that is not there is told to be missing exactly where a release of the version
/// that ought to be there has it. Nothing else is told.
pub proof fn law_files_are_told_one_by_one(
    rel: Seq<ReleaseFiles>,
    tree: Map<Seq<char>, String>,
    installed: Option<Seq<char>>,
    at: Seq<char>,
    key: Seq<char>,
)
    requires
        some_release_has(rel, key),
    ensures
        ({
            let d = details(sorted(all_paths(rel)), rel, tree, installed, at);
            let m = matches_of(rel, key, tree[key]@);
            &&& tree.dom().contains(key) && m.len() > 0 ==> says(d, key, attributed(installed, m))
            &&& tree.dom().contains(key) && m.len() == 0 ==> says(d, key, "unknown"@)
            &&& !tree.dom().contains(key) && version_has(rel, at, key) ==> says(
                d,
                key,
                "missing"@,
            )
            &&& !tree.dom().contains(key) && !version_has(rel, at, key) ==> forall|n: int|
                0 <= n < d.len() ==> path_key((#[trigger] d[n]).0) != key
        }),
        forall|n: int|
            0 <= n < details(sorted(all_paths(rel)), rel, tree, installed, at).len()
                ==> some_release_has(
                rel,
                path_key(
                    (#[trigger] details(sorted(all_paths(rel)), rel, tree, installed, at)[n]).0,
                ),
            ),
{
    let keys = sorted(all_paths(rel));
    let d = details(keys, rel, tree, installed, at);
    lemma_all_paths(rel, key);
    crate::restoring::lemma_sorted_contains(all_paths(rel), key);
    lemma_details(keys, rel, tree, installed, at);
    lemma_version_has(rel, at, key);
    let i = keys.index_of(key);
    assert(keys[i] == key);
    assert forall|n: int| 0 <= n < d.len() implies some_release_has(
        rel,
        path_key((#[trigger] d[n]).0),
    ) by {
        let k = path_key(d[n].0);
        assert(keys.contains(k));
        crate::restoring::lemma_sorted_contains(all_paths(rel), k);
        lemma_all_paths(rel, k);
    }
}

/// A newer release is hinted at only beside an installed package of chef's, and
/// what else is told of a package stays.
pub proof fn law_hints_stand_beside_own_packages(r: WhichRow, newest: Option<Seq<char>>)
    ensures
        hinted(r, newest) != r.notes@ ==> r.managed && r.status@ == "installed"@ && newest is Some,
        newest is Some && r.version@ == newest->0 && loose(newest->0) is None ==> hinted(r, newest)
            == r.notes@,
        r.managed && r.status@ == "installed"@ && newest is Some && loose(r.version@) is None
            && newest->0 != r.version@ ==> hinted(r, newest) == "update available: "@ + r.version@
            + " -> "@ + newest->0 + " - run 'chef update "@ + r.id@ + "'"@,
{
}

/// Every package is listed in its section: those that chef installed in one, those
/// that the user did in the other.
pub proof fn law_packages_are_listed_in_their_section(
    rows: Seq<WhichRow>,
    s: Seq<PackageEntry>,
    managed: bool,
)
    ensures
        section_cells(rows, s, managed).len() + section_cells(rows, s, !managed).len()
            == rows.len(),
        forall|i: int|
            0 <= i < rows.len() && (#[trigger] rows[i]).managed == managed ==> section_cells(
                rows,
                s,
                managed,
            ).contains(
                (Cells {
                    name: title_or_id(s, rows[i].id@),
                    version: table_version(rows[i].version@),
                    notes: rows[i].notes@,
                }),
            ),
    decreases rows.len(),
{
    if rows.len() > 0 {
        let t = rows.drop_last();
        let l = rows.len() - 1;
        let b = section_cells(t, s, managed);
        let w = section_cells(rows, s, managed);
        law_packages_are_listed_in_their_section(t, s, managed);
        assert(rows[l] == rows.last());
        assert forall|i: int|
            0 <= i < rows.len() && (#[trigger] rows[i]).managed == managed implies w.contains(
            (Cells {
                name: title_or_id(s, rows[i].id@),
                version: table_version(rows[i].version@),
                notes: rows[i].notes@,
            }),
        ) by {
            let x = Cells {
                name: title_or_id(s, rows[i].id@),
                version: table_version(rows[i].version@),
                notes: rows[i].notes@,
            };
            if i < l {
                assert(t[i] == rows[i]);
                let n = b.index_of(x);
                assert(w[n] == x);
            } else {
                assert(w[b.len() as int] == x);
            }
        }
    }
}

/// A package in a game directory is told with who installed it, its id and its
/// name, its version, how it stands, the versions of its files, and the notes.
pub proof fn law_packages_are_told_in_full(r: WhichRow, name: Seq<char>)
    ensures
        shows(which_row_document(r, name), "section"@, Json::Text(if r.managed { "chef"@ } else { "user"@ })),
        shows(which_row_document(r, name), "id"@, Json::Text(r.id@)),
        shows(which_row_document(r, name), "name"@, Json::Text(name)),
        shows(which_row_document(r, name), "version"@, Json::Text(r.version@)),
        shows(which_row_document(r, name), "status"@, Json::Text(r.status@)),
        shows(which_row_document(r, name), "versions"@, text_list(texts(r.versions@))),
        shows(which_row_document(r, name), "notes"@, Json::Text(r.notes@)),
{
    reveal_strlit("section");
    reveal_strlit("id");
    reveal_strlit("name");
    reveal_strlit("version");
    reveal_strlit("status");
    reveal_strlit("versions");
    reveal_strlit("notes");
    assert("section"@.len() == 7);
    assert("id"@.len() == 2);
    assert("name"@.len() == 4);
    assert("version"@.len() == 7);
    assert("status"@.len() == 6);
    assert("versions"@.len() == 8);
    assert("notes"@.len() == 5);
    assert("section"@[0] == 's');
    assert("version"@[0] == 'v');
    let f = seq![
        ("section"@, Json::Text(section(r.managed))),
        ("id"@, Json::Text(r.id@)),
        ("name"@, Json::Text(name)),
        ("version"@, Json::Text(r.version@)),
        ("status"@, Json::Text(r.status@)),
        ("versions"@, text_list(texts(r.versions@))),
        ("notes"@, Json::Text(r.notes@)),
    ];
    lemma_shows(f, 0);
    lemma_shows(f, 1);
    lemma_shows(f, 2);
    lemma_shows(f, 3);
    lemma_shows(f, 4);
    lemma_shows(f, 5);
    lemma_shows(f, 6);
}

/// The version whose files ought to be there is the one asked for, else the
/// installed one, else one that a file which is there is put down to, and no such
/// is newer.
pub proof fn law_what_ought_to_be_there(
    rel: Seq<ReleaseFiles>,
    tree: Map<Seq<char>, String>,
    installed: Option<Seq<char>>,
    asked: Option<Seq<char>>,
    k: Seq<char>,
)
    ensures
        asked is Some ==> anchor(rel, tree, installed, asked) == asked->0,
        asked is None && installed is Some ==> anchor(rel, tree, installed, asked) == installed->0,
        asked is None && installed is None && stands_at(rel, tree, k) && matches_of(
            rel,
            k,
            tree[k]@,
        ).len() > 0 ==> !newer_text(
            attributed(None, matches_of(rel, k, tree[k]@)),
            anchor(rel, tree, installed, asked),
        ),
{
    if asked is None && installed is None && stands_at(rel, tree, k) && matches_of(
        rel,
        k,
        tree[k]@,
    ).len() > 0 {
        let keys = all_paths(rel);
        let found = versions_found(keys, rel, tree, None);
        let v = label_at(rel, tree, k, None);
        lemma_all_paths(rel, k);
        let i = keys.index_of(k);
        assert(keys[i] == k);
        assert(counted_file(tree, keys[i]));
        lemma_versions_found(keys, rel, tree, None, v);
        assert(found.contains(v));
        let n = found.index_of(v);
        law_newest_is_not_surpassed(found);
        assert(found[n] == v);
    }
}

/// Every line of a list is in its text, in columns.
pub proof fn law_every_line_is_listed(c: Seq<Cells>, w1: nat, w2: nat, i: int)
    requires
        0 <= i < c.len(),
    ensures
        exists|front: Seq<char>, back: Seq<char>|
            cells_lines(c, w1, w2) == #[trigger] (front + cells_line(c[i], w1, w2) + back),
        begins(cells_line(c[i], w1, w2), c[i].name),
    decreases c.len(),
{
    let t = c.drop_last();
    let last = cells_line(c.last(), w1, w2);
    let x = cells_line(c[i], w1, w2);
    assert(x.subrange(0, c[i].name.len() as int) =~= c[i].name);
    if i < t.len() {
        law_every_line_is_listed(t, w1, w2, i);
        let (f, b) = choose|f: Seq<char>, b: Seq<char>|
            cells_lines(t, w1, w2) == #[trigger] (f + cells_line(t[i], w1, w2) + b);
        assert(cells_lines(c, w1, w2) =~= f + x + (b + last));
    } else {
        assert(cells_lines(c, w1, w2) =~= cells_lines(t, w1, w2) + x + Seq::<char>::empty());
    }
}

/// What is told of a game directory names the directory, then the packages that
/// chef installed, then those of the user; a section without packages is left out.
pub proof fn law_sections_follow_each_other(
    dir: Seq<char>,
    rows: Seq<WhichRow>,
    s: Seq<PackageEntry>,
    own: Seq<Cells>,
    theirs: Seq<Cells>,
)
    requires
        own == section_cells(rows, s, true),
        theirs == section_cells(rows, s, false),
    ensures
        own.len() > 0 && theirs.len() > 0 ==> which_told(dir, None, rows, s) == "\ngame dir: "@ + dir
            + "\n"@ + "\n"@ + "PACKAGES INSTALLED BY CHEF"@ + "\n"@ + cells_text(own) + "\n"@
            + "PACKAGES INSTALLED BY USER"@ + "\n"@ + cells_text(theirs),
        own.len() == 0 && theirs.len() == 0 ==> which_told(dir, None, rows, s) == "\ngame dir: "@
            + dir + "\n"@,
{
    let none = Seq::<char>::empty();
    if own.len() > 0 && theirs.len() > 0 {
        assert(which_told(dir, None, rows, s) =~= "\ngame dir: "@ + dir + "\n"@ + "\n"@
            + "PACKAGES INSTALLED BY CHEF"@ + "\n"@ + cells_text(own) + "\n"@
            + "PACKAGES INSTALLED BY USER"@ + "\n"@ + cells_text(theirs));
    }
    if own.len() == 0 && theirs.len() == 0 {
        assert(which_told(dir, None, rows, s) =~= "\ngame dir: "@ + dir + "\n"@);
    }
}

/// What is told of a game directory as a document is told package by package, in
/// order, each with its name.
pub proof fn law_every_package_is_told(
    dir: Seq<char>,
    game: Option<Seq<char>>,
    rows: Seq<WhichRow>,
    s: Seq<PackageEntry>,
    i: int,
) -> (told: Seq<Json>)
    requires
        0 <= i < rows.len(),
    ensures
        shows(which_document(dir, game, rows, s), "dir"@, Json::Text(dir)),
        shows(which_document(dir, game, rows, s), "game"@, text_or_null(game)),
        shows(which_document(dir, game, rows, s), "installs"@, Json::List(told)),
        told.len() == rows.len(),
        told[i] == which_row_document(rows[i], title_or_id(s, rows[i].id@)),
{
    reveal_strlit("dir");
    reveal_strlit("game");
    reveal_strlit("installs");
    assert("dir"@.len() == 3 && "game"@.len() == 4 && "installs"@.len() == 8);
    let v = rows.map_values(|r: WhichRow| which_row_document(r, title_or_id(s, r.id@)));
    let f = seq![
        ("dir"@, Json::Text(dir)),
        ("game"@, text_or_null(game)),
        ("installs"@, Json::List(v)),
    ];
    lemma_shows(f, 0);
    lemma_shows(f, 1);
    lemma_shows(f, 2);
    v
}

} // verus!
