//! Which release a file belongs to, by its digest or its name.

use vstd::prelude::*;
use crate::catalog::{LockFile, LockedAsset, LockedFile, PackageEntry, PackagesFile, VersionEntry};
use crate::order::{increasing, lt};
use crate::resolution::{counts_in, in_game, opt_text};
use crate::strmap::StrMap;
use crate::text::{base_name, basename, lists, lowercase, own, same, texts, to_lower};

verus! {

/// A file of a release: its digest, the id of the package, the version and the
/// path in the archive.
#[verifier::ext_equal]
pub struct Known {
    pub sha256: Seq<char>,
    pub id: Seq<char>,
    pub version: Seq<char>,
    pub path: Seq<char>,
}

/// What the entries of an index say.
pub open spec fn known(v: Seq<(String, String, String, String)>) -> Seq<Known> {
    v.map_values(
        |e: (String, String, String, String)|
            Known { sha256: e.0@, id: e.1@, version: e.2@, path: e.3@ },
    )
}

/// The files of an archive.
pub open spec fn archive_files(
    files: Seq<LockedFile>,
    id: Seq<char>,
    version: Seq<char>,
) -> Seq<Known> {
    files.map_values(
        |f: LockedFile| Known { sha256: f.sha256@, id, version, path: f.path@ },
    )
}

/// The files of archives, behind `start`.
pub open spec fn with_assets(
    start: Seq<Known>,
    assets: Seq<String>,
    lock: Map<Seq<char>, LockedAsset>,
    id: Seq<char>,
    version: Seq<char>,
) -> Seq<Known>
    decreases assets.len(),
{
    if assets.len() == 0 {
        start
    } else {
        let before = with_assets(start, assets.drop_last(), lock, id, version);
        let url = assets.last()@;
        if lock.dom().contains(url) {
            before + archive_files(lock[url].files@, id, version)
        } else {
            before
        }
    }
}

/// The files of releases that count in the game, behind `start`.
pub open spec fn with_releases(
    start: Seq<Known>,
    recs: Seq<VersionEntry>,
    lock: Map<Seq<char>, LockedAsset>,
    id: Seq<char>,
    game: Option<Seq<char>>,
) -> Seq<Known>
    decreases recs.len(),
{
    if recs.len() == 0 {
        start
    } else {
        let before = with_releases(start, recs.drop_last(), lock, id, game);
        let rec = recs.last();
        if in_game(rec, game) {
            with_assets(before, rec.assets@, lock, id, rec.version@)
        } else {
            before
        }
    }
}

/// The files of all releases that count in the game, in the order of the
/// catalog.
pub open spec fn all_known(
    pkgs: Seq<PackageEntry>,
    lock: Map<Seq<char>, LockedAsset>,
    game: Option<Seq<char>>,
) -> Seq<Known>
    decreases pkgs.len(),
{
    if pkgs.len() == 0 {
        Seq::empty()
    } else {
        with_releases(
            all_known(pkgs.drop_last(), lock, game),
            pkgs.last().versions@,
            lock,
            pkgs.last().id@,
            game,
        )
    }
}

fn add_files(
    out: &mut Vec<(String, String, String, String)>,
    files: &Vec<LockedFile>,
    id: &str,
    version: &str,
)
    ensures
        known(final(out)@) == known(old(out)@) + archive_files(files@, id@, version@),
{
    let ghost start = known(out@);
    let ghost want = archive_files(files@, id@, version@);
    let mut i: usize = 0;
    proof {
        assert(start + want.take(0) =~= start);
    }
    while i < files.len()
        invariant
            i <= files@.len(),
            want == archive_files(files@, id@, version@),
            known(out@) == start + want.take(i as int),
        decreases files.len() - i,
    {
        let ghost before = out@;
        out.push((files[i].sha256.clone(), own(id), own(version), files[i].path.clone()));
        proof {
            assert(known(out@) =~= known(before).push(want[i as int]));
            assert(start + want.take(i + 1) =~= (start + want.take(i as int)).push(
                want[i as int],
            ));
        }
        i = i + 1;
    }
    proof {
        assert(want.take(i as int) =~= want);
    }
}

fn add_assets(
    out: &mut Vec<(String, String, String, String)>,
    assets: &Vec<String>,
    lock: &LockFile,
    id: &str,
    version: &str,
)
    ensures
        known(final(out)@) == with_assets(known(old(out)@), assets@, lock.assets@, id@, version@),
{
    let ghost start = known(out@);
    let mut i: usize = 0;
    proof {
        assert(assets@.take(0) =~= Seq::<String>::empty());
    }
    while i < assets.len()
        invariant
            i <= assets@.len(),
            known(out@) == with_assets(
                start,
                assets@.take(i as int),
                lock.assets@,
                id@,
                version@,
            ),
        decreases assets.len() - i,
    {
        proof {
            assert(assets@.take(i + 1).drop_last() =~= assets@.take(i as int));
            assert(assets@.take(i + 1).last() == assets@[i as int]);
        }
        if let Some(locked) = lock.assets.get(assets[i].as_str()) {
            add_files(out, &locked.files, id, version);
        }
        i = i + 1;
    }
    proof {
        assert(assets@.take(i as int) =~= assets@);
    }
}

fn add_releases(
    out: &mut Vec<(String, String, String, String)>,
    pkg: &PackageEntry,
    lock: &LockFile,
    game: Option<&str>,
)
    ensures
        known(final(out)@) == with_releases(
            known(old(out)@),
            pkg.versions@,
            lock.assets@,
            pkg.id@,
            opt_text(game),
        ),
{
    let ghost start = known(out@);
    let ghost recs = pkg.versions@;
    let mut i: usize = 0;
    proof {
        assert(recs.take(0) =~= Seq::<VersionEntry>::empty());
    }
    while i < pkg.versions.len()
        invariant
            i <= recs.len(),
            recs == pkg.versions@,
            known(out@) == with_releases(
                start,
                recs.take(i as int),
                lock.assets@,
                pkg.id@,
                opt_text(game),
            ),
        decreases recs.len() - i,
    {
        let rec = &pkg.versions[i];
        proof {
            assert(recs.take(i + 1).drop_last() =~= recs.take(i as int));
            assert(recs.take(i + 1).last() == *rec);
        }
        if counts_in(rec, game) {
            add_assets(out, &rec.assets, lock, pkg.id.as_str(), rec.version.as_str());
        }
        i = i + 1;
    }
    proof {
        assert(recs.take(i as int) =~= recs);
    }
}

fn index_for(pkgs: &PackagesFile, lock: &LockFile, game: Option<&str>) -> (out: Vec<
    (String, String, String, String),
>)
    ensures
        known(out@) == all_known(pkgs.packages@, lock.assets@, opt_text(game)),
{
    let ghost s = pkgs.packages@;
    let mut out: Vec<(String, String, String, String)> = Vec::new();
    let mut i: usize = 0;
    proof {
        assert(s.take(0) =~= Seq::<PackageEntry>::empty());
        assert(known(out@) =~= Seq::<Known>::empty());
    }
    while i < pkgs.packages.len()
        invariant
            i <= s.len(),
            s == pkgs.packages@,
            known(out@) == all_known(s.take(i as int), lock.assets@, opt_text(game)),
        decreases s.len() - i,
    {
        proof {
            assert(s.take(i + 1).drop_last() =~= s.take(i as int));
            assert(s.take(i + 1).last() == s[i as int]);
        }
        add_releases(&mut out, &pkgs.packages[i], lock, game);
        i = i + 1;
    }
    proof {
        assert(s.take(i as int) =~= s);
    }
    out
}

/// Every file of every release whose digest is recorded: digest, id of the
/// package, version, path in the archive.
pub fn payload_index(pkgs: &PackagesFile, lock: &LockFile) -> (out: Vec<
    (String, String, String, String),
>)
    ensures
        known(out@) == all_known(pkgs.packages@, lock.assets@, None),
{
    index_for(pkgs, lock, None)
}

/// The package with this id ships a file whose name, in small letters, is `base`.
pub open spec fn ships(index: Seq<Known>, base: Seq<char>, id: Seq<char>) -> bool {
    base.len() > 0 && exists|i: int|
        0 <= i < index.len() && lowercase(base_name((#[trigger] index[i]).path)) == base
            && index[i].id == id
}

/// The map says of each file name, in small letters, which packages ship it, in
/// order.
pub open spec fn tells(m: Map<Seq<char>, Vec<String>>, index: Seq<Known>) -> bool {
    &&& forall|base: Seq<char>, id: Seq<char>|
        #[trigger] ships(index, base, id) <==> m.dom().contains(base) && lists(m[base]@, id)
    &&& forall|base: Seq<char>| #[trigger]
        m.dom().contains(base) ==> increasing(texts(m[base]@)) && m[base]@.len() > 0
}

/// Puts the id into an increasing list, unless it is in it.
fn add_id(v: &mut Vec<String>, id: &str)
    requires
        increasing(texts(old(v)@)),
    ensures
        increasing(texts(final(v)@)),
        final(v)@.len() > 0,
        forall|x: Seq<char>| #[trigger] lists(final(v)@, x) <==> lists(old(v)@, x) || x == id@,
{
    let mut j: usize = v.len();
    let ghost s = texts(v@);
    while j > 0 && crate::order::comes_before(id, v[j - 1].as_str())
        invariant
            j <= v@.len(),
            v@ == old(v)@,
            s == texts(v@),
            forall|k: int| j <= k < s.len() ==> lt(id@, #[trigger] s[k]),
        decreases j,
    {
        proof {
            assert(s[j - 1] == v@[j - 1]@);
        }
        j = j - 1;
    }
    if j > 0 && same(v[j - 1].as_str(), id) {
        return;
    }
    let ghost before = v@;
    proof {
        if j > 0 {
            assert(s[j - 1] == v@[j - 1]@);
            crate::order::lemma_lt_total(s[j - 1], id@);
        }
    }
    v.insert(j, own(id));
    proof {
        let n = texts(v@);
        assert(n =~= s.insert(j as int, id@));
        assert forall|a: int, b: int| 0 <= a < b < n.len() implies lt(
            #[trigger] n[a],
            #[trigger] n[b],
        ) by {
            let oa = if a < j { a } else { a - 1 };
            let ob = if b < j { b } else { b - 1 };
            if b == j {
                assert(n[a] == s[a]);
                if a < j - 1 {
                    assert(lt(s[a], s[j - 1]));
                    crate::order::lemma_lt_transitive(s[a], s[j - 1], id@);
                }
            } else if a != j {
                assert(n[a] == s[oa] && n[b] == s[ob]);
            } else {
                assert(n[b] == s[ob]);
            }
        }
        assert forall|x: Seq<char>| #[trigger] lists(v@, x) <==> lists(before, x) || x == id@ by {
            if lists(before, x) {
                let k = choose|k: int| 0 <= k < before.len() && #[trigger] before[k]@ == x;
                let m = if k < j { k } else { k + 1 };
                assert(v@[m]@ == x);
            }
            if x == id@ {
                assert(v@[j as int]@ == x);
            }
            if lists(v@, x) {
                let m = choose|m: int| 0 <= m < v@.len() && #[trigger] v@[m]@ == x;
                if m != j {
                    let k = if m < j { m } else { m - 1 };
                    assert(before[k]@ == x);
                }
            }
        }
    }
}

/// Which packages ship a file of a name: the name in small letters, and the ids
/// in order. With a game, only releases for it count.
pub fn payload_basenames(pkgs: &PackagesFile, lock: &LockFile, game: Option<&str>) -> (m: StrMap<
    Vec<String>,
>)
    ensures
        tells(m@, all_known(pkgs.packages@, lock.assets@, opt_text(game))),
{
    let index = index_for(pkgs, lock, game);
    let ghost ks = known(index@);
    let mut m: StrMap<Vec<String>> = StrMap::new();
    let mut i: usize = 0;
    proof {
        assert(tells(m@, ks.take(0)));
    }
    while i < index.len()
        invariant
            i <= index@.len(),
            ks == known(index@),
            tells(m@, ks.take(i as int)),
        decreases index.len() - i,
    {
        let id: &str = index[i].1.as_str();
        let base = basename(index[i].3.as_str());
        let low = to_lower(base.as_str());
        let ghost old_m = m@;
        let ghost was = ks.take(i as int);
        let ghost now = ks.take(i + 1);
        let ghost bv = low@;
        proof {
            assert(now[i as int] == ks[i as int]);
            assert(ks[i as int].id == id@);
            assert(lowercase(base_name(ks[i as int].path)) == bv);
            assert forall|b: Seq<char>, x: Seq<char>| #[trigger] ships(now, b, x) <==> ships(
                was,
                b,
                x,
            ) || (b.len() > 0 && b == bv && x == id@) by {
                if ships(was, b, x) {
                    let k = choose|k: int|
                        0 <= k < was.len() && lowercase(base_name((#[trigger] was[k]).path)) == b
                            && was[k].id == x;
                    assert(now[k] == was[k]);
                }
                if ships(now, b, x) {
                    let k = choose|k: int|
                        0 <= k < now.len() && lowercase(base_name((#[trigger] now[k]).path)) == b
                            && now[k].id == x;
                    if k < i {
                        assert(was[k] == now[k]);
                    }
                }
                if b.len() > 0 && b == bv && x == id@ {
                    assert(lowercase(base_name(now[i as int].path)) == b);
                }
            }
        }
        if !low.as_str().is_empty() {
            let mut ids: Vec<String> = match m.remove(low.as_str()) {
                Some(v) => v,
                None => Vec::new(),
            };
            let ghost before_ids = ids@;
            proof {
                assert(increasing(texts(ids@)));
            }
            add_id(&mut ids, id);
            m.insert(low, ids);
            proof {
                assert forall|b: Seq<char>, x: Seq<char>| #[trigger] ships(now, b, x)
                    <==> m@.dom().contains(b) && lists(m@[b]@, x) by {
                    assert(ships(was, b, x) <==> old_m.dom().contains(b) && lists(old_m[b]@, x));
                    if b == bv {
                        assert(m@[b]@ == ids@);
                        assert(lists(ids@, x) <==> lists(before_ids, x) || x == id@);
                        if old_m.dom().contains(b) {
                            assert(before_ids == old_m[b]@);
                        } else {
                            assert(before_ids.len() == 0);
                            assert(!lists(before_ids, x));
                        }
                    }
                }
                assert(tells(m@, now));
            }
        } else {
            proof {
                assert forall|b: Seq<char>, x: Seq<char>| #[trigger] ships(now, b, x)
                    <==> m@.dom().contains(b) && lists(m@[b]@, x) by {
                    assert(ships(was, b, x) <==> old_m.dom().contains(b) && lists(old_m[b]@, x));
                }
                assert(tells(m@, now));
            }
        }
        i = i + 1;
    }
    proof {
        assert(ks.take(i as int) =~= ks);
    }
    m
}

/// The releases with a file of this digest, by id and version, in the order of
/// the index.
pub open spec fn releases_with(index: Seq<Known>, sha256: Seq<char>) -> Seq<(Seq<char>, Seq<char>)>
    decreases index.len(),
{
    if index.len() == 0 {
        Seq::empty()
    } else if index.last().sha256 == sha256 {
        releases_with(index.drop_last(), sha256).push((index.last().id, index.last().version))
    } else {
        releases_with(index.drop_last(), sha256)
    }
}

/// The views of a list of pairs of texts.
pub open spec fn str_pairs(v: Seq<(&str, &str)>) -> Seq<(Seq<char>, Seq<char>)> {
    v.map_values(|p: (&str, &str)| (p.0@, p.1@))
}

/// The releases with a file of this digest. One alone tells the version; several
/// mean that the file is the same in all of them.
pub fn identify_digests<'a>(
    index: &'a Vec<(String, String, String, String)>,
    sha256: &str,
) -> (out: Vec<(&'a str, &'a str)>)
    ensures
        str_pairs(out@) == releases_with(known(index@), sha256@),
{
    let ghost ks = known(index@);
    let mut out: Vec<(&'a str, &'a str)> = Vec::new();
    let mut i: usize = 0;
    proof {
        assert(ks.take(0) =~= Seq::<Known>::empty());
        assert(str_pairs(out@) =~= Seq::<(Seq<char>, Seq<char>)>::empty());
    }
    while i < index.len()
        invariant
            i <= index@.len(),
            ks == known(index@),
            str_pairs(out@) == releases_with(ks.take(i as int), sha256@),
        decreases index.len() - i,
    {
        proof {
            assert(ks.take(i + 1).drop_last() =~= ks.take(i as int));
            assert(ks.take(i + 1).last() == ks[i as int]);
        }
        if same(index[i].0.as_str(), sha256) {
            let ghost before = out@;
            out.push((index[i].1.as_str(), index[i].2.as_str()));
            proof {
                assert(str_pairs(out@) =~= str_pairs(before).push(
                    (index@[i as int].1@, index@[i as int].2@),
                ));
            }
        }
        i = i + 1;
    }
    proof {
        assert(ks.take(i as int) =~= ks);
    }
    out
}

/// A release of the package with this id that counts in the game has a file in
/// one of its archives whose name, in small letters, is `base`.
pub open spec fn in_archive_of(
    pkgs: Seq<PackageEntry>,
    lock: Map<Seq<char>, LockedAsset>,
    game: Option<Seq<char>>,
    id: Seq<char>,
    base: Seq<char>,
) -> bool {
    base.len() > 0 && exists|p: int, v: int, a: int, f: int|
        #![trigger lock[pkgs[p].versions@[v].assets@[a]@].files@[f]]
        shipped_at(pkgs, lock, game, p, v, a, f) && pkgs[p].id@ == id && lowercase(
            base_name(lock[pkgs[p].versions@[v].assets@[a]@].files@[f].path@),
        ) == base
}

/// This is the place of a file: in the archive `a` of the release `v` of the
/// package `p`, which counts in the game, and whose digests are recorded.
pub open spec fn shipped_at(
    pkgs: Seq<PackageEntry>,
    lock: Map<Seq<char>, LockedAsset>,
    game: Option<Seq<char>>,
    p: int,
    v: int,
    a: int,
    f: int,
) -> bool {
    &&& 0 <= p < pkgs.len()
    &&& 0 <= v < pkgs[p].versions@.len()
    &&& game matches Some(g) ==> pkgs[p].versions@[v].games@.len() == 0 || lists(
        pkgs[p].versions@[v].games@,
        g,
    )
    &&& 0 <= a < pkgs[p].versions@[v].assets@.len()
    &&& lock.dom().contains(pkgs[p].versions@[v].assets@[a]@)
    &&& 0 <= f < lock[pkgs[p].versions@[v].assets@[a]@].files@.len()
}

proof fn lemma_with_assets(
    start: Seq<Known>,
    assets: Seq<String>,
    lock: Map<Seq<char>, LockedAsset>,
    id: Seq<char>,
    version: Seq<char>,
    k: Known,
)
    ensures
        with_assets(start, assets, lock, id, version).contains(k) <==> start.contains(k) || (k.id
            == id && k.version == version && exists|a: int, f: int|
            #![trigger lock[assets[a]@].files@[f]]
            0 <= a < assets.len() && lock.dom().contains(assets[a]@) && 0 <= f
                < lock[assets[a]@].files@.len() && k.sha256 == lock[assets[a]@].files@[f].sha256@
                && k.path == lock[assets[a]@].files@[f].path@),
    decreases assets.len(),
{
    if assets.len() > 0 {
        let t = assets.drop_last();
        let l = assets.len() - 1;
        lemma_with_assets(start, t, lock, id, version, k);
        let b = with_assets(start, t, lock, id, version);
        let n = with_assets(start, assets, lock, id, version);
        let url = assets[l]@;
        let more = archive_files(lock[url].files@, id, version);
        if n.contains(k) {
            let at = n.index_of(k);
            if at < b.len() {
                assert(b[at] == k);
                if !start.contains(k) {
                    let (a, f) = choose|a: int, f: int|
                        #![trigger lock[t[a]@].files@[f]]
                        0 <= a < t.len() && lock.dom().contains(t[a]@) && 0 <= f
                            < lock[t[a]@].files@.len() && k.sha256
                            == lock[t[a]@].files@[f].sha256@ && k.path
                            == lock[t[a]@].files@[f].path@;
                    assert(assets[a] == t[a]);
                    assert(lock[assets[a]@].files@[f].path@ == k.path);
                }
            } else {
                let f = at - b.len();
                assert(more[f] == k);
                assert(lock[assets[l]@].files@[f].path@ == k.path);
            }
        }
        if b.contains(k) {
            assert(n[b.index_of(k)] == k);
        }
        if k.id == id && k.version == version && exists|a: int, f: int|
            #![trigger lock[assets[a]@].files@[f]]
            0 <= a < assets.len() && lock.dom().contains(assets[a]@) && 0 <= f
                < lock[assets[a]@].files@.len() && k.sha256 == lock[assets[a]@].files@[f].sha256@
                && k.path == lock[assets[a]@].files@[f].path@ {
            let (a, f) = choose|a: int, f: int|
                #![trigger lock[assets[a]@].files@[f]]
                0 <= a < assets.len() && lock.dom().contains(assets[a]@) && 0 <= f
                    < lock[assets[a]@].files@.len() && k.sha256
                    == lock[assets[a]@].files@[f].sha256@ && k.path
                    == lock[assets[a]@].files@[f].path@;
            if a < l {
                assert(t[a] == assets[a]);
                assert(lock[t[a]@].files@[f].path@ == k.path);
                assert(b.contains(k));
            } else {
                assert(more[f] =~= k);
                assert(n[b.len() + f] == k);
            }
        }
    }
}

spec fn in_release(
    rec: VersionEntry,
    lock: Map<Seq<char>, LockedAsset>,
    game: Option<Seq<char>>,
    k: Known,
) -> bool {
    (game matches Some(g) ==> rec.games@.len() == 0 || lists(rec.games@, g)) && k.version == rec.version@ && exists|
        a: int,
        f: int,
    |
        #![trigger lock[rec.assets@[a]@].files@[f]]
        0 <= a < rec.assets@.len() && lock.dom().contains(rec.assets@[a]@) && 0 <= f
            < lock[rec.assets@[a]@].files@.len() && k.sha256
            == lock[rec.assets@[a]@].files@[f].sha256@ && k.path
            == lock[rec.assets@[a]@].files@[f].path@
}

proof fn lemma_with_releases(
    start: Seq<Known>,
    recs: Seq<VersionEntry>,
    lock: Map<Seq<char>, LockedAsset>,
    id: Seq<char>,
    game: Option<Seq<char>>,
    k: Known,
)
    ensures
        with_releases(start, recs, lock, id, game).contains(k) <==> start.contains(k) || (k.id
            == id && exists|v: int|
            0 <= v < recs.len() && in_release(#[trigger] recs[v], lock, game, k)),
    decreases recs.len(),
{
    if recs.len() > 0 {
        let t = recs.drop_last();
        let l = recs.len() - 1;
        let rec = recs[l];
        lemma_with_releases(start, t, lock, id, game, k);
        let b = with_releases(start, t, lock, id, game);
        lemma_with_assets(b, rec.assets@, lock, id, rec.version@, k);
        assert(in_game(rec, game) <==> (game matches Some(g) ==> rec.games@.len() == 0 || lists(rec.games@, g)));
        if exists|v: int| 0 <= v < t.len() && in_release(#[trigger] t[v], lock, game, k) {
            let v = choose|v: int| 0 <= v < t.len() && in_release(#[trigger] t[v], lock, game, k);
            assert(recs[v] == t[v]);
        }
        if exists|v: int| 0 <= v < recs.len() && in_release(#[trigger] recs[v], lock, game, k) {
            let v = choose|v: int|
                0 <= v < recs.len() && in_release(#[trigger] recs[v], lock, game, k);
            if v < l {
                assert(recs[v] == t[v]);
            }
        }
    }
}

proof fn lemma_all_known(
    pkgs: Seq<PackageEntry>,
    lock: Map<Seq<char>, LockedAsset>,
    game: Option<Seq<char>>,
    k: Known,
)
    ensures
        all_known(pkgs, lock, game).contains(k) <==> exists|p: int, v: int|
            0 <= p < pkgs.len() && pkgs[p].id@ == k.id && 0 <= v < pkgs[p].versions@.len()
                && in_release(#[trigger] pkgs[p].versions@[v], lock, game, k),
    decreases pkgs.len(),
{
    if pkgs.len() > 0 {
        let t = pkgs.drop_last();
        let l = pkgs.len() - 1;
        lemma_all_known(t, lock, game, k);
        lemma_with_releases(
            all_known(t, lock, game),
            pkgs[l].versions@,
            lock,
            pkgs[l].id@,
            game,
            k,
        );
        if all_known(t, lock, game).contains(k) {
            let (p, v) = choose|p: int, v: int|
                0 <= p < t.len() && t[p].id@ == k.id && 0 <= v < t[p].versions@.len()
                    && in_release(#[trigger] t[p].versions@[v], lock, game, k);
            assert(in_release(pkgs[p].versions@[v], lock, game, k));
        }
        if exists|p: int, v: int|
            0 <= p < pkgs.len() && pkgs[p].id@ == k.id && 0 <= v < pkgs[p].versions@.len()
                && in_release(#[trigger] pkgs[p].versions@[v], lock, game, k) {
            let (p, v) = choose|p: int, v: int|
                0 <= p < pkgs.len() && pkgs[p].id@ == k.id && 0 <= v < pkgs[p].versions@.len()
                    && in_release(#[trigger] pkgs[p].versions@[v], lock, game, k);
            if p < l {
                assert(in_release(t[p].versions@[v], lock, game, k));
            }
        }
    }
}

/// The index holds the files of all archives with recorded digests of all releases
/// that count in the game, each with its package and its version, and no others.
pub proof fn law_index_holds_every_file(
    pkgs: Seq<PackageEntry>,
    lock: Map<Seq<char>, LockedAsset>,
    game: Option<Seq<char>>,
    k: Known,
)
    ensures
        all_known(pkgs, lock, game).contains(k) <==> exists|p: int, v: int, a: int, f: int|
            #![trigger lock[pkgs[p].versions@[v].assets@[a]@].files@[f]]
            {
                &&& 0 <= p < pkgs.len()
                &&& 0 <= v < pkgs[p].versions@.len()
                &&& game matches Some(g) ==> pkgs[p].versions@[v].games@.len() == 0 || lists(
        pkgs[p].versions@[v].games@,
        g,
    )
                &&& 0 <= a < pkgs[p].versions@[v].assets@.len()
                &&& lock.dom().contains(pkgs[p].versions@[v].assets@[a]@)
                &&& 0 <= f < lock[pkgs[p].versions@[v].assets@[a]@].files@.len()
                &&& k.id == pkgs[p].id@
                &&& k.version == pkgs[p].versions@[v].version@
                &&& k.sha256 == lock[pkgs[p].versions@[v].assets@[a]@].files@[f].sha256@
                &&& k.path == lock[pkgs[p].versions@[v].assets@[a]@].files@[f].path@
            },
{
    lemma_all_known(pkgs, lock, game, k);
    if all_known(pkgs, lock, game).contains(k) {
        let (p, v) = choose|p: int, v: int|
            0 <= p < pkgs.len() && pkgs[p].id@ == k.id && 0 <= v < pkgs[p].versions@.len()
                && in_release(#[trigger] pkgs[p].versions@[v], lock, game, k);
        let rec = pkgs[p].versions@[v];
        let (a, f) = choose|a: int, f: int|
            #![trigger lock[rec.assets@[a]@].files@[f]]
            0 <= a < rec.assets@.len() && lock.dom().contains(rec.assets@[a]@) && 0 <= f
                < lock[rec.assets@[a]@].files@.len() && k.sha256
                == lock[rec.assets@[a]@].files@[f].sha256@ && k.path
                == lock[rec.assets@[a]@].files@[f].path@;
        assert(k.path == lock[pkgs[p].versions@[v].assets@[a]@].files@[f].path@);
    }
    if exists|p: int, v: int, a: int, f: int|
        #![trigger lock[pkgs[p].versions@[v].assets@[a]@].files@[f]]
        {
            &&& 0 <= p < pkgs.len()
            &&& 0 <= v < pkgs[p].versions@.len()
            &&& game matches Some(g) ==> pkgs[p].versions@[v].games@.len() == 0 || lists(
        pkgs[p].versions@[v].games@,
        g,
    )
            &&& 0 <= a < pkgs[p].versions@[v].assets@.len()
            &&& lock.dom().contains(pkgs[p].versions@[v].assets@[a]@)
            &&& 0 <= f < lock[pkgs[p].versions@[v].assets@[a]@].files@.len()
            &&& k.id == pkgs[p].id@
            &&& k.version == pkgs[p].versions@[v].version@
            &&& k.sha256 == lock[pkgs[p].versions@[v].assets@[a]@].files@[f].sha256@
            &&& k.path == lock[pkgs[p].versions@[v].assets@[a]@].files@[f].path@
        } {
        let (p, v, a, f) = choose|p: int, v: int, a: int, f: int|
            #![trigger lock[pkgs[p].versions@[v].assets@[a]@].files@[f]]
            {
                &&& 0 <= p < pkgs.len()
                &&& 0 <= v < pkgs[p].versions@.len()
                &&& game matches Some(g) ==> pkgs[p].versions@[v].games@.len() == 0 || lists(
        pkgs[p].versions@[v].games@,
        g,
    )
                &&& 0 <= a < pkgs[p].versions@[v].assets@.len()
                &&& lock.dom().contains(pkgs[p].versions@[v].assets@[a]@)
                &&& 0 <= f < lock[pkgs[p].versions@[v].assets@[a]@].files@.len()
                &&& k.id == pkgs[p].id@
                &&& k.version == pkgs[p].versions@[v].version@
                &&& k.sha256 == lock[pkgs[p].versions@[v].assets@[a]@].files@[f].sha256@
                &&& k.path == lock[pkgs[p].versions@[v].assets@[a]@].files@[f].path@
            };
        let rec = pkgs[p].versions@[v];
        assert(k.path == lock[rec.assets@[a]@].files@[f].path@);
        assert(in_release(pkgs[p].versions@[v], lock, game, k));
    }
}

/// A package is known by the names of exactly the files that its releases for the
/// game ship.
pub proof fn law_packages_are_known_by_their_files(
    pkgs: Seq<PackageEntry>,
    lock: Map<Seq<char>, LockedAsset>,
    game: Option<Seq<char>>,
    id: Seq<char>,
    base: Seq<char>,
)
    ensures
        ships(all_known(pkgs, lock, game), base, id) <==> in_archive_of(
            pkgs,
            lock,
            game,
            id,
            base,
        ),
{
    let index = all_known(pkgs, lock, game);
    if ships(index, base, id) {
        let i = choose|i: int|
            0 <= i < index.len() && lowercase(base_name((#[trigger] index[i]).path)) == base
                && index[i].id == id;
        let k = index[i];
        assert(index.contains(k));
        law_index_holds_every_file(pkgs, lock, game, k);
        let (p, v, a, f) = choose|p: int, v: int, a: int, f: int|
            #![trigger lock[pkgs[p].versions@[v].assets@[a]@].files@[f]]
            {
                &&& 0 <= p < pkgs.len()
                &&& 0 <= v < pkgs[p].versions@.len()
                &&& game matches Some(g) ==> pkgs[p].versions@[v].games@.len() == 0 || lists(
        pkgs[p].versions@[v].games@,
        g,
    )
                &&& 0 <= a < pkgs[p].versions@[v].assets@.len()
                &&& lock.dom().contains(pkgs[p].versions@[v].assets@[a]@)
                &&& 0 <= f < lock[pkgs[p].versions@[v].assets@[a]@].files@.len()
                &&& k.id == pkgs[p].id@
                &&& k.version == pkgs[p].versions@[v].version@
                &&& k.sha256 == lock[pkgs[p].versions@[v].assets@[a]@].files@[f].sha256@
                &&& k.path == lock[pkgs[p].versions@[v].assets@[a]@].files@[f].path@
            };
        assert(shipped_at(pkgs, lock, game, p, v, a, f));
        assert(lock[pkgs[p].versions@[v].assets@[a]@].files@[f].path@ == k.path);
    }
    if in_archive_of(pkgs, lock, game, id, base) {
        let (p, v, a, f) = choose|p: int, v: int, a: int, f: int|
            #![trigger lock[pkgs[p].versions@[v].assets@[a]@].files@[f]]
            shipped_at(pkgs, lock, game, p, v, a, f) && pkgs[p].id@ == id && lowercase(
                base_name(lock[pkgs[p].versions@[v].assets@[a]@].files@[f].path@),
            ) == base;
        let x = lock[pkgs[p].versions@[v].assets@[a]@].files@[f];
        let k = Known {
            sha256: x.sha256@,
            id,
            version: pkgs[p].versions@[v].version@,
            path: x.path@,
        };
        assert(lock[pkgs[p].versions@[v].assets@[a]@].files@[f].path@ == k.path);
        law_index_holds_every_file(pkgs, lock, game, k);
        let i = index.index_of(k);
        assert(index[i] == k);
    }
}

/// A file is recognised as one of exactly those releases that have a file with its
/// digest.
pub proof fn law_digests_tell_releases(index: Seq<Known>, sha256: Seq<char>, x: (Seq<char>, Seq<char>))
    ensures
        releases_with(index, sha256).contains(x) <==> exists|i: int|
            0 <= i < index.len() && (#[trigger] index[i]).sha256 == sha256 && index[i].id == x.0
                && index[i].version == x.1,
    decreases index.len(),
{
    if index.len() > 0 {
        let t = index.drop_last();
        let l = index.len() - 1;
        let b = releases_with(t, sha256);
        let w = releases_with(index, sha256);
        law_digests_tell_releases(t, sha256, x);
        assert(index[l] == index.last());
        assert forall|i: int| 0 <= i < l implies #[trigger] index[i] == t[i] by {}
        if b.contains(x) {
            let n = b.index_of(x);
            assert(w[n] == x);
            let i = choose|i: int|
                0 <= i < t.len() && (#[trigger] t[i]).sha256 == sha256 && t[i].id == x.0
                    && t[i].version == x.1;
            assert(index[i] == t[i]);
        }
        if w.len() > b.len() {
            assert(w[b.len() as int] == (index[l].id, index[l].version));
            if w.contains(x) && !b.contains(x) {
                let n = w.index_of(x);
                if n < b.len() {
                    assert(b[n] == x);
                }
            }
        }
        if exists|i: int|
            0 <= i < index.len() && (#[trigger] index[i]).sha256 == sha256 && index[i].id == x.0
                && index[i].version == x.1 {
            let i = choose|i: int|
                0 <= i < index.len() && (#[trigger] index[i]).sha256 == sha256 && index[i].id
                    == x.0 && index[i].version == x.1;
            if i < l {
                assert(t[i] == index[i]);
                assert(b.contains(x));
            }
        }
    }
}

/// The map of file names tells, of each name in small letters, exactly the packages
/// of the index that ship a file of that name, each once and in order.
pub proof fn law_file_names_tell_packages(
    m: Map<Seq<char>, Vec<String>>,
    index: Seq<Known>,
    base: Seq<char>,
    id: Seq<char>,
)
    requires
        tells(m, index),
        base.len() > 0,
    ensures
        (m.dom().contains(base) && lists(m[base]@, id)) <==> exists|i: int|
            0 <= i < index.len() && lowercase(base_name((#[trigger] index[i]).path)) == base
                && index[i].id == id,
        m.dom().contains(base) ==> forall|i: int, j: int|
            0 <= i < j < m[base]@.len() ==> crate::order::lt(
                (#[trigger] m[base]@[i])@,
                (#[trigger] m[base]@[j])@,
            ),
{
    assert(ships(index, base, id) <==> m.dom().contains(base) && lists(m[base]@, id));
    if m.dom().contains(base) {
        let v = m[base]@;
        assert(increasing(texts(v)));
        assert forall|i: int, j: int| 0 <= i < j < v.len() implies crate::order::lt(
            (#[trigger] v[i])@,
            (#[trigger] v[j])@,
        ) by {
            assert(texts(v)[i] == v[i]@ && texts(v)[j] == v[j]@);
        }
    }
}

} // verus!
