//! What is offered is what is picked: the first version on offer is the one that
//! `latest` asks for, the first stable one is the one that is installed without
//! being asked for.

use vstd::prelude::*;
use crate::assets::{chosen_asset, first_hint};
use crate::catalog::{lookup, LockedAsset, PackageEntry, VersionEntry};
use crate::error::Result;
use crate::menu::first_label;
use crate::offers::{
    best_in_front, first_stable_at, has_text, labels, leads, listed, offered_labels, offers,
    ranked, some_locked, sound_offers, Offered,
};
use crate::resolution::{
    all_sound, candidates, fits, has_version, law_pick_is_asked_for, newest, picks, readings,
    sound_reads, spec_resolved, tops, wanted, Candidate, ResolvedVersion, Wanted,
};
use crate::text::{all_ascii, is_white, lower_ascii, lowercase, trimmed};
use crate::version::{
    is_preview, law_texts_tell_versions_apart, older, sound, under, version_text, ReadingView,
};

verus! {

/// The release lists an archive, and the digests of all of them are recorded.
pub open spec fn locked(rec: VersionEntry, lock: Map<Seq<char>, LockedAsset>) -> bool {
    &&& rec.assets@.len() > 0
    &&& forall|j: int|
        0 <= j < rec.assets@.len() ==> lock.dom().contains((#[trigger] rec.assets@[j])@)
}

/// Every release has its archives with their digests.
pub open spec fn all_locked(recs: Seq<VersionEntry>, lock: Map<Seq<char>, LockedAsset>) -> bool {
    forall|i: int| 0 <= i < recs.len() ==> locked(#[trigger] recs[i], lock)
}

proof fn lemma_hint_is_listed(assets: Seq<String>, platform: Seq<char>, from: int)
    requires
        0 <= from,
    ensures
        first_hint(assets, platform, from) matches Some(a) ==> exists|j: int|
            0 <= j < assets.len() && #[trigger] assets[j]@ == a,
    decreases assets.len() - from,
{
    if from < assets.len() {
        lemma_hint_is_listed(assets, platform, from + 1);
        assert(assets[from]@ == assets[from]@);
    }
}

/// The candidate and the offer are the same release.
spec fn agree(recs: Seq<VersionEntry>, c: Candidate, o: Offered) -> bool {
    &&& c.version == o.version
    &&& c.shown == o.shown
    &&& 0 <= c.at < recs.len()
    &&& o.preview == is_preview(recs[c.at], c.version)
}

/// What can be installed is what can be offered, release by release, and no two
/// have the same version.
proof fn lemma_same_releases(
    recs: Seq<VersionEntry>,
    reads: Seq<Option<ReadingView>>,
    lock: Map<Seq<char>, LockedAsset>,
    game: Option<Seq<char>>,
    platform: Seq<char>,
)
    requires
        recs.len() <= reads.len(),
        all_locked(recs, lock),
        sound_reads(reads),
    ensures
        candidates(recs, reads, lock, game, platform) is Ok,
        ({
            let c = candidates(recs, reads, lock, game, platform)->Ok_0;
            let o = offers(recs, reads, lock, game);
            &&& c.len() == o.len()
            &&& forall|k: int| 0 <= k < c.len() ==> agree(recs, #[trigger] c[k], o[k])
            &&& sound_offers(o)
            &&& forall|i: int, j: int|
                0 <= i < j < o.len() ==> (#[trigger] o[i]).version != (#[trigger] o[j]).version
        }),
    decreases recs.len(),
{
    if recs.len() > 0 {
        let t = recs.drop_last();
        let n = recs.len() - 1;
        assert(forall|i: int| 0 <= i < t.len() ==> #[trigger] t[i] == recs[i]);
        lemma_same_releases(t, reads, lock, game, platform);
        let rec = recs.last();
        assert(rec == recs[n]);
        let read = reads[n];
        let cb = candidates(t, reads, lock, game, platform)->Ok_0;
        let ob = offers(t, reads, lock, game);
        let c = candidates(recs, reads, lock, game, platform);
        let o = offers(recs, reads, lock, game);
        assert(locked(recs[n], lock));
        assert(lock.dom().contains(rec.assets@[0]@));
        assert(some_locked(rec.assets@, lock));
        lemma_hint_is_listed(rec.assets@, platform, 0);
        let url = chosen_asset(rec.assets@, platform);
        assert(url is Some && lock.dom().contains(url->0)) by {
            if first_hint(rec.assets@, platform, 0) is Some && rec.assets@.len() > 1 {
                let j = choose|j: int|
                    0 <= j < rec.assets@.len() && #[trigger] rec.assets@[j]@ == url->0;
                assert(recs[n].assets@[j]@ == url->0);
            }
        }
        if read is Some {
            let v = read->0.version;
            assert(sound(v));
            if has_version(cb, v) {
                let k = choose|k: int| 0 <= k < cb.len() && (#[trigger] cb[k]).version == v;
                assert(agree(t, cb[k], ob[k]));
                assert(version_text(ob[k].version) == version_text(v));
                assert(has_text(ob, version_text(v)));
            }
            if has_text(ob, version_text(v)) {
                let k = choose|k: int|
                    0 <= k < ob.len() && version_text((#[trigger] ob[k]).version) == version_text(
                        v,
                    );
                assert(sound(ob[k].version));
                law_texts_tell_versions_apart(ob[k].version, v);
                assert(agree(t, cb[k], ob[k]));
                assert(cb[k].version == v);
                assert(has_version(cb, v));
            }
        }
        let cc = c->Ok_0;
        assert forall|k: int| 0 <= k < cc.len() implies agree(recs, #[trigger] cc[k], o[k]) by {
            if k < cb.len() {
                assert(cc[k] == cb[k]);
                assert(agree(t, cb[k], ob[k]));
                assert(t[cb[k].at] == recs[cb[k].at]);
            }
        }
        assert forall|k: int| 0 <= k < o.len() implies sound((#[trigger] o[k]).version) by {
            if k < ob.len() {
                assert(o[k] == ob[k]);
            }
        }
        assert forall|i: int, j: int| 0 <= i < j < o.len() implies (#[trigger] o[i]).version != (
        #[trigger] o[j]).version by {
            assert(o[i] == ob[i]);
            if j < ob.len() {
                assert(o[j] == ob[j]);
            } else if o[i].version == o[j].version {
                assert(has_text(ob, version_text(o[j].version)));
            }
        }
    }
}

proof fn lemma_first_label(l: Seq<(Seq<char>, bool)>, from: int) -> (at: int)
    requires
        0 <= from <= l.len(),
    ensures
        first_label(l, false, from) matches Some(t) ==> from <= at < l.len() && l[at] == (t, false)
            && forall|k: int| from <= k < at ==> (#[trigger] l[k]).1,
        first_label(l, false, from) is None ==> forall|k: int|
            from <= k < l.len() ==> (#[trigger] l[k]).1,
    decreases l.len() - from,
{
    if from >= l.len() {
        from
    } else if !l[from].1 {
        from
    } else {
        lemma_first_label(l, from + 1)
    }
}

/// What is picked and what is offered, for one way of asking: `row` is on offer
/// and asked for, and all that is asked for is under it.
proof fn lemma_row_is_pick(
    recs: Seq<VersionEntry>,
    reads: Seq<Option<ReadingView>>,
    lock: Map<Seq<char>, LockedAsset>,
    game: Option<Seq<char>>,
    platform: Seq<char>,
    w: Wanted,
    row: Offered,
)
    requires
        recs.len() == reads.len(),
        all_locked(recs, lock),
        sound_reads(reads),
        w is Latest || w is Stable,
        offers(recs, reads, lock, game).contains(row),
        w is Stable ==> !row.preview,
        forall|i: int|
            0 <= i < offers(recs, reads, lock, game).len() && (w is Stable ==> !(#[trigger] offers(
                recs,
                reads,
                lock,
                game,
            )[i]).preview) ==> under(offers(recs, reads, lock, game)[i].version, row.version),
        newest(recs, candidates(recs, reads, lock, game, platform)->Ok_0, w) matches Some(n)
            ==> tops(recs, candidates(recs, reads, lock, game, platform)->Ok_0, w, n),
    ensures
        newest(recs, candidates(recs, reads, lock, game, platform)->Ok_0, w) matches Some(n)
            && n.shown == row.shown,
{
    let o = offers(recs, reads, lock, game);
    lemma_same_releases(recs, reads, lock, game, platform);
    let c = candidates(recs, reads, lock, game, platform)->Ok_0;
    let i = o.index_of(row);
    assert(agree(recs, c[i], o[i]));
    assert(fits(recs, c[i], w));
    law_pick_is_asked_for(recs, c, w);
    let n = newest(recs, c, w)->0;
    let j = c.index_of(n);
    assert(c[j] == n);
    assert(agree(recs, c[j], o[j]));
    assert forall|k: int| 0 <= k < c.len() implies sound((#[trigger] c[k]).version) by {
        assert(agree(recs, c[k], o[k]));
        assert(sound(o[k].version));
    }
    assert(under(c[i].version, n.version));
    assert(under(o[j].version, row.version));
    assert(n.version == row.version);
    if i < j {
        assert(o[i].version != o[j].version);
    } else if j < i {
        assert(o[j].version != o[i].version);
    }
}

proof fn lemma_words()
    ensures
        wanted("latest"@) == Some(Wanted::Latest),
        wanted("stable"@) == Some(Wanted::Stable),
{
    reveal_strlit("latest");
    reveal_strlit("stable");
    reveal_strlit("");
    lemma_plain_word("latest"@);
    lemma_plain_word("stable"@);
    assert("latest"@[0] == 'l' && "stable"@[0] == 's');
}

proof fn lemma_plain_word(s: Seq<char>)
    requires
        s.len() > 0,
        forall|i: int| 0 <= i < s.len() ==> 'a' <= #[trigger] s[i] <= 'z',
    ensures
        lowercase(trimmed(s)) == s,
{
    assert(!is_white(s[0]));
    assert(!is_white(s[s.len() - 1]));
    assert(trimmed(s) =~= s);
    assert(all_ascii(s));
    assert(lower_ascii(s) =~= s);
}

/// The first version on offer is the one that `latest` picks, and the first
/// stable one the one that is picked where nothing is asked for; where none is on
/// offer, none is picked. Each release of the package has its archives with their
/// digests.
pub proof fn law_offers_are_picks(
    pkgs: Seq<PackageEntry>,
    lock: Map<Seq<char>, LockedAsset>,
    id: Seq<char>,
    game: Option<Seq<char>>,
    platform: Seq<char>,
    latest: Result<ResolvedVersion>,
    stable: Result<ResolvedVersion>,
)
    requires
        lookup(pkgs, id) matches Some(p) ==> all_locked(p.versions@, lock),
        best_in_front(pkgs, lock, id, game),
        spec_resolved(latest, pkgs, lock, id, game, "latest"@, platform),
        spec_resolved(stable, pkgs, lock, id, game, "stable"@, platform),
    ensures
        ({
            let rows = offered_labels(pkgs, lock, id, game);
            &&& latest is Ok <==> rows.len() > 0
            &&& latest matches Ok(r) ==> r.version@ == rows[0].0
            &&& stable is Ok <==> first_label(rows, false, 0) is Some
            &&& stable matches Ok(r) ==> r.version@ == first_label(rows, false, 0)->0
        }),
{
    lemma_words();
    let rows = offered_labels(pkgs, lock, id, game);
    let at = lemma_first_label(rows, 0);
    if lookup(pkgs, id) is Some {
        let p = lookup(pkgs, id)->0;
        let recs = p.versions@;
        let reads = readings(recs);
        let o = offers(recs, reads, lock, game);
        let a = ranked(listed(o));
        assert(rows == labels(a));
        lemma_same_releases(recs, reads, lock, game, platform);
        let c = candidates(recs, reads, lock, game, platform)->Ok_0;
        law_pick_is_asked_for(recs, c, Wanted::Stable);
        law_pick_is_asked_for(recs, c, Wanted::Latest);
        if a.len() > 0 {
            assert(a.contains(a[0]));
            lemma_row_is_pick(recs, reads, lock, game, platform, Wanted::Latest, a[0]);
            assert(rows[0].0 == a[0].shown);
        } else if o.len() > 0 {
            assert(under(o[0].version, a[0].version));
        }
        if first_label(rows, false, 0) is Some {
            assert(rows[at] == (a[at].shown, a[at].preview));
            assert(a.contains(a[at]));
            assert forall|m: int| 0 <= m < at implies (#[trigger] a[m]).preview by {
                assert(rows[m] == (a[m].shown, a[m].preview));
            }
            assert forall|i: int| 0 <= i < o.len() && !(#[trigger] o[i]).preview implies under(
                o[i].version,
                a[at].version,
            ) by {
                let j = choose|j: int| #[trigger]
                    first_stable_at(a, j) && under(o[i].version, a[j].version);
                assert(j == at);
            }
            lemma_row_is_pick(recs, reads, lock, game, platform, Wanted::Stable, a[at]);
        } else if newest(recs, c, Wanted::Stable) is Some {
            let n = newest(recs, c, Wanted::Stable)->0;
            let j = c.index_of(n);
            assert(agree(recs, c[j], o[j]));
            let q = choose|q: int| #[trigger]
                first_stable_at(a, q) && under(o[j].version, a[q].version);
            assert(rows[q] == (a[q].shown, a[q].preview));
            assert(false);
        }
    }
}

} // verus!
