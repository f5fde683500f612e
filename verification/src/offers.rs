//! The versions of a package that are offered: the newest stable one of each
//! major version, and the newest preview where it is newer than all of them.

use vstd::prelude::*;
use crate::catalog::{
    lookup, LockFile, LockedAsset, PackageEntry, PackagesFile, VersionEntry,
};
use crate::resolution::{
    counts_in, in_game, numeric, opt_text, read_releases, reading_views, readings, sound_reads,
};
use crate::text::{lists, same};
use crate::version::{
    is_preview, is_preview_rec, law_what_is_a_preview, lemma_under, opt_reading, order_of,
    semver_order, sound, under, version_text, Order, Reading, ReadingView, Version, VersionView,
};

verus! {

/// A version on offer: how users see it, and whether it is a preview.
#[verifier::ext_equal]
pub struct Offered {
    pub version: VersionView,
    pub shown: Seq<char>,
    pub preview: bool,
}

struct Offer {
    version: Version,
    shown: String,
    preview: bool,
}

impl View for Offer {
    type V = Offered;

    closed spec fn view(&self) -> Offered {
        Offered { version: self.version@, shown: self.shown@, preview: self.preview }
    }
}

/// One of the archives has a recorded digest.
pub open spec fn some_locked(assets: Seq<String>, lock: Map<Seq<char>, LockedAsset>) -> bool {
    exists|i: int| 0 <= i < assets.len() && lock.dom().contains(#[trigger] assets[i]@)
}

/// One of the offers has a version with this text.
pub open spec fn has_text(o: Seq<Offered>, t: Seq<char>) -> bool {
    exists|i: int| 0 <= i < o.len() && version_text((#[trigger] o[i]).version) == t
}

/// The releases that can be offered, in the order of the catalog, the first of
/// those with the same version. `reads` holds what was read of the version text
/// of each.
pub open spec fn offers(
    recs: Seq<VersionEntry>,
    reads: Seq<Option<ReadingView>>,
    lock: Map<Seq<char>, LockedAsset>,
    game: Option<Seq<char>>,
) -> Seq<Offered>
    decreases recs.len(),
{
    if recs.len() == 0 {
        Seq::empty()
    } else {
        let before = offers(recs.drop_last(), reads, lock, game);
        let rec = recs.last();
        let read = reads[recs.len() - 1];
        if in_game(rec, game) && some_locked(rec.assets@, lock) && read is Some && !has_text(
            before,
            version_text(read->0.version),
        ) {
            before.push(
                Offered {
                    version: read->0.version,
                    shown: read->0.shown,
                    preview: is_preview(rec, read->0.version),
                },
            )
        } else {
            before
        }
    }
}

/// The offer put into a list with one offer for each major version, in
/// increasing order: it takes the place of an older one of its major version.
pub open spec fn with_best(s: Seq<Offered>, x: Offered) -> Seq<Offered>
    decreases s.len(),
{
    if s.len() == 0 || s.last().version.major < x.version.major {
        s.push(x)
    } else if s.last().version.major == x.version.major {
        if semver_order(x.version, s.last().version) == Order::Greater {
            s.drop_last().push(x)
        } else {
            s
        }
    } else {
        with_best(s.drop_last(), x).push(s.last())
    }
}

/// The newest stable offer of each major version.
pub open spec fn best_stable(o: Seq<Offered>) -> Seq<Offered>
    decreases o.len(),
{
    if o.len() == 0 {
        Seq::empty()
    } else if o.last().preview {
        best_stable(o.drop_last())
    } else {
        with_best(best_stable(o.drop_last()), o.last())
    }
}

/// The newest preview, the first among equals.
pub open spec fn best_preview(o: Seq<Offered>) -> Option<Offered>
    decreases o.len(),
{
    if o.len() == 0 {
        None
    } else if !o.last().preview {
        best_preview(o.drop_last())
    } else {
        match best_preview(o.drop_last()) {
            None => Some(o.last()),
            Some(b) => if semver_order(b.version, o.last().version) == Order::Less {
                Some(o.last())
            } else {
                Some(b)
            },
        }
    }
}

/// The preview is newer than everything in the list.
pub open spec fn outranks(p: Offered, s: Seq<Offered>) -> bool {
    forall|i: int|
        0 <= i < s.len() ==> semver_order(p.version, (#[trigger] s[i]).version) == Order::Greater
}

/// What is listed: the best stable offers, and the best preview where it
/// outranks them.
pub open spec fn listed(o: Seq<Offered>) -> Seq<Offered> {
    match best_preview(o) {
        Some(p) => if outranks(p, best_stable(o)) {
            best_stable(o).push(p)
        } else {
            best_stable(o)
        },
        None => best_stable(o),
    }
}

/// The offer put into a list with the newest first, behind its equals.
pub open spec fn ranked_in(s: Seq<Offered>, x: Offered) -> Seq<Offered>
    decreases s.len(),
{
    if s.len() > 0 && semver_order(x.version, s.last().version) == Order::Greater {
        ranked_in(s.drop_last(), x).push(s.last())
    } else {
        s.push(x)
    }
}

/// The list with the newest first.
pub open spec fn ranked(s: Seq<Offered>) -> Seq<Offered>
    decreases s.len(),
{
    if s.len() == 0 {
        s
    } else {
        ranked_in(ranked(s.drop_last()), s.last())
    }
}

/// No offer is newer than one before it.
pub open spec fn newest_first(s: Seq<Offered>) -> bool {
    forall|i: int, j: int|
        0 <= i < j < s.len() ==> semver_order(
            (#[trigger] s[j]).version,
            (#[trigger] s[i]).version,
        ) != Order::Greater
}

/// The versions of the offers are made of identifiers.
pub open spec fn sound_offers(o: Seq<Offered>) -> bool {
    forall|k: int| 0 <= k < o.len() ==> sound((#[trigger] o[k]).version)
}

/// One of the offers has the version of `x`, or `x` is older.
pub open spec fn covered(s: Seq<Offered>, x: Offered) -> bool {
    exists|k: int| 0 <= k < s.len() && under(x.version, (#[trigger] s[k]).version)
}

/// One of the offers has the first number of `x`, and the version of `x` or a newer
/// one.
pub open spec fn kept(s: Seq<Offered>, x: Offered) -> bool {
    exists|k: int|
        0 <= k < s.len() && (#[trigger] s[k]).version.major == x.version.major && under(
            x.version,
            s[k].version,
        )
}

/// Each offer has the version of every one before it, or is older.
pub open spec fn ranks(s: Seq<Offered>) -> bool {
    forall|i: int, j: int|
        0 <= i < j < s.len() ==> under((#[trigger] s[j]).version, (#[trigger] s[i]).version)
}

/// This is the place of the first stable offer.
pub open spec fn first_stable_at(a: Seq<Offered>, j: int) -> bool {
    0 <= j < a.len() && !a[j].preview && forall|m: int|
        0 <= m < j ==> (#[trigger] a[m]).preview
}

/// Of what can be offered, `o`, the list `a` has the newest in front, as its first
/// stable offer the newest that is stable, and of every major version with a stable
/// offer the newest of these.
pub open spec fn leads(o: Seq<Offered>, a: Seq<Offered>) -> bool {
    &&& forall|e: Offered| #[trigger] a.contains(e) ==> o.contains(e)
    &&& forall|i: int|
        0 <= i < o.len() ==> a.len() > 0 && under((#[trigger] o[i]).version, a[0].version)
    &&& forall|i: int|
        0 <= i < o.len() && !(#[trigger] o[i]).preview ==> exists|j: int| #[trigger]
            first_stable_at(a, j) && under(o[i].version, a[j].version)
    &&& forall|i: int|
        0 <= i < o.len() && !(#[trigger] o[i]).preview ==> exists|j: int|
            0 <= j < a.len() && !(#[trigger] a[j]).preview && a[j].version.major
                == o[i].version.major && under(o[i].version, a[j].version)
}

/// What users see of a list of offers.
pub open spec fn labels(s: Seq<Offered>) -> Seq<(Seq<char>, bool)> {
    s.map_values(|o: Offered| (o.shown, o.preview))
}

/// The views of a list of labels.
pub open spec fn label_views(v: Seq<(String, bool)>) -> Seq<(Seq<char>, bool)> {
    v.map_values(|p: (String, bool)| (p.0@, p.1))
}

spec fn views(v: Seq<Offer>) -> Seq<Offered> {
    v.map_values(|o: Offer| o@)
}

proof fn lemma_with_best(s: Seq<Offered>, x: Offered, j: int)
    requires
        0 <= j <= s.len(),
        forall|k: int| j <= k < s.len() ==> (#[trigger] s[k]).version.major > x.version.major,
        j > 0 ==> s[j - 1].version.major <= x.version.major,
    ensures
        with_best(s, x) == if j > 0 && s[j - 1].version.major == x.version.major {
            if semver_order(x.version, s[j - 1].version) == Order::Greater {
                s.update(j - 1, x)
            } else {
                s
            }
        } else {
            s.insert(j, x)
        },
    decreases s.len(),
{
    if s.len() > j {
        let t = s.drop_last();
        lemma_with_best(t, x, j);
        assert(t.push(s.last()) =~= s);
        assert(t.insert(j, x).push(s.last()) =~= s.insert(j, x));
        if j > 0 {
            assert(t.update(j - 1, x).push(s.last()) =~= s.update(j - 1, x));
        }
    } else {
        assert(s.push(x) =~= s.insert(j, x));
        if j > 0 {
            assert(s.drop_last().push(x) =~= s.update(j - 1, x));
        }
    }
}

proof fn lemma_ranked_in(s: Seq<Offered>, x: Offered, j: int)
    requires
        0 <= j <= s.len(),
        forall|k: int|
            j <= k < s.len() ==> semver_order(x.version, (#[trigger] s[k]).version)
                == Order::Greater,
        j > 0 ==> semver_order(x.version, s[j - 1].version) != Order::Greater,
    ensures
        ranked_in(s, x) == s.insert(j, x),
    decreases s.len(),
{
    if s.len() > j {
        lemma_ranked_in(s.drop_last(), x, j);
        assert(s.drop_last().insert(j, x).push(s.last()) =~= s.insert(j, x));
    } else {
        assert(s.push(x) =~= s.insert(j, x));
    }
}

proof fn lemma_with_best_among(s: Seq<Offered>, x: Offered, e: Offered)
    requires
        with_best(s, x).contains(e),
    ensures
        s.contains(e) || e == x,
    decreases s.len(),
{
    let n = with_best(s, x);
    let k = n.index_of(e);
    if s.len() == 0 || s.last().version.major < x.version.major {
        if k < s.len() {
            assert(s[k] == e);
        }
    } else if s.last().version.major == x.version.major {
        if semver_order(x.version, s.last().version) == Order::Greater {
            if k < s.len() - 1 {
                assert(s[k] == e);
            }
        }
    } else {
        let t = s.drop_last();
        let b = with_best(t, x);
        if k < b.len() {
            assert(b[k] == e);
            lemma_with_best_among(t, x, e);
            if e != x {
                assert(s[t.index_of(e)] == e);
            }
        } else {
            assert(s[s.len() - 1] == e);
        }
    }
}

/// The best stable offers are stable offers.
proof fn lemma_best_stable_among(o: Seq<Offered>, e: Offered)
    requires
        best_stable(o).contains(e),
    ensures
        o.contains(e),
        !e.preview,
    decreases o.len(),
{
    if o.len() > 0 {
        let t = o.drop_last();
        let x = o[o.len() - 1];
        if !x.preview {
            lemma_with_best_among(best_stable(t), x, e);
        }
        if best_stable(t).contains(e) {
            lemma_best_stable_among(t, e);
            assert(o[t.index_of(e)] == e);
        }
    }
}

proof fn lemma_ranked_in_among(s: Seq<Offered>, x: Offered, e: Offered)
    ensures
        ranked_in(s, x).contains(e) <==> s.contains(e) || e == x,
    decreases s.len(),
{
    let n = ranked_in(s, x);
    let l = s.len() - 1;
    if s.len() > 0 && semver_order(x.version, s.last().version) == Order::Greater {
        let t = s.drop_last();
        let b = ranked_in(t, x);
        lemma_ranked_in_among(t, x, e);
        assert(n == b.push(s[l]));
        if n.contains(e) {
            let k = n.index_of(e);
            if k < b.len() {
                assert(b[k] == e);
                if e != x {
                    assert(s[t.index_of(e)] == e);
                }
            } else {
                assert(s[l] == e);
            }
        }
        if s.contains(e) {
            let k = s.index_of(e);
            if k < l {
                assert(t[k] == e);
                assert(n[b.index_of(e)] == e);
            } else {
                assert(n[b.len() as int] == e);
            }
        }
        if e == x {
            assert(n[b.index_of(x)] == x);
        }
    } else {
        assert(n == s.push(x));
        if n.contains(e) {
            let k = n.index_of(e);
            if k < s.len() {
                assert(s[k] == e);
            }
        }
        if s.contains(e) {
            assert(n[s.index_of(e)] == e);
        }
        assert(n[s.len() as int] == x);
    }
}

/// Ranking keeps the offers.
proof fn lemma_ranked_among(s: Seq<Offered>, e: Offered)
    ensures
        ranked(s).contains(e) <==> s.contains(e),
    decreases s.len(),
{
    if s.len() > 0 {
        let t = s.drop_last();
        let l = s.len() - 1;
        lemma_ranked_among(t, e);
        lemma_ranked_in_among(ranked(t), s[l], e);
        if s.contains(e) {
            let k = s.index_of(e);
            if k < l {
                assert(t[k] == e);
            }
        }
        if t.contains(e) {
            assert(s[t.index_of(e)] == e);
        }
        assert(s[l] == s.last());
    }
}

proof fn lemma_best_stable_sound(o: Seq<Offered>)
    requires
        sound_offers(o),
    ensures
        sound_offers(best_stable(o)),
{
    let b = best_stable(o);
    assert forall|k: int| 0 <= k < b.len() implies sound((#[trigger] b[k]).version) by {
        assert(b.contains(b[k]));
        lemma_best_stable_among(o, b[k]);
        assert(sound(o[o.index_of(b[k])].version));
    }
}

proof fn lemma_offers_sound(
    recs: Seq<VersionEntry>,
    reads: Seq<Option<ReadingView>>,
    lock: Map<Seq<char>, LockedAsset>,
    game: Option<Seq<char>>,
)
    requires
        recs.len() <= reads.len(),
        sound_reads(reads),
    ensures
        sound_offers(offers(recs, reads, lock, game)),
    decreases recs.len(),
{
    if recs.len() > 0 {
        lemma_offers_sound(recs.drop_last(), reads, lock, game);
        assert(reads[recs.len() - 1] is Some ==> sound(reads[recs.len() - 1]->0.version));
    }
}

proof fn lemma_best_preview_among(o: Seq<Offered>)
    requires
        best_preview(o) is Some,
    ensures
        o.contains(best_preview(o)->0),
    decreases o.len(),
{
    let t = o.drop_last();
    let p = best_preview(o)->0;
    if p == o[o.len() - 1] {
        assert(o.contains(o[o.len() - 1]));
    } else {
        lemma_best_preview_among(t);
        assert(o[t.index_of(p)] == p);
    }
}

proof fn lemma_covered_onwards(a: Seq<Offered>, b: Seq<Offered>, x: Offered)
    requires
        covered(a, x),
        forall|k: int| 0 <= k < a.len() ==> covered(b, #[trigger] a[k]),
    ensures
        covered(b, x),
{
    let k = choose|k: int| 0 <= k < a.len() && under(x.version, (#[trigger] a[k]).version);
    assert(covered(b, a[k]));
    let m = choose|m: int| 0 <= m < b.len() && under(a[k].version, (#[trigger] b[m]).version);
    lemma_under(x.version, a[k].version, b[m].version);
}

proof fn lemma_kept_onwards(a: Seq<Offered>, b: Seq<Offered>, x: Offered)
    requires
        kept(a, x),
        forall|k: int| 0 <= k < a.len() ==> kept(b, #[trigger] a[k]),
    ensures
        kept(b, x),
        covered(b, x),
{
    assert(covered(a, x));
    assert forall|k: int| 0 <= k < a.len() implies covered(b, #[trigger] a[k]) by {
        assert(kept(b, a[k]));
    }
    lemma_covered_onwards(a, b, x);
    let k = choose|k: int|
        0 <= k < a.len() && (#[trigger] a[k]).version.major == x.version.major && under(
            x.version,
            a[k].version,
        );
    assert(kept(b, a[k]));
    let m = choose|m: int|
        0 <= m < b.len() && (#[trigger] b[m]).version.major == a[k].version.major && under(
            a[k].version,
            b[m].version,
        );
    lemma_under(x.version, a[k].version, b[m].version);
}

/// What is covered by a list is under its first offer, where the list is ranked.
proof fn lemma_first_is_on_top(a: Seq<Offered>, l: Seq<Offered>, x: Offered)
    requires
        ranks(a),
        a == ranked(l),
        covered(l, x),
    ensures
        a.len() > 0,
        under(x.version, a[0].version),
{
    let k = choose|k: int| 0 <= k < l.len() && under(x.version, (#[trigger] l[k]).version);
    assert(l.contains(l[k]));
    lemma_ranked_among(l, l[k]);
    let j = a.index_of(l[k]);
    if j > 0 {
        assert(under(a[j].version, a[0].version));
        lemma_under(x.version, a[j].version, a[0].version);
    }
}

proof fn lemma_first_stable(a: Seq<Offered>, j: int) -> (m: int)
    requires
        0 <= j < a.len(),
        !a[j].preview,
    ensures
        first_stable_at(a, m),
        m <= j,
    decreases j,
{
    if exists|i: int| 0 <= i < j && !(#[trigger] a[i]).preview {
        let i = choose|i: int| 0 <= i < j && !(#[trigger] a[i]).preview;
        lemma_first_stable(a, i)
    } else {
        j
    }
}

/// The ranked list leads, where the best stable offers cover all stable ones, and
/// the best preview covers the others.
proof fn lemma_leads(o: Seq<Offered>)
    requires
        forall|k: int|
            0 <= k < o.len() && !(#[trigger] o[k]).preview ==> kept(best_stable(o), o[k]),
        match best_preview(o) {
            Some(p) => o.contains(p) && forall|k: int|
                0 <= k < o.len() && (#[trigger] o[k]).preview ==> under(o[k].version, p.version),
            None => forall|k: int| 0 <= k < o.len() ==> !(#[trigger] o[k]).preview,
        },
        best_preview(o) is Some && !outranks(best_preview(o)->0, best_stable(o)) ==> covered(
            best_stable(o),
            best_preview(o)->0,
        ),
        ranks(ranked(listed(o))),
    ensures
        leads(o, ranked(listed(o))),
{
    let b = best_stable(o);
    let l = listed(o);
    let a = ranked(l);
    assert forall|e: Offered| #[trigger] a.contains(e) implies o.contains(e) by {
        lemma_ranked_among(l, e);
        let k = l.index_of(e);
        if k < b.len() {
            assert(b[k] == e);
            lemma_best_stable_among(o, e);
        }
    }
    assert forall|i: int| 0 <= i < o.len() implies a.len() > 0 && under(
        (#[trigger] o[i]).version,
        a[0].version,
    ) by {
        let x = o[i];
        if !x.preview {
            assert(kept(b, x));
            let k = choose|k: int|
                0 <= k < b.len() && under(x.version, (#[trigger] b[k]).version);
            assert(l[k] == b[k]);
        } else {
            let p = best_preview(o)->0;
            if outranks(p, b) {
                assert(l[b.len() as int] == p);
            } else {
                let k = choose|k: int|
                    0 <= k < b.len() && under(p.version, (#[trigger] b[k]).version);
                lemma_under(x.version, p.version, b[k].version);
                assert(l[k] == b[k]);
            }
        }
        assert(covered(l, x));
        lemma_first_is_on_top(a, l, x);
    }
    assert forall|i: int| 0 <= i < o.len() && !(#[trigger] o[i]).preview implies exists|j: int|
        #[trigger] first_stable_at(a, j) && under(o[i].version, a[j].version) by {
        let x = o[i];
        assert(kept(b, x));
        let k = choose|k: int| 0 <= k < b.len() && under(x.version, (#[trigger] b[k]).version);
        let e = b[k];
        assert(b.contains(e));
        lemma_best_stable_among(o, e);
        assert(l[k] == e);
        lemma_ranked_among(l, e);
        let at = a.index_of(e);
        let j = lemma_first_stable(a, at);
        if j < at {
            assert(under(a[at].version, a[j].version));
            lemma_under(x.version, a[at].version, a[j].version);
        }
        assert(first_stable_at(a, j) && under(o[i].version, a[j].version));
    }
    assert forall|i: int| 0 <= i < o.len() && !(#[trigger] o[i]).preview implies exists|j: int|
        0 <= j < a.len() && !(#[trigger] a[j]).preview && a[j].version.major == o[i].version.major
            && under(o[i].version, a[j].version) by {
        let x = o[i];
        assert(kept(b, x));
        let k = choose|k: int|
            0 <= k < b.len() && (#[trigger] b[k]).version.major == x.version.major && under(
                x.version,
                b[k].version,
            );
        let e = b[k];
        assert(b.contains(e));
        lemma_best_stable_among(o, e);
        assert(l[k] == e);
        lemma_ranked_among(l, e);
        let at = a.index_of(e);
        assert(a[at] == e);
    }
}

fn any_locked(assets: &Vec<String>, lock: &LockFile) -> (b: bool)
    ensures
        b == some_locked(assets@, lock.assets@),
{
    let mut i: usize = 0;
    while i < assets.len()
        invariant
            i <= assets@.len(),
            forall|k: int| 0 <= k < i ==> !lock.assets@.dom().contains(#[trigger] assets@[k]@),
        decreases assets.len() - i,
    {
        if lock.assets.contains_key(assets[i].as_str()) {
            return true;
        }
        i = i + 1;
    }
    false
}

fn knows_text(v: &Vec<Offer>, t: &str) -> (b: bool)
    ensures
        b == has_text(views(v@), t@),
{
    let mut i: usize = 0;
    while i < v.len()
        invariant
            i <= v@.len(),
            forall|k: int|
                0 <= k < i ==> version_text((#[trigger] views(v@)[k]).version) != t@,
        decreases v.len() - i,
    {
        let x = v[i].version.text();
        if same(x.as_str(), t) {
            proof {
                assert(version_text(views(v@)[i as int].version) == t@);
            }
            return true;
        }
        i = i + 1;
    }
    false
}

fn gather_offers(
    recs: &Vec<VersionEntry>,
    reads: &Vec<Option<Reading>>,
    lock: &LockFile,
    game: Option<&str>,
) -> (out: Vec<Offer>)
    requires
        reads@.len() == recs@.len(),
    ensures
        views(out@) == offers(recs@, reading_views(reads@), lock.assets@, opt_text(game)),
{
    let mut out: Vec<Offer> = Vec::new();
    let mut i: usize = 0;
    let ghost rs = reading_views(reads@);
    proof {
        assert(recs@.take(0) =~= Seq::<VersionEntry>::empty());
        assert(views(out@) =~= Seq::<Offered>::empty());
    }
    while i < recs.len()
        invariant
            i <= recs@.len(),
            reads@.len() == recs@.len(),
            rs == reading_views(reads@),
            views(out@) == offers(recs@.take(i as int), rs, lock.assets@, opt_text(game)),
        decreases recs.len() - i,
    {
        let rec = &recs[i];
        let ghost now = recs@.take(i + 1);
        proof {
            assert(now.drop_last() =~= recs@.take(i as int));
            assert(now.last() == *rec);
            assert(rs[i as int] == opt_reading(reads@[i as int]));
        }
        if counts_in(rec, game) && any_locked(&rec.assets, lock) {
            if let Some(read) = &reads[i] {
                let t = read.version.text();
                if !knows_text(&out, t.as_str()) {
                    let ghost before = out@;
                    let o = Offer {
                        version: read.version.copy(),
                        shown: read.shown.clone(),
                        preview: is_preview_rec(rec, &read.version),
                    };
                    let ghost ov = o@;
                    out.push(o);
                    proof {
                        assert(views(out@) =~= views(before).push(ov));
                    }
                }
            }
        }
        i = i + 1;
    }
    proof {
        assert(recs@.take(i as int) =~= recs@);
    }
    out
}

fn copy_offer(o: &Offer) -> (c: Offer)
    ensures
        c@ == o@,
{
    Offer { version: o.version.copy(), shown: o.shown.clone(), preview: o.preview }
}

fn add_best(v: &mut Vec<Offer>, x: Offer)
    ensures
        views(final(v)@) == with_best(views(old(v)@), x@),
        sound_offers(views(old(v)@)) && sound(x@.version) ==> {
            &&& kept(views(final(v)@), x@)
            &&& forall|k: int|
                0 <= k < old(v)@.len() ==> kept(views(final(v)@), #[trigger] views(old(v)@)[k])
        },
{
    let mut j: usize = v.len();
    let ghost s = views(v@);
    let ghost xv = x@;
    while j > 0 && v[j - 1].version.major > x.version.major
        invariant
            j <= v@.len(),
            s == views(v@),
            v@ == old(v)@,
            xv == x@,
            forall|k: int|
                j <= k < s.len() ==> (#[trigger] s[k]).version.major > xv.version.major,
        decreases j,
    {
        proof {
            assert(s[j - 1] == v@[j - 1]@);
        }
        j = j - 1;
    }
    proof {
        if j > 0 {
            assert(s[j - 1] == v@[j - 1]@);
        }
        lemma_with_best(s, xv, j as int);
    }
    if j > 0 && v[j - 1].version.major == x.version.major {
        if order_of(&x.version, &v[j - 1].version) == Order::Greater {
            v.set(j - 1, x);
            proof {
                let n = views(v@);
                assert(n =~= s.update(j - 1, xv));
                assert(n[j - 1] == xv);
                assert forall|k: int| 0 <= k < s.len() implies kept(n, #[trigger] s[k]) by {
                    if k != j - 1 {
                        assert(n[k] == s[k]);
                    } else {
                        assert(under(s[k].version, n[j - 1].version));
                    }
                }
            }
        } else {
            proof {
                assert forall|k: int| 0 <= k < s.len() implies kept(s, #[trigger] s[k]) by {
                    assert(under(s[k].version, s[k].version));
                }
                if sound_offers(s) && sound(xv.version) {
                    assert(sound(s[j - 1].version));
                    assert(under(xv.version, s[j - 1].version));
                }
            }
        }
    } else {
        v.insert(j, x);
        proof {
            let n = views(v@);
            assert(n =~= s.insert(j as int, xv));
            assert(n[j as int] == xv);
            assert forall|k: int| 0 <= k < s.len() implies kept(n, #[trigger] s[k]) by {
                let at = if k < j { k } else { k + 1 };
                assert(n[at] == s[k]);
            }
        }
    }
}

fn stable_offers(o: &Vec<Offer>) -> (out: Vec<Offer>)
    ensures
        views(out@) == best_stable(views(o@)),
        sound_offers(views(o@)) ==> forall|k: int|
            0 <= k < o@.len() && !(#[trigger] views(o@)[k]).preview ==> kept(
                views(out@),
                views(o@)[k],
            ),
{
    let ghost s = views(o@);
    let mut out: Vec<Offer> = Vec::new();
    let mut i: usize = 0;
    proof {
        assert(s.take(0) =~= Seq::<Offered>::empty());
        assert(views(out@) =~= Seq::<Offered>::empty());
    }
    while i < o.len()
        invariant
            i <= o@.len(),
            s == views(o@),
            views(out@) == best_stable(s.take(i as int)),
            sound_offers(s) ==> forall|k: int|
                0 <= k < i && !(#[trigger] s[k]).preview ==> kept(views(out@), s[k]),
        decreases o.len() - i,
    {
        let ghost before = views(out@);
        proof {
            assert(s.take(i + 1).drop_last() =~= s.take(i as int));
            assert(s.take(i + 1).last() == o@[i as int]@);
            assert(s[i as int] == o@[i as int]@);
            if sound_offers(s) {
                lemma_best_stable_sound(s.take(i as int));
            }
        }
        if !o[i].preview {
            add_best(&mut out, copy_offer(&o[i]));
            proof {
                if sound_offers(s) {
                    assert forall|k: int| 0 <= k < i + 1 && !(#[trigger] s[k]).preview implies kept(
                        views(out@),
                        s[k],
                    ) by {
                        if k < i {
                            lemma_kept_onwards(before, views(out@), s[k]);
                        }
                    }
                }
            }
        }
        i = i + 1;
    }
    proof {
        assert(s.take(i as int) =~= s);
    }
    out
}

fn preview_offer(o: &Vec<Offer>) -> (r: Option<usize>)
    ensures
        match r {
            Some(i) => i < o@.len() && best_preview(views(o@)) == Some(views(o@)[i as int]),
            None => best_preview(views(o@)) is None && forall|k: int|
                0 <= k < o@.len() ==> !(#[trigger] views(o@)[k]).preview,
        },
        r is Some && sound_offers(views(o@)) ==> forall|k: int|
            0 <= k < o@.len() && (#[trigger] views(o@)[k]).preview ==> under(
                views(o@)[k].version,
                views(o@)[r->0 as int].version,
            ),
{
    let ghost s = views(o@);
    let mut best: Option<usize> = None;
    let mut i: usize = 0;
    proof {
        assert(s.take(0) =~= Seq::<Offered>::empty());
    }
    while i < o.len()
        invariant
            i <= o@.len(),
            s == views(o@),
            match best {
                Some(b) => b < i && best_preview(s.take(i as int)) == Some(s[b as int]),
                None => best_preview(s.take(i as int)) is None && forall|k: int|
                    0 <= k < i ==> !(#[trigger] s[k]).preview,
            },
            best is Some && sound_offers(s) ==> forall|k: int|
                0 <= k < i && (#[trigger] s[k]).preview ==> under(
                    s[k].version,
                    s[best->0 as int].version,
                ),
        decreases o.len() - i,
    {
        proof {
            assert(s.take(i + 1).drop_last() =~= s.take(i as int));
            assert(s.take(i + 1).last() == o@[i as int]@);
            assert(s[i as int] == o@[i as int]@);
        }
        if o[i].preview {
            match best {
                Some(b) => {
                    proof {
                        assert(s[b as int] == o@[b as int]@);
                    }
                    let newer: bool = order_of(&o[b].version, &o[i].version) == Order::Less;
                    if newer {
                        best = Some(i);
                    }
                    proof {
                        if sound_offers(s) {
                            assert(sound(s[b as int].version) && sound(s[i as int].version));
                            assert forall|k: int| 0 <= k < i + 1 && (#[trigger] s[k]).preview implies under(
                                s[k].version,
                                s[best->0 as int].version,
                            ) by {
                                if k < i && newer {
                                    lemma_under(
                                        s[k].version,
                                        s[b as int].version,
                                        s[i as int].version,
                                    );
                                }
                            }
                        }
                    }
                },
                None => {
                    best = Some(i);
                },
            }
        }
        i = i + 1;
    }
    proof {
        assert(s.take(i as int) =~= s);
    }
    best
}

fn outranks_all(p: &Offer, v: &Vec<Offer>) -> (b: bool)
    ensures
        b == outranks(p@, views(v@)),
        !b && sound(p@.version) && sound_offers(views(v@)) ==> covered(views(v@), p@),
{
    let mut i: usize = 0;
    while i < v.len()
        invariant
            i <= v@.len(),
            forall|k: int|
                0 <= k < i ==> semver_order(p@.version, (#[trigger] views(v@)[k]).version)
                    == Order::Greater,
        decreases v.len() - i,
    {
        proof {
            assert(views(v@)[i as int] == v@[i as int]@);
        }
        if order_of(&p.version, &v[i].version) != Order::Greater {
            proof {
                if sound(p@.version) && sound_offers(views(v@)) {
                    assert(sound(views(v@)[i as int].version));
                    assert(under(p@.version, views(v@)[i as int].version));
                }
            }
            return false;
        }
        i = i + 1;
    }
    true
}

fn add_ranked(v: &mut Vec<Offer>, x: Offer)
    requires
        newest_first(views(old(v)@)),
    ensures
        views(final(v)@) == ranked_in(views(old(v)@), x@),
        newest_first(views(final(v)@)),
        sound_offers(views(old(v)@)) && sound(x@.version) && ranks(views(old(v)@)) ==> ranks(
            views(final(v)@),
        ) && sound_offers(views(final(v)@)),
{
    let mut j: usize = v.len();
    let ghost s = views(v@);
    let ghost xv = x@;
    let ghost fine = sound_offers(s) && sound(xv.version) && ranks(s);
    let mut above: bool = true;
    while j > 0 && above
        invariant
            j <= v@.len(),
            fine ==> sound_offers(s) && sound(xv.version) && ranks(s),
            forall|k: int| j <= k < s.len() ==> under((#[trigger] s[k]).version, xv.version),
            fine && !above ==> forall|k: int|
                0 <= k < j ==> under(xv.version, (#[trigger] s[k]).version),
            s == views(v@),
            v@ == old(v)@,
            xv == x@,
            newest_first(s),
            forall|k: int|
                j <= k < s.len() ==> semver_order(xv.version, (#[trigger] s[k]).version)
                    == Order::Greater && semver_order(s[k].version, xv.version) == Order::Less,
            !above ==> j > 0 && semver_order(xv.version, s[j - 1].version) != Order::Greater
                && forall|k: int|
                0 <= k < j ==> semver_order(xv.version, (#[trigger] s[k]).version)
                    != Order::Greater,
        decreases j, (if above { 1int } else { 0 }),
    {
        proof {
            assert(s[j - 1] == v@[j - 1]@);
        }
        if order_of(&x.version, &v[j - 1].version) == Order::Greater {
            j = j - 1;
        } else {
            above = false;
            proof {
                assert forall|k: int| 0 <= k < j implies semver_order(
                    xv.version,
                    (#[trigger] s[k]).version,
                ) != Order::Greater by {
                    if k < j - 1 {
                        assert(semver_order(s[j - 1].version, s[k].version) != Order::Greater);
                    }
                }
                if fine {
                    assert(sound(s[j - 1].version));
                    assert(under(xv.version, s[j - 1].version));
                    assert forall|k: int| 0 <= k < j implies under(
                        xv.version,
                        (#[trigger] s[k]).version,
                    ) by {
                        if k < j - 1 {
                            lemma_under(xv.version, s[j - 1].version, s[k].version);
                        }
                    }
                }
            }
        }
    }
    proof {
        lemma_ranked_in(s, xv, j as int);
    }
    v.insert(j, x);
    proof {
        let n = views(v@);
        assert(n =~= s.insert(j as int, xv));
        assert forall|a: int, b: int| 0 <= a < b < n.len() implies semver_order(
            (#[trigger] n[b]).version,
            (#[trigger] n[a]).version,
        ) != Order::Greater by {
            let oa = if a < j { a } else { a - 1 };
            let ob = if b < j { b } else { b - 1 };
            if a == j {
                assert(n[b] == s[ob]);
            } else if b == j {
                assert(n[a] == s[oa]);
            } else {
                assert(n[a] == s[oa] && n[b] == s[ob]);
            }
        }
        if fine {
            assert forall|a: int, b: int| 0 <= a < b < n.len() implies under(
                (#[trigger] n[b]).version,
                (#[trigger] n[a]).version,
            ) by {
                let oa = if a < j { a } else { a - 1 };
                let ob = if b < j { b } else { b - 1 };
                if a == j {
                    assert(n[b] == s[ob]);
                } else if b == j {
                    assert(n[a] == s[oa]);
                } else {
                    assert(n[a] == s[oa] && n[b] == s[ob]);
                }
            }
            assert forall|a: int| 0 <= a < n.len() implies sound((#[trigger] n[a]).version) by {
                if a != j {
                    assert(n[a] == s[if a < j { a } else { a - 1 }]);
                }
            }
        }
    }
}

/// The versions of a package that are offered, where the version texts of its
/// releases were read as `reads`: the newest first, each with whether it is a
/// preview.
pub fn offers_from(
    recs: &Vec<VersionEntry>,
    reads: &Vec<Option<Reading>>,
    lock: &LockFile,
    game: Option<&str>,
) -> (out: Vec<(String, bool)>)
    requires
        reads@.len() == recs@.len(),
    ensures
        label_views(out@) == labels(
            ranked(
                listed(offers(recs@, reading_views(reads@), lock.assets@, opt_text(game))),
            ),
        ),
        newest_first(
            ranked(
                listed(offers(recs@, reading_views(reads@), lock.assets@, opt_text(game))),
            ),
        ),
        sound_reads(reading_views(reads@)) ==> leads(
            offers(recs@, reading_views(reads@), lock.assets@, opt_text(game)),
            ranked(
                listed(offers(recs@, reading_views(reads@), lock.assets@, opt_text(game))),
            ),
        ),
{
    let all = gather_offers(recs, reads, lock, game);
    let ghost o = views(all@);
    let ghost fine = sound_reads(reading_views(reads@));
    proof {
        if fine {
            lemma_offers_sound(recs@, reading_views(reads@), lock.assets@, opt_text(game));
            lemma_best_stable_sound(o);
        }
    }
    let mut list = stable_offers(&all);
    if let Some(i) = preview_offer(&all) {
        proof {
            assert(views(all@)[i as int] == all@[i as int]@);
        }
        if outranks_all(&all[i], &list) {
            let ghost before = list@;
            list.push(copy_offer(&all[i]));
            proof {
                assert(views(list@) =~= views(before).push(all@[i as int]@));
            }
        }
    }
    let ghost s = views(list@);
    proof {
        assert(s == listed(o));
        if fine {
            if best_preview(o) is Some {
                lemma_best_preview_among(o);
            }
            assert forall|k: int| 0 <= k < s.len() implies sound((#[trigger] s[k]).version) by {
                if k < best_stable(o).len() {
                    assert(sound(best_stable(o)[k].version));
                } else {
                    assert(sound(o[o.index_of(s[k])].version));
                }
            }
        }
    }
    let mut top: Vec<Offer> = Vec::new();
    let mut i: usize = 0;
    proof {
        assert(s.take(0) =~= Seq::<Offered>::empty());
        assert(views(top@) =~= Seq::<Offered>::empty());
    }
    while i < list.len()
        invariant
            i <= list@.len(),
            s == views(list@),
            views(top@) == ranked(s.take(i as int)),
            newest_first(views(top@)),
            fine ==> sound_offers(s) && sound_offers(views(top@)) && ranks(views(top@)),
        decreases list.len() - i,
    {
        proof {
            assert(s.take(i + 1).drop_last() =~= s.take(i as int));
            assert(s.take(i + 1).last() == list@[i as int]@);
            assert(s[i as int] == list@[i as int]@);
        }
        add_ranked(&mut top, copy_offer(&list[i]));
        i = i + 1;
    }
    proof {
        assert(s.take(i as int) =~= s);
        if fine {
            lemma_leads(o);
        }
    }
    let ghost want = labels(views(top@));
    let mut out: Vec<(String, bool)> = Vec::new();
    let mut k: usize = 0;
    while k < top.len()
        invariant
            k <= top@.len(),
            want == labels(views(top@)),
            label_views(out@) =~= want.take(k as int),
        decreases top.len() - k,
    {
        let ghost before = out@;
        out.push((top[k].shown.clone(), top[k].preview));
        proof {
            assert(views(top@)[k as int] == top@[k as int]@);
            assert(label_views(out@) =~= label_views(before).push(want[k as int]));
            assert(want.take(k + 1) =~= want.take(k as int).push(want[k as int]));
        }
        k = k + 1;
    }
    proof {
        assert(want.take(k as int) =~= want);
    }
    out
}

/// The labels of the versions of package `id` that are offered for the game, the
/// newest first; none where the catalog does not know it.
pub open spec fn offered_labels(
    pkgs: Seq<PackageEntry>,
    lock: Map<Seq<char>, LockedAsset>,
    id: Seq<char>,
    game: Option<Seq<char>>,
) -> Seq<(Seq<char>, bool)> {
    match lookup(pkgs, id) {
        Some(p) => labels(ranked(listed(offers(p.versions@, readings(p.versions@), lock, game)))),
        None => Seq::empty(),
    }
}

/// What was read of the releases of package `id` is made of identifiers, and what
/// is offered of them has the newest in front.
pub open spec fn best_in_front(
    pkgs: Seq<PackageEntry>,
    lock: Map<Seq<char>, LockedAsset>,
    id: Seq<char>,
    game: Option<Seq<char>>,
) -> bool {
    lookup(pkgs, id) matches Some(p) ==> {
        let o = offers(p.versions@, readings(p.versions@), lock, game);
        sound_reads(readings(p.versions@)) && leads(o, ranked(listed(o)))
    }
}

/// The versions of package `id` that are offered for the game, the newest first,
/// each with whether it is a preview; none where the catalog does not know it.
pub fn available_versions(
    pkgs: &PackagesFile,
    lock: &LockFile,
    id: &str,
    game: Option<&str>,
) -> (out: Vec<(String, bool)>)
    ensures
        label_views(out@) == offered_labels(pkgs.packages@, lock.assets@, id@, opt_text(game)),
        lookup(pkgs.packages@, id@) matches Some(p) ==> newest_first(
            ranked(
                listed(offers(p.versions@, readings(p.versions@), lock.assets@, opt_text(game))),
            ),
        ),
        best_in_front(pkgs.packages@, lock.assets@, id@, opt_text(game)),
{
    match pkgs.pkg(id) {
        Some(p) => {
            let reads = read_releases(&p.versions);
            offers_from(&p.versions, &reads, lock, game)
        },
        None => {
            let out: Vec<(String, bool)> = Vec::new();
            proof {
                assert(label_views(out@) =~= Seq::empty());
            }
            out
        },
    }
}

// ---------------------------------------------------------------------------
// What holds of the offers
// ---------------------------------------------------------------------------

spec fn has_major(s: Seq<Offered>, m: u64) -> bool {
    exists|k: int| 0 <= k < s.len() && (#[trigger] s[k]).version.major == m
}

spec fn rising(s: Seq<Offered>) -> bool {
    forall|i: int, j: int|
        0 <= i < j < s.len() ==> (#[trigger] s[i]).version.major < (#[trigger] s[j]).version.major
}

proof fn lemma_with_best_has(s: Seq<Offered>, x: Offered, m: u64)
    ensures
        has_major(with_best(s, x), m) <==> has_major(s, m) || m == x.version.major,
    decreases s.len(),
{
    let n = with_best(s, x);
    let l = s.len() - 1;
    if has_major(s, m) {
        let k = choose|k: int| 0 <= k < s.len() && (#[trigger] s[k]).version.major == m;
        if s.last().version.major < x.version.major || (s.last().version.major == x.version.major
            && k < l) {
            assert(n[k] == s[k]);
        } else if s.last().version.major == x.version.major {
            assert(n[l].version.major == m);
        } else if k < l {
            assert(s.drop_last()[k] == s[k]);
        }
    }
    if s.len() == 0 || s.last().version.major < x.version.major {
        assert(n[s.len() as int] == x);
        if has_major(n, m) {
            let k = choose|k: int| 0 <= k < n.len() && (#[trigger] n[k]).version.major == m;
            if k < s.len() {
                assert(s[k] == n[k]);
            }
        }
    } else if s.last().version.major == x.version.major {
        assert(n[l].version.major == x.version.major);
        if has_major(n, m) {
            let k = choose|k: int| 0 <= k < n.len() && (#[trigger] n[k]).version.major == m;
            if k < l {
                assert(s[k] == n[k]);
            }
        }
    } else {
        let t = s.drop_last();
        let b = with_best(t, x);
        lemma_with_best_has(t, x, m);
        assert(n == b.push(s[l]));
        assert(n[b.len() as int] == s[l]);
        if has_major(b, m) {
            let k = choose|k: int| 0 <= k < b.len() && (#[trigger] b[k]).version.major == m;
            assert(n[k] == b[k]);
        }
        if has_major(n, m) {
            let k = choose|k: int| 0 <= k < n.len() && (#[trigger] n[k]).version.major == m;
            if k < b.len() {
                assert(b[k] == n[k]);
            } else {
                assert(s[l].version.major == m);
            }
        }
        if has_major(t, m) {
            let k = choose|k: int| 0 <= k < t.len() && (#[trigger] t[k]).version.major == m;
            assert(s[k] == t[k]);
        }
    }
}

proof fn lemma_with_best_rises(s: Seq<Offered>, x: Offered)
    requires
        rising(s),
    ensures
        rising(with_best(s, x)),
    decreases s.len(),
{
    let n = with_best(s, x);
    let l = s.len() - 1;
    if s.len() == 0 || s.last().version.major < x.version.major {
        assert forall|i: int, j: int| 0 <= i < j < n.len() implies (#[trigger] n[i]).version.major < (
        #[trigger] n[j]).version.major by {
            assert(n[i] == s[i]);
            if j < s.len() {
                assert(n[j] == s[j]);
            } else if i < l {
                assert(s[i].version.major < s[l].version.major);
            }
        }
    } else if s.last().version.major == x.version.major {
        assert forall|i: int, j: int| 0 <= i < j < n.len() implies (#[trigger] n[i]).version.major < (
        #[trigger] n[j]).version.major by {
            assert(n[i] == s[i]);
            assert(s[i].version.major < s[j].version.major);
        }
    } else {
        let t = s.drop_last();
        let b = with_best(t, x);
        assert(rising(t)) by {
            assert forall|i: int, j: int| 0 <= i < j < t.len() implies (#[trigger] t[i]).version.major
                < (#[trigger] t[j]).version.major by {
                assert(t[i] == s[i] && t[j] == s[j]);
            }
        }
        lemma_with_best_rises(t, x);
        assert(n == b.push(s[l]));
        assert forall|i: int, j: int| 0 <= i < j < n.len() implies (#[trigger] n[i]).version.major < (
        #[trigger] n[j]).version.major by {
            assert(n[i] == b[i]);
            if j < b.len() {
                assert(n[j] == b[j]);
            } else {
                lemma_with_best_has(t, x, b[i].version.major);
                assert(has_major(b, b[i].version.major));
                if b[i].version.major != x.version.major {
                    let k = choose|k: int|
                        0 <= k < t.len() && (#[trigger] t[k]).version.major == b[i].version.major;
                    assert(t[k] == s[k]);
                    assert(s[k].version.major < s[l].version.major);
                }
            }
        }
    }
}

proof fn lemma_best_stable_majors(o: Seq<Offered>)
    ensures
        rising(best_stable(o)),
        forall|i: int|
            0 <= i < o.len() && !(#[trigger] o[i]).preview ==> has_major(
                best_stable(o),
                o[i].version.major,
            ),
    decreases o.len(),
{
    if o.len() > 0 {
        let t = o.drop_last();
        let l = o.len() - 1;
        lemma_best_stable_majors(t);
        let s = best_stable(t);
        let b = best_stable(o);
        if !o[l].preview {
            lemma_with_best_rises(s, o[l]);
        }
        assert forall|i: int| 0 <= i < o.len() && !(#[trigger] o[i]).preview implies has_major(
            b,
            o[i].version.major,
        ) by {
            if i < l {
                assert(t[i] == o[i]);
            }
            if !o[l].preview {
                lemma_with_best_has(s, o[l], o[i].version.major);
            }
        }
    }
}

proof fn lemma_ranked_once(s: Seq<Offered>)
    requires
        s.no_duplicates(),
    ensures
        ranked(s).no_duplicates(),
    decreases s.len(),
{
    if s.len() > 0 {
        let t = s.drop_last();
        let x = s[s.len() - 1];
        assert(t.no_duplicates()) by {
            assert forall|i: int, j: int| 0 <= i < t.len() && 0 <= j < t.len() && i != j implies t[i]
                != t[j] by {
                assert(t[i] == s[i] && t[j] == s[j]);
            }
        }
        lemma_ranked_once(t);
        lemma_ranked_among(t, x);
        assert(!t.contains(x)) by {
            if t.contains(x) {
                let k = t.index_of(x);
                assert(s[k] == s[s.len() - 1]);
            }
        }
        lemma_ranked_in_once(ranked(t), x);
    }
}

proof fn lemma_ranked_in_once(s: Seq<Offered>, x: Offered)
    requires
        s.no_duplicates(),
        !s.contains(x),
    ensures
        ranked_in(s, x).no_duplicates(),
    decreases s.len(),
{
    let n = ranked_in(s, x);
    let l = s.len() - 1;
    if s.len() > 0 && semver_order(x.version, s.last().version) == Order::Greater {
        let t = s.drop_last();
        assert forall|i: int, j: int| 0 <= i < t.len() && 0 <= j < t.len() && i != j implies t[i]
            != t[j] by {
            assert(t[i] == s[i] && t[j] == s[j]);
        }
        assert(!t.contains(x)) by {
            if t.contains(x) {
                assert(s[t.index_of(x)] == x);
            }
        }
        lemma_ranked_in_once(t, x);
        let b = ranked_in(t, x);
        lemma_ranked_in_among(t, x, s[l]);
        assert(!b.contains(s[l])) by {
            if b.contains(s[l]) {
                if t.contains(s[l]) {
                    assert(s[t.index_of(s[l])] == s[l]);
                }
                assert(s.contains(s[l]));
            }
        }
        assert forall|i: int, j: int| 0 <= i < n.len() && 0 <= j < n.len() && i != j implies n[i]
            != n[j] by {
            if i < b.len() {
                assert(b.contains(b[i]));
            }
            if j < b.len() {
                assert(b.contains(b[j]));
            }
        }
    } else {
        assert forall|i: int, j: int| 0 <= i < n.len() && 0 <= j < n.len() && i != j implies n[i]
            != n[j] by {
            if i < s.len() {
                assert(s.contains(s[i]));
            }
            if j < s.len() {
                assert(s.contains(s[j]));
            }
        }
    }
}

/// What is listed are offers; of every major version with a stable offer there is
/// one stable one on the list, and no two; a preview is on the list at most once,
/// and only one that is newer than all stable ones on it.
pub proof fn law_one_of_each_major(o: Seq<Offered>)
    ensures
        ({
            let a = ranked(listed(o));
            &&& forall|e: Offered| #[trigger] a.contains(e) ==> o.contains(e)
            &&& forall|i: int|
                0 <= i < o.len() && !(#[trigger] o[i]).preview ==> exists|j: int|
                    0 <= j < a.len() && !(#[trigger] a[j]).preview && a[j].version.major
                        == o[i].version.major
            &&& forall|j: int, k: int|
                0 <= j < k < a.len() && !(#[trigger] a[j]).preview && !(
                #[trigger] a[k]).preview ==> a[j].version.major != a[k].version.major
            &&& forall|j: int, k: int|
                0 <= j < k < a.len() ==> !((#[trigger] a[j]).preview && (#[trigger] a[k]).preview)
            &&& forall|j: int, k: int|
                0 <= j < a.len() && 0 <= k < a.len() && (#[trigger] a[j]).preview && !(
                #[trigger] a[k]).preview ==> semver_order(a[j].version, a[k].version)
                    == Order::Greater
        }),
{
    let b = best_stable(o);
    let l = listed(o);
    let a = ranked(l);
    lemma_best_stable_majors(o);
    if best_preview(o) is Some {
        lemma_best_preview_among(o);
        lemma_best_preview_is_one(o);
    }
    assert forall|i: int| 0 <= i < l.len() implies (#[trigger] l[i]).preview == (i >= b.len()) by {
        if i < b.len() {
            assert(b.contains(b[i]));
            lemma_best_stable_among(o, b[i]);
        }
    }
    assert(l.no_duplicates()) by {
        assert forall|i: int, j: int| 0 <= i < l.len() && 0 <= j < l.len() && i != j implies l[i]
            != l[j] by {
            if i < b.len() && j < b.len() {
                if i < j {
                    assert(b[i].version.major < b[j].version.major);
                } else {
                    assert(b[j].version.major < b[i].version.major);
                }
            }
        }
    }
    lemma_ranked_once(l);
    assert forall|e: Offered| #[trigger] a.contains(e) implies o.contains(e) by {
        lemma_ranked_among(l, e);
        let k = l.index_of(e);
        if k < b.len() {
            assert(b.contains(b[k]));
            lemma_best_stable_among(o, e);
        }
    }
    assert forall|i: int| 0 <= i < o.len() && !(#[trigger] o[i]).preview implies exists|j: int|
        0 <= j < a.len() && !(#[trigger] a[j]).preview && a[j].version.major
            == o[i].version.major by {
        assert(has_major(b, o[i].version.major));
        let k = choose|k: int|
            0 <= k < b.len() && (#[trigger] b[k]).version.major == o[i].version.major;
        assert(l[k] == b[k]);
        assert(l.contains(l[k]));
        lemma_ranked_among(l, l[k]);
        assert(a[a.index_of(l[k])] == l[k]);
    }
    assert forall|j: int, k: int| 0 <= j < a.len() && 0 <= k < a.len() && j != k implies {
        &&& !(#[trigger] a[j]).preview && !(#[trigger] a[k]).preview ==> a[j].version.major
            != a[k].version.major
        &&& !(a[j].preview && a[k].preview)
        &&& a[j].preview && !a[k].preview ==> semver_order(a[j].version, a[k].version)
            == Order::Greater
    } by {
        assert(a.contains(a[j]) && a.contains(a[k]));
        lemma_ranked_among(l, a[j]);
        lemma_ranked_among(l, a[k]);
        let x = l.index_of(a[j]);
        let y = l.index_of(a[k]);
        assert(a[j] != a[k]);
        if x < b.len() && y < b.len() {
            if x < y {
                assert(b[x].version.major < b[y].version.major);
            } else {
                assert(b[y].version.major < b[x].version.major);
            }
        }
        if x >= b.len() && y < b.len() {
            assert(outranks(l[x], b));
            assert(b[y] == l[y]);
        }
    }
}

proof fn lemma_best_preview_is_one(o: Seq<Offered>)
    requires
        best_preview(o) is Some,
    ensures
        best_preview(o)->0.preview,
    decreases o.len(),
{
    let t = o.drop_last();
    if best_preview(t) is Some {
        lemma_best_preview_is_one(t);
    }
}

/// The release can be offered: it counts in the game, its version was read, and one
/// of its archives has a recorded digest.
pub open spec fn can_be_offered(
    rec: VersionEntry,
    read: Option<ReadingView>,
    lock: Map<Seq<char>, LockedAsset>,
    game: Option<Seq<char>>,
) -> bool {
    &&& read is Some
    &&& game matches Some(g) ==> rec.games@.len() == 0 || lists(rec.games@, g)
    &&& exists|a: int| 0 <= a < rec.assets@.len() && lock.dom().contains(#[trigger] rec.assets@[a]@)
}

/// The offer is of the release: with its version and its text, and as a preview
/// where the catalog marks it or its version is a pre-release, and not where
/// neither is so and its text is made of numbers.
pub open spec fn is_offer_of(x: Offered, rec: VersionEntry, read: Option<ReadingView>) -> bool {
    &&& read is Some
    &&& x.version == read->0.version
    &&& x.shown == read->0.shown
    &&& rec.preview || x.version.pre.len() > 0 ==> x.preview
    &&& !rec.preview && x.version.pre.len() == 0 && numeric(rec.version@) ==> !x.preview
}

/// One of the releases that can be offered is behind the offer.
pub open spec fn offered_by(
    x: Offered,
    recs: Seq<VersionEntry>,
    reads: Seq<Option<ReadingView>>,
    lock: Map<Seq<char>, LockedAsset>,
    game: Option<Seq<char>>,
) -> bool {
    exists|i: int|
        #![trigger recs[i]]
        0 <= i < recs.len() && can_be_offered(recs[i], reads[i], lock, game) && is_offer_of(
            x,
            recs[i],
            reads[i],
        )
}

/// What can be offered are the releases that count in the game, whose version was
/// read and of which an archive has a recorded digest; a release that the catalog
/// marks as a preview is offered as one.
pub proof fn law_what_can_be_offered(
    recs: Seq<VersionEntry>,
    reads: Seq<Option<ReadingView>>,
    lock: Map<Seq<char>, LockedAsset>,
    game: Option<Seq<char>>,
)
    requires
        recs.len() <= reads.len(),
    ensures
        forall|k: int|
            0 <= k < offers(recs, reads, lock, game).len() ==> offered_by(
                #[trigger] offers(recs, reads, lock, game)[k],
                recs,
                reads,
                lock,
                game,
            ),
        forall|i: int|
            0 <= i < recs.len() && can_be_offered(#[trigger] recs[i], reads[i], lock, game)
                ==> has_text(
                offers(recs, reads, lock, game),
                version_text(reads[i]->0.version),
            ),
    decreases recs.len(),
{
    let o = offers(recs, reads, lock, game);
    if recs.len() > 0 {
        let t = recs.drop_last();
        let e = recs.len() - 1;
        let b = offers(t, reads, lock, game);
        law_what_can_be_offered(t, reads, lock, game);
        assert(recs[e] == recs.last());
        assert(can_be_offered(recs[e], reads[e], lock, game) == (in_game(recs[e], game)
            && some_locked(recs[e].assets@, lock) && reads[e] is Some));
        if reads[e] is Some {
            law_what_is_a_preview(recs[e], reads[e]->0.version);
        }
        assert forall|k: int| 0 <= k < o.len() implies offered_by(
            #[trigger] o[k],
            recs,
            reads,
            lock,
            game,
        ) by {
            if k < b.len() {
                assert(o[k] == b[k]);
                assert(offered_by(b[k], t, reads, lock, game));
                let i = choose|i: int|
                    #![trigger t[i]]
                    0 <= i < t.len() && can_be_offered(t[i], reads[i], lock, game) && is_offer_of(
                        b[k],
                        t[i],
                        reads[i],
                    );
                assert(recs[i] == t[i]);
            } else {
                assert(is_offer_of(o[k], recs[e], reads[e]));
            }
        }
        assert forall|i: int|
            0 <= i < recs.len() && can_be_offered(
                #[trigger] recs[i],
                reads[i],
                lock,
                game,
            ) implies has_text(o, version_text(reads[i]->0.version)) by {
            let x = version_text(reads[i]->0.version);
            if i < e {
                assert(t[i] == recs[i]);
            }
            if has_text(b, x) {
                let k = choose|k: int| 0 <= k < b.len() && version_text((#[trigger] b[k]).version) == x;
                assert(o[k] == b[k]);
            } else {
                assert(version_text(o[b.len() as int].version) == x);
            }
        }
    }
}

/// What a list of offers has in front: the newest of all that can be offered; and
/// as its first stable offer the newest that is stable.
pub proof fn law_the_best_is_in_front(o: Seq<Offered>, a: Seq<Offered>, i: int)
    requires
        leads(o, a),
        0 <= i < o.len(),
    ensures
        a.len() > 0,
        o[i].version == a[0].version || (semver_order(o[i].version, a[0].version) == Order::Less
            && semver_order(a[0].version, o[i].version) == Order::Greater),
        !o[i].preview ==> exists|j: int|
            0 <= j < a.len() && !(#[trigger] a[j]).preview && (o[i].version == a[j].version
                || semver_order(o[i].version, a[j].version) == Order::Less) && forall|m: int|
                0 <= m < j ==> (#[trigger] a[m]).preview,
        !o[i].preview ==> exists|j: int|
            0 <= j < a.len() && !(#[trigger] a[j]).preview && a[j].version.major
                == o[i].version.major && (o[i].version == a[j].version || semver_order(
                o[i].version,
                a[j].version,
            ) == Order::Less),
{
    if !o[i].preview {
        let j = choose|j: int| #[trigger]
            first_stable_at(a, j) && under(o[i].version, a[j].version);
        assert(!a[j].preview);
        let k = choose|k: int|
            0 <= k < a.len() && !(#[trigger] a[k]).preview && a[k].version.major
                == o[i].version.major && under(o[i].version, a[k].version);
        assert(!a[k].preview);
    }
}

/// Users see of each offer the text of its version and whether it is a preview.
pub proof fn law_labels_show_the_offers(s: Seq<Offered>)
    ensures
        labels(s).len() == s.len(),
        forall|i: int|
            0 <= i < s.len() ==> (#[trigger] labels(s)[i]).0 == s[i].shown && labels(s)[i].1
                == s[i].preview,
{
}

} // verus!
