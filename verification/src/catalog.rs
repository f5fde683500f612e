//! The package catalog: what can be installed, in which versions, for which
//! games, and which packages share a slot.

use vstd::prelude::*;
use crate::order::{comes_before, lemma_placed_at, lt, sorted};
use crate::strmap::StrMap;
use crate::text::{list_has, lists, own, same, texts};

verus! {

/// The catalog.
#[derive(Debug)]
pub struct PackagesFile {
    pub schema: u32,
    pub packages: Vec<PackageEntry>,
    /// Name of a game's program in small letters -> id of the game (such as
    /// "gta_sa.exe" -> "gta-sa").
    pub games: StrMap<String>,
}

/// One package.
#[derive(Debug)]
pub struct PackageEntry {
    /// Canonical id: the name in the recorded state and in the store.
    pub id: String,
    /// The name that users see.
    pub name: String,
    /// Further names that users can type.
    pub aliases: Vec<String>,
    /// Ids that this package takes the place of in a game directory.
    pub replaces: Vec<String>,
    pub versions: Vec<VersionEntry>,
}

/// One release of a package.
#[derive(Debug)]
pub struct VersionEntry {
    /// The version as it was released.
    pub version: String,
    /// A preview, whatever the version text says.
    pub preview: bool,
    /// The page of the release.
    pub release: Option<String>,
    /// Addresses of the archives of this release.
    pub assets: Vec<String>,
    /// Patterns of archive entries that are left out of the payload.
    pub exclude: Vec<String>,
    /// Games that this release is for; none means every game.
    pub games: Vec<String>,
    /// Ids of the packages that this release needs beside it.
    pub dependencies: Vec<String>,
    pub postinstall: Option<PostInstall>,
}

/// What happens to the files of a release when they are deployed.
#[derive(Debug)]
pub struct PostInstall {
    /// Archive entry -> name under which it is deployed.
    pub rename: StrMap<String>,
}

/// The digests of everything that can be downloaded.
#[derive(Debug)]
pub struct LockFile {
    pub schema: u32,
    /// When the digests were taken.
    pub generated_at: u64,
    /// By the address of the archive.
    pub assets: StrMap<LockedAsset>,
}

/// The digests of one archive.
#[derive(Debug)]
pub struct LockedAsset {
    pub url: String,
    pub sha256: String,
    /// The entries of the archive that are deployed.
    pub files: Vec<LockedFile>,
}

/// One entry of an archive and its digest.
#[derive(Debug)]
pub struct LockedFile {
    /// Path inside the archive, with `/` between its parts.
    pub path: String,
    pub sha256: String,
}

// ---------------------------------------------------------------------------
// Looking packages up
// ---------------------------------------------------------------------------

/// The first package with the id.
pub open spec fn lookup(s: Seq<PackageEntry>, id: Seq<char>) -> Option<PackageEntry>
    decreases s.len(),
{
    if s.len() == 0 {
        None
    } else if s[0].id@ == id {
        Some(s[0])
    } else {
        lookup(s.drop_first(), id)
    }
}

/// The ids of the packages, in the order of the catalog.
pub open spec fn ids(s: Seq<PackageEntry>) -> Seq<Seq<char>> {
    s.map_values(|p: PackageEntry| p.id@)
}

/// No two packages share an id.
pub open spec fn ids_differ(s: Seq<PackageEntry>) -> bool {
    forall|i: int, j: int|
        0 <= i < j < s.len() ==> (#[trigger] s[i]).id@ != (#[trigger] s[j]).id@
}

/// The release is for the game.
pub open spec fn for_game(v: VersionEntry, game: Seq<char>) -> bool {
    v.games@.len() == 0 || lists(v.games@, game)
}

/// The package has a release for the game.
pub open spec fn package_for_game(p: PackageEntry, game: Seq<char>) -> bool {
    exists|i: int| 0 <= i < p.versions@.len() && for_game(#[trigger] p.versions@[i], game)
}

/// The catalog knows the id, and the package has a release for the game.
pub open spec fn covers(s: Seq<PackageEntry>, id: Seq<char>, game: Seq<char>) -> bool {
    match lookup(s, id) {
        Some(p) => package_for_game(p, game),
        None => false,
    }
}

/// What a lookup finds is a package of the catalog with that id, and it finds
/// one if there is one.
pub proof fn lemma_lookup(s: Seq<PackageEntry>, id: Seq<char>)
    ensures
        match lookup(s, id) {
            Some(p) => p.id@ == id && s.contains(p),
            None => forall|i: int| 0 <= i < s.len() ==> (#[trigger] s[i]).id@ != id,
        },
    decreases s.len(),
{
    if s.len() > 0 && s[0].id@ != id {
        let t = s.drop_first();
        lemma_lookup(t, id);
        match lookup(t, id) {
            Some(p) => {
                let k = t.index_of(p);
                assert(s[k + 1] == p);
            },
            None => {
                assert forall|i: int| 0 <= i < s.len() implies (#[trigger] s[i]).id@ != id by {
                    if i > 0 {
                        assert(t[i - 1] == s[i]);
                    }
                }
            },
        }
    }
}

/// Where ids differ, the lookup of a package's id finds that package.
pub proof fn lemma_lookup_own(s: Seq<PackageEntry>, i: int)
    requires
        ids_differ(s),
        0 <= i < s.len(),
    ensures
        lookup(s, s[i].id@) == Some(s[i]),
{
    lemma_lookup(s, s[i].id@);
    match lookup(s, s[i].id@) {
        Some(p) => {
            let k = s.index_of(p);
            assert(s[k].id@ == s[i].id@);
            assert(k == i);
        },
        None => {},
    }
}

impl PackagesFile {
    /// The first package with the id.
    pub fn pkg(&self, id: &str) -> (r: Option<&PackageEntry>)
        ensures
            match r {
                Some(p) => lookup(self.packages@, id@) == Some(*p),
                None => lookup(self.packages@, id@) is None,
            },
    {
        let mut i: usize = 0;
        proof {
            assert(self.packages@.skip(0) =~= self.packages@);
        }
        while i < self.packages.len()
            invariant
                i <= self.packages@.len(),
                lookup(self.packages@, id@) == lookup(self.packages@.skip(i as int), id@),
            decreases self.packages.len() - i,
        {
            proof {
                assert(self.packages@.skip(i as int).drop_first() =~= self.packages@.skip(i + 1));
            }
            if same(self.packages[i].id.as_str(), id) {
                return Some(&self.packages[i]);
            }
            i = i + 1;
        }
        None
    }

    /// The ids of all packages in order.
    pub fn sorted_ids(&self) -> (out: Vec<&str>)
        ensures
            out@.map_values(|s: &str| s@) == sorted(ids(self.packages@)),
    {
        let mut out: Vec<&str> = Vec::new();
        let mut i: usize = 0;
        let ghost all = ids(self.packages@);
        proof {
            assert(out@.map_values(|s: &str| s@) =~= sorted(all.take(0)));
        }
        while i < self.packages.len()
            invariant
                i <= self.packages@.len(),
                all == ids(self.packages@),
                out@.map_values(|s: &str| s@) == sorted(all.take(i as int)),
            decreases self.packages.len() - i,
        {
            let x: &str = self.packages[i].id.as_str();
            let ghost before = out@.map_values(|s: &str| s@);
            proof {
                assert(all.take(i + 1).drop_last() =~= all.take(i as int));
                assert(all.take(i + 1).last() == x@);
            }
            let mut j: usize = out.len();
            while j > 0 && comes_before(x, out[j - 1])
                invariant
                    j <= out@.len(),
                    before == out@.map_values(|s: &str| s@),
                    forall|k: int| j <= k < out@.len() ==> lt(x@, #[trigger] before[k]),
                decreases j,
            {
                j = j - 1;
            }
            proof {
                lemma_placed_at(before, x@, j as int);
                assert(out@.insert(j as int, x).map_values(|s: &str| s@) =~= before.insert(
                    j as int,
                    x@,
                ));
            }
            out.insert(j, x);
            i = i + 1;
        }
        proof {
            assert(all.take(i as int) =~= all);
        }
        out
    }

    /// Does the package have a release for the game?
    pub fn covers_game(&self, pkg_id: &str, game: &str) -> (b: bool)
        ensures
            b == covers(self.packages@, pkg_id@, game@),
    {
        match self.pkg(pkg_id) {
            Some(p) => {
                let mut i: usize = 0;
                while i < p.versions.len()
                    invariant
                        i <= p.versions@.len(),
                        lookup(self.packages@, pkg_id@) == Some(*p),
                        forall|k: int| 0 <= k < i ==> !for_game(#[trigger] p.versions@[k], game@),
                    decreases p.versions.len() - i,
                {
                    if version_covers_game(&p.versions[i], game) {
                        return true;
                    }
                    i = i + 1;
                }
                false
            },
            None => false,
        }
    }
}

/// Is the release for the game?
pub fn version_covers_game(v: &VersionEntry, game: &str) -> (b: bool)
    ensures
        b == for_game(*v, game@),
{
    v.games.len() == 0 || list_has(&v.games, game)
}

// ---------------------------------------------------------------------------
// Slots
// ---------------------------------------------------------------------------

/// The ids of the packages, other than `cur` itself, that replace `cur`.
pub open spec fn replacers(s: Seq<PackageEntry>, cur: Seq<char>) -> Seq<Seq<char>>
    decreases s.len(),
{
    if s.len() == 0 {
        Seq::empty()
    } else if s.last().id@ != cur && lists(s.last().replaces@, cur) {
        replacers(s.drop_last(), cur).push(s.last().id@)
    } else {
        replacers(s.drop_last(), cur)
    }
}

/// The ids that `cur` replaces.
pub open spec fn replaced_by(s: Seq<PackageEntry>, cur: Seq<char>) -> Seq<Seq<char>> {
    match lookup(s, cur) {
        Some(p) => texts(p.replaces@),
        None => Seq::empty(),
    }
}

/// The ids that share a slot with `cur` directly.
pub open spec fn partners(s: Seq<PackageEntry>, cur: Seq<char>) -> Seq<Seq<char>> {
    replaced_by(s, cur) + replacers(s, cur)
}

/// `known` and behind it what `more` adds to it, each text once.
pub open spec fn joined_once(known: Seq<Seq<char>>, more: Seq<Seq<char>>) -> Seq<Seq<char>>
    decreases more.len(),
{
    if more.len() == 0 {
        known
    } else {
        let before = joined_once(known, more.drop_last());
        if before.contains(more.last()) {
            before
        } else {
            before.push(more.last())
        }
    }
}

/// The partners of `known[at]` and of everything behind it, breadth first, in
/// at most `steps` steps.
pub open spec fn crawled(s: Seq<PackageEntry>, known: Seq<Seq<char>>, at: nat, steps: nat) -> Seq<
    Seq<char>,
>
    decreases steps,
{
    if steps == 0 || at >= known.len() {
        known
    } else {
        crawled(s, joined_once(known, partners(s, known[at as int])), at + 1, (steps - 1) as nat)
    }
}

/// Every id that the catalog mentions.
pub open spec fn mentioned(s: Seq<PackageEntry>) -> Seq<Seq<char>>
    decreases s.len(),
{
    if s.len() == 0 {
        Seq::empty()
    } else {
        mentioned(s.drop_last()) + texts(s.last().replaces@).push(s.last().id@)
    }
}

/// The ids that share a slot with `id`, itself first.
pub open spec fn slot(s: Seq<PackageEntry>, id: Seq<char>) -> Seq<Seq<char>> {
    crawled(s, seq![id], 0, mentioned(s).len() + 1)
}

/// The ids of the slot that the catalog knows, and `id` itself.
pub open spec fn known_slot(s: Seq<PackageEntry>, id: Seq<char>) -> Seq<Seq<char>> {
    slot(s, id).filter(|x: Seq<char>| x == id || lookup(s, x) is Some)
}

proof fn lemma_joined_once(known: Seq<Seq<char>>, more: Seq<Seq<char>>)
    requires
        known.no_duplicates(),
    ensures
        joined_once(known, more).no_duplicates(),
        known.len() <= joined_once(known, more).len(),
        forall|i: int|
            0 <= i < known.len() ==> #[trigger] joined_once(known, more)[i] == known[i],
        forall|x: Seq<char>|
            #[trigger] joined_once(known, more).contains(x) <==> known.contains(x)
                || more.contains(x),
        forall|i: int|
            known.len() <= i < joined_once(known, more).len() ==> more.contains(
                #[trigger] joined_once(known, more)[i],
            ),
    decreases more.len(),
{
    if more.len() > 0 {
        let t = more.drop_last();
        lemma_joined_once(known, t);
        let b = joined_once(known, t);
        let n = joined_once(known, more);
        let x0 = more.last();
        assert forall|x: Seq<char>| #[trigger] n.contains(x) <==> known.contains(x)
            || more.contains(x) by {
            if more.contains(x) {
                let k = more.index_of(x);
                if k < t.len() {
                    assert(t[k] == x);
                    assert(b.contains(x));
                }
            }
            if t.contains(x) {
                let k = t.index_of(x);
                assert(more[k] == x);
            }
            assert(more[more.len() - 1] == x0);
            if b.contains(x) {
                let k = b.index_of(x);
                assert(n[k] == x);
            }
            if n.contains(x) {
                let k = n.index_of(x);
                if k < b.len() {
                    assert(b[k] == x);
                }
            }
            if x == x0 && !b.contains(x) {
                assert(n[b.len() as int] == x);
            }
        }
        assert forall|i: int| known.len() <= i < n.len() implies more.contains(#[trigger] n[i]) by {
            if i < b.len() {
                assert(t.contains(b[i]));
                let k = t.index_of(b[i]);
                assert(more[k] == n[i]);
            } else {
                assert(more[more.len() - 1] == n[i]);
            }
        }
    }
}

proof fn lemma_replacers(s: Seq<PackageEntry>, cur: Seq<char>, x: Seq<char>)
    ensures
        replacers(s, cur).contains(x) <==> exists|i: int|
            0 <= i < s.len() && (#[trigger] s[i]).id@ == x && x != cur && lists(
                s[i].replaces@,
                cur,
            ),
    decreases s.len(),
{
    if s.len() > 0 {
        let t = s.drop_last();
        lemma_replacers(t, cur, x);
        let r = replacers(t, cur);
        let n = replacers(s, cur);
        if n.contains(x) {
            let k = n.index_of(x);
            if k < r.len() {
                assert(r[k] == x);
                assert(r.contains(x));
                let i = choose|i: int|
                    0 <= i < t.len() && (#[trigger] t[i]).id@ == x && x != cur && lists(
                        t[i].replaces@,
                        cur,
                    );
                assert(s[i].id@ == x);
            } else {
                assert(s[s.len() - 1].id@ == x);
            }
        }
        if exists|i: int|
            0 <= i < s.len() && (#[trigger] s[i]).id@ == x && x != cur && lists(
                s[i].replaces@,
                cur,
            ) {
            let i = choose|i: int|
                0 <= i < s.len() && (#[trigger] s[i]).id@ == x && x != cur && lists(
                    s[i].replaces@,
                    cur,
                );
            if i < t.len() {
                assert(t[i].id@ == x);
                let k = r.index_of(x);
                assert(n[k] == x);
            } else {
                assert(n[r.len() as int] == x);
            }
        }
    }
}

proof fn lemma_mentioned(s: Seq<PackageEntry>, i: int)
    requires
        0 <= i < s.len(),
    ensures
        mentioned(s).contains(s[i].id@),
        forall|x: Seq<char>| lists(s[i].replaces@, x) ==> #[trigger] mentioned(s).contains(x),
    decreases s.len(),
{
    let t = s.drop_last();
    let m = mentioned(t);
    let more = texts(s.last().replaces@).push(s.last().id@);
    let n = mentioned(s);
    if i < t.len() {
        lemma_mentioned(t, i);
        assert(t[i] == s[i]);
        assert forall|x: Seq<char>| m.contains(x) implies #[trigger] n.contains(x) by {
            let k = m.index_of(x);
            assert(n[k] == x);
        }
        assert(m.contains(s[i].id@));
        assert(n.contains(s[i].id@));
        assert forall|x: Seq<char>| lists(s[i].replaces@, x) implies #[trigger] n.contains(x) by {
            assert(m.contains(x));
        }
    } else {
        assert(n[m.len() + more.len() - 1] == s[i].id@);
        assert forall|x: Seq<char>| lists(s[i].replaces@, x) implies #[trigger] n.contains(x) by {
            let k = choose|k: int| 0 <= k < s[i].replaces@.len() && #[trigger] s[i].replaces@[k]@ == x;
            assert(more[k] == x);
            assert(n[m.len() + k] == x);
        }
    }
}

proof fn lemma_partners_mentioned(s: Seq<PackageEntry>, cur: Seq<char>, x: Seq<char>)
    requires
        partners(s, cur).contains(x),
    ensures
        mentioned(s).contains(x),
{
    let a = replaced_by(s, cur);
    let b = replacers(s, cur);
    let k = partners(s, cur).index_of(x);
    if k < a.len() {
        lemma_lookup(s, cur);
        let p = lookup(s, cur)->0;
        let i = s.index_of(p);
        lemma_mentioned(s, i);
        assert(p.replaces@[k]@ == x);
        assert(lists(s[i].replaces@, x));
    } else {
        assert(b[k - a.len()] == x);
        assert(b.contains(x));
        lemma_replacers(s, cur, x);
        let i = choose|i: int|
            0 <= i < s.len() && (#[trigger] s[i]).id@ == x && x != cur && lists(
                s[i].replaces@,
                cur,
            );
        lemma_mentioned(s, i);
    }
}

/// A list without repeats, of `id` and mentioned ids, is no longer than that.
proof fn lemma_known_bounded(s: Seq<PackageEntry>, id: Seq<char>, known: Seq<Seq<char>>)
    requires
        known.no_duplicates(),
        forall|x: Seq<char>| #[trigger] known.contains(x) ==> x == id || mentioned(s).contains(x),
    ensures
        known.len() <= mentioned(s).len() + 1,
{
    let all = mentioned(s).push(id);
    known.unique_seq_to_set();
    all.lemma_cardinality_of_set();
    assert forall|x: Seq<char>| known.to_set().contains(x) implies all.to_set().contains(x) by {
        assert(known.contains(x));
        if x == id {
            assert(all[all.len() - 1] == x);
        } else {
            let k = mentioned(s).index_of(x);
            assert(all[k] == x);
        }
    }
    vstd::set_lib::lemma_len_subset(known.to_set(), all.to_set());
}

/// What a crawl keeps: no repeats, the start in front, and for each further
/// id an earlier one that has it as a partner.
pub open spec fn crawl_ok(s: Seq<PackageEntry>, id: Seq<char>, known: Seq<Seq<char>>) -> bool {
    &&& known.len() > 0
    &&& known[0] == id
    &&& known.no_duplicates()
    &&& forall|i: int|
        0 < i < known.len() ==> exists|j: int|
            0 <= j < i && partners(s, #[trigger] known[j]).contains(#[trigger] known[i])
}

/// The partners of the first `at` ids are all there.
pub open spec fn settled(s: Seq<PackageEntry>, known: Seq<Seq<char>>, at: int) -> bool {
    forall|j: int, x: Seq<char>|
        0 <= j < at && #[trigger] partners(s, #[trigger] known[j]).contains(x) ==> known.contains(x)
}

proof fn lemma_crawl_known(s: Seq<PackageEntry>, id: Seq<char>, known: Seq<Seq<char>>)
    requires
        crawl_ok(s, id, known),
    ensures
        known.len() <= mentioned(s).len() + 1,
{
    assert forall|x: Seq<char>| #[trigger] known.contains(x) implies x == id || mentioned(
        s,
    ).contains(x) by {
        let i = known.index_of(x);
        if i > 0 {
            let j = choose|j: int|
                0 <= j < i && partners(s, #[trigger] known[j]).contains(known[i]);
            lemma_partners_mentioned(s, known[j], x);
        }
    }
    lemma_known_bounded(s, id, known);
}

proof fn lemma_crawl_step(s: Seq<PackageEntry>, id: Seq<char>, known: Seq<Seq<char>>, at: int)
    requires
        crawl_ok(s, id, known),
        settled(s, known, at),
        0 <= at < known.len(),
    ensures
        crawl_ok(s, id, joined_once(known, partners(s, known[at]))),
        settled(s, joined_once(known, partners(s, known[at])), at + 1),
        known.len() <= joined_once(known, partners(s, known[at])).len(),
{
    let more = partners(s, known[at]);
    let n = joined_once(known, more);
    lemma_joined_once(known, more);
    assert forall|i: int| 0 < i < n.len() implies exists|j: int|
        0 <= j < i && partners(s, #[trigger] n[j]).contains(#[trigger] n[i]) by {
        if i < known.len() {
            let j = choose|j: int|
                0 <= j < i && partners(s, #[trigger] known[j]).contains(known[i]);
            assert(n[j] == known[j] && n[i] == known[i]);
        } else {
            assert(n[at] == known[at]);
            assert(partners(s, n[at]).contains(n[i]));
        }
    }
    assert forall|j: int, x: Seq<char>|
        0 <= j < at + 1 && #[trigger] partners(s, #[trigger] n[j]).contains(x) implies n.contains(
        x,
    ) by {
        assert(n[j] == known[j]);
        if j < at {
            assert(partners(s, known[j]).contains(x));
            assert(known.contains(x));
        } else {
            assert(more.contains(x));
        }
    }
}

proof fn lemma_crawled(
    s: Seq<PackageEntry>,
    id: Seq<char>,
    known: Seq<Seq<char>>,
    at: nat,
    steps: nat,
)
    requires
        crawl_ok(s, id, known),
        settled(s, known, at as int),
        at <= known.len(),
        at + steps >= mentioned(s).len() + 1,
    ensures
        crawl_ok(s, id, crawled(s, known, at, steps)),
        settled(s, crawled(s, known, at, steps), crawled(s, known, at, steps).len() as int),
    decreases steps,
{
    lemma_crawl_known(s, id, known);
    if steps > 0 && at < known.len() {
        lemma_crawl_step(s, id, known, at as int);
        let n = joined_once(known, partners(s, known[at as int]));
        lemma_crawled(s, id, n, at + 1, (steps - 1) as nat);
    }
}

/// A slot starts with the id itself, holds nothing twice, and holds the
/// partners of every id in it.
pub proof fn law_slot_closed(s: Seq<PackageEntry>, id: Seq<char>)
    ensures
        slot(s, id).len() > 0,
        slot(s, id)[0] == id,
        slot(s, id).no_duplicates(),
        forall|y: Seq<char>, x: Seq<char>|
            slot(s, id).contains(y) && #[trigger] partners(s, y).contains(x) ==> slot(
                s,
                id,
            ).contains(x),
{
    let start = seq![id];
    assert(crawl_ok(s, id, start));
    lemma_crawled(s, id, start, 0, mentioned(s).len() + 1);
    let r = slot(s, id);
    assert forall|y: Seq<char>, x: Seq<char>|
        r.contains(y) && #[trigger] partners(s, y).contains(x) implies r.contains(x) by {
        let j = r.index_of(y);
        assert(partners(s, r[j]).contains(x));
    }
}

/// A slot holds no more than it must: it lies in every set that holds the id
/// and the partners of all its members.
pub proof fn law_slot_least(s: Seq<PackageEntry>, id: Seq<char>, set: Set<Seq<char>>)
    requires
        set.contains(id),
        forall|y: Seq<char>, x: Seq<char>|
            set.contains(y) && #[trigger] partners(s, y).contains(x) ==> set.contains(x),
    ensures
        forall|x: Seq<char>| #[trigger] slot(s, id).contains(x) ==> set.contains(x),
{
    let start = seq![id];
    assert(crawl_ok(s, id, start));
    lemma_crawled(s, id, start, 0, mentioned(s).len() + 1);
    let r = slot(s, id);
    assert forall|x: Seq<char>| #[trigger] r.contains(x) implies set.contains(x) by {
        lemma_slot_member(s, id, r, r.index_of(x), set);
    }
}

proof fn lemma_slot_member(
    s: Seq<PackageEntry>,
    id: Seq<char>,
    r: Seq<Seq<char>>,
    i: int,
    set: Set<Seq<char>>,
)
    requires
        crawl_ok(s, id, r),
        0 <= i < r.len(),
        set.contains(id),
        forall|y: Seq<char>, x: Seq<char>|
            set.contains(y) && #[trigger] partners(s, y).contains(x) ==> set.contains(x),
    ensures
        set.contains(r[i]),
    decreases i,
{
    if i > 0 {
        let j = choose|j: int| 0 <= j < i && partners(s, #[trigger] r[j]).contains(r[i]);
        lemma_slot_member(s, id, r, j, set);
    }
}

/// Where ids differ, being partners goes both ways.
pub proof fn law_partners_mutual(s: Seq<PackageEntry>, a: Seq<char>, b: Seq<char>)
    requires
        ids_differ(s),
        partners(s, a).contains(b),
        a != b,
    ensures
        partners(s, b).contains(a),
{
    let ra = replaced_by(s, a);
    let k = partners(s, a).index_of(b);
    if k < ra.len() {
        lemma_lookup(s, a);
        let p = lookup(s, a)->0;
        let i = s.index_of(p);
        assert(s[i].replaces@[k]@ == b);
        assert(lists(s[i].replaces@, b));
        lemma_replacers(s, b, a);
        assert(replacers(s, b).contains(a));
        let m = replacers(s, b).index_of(a);
        assert(partners(s, b)[replaced_by(s, b).len() + m] == a);
    } else {
        assert(replacers(s, a)[k - ra.len()] == b);
        lemma_replacers(s, a, b);
        let i = choose|i: int|
            0 <= i < s.len() && (#[trigger] s[i]).id@ == b && b != a && lists(s[i].replaces@, a);
        lemma_lookup_own(s, i);
        let m = choose|m: int| 0 <= m < s[i].replaces@.len() && #[trigger] s[i].replaces@[m]@ == a;
        assert(replaced_by(s, b)[m] == a);
        assert(partners(s, b)[m] == a);
    }
}

/// Where ids differ, sharing a slot goes both ways.
pub proof fn law_slot_mutual(s: Seq<PackageEntry>, a: Seq<char>, b: Seq<char>)
    requires
        ids_differ(s),
    ensures
        slot(s, a).contains(b) <==> slot(s, b).contains(a),
{
    if slot(s, a).contains(b) {
        lemma_slot_back(s, a, b);
    }
    if slot(s, b).contains(a) {
        lemma_slot_back(s, b, a);
    }
}

proof fn lemma_slot_back(s: Seq<PackageEntry>, a: Seq<char>, b: Seq<char>)
    requires
        ids_differ(s),
        slot(s, a).contains(b),
    ensures
        slot(s, b).contains(a),
{
    let start = seq![a];
    assert(crawl_ok(s, a, start));
    lemma_crawled(s, a, start, 0, mentioned(s).len() + 1);
    law_slot_closed(s, b);
    assert(slot(s, b)[0] == b);
    lemma_slot_ancestor(s, a, b, slot(s, a).index_of(b));
}

proof fn lemma_slot_ancestor(s: Seq<PackageEntry>, a: Seq<char>, b: Seq<char>, i: int)
    requires
        ids_differ(s),
        crawl_ok(s, a, slot(s, a)),
        0 <= i < slot(s, a).len(),
        slot(s, b).contains(slot(s, a)[i]),
        forall|y: Seq<char>, x: Seq<char>|
            slot(s, b).contains(y) && #[trigger] partners(s, y).contains(x) ==> slot(
                s,
                b,
            ).contains(x),
    ensures
        slot(s, b).contains(a),
    decreases i,
{
    let r = slot(s, a);
    if i > 0 {
        let j = choose|j: int| 0 <= j < i && partners(s, #[trigger] r[j]).contains(r[i]);
        assert(r[j] != r[i]);
        law_partners_mutual(s, r[j], r[i]);
        lemma_slot_ancestor(s, a, b, j);
    }
}

/// Puts `x` behind the list unless it is in it.
fn add_once(v: &mut Vec<String>, x: &str)
    ensures
        texts(final(v)@) == if texts(old(v)@).contains(x@) {
            texts(old(v)@)
        } else {
            texts(old(v)@).push(x@)
        },
{
    let listed: bool = list_has(v, x);
    proof {
        if listed {
            let k = choose|k: int| 0 <= k < v@.len() && #[trigger] v@[k]@ == x@;
            assert(texts(v@)[k] == x@);
        } else if texts(v@).contains(x@) {
            let k = texts(v@).index_of(x@);
            assert(v@[k]@ == x@);
        }
    }
    if !listed {
        let ghost before = v@;
        v.push(own(x));
        proof {
            assert(texts(v@) =~= texts(before).push(x@));
        }
    }
}

/// The ids that share a slot with `id`: itself, and every id linked to it by
/// `replaces` in either direction, also through others, breadth first. Only one
/// of them can be installed in a game directory.
pub fn slot_ids(pkgs: &PackagesFile, id: &str) -> (out: Vec<String>)
    ensures
        texts(out@) == slot(pkgs.packages@, id@),
{
    let ghost s = pkgs.packages@;
    let mut out: Vec<String> = Vec::new();
    out.push(own(id));
    let mut at: usize = 0;
    let ghost bound = mentioned(s).len() + 1;
    proof {
        assert(texts(out@) =~= seq![id@]);
        assert(crawl_ok(s, id@, seq![id@]));
    }
    while at < out.len()
        invariant
            at <= out@.len(),
            s == pkgs.packages@,
            bound == mentioned(s).len() + 1,
            out@.len() <= bound,
            crawl_ok(s, id@, texts(out@)),
            settled(s, texts(out@), at as int),
            slot(s, id@) == crawled(s, texts(out@), at as nat, (bound - at) as nat),
        decreases bound - at,
    {
        let cur: String = out[at].clone();
        let ghost known = texts(out@);
        let ghost a = replaced_by(s, cur@);
        proof {
            assert(known[at as int] == cur@);
            lemma_crawl_step(s, id@, known, at as int);
            assert(a.take(0) =~= Seq::<Seq<char>>::empty());
        }
        if let Some(p) = pkgs.pkg(cur.as_str()) {
            let mut i: usize = 0;
            while i < p.replaces.len()
                invariant
                    i <= p.replaces@.len(),
                    a == texts(p.replaces@),
                    texts(out@) == joined_once(known, a.take(i as int)),
                decreases p.replaces.len() - i,
            {
                proof {
                    assert(a.take(i + 1).drop_last() =~= a.take(i as int));
                    assert(a.take(i + 1).last() == p.replaces@[i as int]@);
                }
                add_once(&mut out, p.replaces[i].as_str());
                i = i + 1;
            }
            proof {
                assert(a.take(i as int) =~= a);
            }
        }
        proof {
            assert(texts(out@) == joined_once(known, a));
        }
        let mut i: usize = 0;
        proof {
            assert(s.take(0) =~= Seq::<PackageEntry>::empty());
            assert(a + replacers(s.take(0), cur@) =~= a);
        }
        while i < pkgs.packages.len()
            invariant
                i <= s.len(),
                s == pkgs.packages@,
                texts(out@) == joined_once(known, a + replacers(s.take(i as int), cur@)),
            decreases s.len() - i,
        {
            let p = &pkgs.packages[i];
            proof {
                assert(s.take(i + 1).drop_last() =~= s.take(i as int));
                assert(s.take(i + 1).last() == *p);
            }
            if p.id != cur && list_has(&p.replaces, cur.as_str()) {
                let ghost r = replacers(s.take(i as int), cur@);
                proof {
                    assert((a + r.push(p.id@)).drop_last() =~= a + r);
                    assert((a + r.push(p.id@)).last() == p.id@);
                }
                add_once(&mut out, p.id.as_str());
            }
            i = i + 1;
        }
        proof {
            assert(s.take(i as int) =~= s);
            lemma_crawl_known(s, id@, texts(out@));
        }
        at = at + 1;
    }
    out
}

/// The ids of the slot that the catalog knows, and `id` itself.
pub fn existent_slot(pkgs: &PackagesFile, id: &str) -> (out: Vec<String>)
    ensures
        texts(out@) == known_slot(pkgs.packages@, id@),
{
    let all = slot_ids(pkgs, id);
    let ghost s = pkgs.packages@;
    let ghost keep = |x: Seq<char>| x == id@ || lookup(s, x) is Some;
    let mut out: Vec<String> = Vec::new();
    let mut i: usize = 0;
    proof {
        reveal(Seq::filter);
        assert(texts(out@) =~= texts(all@).take(0).filter(keep));
    }
    while i < all.len()
        invariant
            i <= all@.len(),
            s == pkgs.packages@,
            keep == (|x: Seq<char>| x == id@ || lookup(s, x) is Some),
            texts(out@) == texts(all@).take(i as int).filter(keep),
        decreases all.len() - i,
    {
        let ghost now = texts(all@).take(i + 1);
        proof {
            reveal(Seq::filter);
            assert(now.drop_last() =~= texts(all@).take(i as int));
            assert(now.last() == all@[i as int]@);
        }
        if same(all[i].as_str(), id) || pkgs.pkg(all[i].as_str()).is_some() {
            let ghost before = out@;
            out.push(all[i].clone());
            proof {
                assert(texts(out@) =~= texts(before).push(all@[i as int]@));
            }
        }
        i = i + 1;
    }
    proof {
        assert(texts(all@).take(i as int) =~= texts(all@));
    }
    out
}

/// A lookup finds the first package with the id, and none exactly where there is
/// no package with it.
pub proof fn law_lookup_finds_the_first(s: Seq<PackageEntry>, id: Seq<char>)
    ensures
        match lookup(s, id) {
            Some(p) => exists|i: int|
                0 <= i < s.len() && #[trigger] s[i] == p && p.id@ == id && forall|j: int|
                    0 <= j < i ==> (#[trigger] s[j]).id@ != id,
            None => forall|i: int| 0 <= i < s.len() ==> (#[trigger] s[i]).id@ != id,
        },
    decreases s.len(),
{
    if s.len() > 0 {
        if s[0].id@ != id {
            let t = s.drop_first();
            law_lookup_finds_the_first(t, id);
            match lookup(t, id) {
                Some(p) => {
                    let i = choose|i: int|
                        0 <= i < t.len() && #[trigger] t[i] == p && p.id@ == id && forall|j: int|
                            0 <= j < i ==> (#[trigger] t[j]).id@ != id;
                    assert(s[i + 1] == p);
                    assert forall|j: int| 0 <= j < i + 1 implies (#[trigger] s[j]).id@ != id by {
                        if j > 0 {
                            assert(t[j - 1] == s[j]);
                        }
                    }
                },
                None => {
                    assert forall|i: int| 0 <= i < s.len() implies (#[trigger] s[i]).id@
                        != id by {
                        if i > 0 {
                            assert(t[i - 1] == s[i]);
                        }
                    }
                },
            }
        } else {
            assert(s[0] == lookup(s, id)->0);
        }
    }
}

/// A package can be used in a game exactly where one of its releases names the
/// game, or names none.
pub proof fn law_releases_decide_the_game(s: Seq<PackageEntry>, i: int, game: Seq<char>)
    requires
        ids_differ(s),
        0 <= i < s.len(),
    ensures
        covers(s, s[i].id@, game) <==> exists|j: int|
            0 <= j < s[i].versions@.len() && ((#[trigger] s[i].versions@[j]).games@.len() == 0
                || exists|k: int|
                0 <= k < s[i].versions@[j].games@.len()
                    && #[trigger] s[i].versions@[j].games@[k]@ == game),
{
    lemma_lookup_own(s, i);
    let v = s[i].versions@;
    assert forall|j: int| 0 <= j < v.len() implies for_game(#[trigger] v[j], game) == (
    v[j].games@.len() == 0 || exists|k: int|
        0 <= k < v[j].games@.len() && #[trigger] v[j].games@[k]@ == game) by {}
    if covers(s, s[i].id@, game) {
        let j = choose|j: int| 0 <= j < v.len() && for_game(#[trigger] v[j], game);
        assert(for_game(v[j], game));
    }
}

/// A package shares a slot with each package that it replaces, whichever of the
/// two is asked for.
pub proof fn law_replacing_shares_the_slot(s: Seq<PackageEntry>, i: int, j: int)
    requires
        ids_differ(s),
        0 <= i < s.len(),
        0 <= j < s.len(),
        exists|k: int|
            0 <= k < s[i].replaces@.len() && #[trigger] s[i].replaces@[k]@ == s[j].id@,
    ensures
        known_slot(s, s[i].id@).contains(s[j].id@),
        known_slot(s, s[j].id@).contains(s[i].id@),
{
    let a = s[i].id@;
    let b = s[j].id@;
    lemma_lookup_own(s, i);
    lemma_lookup_own(s, j);
    let k = choose|k: int|
        0 <= k < s[i].replaces@.len() && #[trigger] s[i].replaces@[k]@ == b;
    assert(texts(s[i].replaces@)[k] == b);
    assert(partners(s, a)[k] == b);
    assert(partners(s, a).contains(b));
    law_slot_closed(s, a);
    law_slot_closed(s, b);
    assert(slot(s, a)[0] == a);
    assert(slot(s, a).contains(a));
    assert(slot(s, a).contains(b));
    assert(slot(s, b)[0] == b);
    assert(slot(s, b).contains(b));
    if a != b {
        lemma_replacers(s, b, a);
        assert(lists(s[i].replaces@, b));
        assert(replacers(s, b).contains(a));
        let m = choose|m: int| 0 <= m < replacers(s, b).len() && replacers(s, b)[m] == a;
        assert(partners(s, b)[replaced_by(s, b).len() + m] == a);
        assert(partners(s, b).contains(a));
        assert(slot(s, b).contains(a));
    }
    let k = slot(s, a).index_of(b);
    assert(known_slot(s, a).contains(slot(s, a)[k]));
    let n = slot(s, b).index_of(a);
    assert(known_slot(s, b).contains(slot(s, b)[n]));
}

/// The slot of a package, as far as the catalog knows it, holds the package itself
/// and those ids of the slot that are ids of packages.
pub proof fn law_the_slot_that_counts(s: Seq<PackageEntry>, id: Seq<char>, w: Seq<char>)
    ensures
        known_slot(s, id).contains(id),
        known_slot(s, id).contains(w) <==> slot(s, id).contains(w) && (w == id || exists|i: int|
            0 <= i < s.len() && (#[trigger] s[i]).id@ == w),
{
    broadcast use Seq::lemma_filter_contains_rev;

    let all = slot(s, id);
    let few = known_slot(s, id);
    law_slot_closed(s, id);
    assert(all[0] == id);
    assert(few.contains(all[0]));
    lemma_lookup(s, w);
    if lookup(s, w) is Some {
        let i = s.index_of(lookup(s, w)->0);
        assert(s[i].id@ == w);
    }
    if all.contains(w) && (w == id || lookup(s, w) is Some) {
        let k = all.index_of(w);
        assert(few.contains(all[k]));
    }
    if few.contains(w) {
        let j = few.index_of(w);
        assert(few[j] == id || lookup(s, few[j]) is Some);
        assert(all.contains(w));
    }
}

} // verus!
