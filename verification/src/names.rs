//! Finding a package by the name that a user types.

use vstd::prelude::*;
use crate::catalog::{covers, PackageEntry, PackagesFile};
use crate::error::{fails, other, ChefError, Result};
use crate::resolution::opt_text;
use crate::text::{
    all_ascii, begins, cat3, char_is_alnum, char_to_lower, chars_of, contains, count_text, decimal,
    decimal_text, found_at, is_alnum, is_digit, law_decimal_reads_back, lower_ascii, lower_char,
    lowercase, occurs, own, parse_count, same, starts_with, texts, to_lower, trim, trimmed,
};

verus! {

// ---------------------------------------------------------------------------
// Normal form
// ---------------------------------------------------------------------------

/// The letters and digits of a text, as small letters.
pub open spec fn normalized(s: Seq<char>) -> Seq<char>
    decreases s.len(),
{
    if s.len() == 0 {
        Seq::empty()
    } else if is_alnum(s.last()) {
        normalized(s.drop_last()).push(lower_char(s.last()))
    } else {
        normalized(s.drop_last())
    }
}

/// The letters and digits of a name, as small letters.
pub fn normalize(s: &str) -> (out: String)
    ensures
        out@ == normalized(s@),
{
    let v = chars_of(s);
    let mut out: String = String::new();
    let mut i: usize = 0;
    proof {
        assert(v@.take(0) =~= Seq::<char>::empty());
    }
    while i < v.len()
        invariant
            i <= v@.len(),
            out@ == normalized(v@.take(i as int)),
        decreases v.len() - i,
    {
        proof {
            assert(v@.take(i + 1).drop_last() =~= v@.take(i as int));
        }
        if char_is_alnum(v[i]) {
            out.push(char_to_lower(v[i]));
        }
        i = i + 1;
    }
    proof {
        assert(v@.take(i as int) =~= v@);
    }
    out
}

/// The normal form of a normal form is itself.
pub proof fn law_normal_form(s: Seq<char>)
    ensures
        normalized(normalized(s)) == normalized(s),
    decreases s.len(),
{
    if s.len() > 0 {
        law_normal_form(s.drop_last());
        let t = normalized(s.drop_last());
        if is_alnum(s.last()) {
            let c = lower_char(s.last());
            assert(t.push(c).drop_last() =~= t);
        }
    }
}

/// A normal form is made of small letters and digits.
pub proof fn law_normal_characters(s: Seq<char>)
    ensures
        forall|i: int|
            0 <= i < normalized(s).len() ==> is_alnum(#[trigger] normalized(s)[i]) && lower_char(
                normalized(s)[i],
            ) == normalized(s)[i],
    decreases s.len(),
{
    if s.len() > 0 {
        law_normal_characters(s.drop_last());
        let t = normalized(s.drop_last());
        let n = normalized(s);
        assert forall|i: int| 0 <= i < n.len() implies is_alnum(#[trigger] n[i]) && lower_char(n[i])
            == n[i] by {
            if i < t.len() {
                assert(n[i] == t[i]);
            }
        }
    }
}

// ---------------------------------------------------------------------------
// Edit distance
// ---------------------------------------------------------------------------

pub open spec fn min(a: nat, b: nat) -> nat {
    if a <= b {
        a
    } else {
        b
    }
}

/// How many characters have to be put in, taken out or changed to turn `a`
/// into `b`, at least.
pub open spec fn distance(a: Seq<char>, b: Seq<char>) -> nat
    decreases a.len() + b.len(),
{
    if a.len() == 0 {
        b.len()
    } else if b.len() == 0 {
        a.len()
    } else {
        min(
            min(distance(a.drop_last(), b) + 1, distance(a, b.drop_last()) + 1),
            distance(a.drop_last(), b.drop_last()) + (if a.last() == b.last() {
                0nat
            } else {
                1
            }),
        )
    }
}

/// The distance is the same both ways.
pub proof fn law_distance_mutual(a: Seq<char>, b: Seq<char>)
    ensures
        distance(a, b) == distance(b, a),
    decreases a.len() + b.len(),
{
    if a.len() > 0 && b.len() > 0 {
        law_distance_mutual(a.drop_last(), b);
        law_distance_mutual(a, b.drop_last());
        law_distance_mutual(a.drop_last(), b.drop_last());
    }
}

/// The distance is zero exactly between equal texts, never more than the length
/// of the longer one, and never less than the difference of the lengths.
pub proof fn law_distance(a: Seq<char>, b: Seq<char>)
    ensures
        distance(a, b) == 0 <==> a == b,
        distance(a, b) <= a.len() || distance(a, b) <= b.len(),
        a.len() <= distance(a, b) + b.len(),
        b.len() <= distance(a, b) + a.len(),
    decreases a.len() + b.len(),
{
    if a.len() == 0 || b.len() == 0 {
        assert(a.len() == 0 && b.len() == 0 ==> a =~= b);
    } else {
        law_distance(a.drop_last(), b.drop_last());
        law_distance(a.drop_last(), b);
        law_distance(a, b.drop_last());
        assert(a =~= a.drop_last().push(a.last()));
        assert(b =~= b.drop_last().push(b.last()));
    }
}

/// A way over a third text is never shorter.
pub proof fn law_distance_detour(a: Seq<char>, b: Seq<char>, c: Seq<char>)
    ensures
        distance(a, c) <= distance(a, b) + distance(b, c),
    decreases a.len() + b.len() + c.len(),
{
    law_distance(a, b);
    law_distance(b, c);
    law_distance(a, c);
    if a.len() > 0 && b.len() > 0 && c.len() > 0 {
        let a1 = a.drop_last();
        let b1 = b.drop_last();
        let c1 = c.drop_last();
        law_distance_detour(a1, b, c);
        law_distance_detour(a, b, c1);
        law_distance_detour(a, b1, c);
        law_distance_detour(a, b1, c1);
        law_distance_detour(a1, b1, c);
        law_distance_detour(a1, b1, c1);
    }
}

/// `b` is `a` with the character `c` put in or changed at `i`, or with the one at
/// `i` taken out.
pub open spec fn edited(a: Seq<char>, b: Seq<char>, i: int, c: char) -> bool {
    ||| 0 <= i <= a.len() && b == a.insert(i, c)
    ||| 0 <= i < a.len() && b == a.update(i, c)
    ||| 0 <= i < a.len() && b == a.remove(i)
}

/// One edit turns `a` into `b`.
pub open spec fn one_edit(a: Seq<char>, b: Seq<char>) -> bool {
    exists|i: int, c: char| #[trigger] edited(a, b, i, c)
}

/// `n` edits turn `a` into `b`.
pub open spec fn edits(a: Seq<char>, b: Seq<char>, n: nat) -> bool
    decreases n,
{
    if n == 0 {
        a == b
    } else {
        exists|m: Seq<char>| #[trigger] one_edit(a, m) && edits(m, b, (n - 1) as nat)
    }
}

proof fn lemma_common_tail(u: Seq<char>, v: Seq<char>, t: Seq<char>)
    ensures
        distance(u + t, v + t) <= distance(u, v),
    decreases t.len(),
{
    if t.len() == 0 {
        assert(u + t =~= u);
        assert(v + t =~= v);
    } else {
        lemma_common_tail(u, v, t.drop_last());
        assert((u + t).drop_last() =~= u + t.drop_last());
        assert((v + t).drop_last() =~= v + t.drop_last());
    }
}

proof fn lemma_put_in(a: Seq<char>, i: int, c: char)
    requires
        0 <= i <= a.len(),
    ensures
        distance(a, a.insert(i, c)) <= 1,
{
    let p = a.take(i);
    let q = a.skip(i);
    law_distance(p, p);
    assert(p.push(c).drop_last() =~= p);
    assert(distance(p, p.push(c)) <= 1);
    lemma_common_tail(p, p.push(c), q);
    assert(p + q =~= a);
    assert(p.push(c) + q =~= a.insert(i, c));
}

proof fn lemma_one_edit(a: Seq<char>, b: Seq<char>)
    requires
        one_edit(a, b),
    ensures
        distance(a, b) <= 1,
{
    let (i, c) = choose|i: int, c: char| #[trigger] edited(a, b, i, c);
    if 0 <= i <= a.len() && b == a.insert(i, c) {
        lemma_put_in(a, i, c);
    } else if 0 <= i < a.len() && b == a.update(i, c) {
        let p = a.take(i);
        let q = a.skip(i + 1);
        law_distance(p, p);
        assert(p.push(a[i]).drop_last() =~= p);
        assert(p.push(c).drop_last() =~= p);
        lemma_common_tail(p.push(a[i]), p.push(c), q);
        assert(p.push(a[i]) + q =~= a);
        assert(p.push(c) + q =~= b);
    } else {
        lemma_put_in(b, i, a[i]);
        assert(b.insert(i, a[i]) =~= a);
        law_distance_mutual(a, b);
    }
}

proof fn lemma_edits_append(a: Seq<char>, m: Seq<char>, b: Seq<char>, n: nat)
    requires
        edits(a, m, n),
        one_edit(m, b),
    ensures
        edits(a, b, n + 1),
    decreases n,
{
    if n == 0 {
        assert(edits(b, b, 0));
    } else {
        let x = choose|x: Seq<char>| #[trigger] one_edit(a, x) && edits(x, m, (n - 1) as nat);
        lemma_edits_append(x, m, b, (n - 1) as nat);
        assert(edits(x, b, n));
    }
}

proof fn lemma_edits_push(a: Seq<char>, b: Seq<char>, n: nat, z: char)
    requires
        edits(a, b, n),
    ensures
        edits(a.push(z), b.push(z), n),
    decreases n,
{
    if n > 0 {
        let m = choose|m: Seq<char>| #[trigger] one_edit(a, m) && edits(m, b, (n - 1) as nat);
        lemma_edits_push(m, b, (n - 1) as nat, z);
        let (i, c) = choose|i: int, c: char| #[trigger] edited(a, m, i, c);
        if 0 <= i <= a.len() && m == a.insert(i, c) {
            assert(m.push(z) =~= a.push(z).insert(i, c));
        } else if 0 <= i < a.len() && m == a.update(i, c) {
            assert(m.push(z) =~= a.push(z).update(i, c));
        } else {
            assert(m.push(z) =~= a.push(z).remove(i));
        }
        assert(edited(a.push(z), m.push(z), i, c));
        assert(one_edit(a.push(z), m.push(z)));
    }
}

proof fn lemma_edits_reach(a: Seq<char>, b: Seq<char>)
    ensures
        edits(a, b, distance(a, b)),
    decreases a.len() + b.len(),
{
    if a.len() == 0 && b.len() == 0 {
        assert(a =~= b);
    } else if b.len() == 0 || (a.len() > 0 && distance(a, b) == distance(a.drop_last(), b) + 1) {
        let t = a.drop_last();
        lemma_edits_reach(t, b);
        assert(t =~= a.remove(a.len() - 1));
        assert(edited(a, t, a.len() - 1, a.last()));
        assert(one_edit(a, t));
        assert(edits(t, b, (distance(a, b) - 1) as nat));
    } else if a.len() == 0 || distance(a, b) == distance(a, b.drop_last()) + 1 {
        let t = b.drop_last();
        lemma_edits_reach(a, t);
        assert(b =~= t.insert(t.len() as int, b.last()));
        assert(edited(t, b, t.len() as int, b.last()));
        lemma_edits_append(a, t, b, distance(a, t));
    } else {
        let x = a.drop_last();
        let y = b.drop_last();
        lemma_edits_reach(x, y);
        lemma_edits_push(x, y, distance(x, y), b.last());
        assert(y.push(b.last()) =~= b);
        assert(x.push(a.last()) =~= a);
        if a.last() != b.last() {
            let m = x.push(b.last());
            assert(m =~= a.update(a.len() - 1, b.last()));
            assert(edited(a, m, a.len() - 1, b.last()));
            assert(one_edit(a, m));
            assert(edits(m, b, (distance(a, b) - 1) as nat));
        }
    }
}

/// The distance is the least number of edits: so many turn the one text into the
/// other, and fewer do not.
pub proof fn law_distance_is_least(a: Seq<char>, b: Seq<char>, n: nat)
    ensures
        edits(a, b, distance(a, b)),
        edits(a, b, n) ==> distance(a, b) <= n,
    decreases n,
{
    lemma_edits_reach(a, b);
    if edits(a, b, n) {
        if n == 0 {
            law_distance(a, b);
        } else {
            let m = choose|m: Seq<char>| #[trigger] one_edit(a, m) && edits(m, b, (n - 1) as nat);
            law_distance_is_least(m, b, (n - 1) as nat);
            lemma_one_edit(a, m);
            law_distance_detour(a, m, b);
        }
    }
}

fn least(a: usize, b: usize) -> (m: usize)
    ensures
        m == min(a as nat, b as nat),
{
    if a <= b {
        a
    } else {
        b
    }
}

/// The edit distance of two texts.
pub fn levenshtein(a: &str, b: &str) -> (d: usize)
    ensures
        d == distance(a@, b@),
{
    let x = chars_of(a);
    let y = chars_of(b);
    let mut row: Vec<usize> = Vec::new();
    let mut j: usize = 0;
    proof {
        assert(x@.take(0) =~= Seq::<char>::empty());
    }
    while j < y.len()
        invariant
            j <= y@.len(),
            x@.take(0).len() == 0,
            row@.len() == j,
            forall|k: int| 0 <= k < j ==> #[trigger] row@[k] == distance(x@.take(0), y@.take(k + 1)),
        decreases y.len() - j,
    {
        row.push(j + 1);
        j = j + 1;
    }
    let mut i: usize = 0;
    while i < x.len()
        invariant
            i <= x.len(),
            row.len() == y.len(),
            forall|k: int|
                0 <= k < y.len() ==> #[trigger] row@[k] == distance(
                    x@.take(i as int),
                    y@.take(k + 1),
                ),
        decreases x.len() - i,
    {
        let ghost before = row@;
        let ghost above = x@.take(i as int);
        let ghost here = x@.take(i + 1);
        proof {
            assert(here.drop_last() =~= above);
            assert(y@.take(0).len() == 0);
        }
        let mut left: usize = i + 1;
        let mut corner: usize = i;
        let mut j: usize = 0;
        while j < y.len()
            invariant
                i < x.len(),
                j <= y.len(),
                row.len() == y.len(),
                before.len() == y.len(),
                above == x@.take(i as int),
                here == x@.take(i + 1),
                here.drop_last() == above,
                forall|k: int|
                    0 <= k < y.len() ==> #[trigger] before[k] == distance(above, y@.take(k + 1)),
                forall|k: int| j <= k < y.len() ==> #[trigger] row@[k] == before[k],
                forall|k: int| 0 <= k < j ==> #[trigger] row@[k] == distance(here, y@.take(k + 1)),
                left == distance(here, y@.take(j as int)),
                corner == distance(above, y@.take(j as int)),
            decreases y.len() - j,
        {
            let ghost col = y@.take(j + 1);
            proof {
                assert(col.drop_last() =~= y@.take(j as int));
                assert(here.last() == x@[i as int]);
                assert(col.last() == y@[j as int]);
                law_distance(here, col);
                assert(row@[j as int] == before[j as int]);
            }
            let up: usize = row[j];
            let cost: usize = if x[i] == y[j] {
                0
            } else {
                1
            };
            let d: usize = least(
                least(up.saturating_add(1), left.saturating_add(1)),
                corner.saturating_add(cost),
            );
            row.set(j, d);
            left = d;
            corner = up;
            j = j + 1;
        }
        i = i + 1;
    }
    proof {
        assert(x@.take(i as int) =~= x@);
        assert(y@.take(y@.len() as int) =~= y@);
    }
    if y.len() == 0 {
        proof {
            law_distance(x@, y@);
        }
        x.len()
    } else {
        row[y.len() - 1]
    }
}

// ---------------------------------------------------------------------------
// Names that can be typed
// ---------------------------------------------------------------------------

/// A name of a package in normal form, and the position of the package.
#[verifier::ext_equal]
pub struct NameKey {
    pub text: Seq<char>,
    pub at: int,
}

struct Key {
    text: String,
    at: usize,
}

impl View for Key {
    type V = NameKey;

    closed spec fn view(&self) -> NameKey {
        NameKey { text: self.text@, at: self.at as int }
    }
}

/// The names of a package: its id, its name and its aliases.
pub open spec fn names_of(p: PackageEntry) -> Seq<Seq<char>> {
    seq![p.id@, p.name@] + texts(p.aliases@)
}

/// The names with a normal form that is not empty, behind `keys`.
pub open spec fn with_keys(keys: Seq<NameKey>, names: Seq<Seq<char>>, at: int) -> Seq<NameKey>
    decreases names.len(),
{
    if names.len() == 0 {
        keys
    } else {
        let before = with_keys(keys, names.drop_last(), at);
        if normalized(names.last()).len() == 0 {
            before
        } else {
            before.push(NameKey { text: normalized(names.last()), at })
        }
    }
}

/// All names of the packages, in the order of the catalog.
pub open spec fn all_keys(s: Seq<PackageEntry>) -> Seq<NameKey>
    decreases s.len(),
{
    if s.len() == 0 {
        Seq::empty()
    } else {
        with_keys(all_keys(s.drop_last()), names_of(s.last()), s.len() - 1)
    }
}

spec fn key_views(v: Seq<Key>) -> Seq<NameKey> {
    v.map_values(|k: Key| k@)
}

fn add_key(keys: &mut Vec<Key>, raw: &str, at: usize)
    ensures
        forall|names: Seq<Seq<char>>, start: Seq<NameKey>|
            names.len() > 0 && names.last() == raw@ && key_views(old(keys)@) == with_keys(
                start,
                names.drop_last(),
                at as int,
            ) ==> key_views(final(keys)@) == #[trigger] with_keys(start, names, at as int),
        forall|k: int|
            0 <= k < final(keys)@.len() ==> k < old(keys)@.len() && final(keys)@[k] == old(
                keys,
            )@[k] || (#[trigger] final(keys)@[k]).at == at,
        old(keys)@.len() <= final(keys)@.len(),
{
    let text = normalize(raw);
    if !text.as_str().is_empty() {
        let ghost before = keys@;
        let k = Key { text, at };
        let ghost kv = k@;
        keys.push(k);
        proof {
            assert(key_views(keys@) =~= key_views(before).push(kv));
        }
    }
}

fn collect_keys(pkgs: &PackagesFile) -> (out: Vec<Key>)
    ensures
        key_views(out@) == all_keys(pkgs.packages@),
        forall|k: int| 0 <= k < out@.len() ==> (#[trigger] out@[k]).at < pkgs.packages@.len(),
{
    let ghost s = pkgs.packages@;
    let mut out: Vec<Key> = Vec::new();
    let mut i: usize = 0;
    proof {
        assert(s.take(0) =~= Seq::<PackageEntry>::empty());
        assert(key_views(out@) =~= Seq::<NameKey>::empty());
    }
    while i < pkgs.packages.len()
        invariant
            i <= s.len(),
            s == pkgs.packages@,
            key_views(out@) == all_keys(s.take(i as int)),
            forall|k: int| 0 <= k < out@.len() ==> (#[trigger] out@[k]).at < i,
        decreases s.len() - i,
    {
        let p = &pkgs.packages[i];
        let ghost start = key_views(out@);
        let ghost names = names_of(*p);
        proof {
            assert(s.take(i + 1).drop_last() =~= s.take(i as int));
            assert(s.take(i + 1).last() == *p);
            assert(names.take(0) =~= Seq::<Seq<char>>::empty());
            assert(names.take(1).drop_last() =~= names.take(0));
            assert(names.take(2).drop_last() =~= names.take(1));
            assert(names.take(1).last() == p.id@);
            assert(names.take(2).last() == p.name@);
        }
        add_key(&mut out, p.id.as_str(), i);
        proof {
            assert(key_views(out@) == with_keys(start, names.take(1), i as int));
        }
        add_key(&mut out, p.name.as_str(), i);
        proof {
            assert(key_views(out@) == with_keys(start, names.take(2), i as int));
        }
        let mut j: usize = 0;
        while j < p.aliases.len()
            invariant
                j <= p.aliases@.len(),
                names == names_of(*p),
                key_views(out@) == with_keys(start, names.take(2 + j), i as int),
                forall|k: int| 0 <= k < out@.len() ==> (#[trigger] out@[k]).at <= i,
            decreases p.aliases.len() - j,
        {
            proof {
                assert(names.take(3 + j).drop_last() =~= names.take(2 + j));
                assert(names.take(3 + j).last() == p.aliases@[j as int]@);
            }
            add_key(&mut out, p.aliases[j].as_str(), i);
            proof {
                assert(key_views(out@) == with_keys(start, names.take(3 + j), i as int));
            }
            j = j + 1;
        }
        proof {
            assert(names.take(2 + j) =~= names);
        }
        i = i + 1;
    }
    proof {
        assert(s.take(i as int) =~= s);
    }
    out
}

// ---------------------------------------------------------------------------
// Matching
// ---------------------------------------------------------------------------

/// How a typed name can match a name of a package.
pub enum Kind {
    /// They are the same.
    Same,
    /// The typed name begins the other.
    Front,
    /// The typed name occurs in the other.
    Inside,
    /// This many edits lie between them.
    Near(usize),
}

/// The name of a package matches what was typed.
pub open spec fn agrees(kind: Kind, typed: Seq<char>, text: Seq<char>) -> bool {
    match kind {
        Kind::Same => text == typed,
        Kind::Front => begins(text, typed),
        Kind::Inside => occurs(text, typed),
        Kind::Near(d) => distance(typed, text) == d,
    }
}

/// A package with this id is among the positions.
pub open spec fn has_id(s: Seq<PackageEntry>, hits: Seq<int>, id: Seq<char>) -> bool {
    exists|i: int| 0 <= i < hits.len() && s[#[trigger] hits[i]].id@ == id
}

/// The packages with a matching name, each id once, behind `start`.
pub open spec fn matching(
    s: Seq<PackageEntry>,
    keys: Seq<NameKey>,
    kind: Kind,
    typed: Seq<char>,
    start: Seq<int>,
) -> Seq<int>
    decreases keys.len(),
{
    if keys.len() == 0 {
        start
    } else {
        let before = matching(s, keys.drop_last(), kind, typed, start);
        let k = keys.last();
        if agrees(kind, typed, k.text) && !has_id(s, before, s[k.at].id@) {
            before.push(k.at)
        } else {
            before
        }
    }
}

/// The least distance to a name, where it is at most two.
pub open spec fn nearest(keys: Seq<NameKey>, typed: Seq<char>) -> Option<nat>
    decreases keys.len(),
{
    if keys.len() == 0 {
        None
    } else {
        let before = nearest(keys.drop_last(), typed);
        let d = distance(typed, keys.last().text);
        match before {
            Some(b) => if d < b {
                Some(d)
            } else {
                Some(b)
            },
            None => if d <= 2 {
                Some(d)
            } else {
                None
            },
        }
    }
}

/// The packages that a typed name in normal form means: those with that name,
/// else those with a name that it begins, then those with a name that it occurs
/// in, else those with the nearest names.
pub open spec fn hits(s: Seq<PackageEntry>, typed: Seq<char>) -> Seq<int> {
    let keys = all_keys(s);
    let same = matching(s, keys, Kind::Same, typed, Seq::empty());
    let part = matching(
        s,
        keys,
        Kind::Inside,
        typed,
        matching(s, keys, Kind::Front, typed, Seq::empty()),
    );
    if same.len() > 0 {
        same
    } else if part.len() > 0 {
        part
    } else {
        match nearest(keys, typed) {
            Some(d) => matching(s, keys, Kind::Near(d as usize), typed, Seq::empty()),
            None => Seq::empty(),
        }
    }
}

/// A package that a name matches.
#[derive(Debug, Clone, Copy)]
pub struct NameMatch<'a> {
    pub pkg: &'a PackageEntry,
}

impl<'a> NameMatch<'a> {
    /// The id, under which the package is recorded.
    pub fn package_key(&self) -> (k: &str)
        ensures
            k@ == self.pkg.id@,
    {
        self.pkg.id.as_str()
    }

    /// The name that users see.
    pub fn display(&self) -> (d: &str)
        ensures
            d@ == self.pkg.name@,
    {
        self.pkg.name.as_str()
    }
}

/// The packages of a list of matches.
pub open spec fn matched(v: Seq<NameMatch>) -> Seq<PackageEntry> {
    v.map_values(|m: NameMatch| *m.pkg)
}

fn key_agrees(kind: &Kind, typed: &str, text: &str) -> (b: bool)
    ensures
        b == agrees(*kind, typed@, text@),
{
    match kind {
        Kind::Same => same(text, typed),
        Kind::Front => starts_with(text, typed),
        Kind::Inside => contains(text, typed),
        Kind::Near(d) => levenshtein(typed, text) == *d,
    }
}

fn knows_id(s: &Vec<PackageEntry>, found: &Vec<usize>, id: &str) -> (b: bool)
    requires
        forall|k: int| 0 <= k < found@.len() ==> (#[trigger] found@[k]) < s@.len(),
    ensures
        b == has_id(s@, positions(found@), id@),
{
    let mut i: usize = 0;
    while i < found.len()
        invariant
            i <= found@.len(),
            forall|k: int| 0 <= k < found@.len() ==> (#[trigger] found@[k]) < s@.len(),
            forall|k: int| 0 <= k < i ==> s@[#[trigger] positions(found@)[k]].id@ != id@,
        decreases found.len() - i,
    {
        if same(s[found[i]].id.as_str(), id) {
            proof {
                assert(s@[positions(found@)[i as int]].id@ == id@);
            }
            return true;
        }
        i = i + 1;
    }
    false
}

spec fn positions(v: Seq<usize>) -> Seq<int> {
    v.map_values(|i: usize| i as int)
}

fn match_keys(
    s: &Vec<PackageEntry>,
    keys: &Vec<Key>,
    kind: &Kind,
    typed: &str,
    start: Vec<usize>,
) -> (out: Vec<usize>)
    requires
        forall|k: int| 0 <= k < keys@.len() ==> (#[trigger] keys@[k]).at < s@.len(),
        forall|k: int| 0 <= k < start@.len() ==> (#[trigger] start@[k]) < s@.len(),
    ensures
        positions(out@) == matching(s@, key_views(keys@), *kind, typed@, positions(start@)),
        forall|k: int| 0 <= k < out@.len() ==> (#[trigger] out@[k]) < s@.len(),
{
    let ghost ks = key_views(keys@);
    let ghost begin = positions(start@);
    let mut out = start;
    let mut i: usize = 0;
    proof {
        assert(ks.take(0) =~= Seq::<NameKey>::empty());
    }
    while i < keys.len()
        invariant
            i <= keys@.len(),
            ks == key_views(keys@),
            forall|k: int| 0 <= k < keys@.len() ==> (#[trigger] keys@[k]).at < s@.len(),
            forall|k: int| 0 <= k < out@.len() ==> (#[trigger] out@[k]) < s@.len(),
            positions(out@) == matching(s@, ks.take(i as int), *kind, typed@, begin),
        decreases keys.len() - i,
    {
        let k = &keys[i];
        proof {
            assert(ks.take(i + 1).drop_last() =~= ks.take(i as int));
            assert(ks.take(i + 1).last() == k@);
        }
        if key_agrees(kind, typed, k.text.as_str()) {
            if !knows_id(s, &out, s[k.at].id.as_str()) {
                let ghost before = out@;
                out.push(k.at);
                proof {
                    assert(positions(out@) =~= positions(before).push(k.at as int));
                }
            }
        }
        i = i + 1;
    }
    proof {
        assert(ks.take(i as int) =~= ks);
    }
    out
}

fn nearest_distance(keys: &Vec<Key>, typed: &str) -> (r: Option<usize>)
    ensures
        match r {
            Some(d) => nearest(key_views(keys@), typed@) == Some(d as nat),
            None => nearest(key_views(keys@), typed@) is None,
        },
{
    let ghost ks = key_views(keys@);
    let mut best: Option<usize> = None;
    let mut i: usize = 0;
    proof {
        assert(ks.take(0) =~= Seq::<NameKey>::empty());
    }
    while i < keys.len()
        invariant
            i <= keys@.len(),
            ks == key_views(keys@),
            match best {
                Some(d) => nearest(ks.take(i as int), typed@) == Some(d as nat),
                None => nearest(ks.take(i as int), typed@) is None,
            },
        decreases keys.len() - i,
    {
        proof {
            assert(ks.take(i + 1).drop_last() =~= ks.take(i as int));
            assert(ks.take(i + 1).last() == keys@[i as int]@);
        }
        let d: usize = levenshtein(typed, keys[i].text.as_str());
        match best {
            Some(b) => {
                if d < b {
                    best = Some(d);
                }
            },
            None => {
                if d <= 2 {
                    best = Some(d);
                }
            },
        }
        i = i + 1;
    }
    proof {
        assert(ks.take(i as int) =~= ks);
    }
    best
}

fn found<'a>(pkgs: &'a PackagesFile, at: &Vec<usize>) -> (out: Vec<NameMatch<'a>>)
    requires
        forall|k: int| 0 <= k < at@.len() ==> (#[trigger] at@[k]) < pkgs.packages@.len(),
    ensures
        matched(out@) == picked(pkgs.packages@, positions(at@)),
{
    let ghost want = picked(pkgs.packages@, positions(at@));
    let mut out: Vec<NameMatch<'a>> = Vec::new();
    let mut i: usize = 0;
    while i < at.len()
        invariant
            i <= at@.len(),
            forall|k: int| 0 <= k < at@.len() ==> (#[trigger] at@[k]) < pkgs.packages@.len(),
            want == picked(pkgs.packages@, positions(at@)),
            matched(out@) =~= want.take(i as int),
        decreases at.len() - i,
    {
        let ghost before = out@;
        out.push(NameMatch { pkg: &pkgs.packages[at[i]] });
        proof {
            assert(matched(out@) =~= matched(before).push(want[i as int]));
            assert(want.take(i + 1) =~= want.take(i as int).push(want[i as int]));
        }
        i = i + 1;
    }
    proof {
        assert(want.take(i as int) =~= want);
    }
    out
}

/// The packages at the positions.
pub open spec fn picked(s: Seq<PackageEntry>, at: Seq<int>) -> Seq<PackageEntry> {
    at.map_values(|i: int| s[i])
}

/// The packages that a typed name means. It is an error where the name has no
/// letter or digit, and where it means none.
pub fn resolve<'a>(pkgs: &'a PackagesFile, input: &str, _game: Option<&str>) -> (r: Result<
    Vec<NameMatch<'a>>,
>)
    ensures
        if normalized(input@).len() == 0 {
            fails(r, "empty package name"@)
        } else if hits(pkgs.packages@, normalized(input@)).len() == 0 {
            fails(r, "unknown package '"@ + input@ + "'"@)
        } else {
            r matches Ok(v) && matched(v@) == picked(
                pkgs.packages@,
                hits(pkgs.packages@, normalized(input@)),
            )
        },
{
    let typed = normalize(input);
    if typed.as_str().is_empty() {
        return other(own("empty package name"));
    }
    let keys = collect_keys(pkgs);
    let s = &pkgs.packages;
    let ghost all = all_keys(s@);
    let ghost none = Seq::<int>::empty();
    let empty: Vec<usize> = Vec::new();
    proof {
        assert(positions(empty@) =~= none);
    }
    let same_name = match_keys(s, &keys, &Kind::Same, typed.as_str(), empty);
    if same_name.len() > 0 {
        return Ok(found(pkgs, &same_name));
    }
    let empty: Vec<usize> = Vec::new();
    proof {
        assert(positions(empty@) =~= none);
    }
    let front = match_keys(s, &keys, &Kind::Front, typed.as_str(), empty);
    let part = match_keys(s, &keys, &Kind::Inside, typed.as_str(), front);
    if part.len() > 0 {
        return Ok(found(pkgs, &part));
    }
    if let Some(d) = nearest_distance(&keys, typed.as_str()) {
        let empty: Vec<usize> = Vec::new();
        proof {
            assert(positions(empty@) =~= none);
        }
        let near = match_keys(s, &keys, &Kind::Near(d), typed.as_str(), empty);
        if near.len() > 0 {
            return Ok(found(pkgs, &near));
        }
    }
    other(cat3("unknown package '", input, "'"))
}

// ---------------------------------------------------------------------------
// Narrowing and choosing
// ---------------------------------------------------------------------------

/// Those of the packages that have a release for the game.
pub open spec fn usable(s: Seq<PackageEntry>, c: Seq<PackageEntry>, game: Seq<char>) -> Seq<
    PackageEntry,
>
    decreases c.len(),
{
    if c.len() == 0 {
        Seq::empty()
    } else if covers(s, c.last().id@, game) {
        usable(s, c.drop_last(), game).push(c.last())
    } else {
        usable(s, c.drop_last(), game)
    }
}

/// The candidates for the game: those that can be used in it, or all of them
/// where none can or no game is known.
pub open spec fn narrowed(
    s: Seq<PackageEntry>,
    c: Seq<PackageEntry>,
    game: Option<Seq<char>>,
) -> Seq<PackageEntry> {
    match game {
        Some(g) => if usable(s, c, g).len() > 0 {
            usable(s, c, g)
        } else {
            c
        },
        None => c,
    }
}

fn usable_in<'a>(cands: &Vec<NameMatch<'a>>, pkgs: &PackagesFile, game: &str) -> (out: Vec<
    NameMatch<'a>,
>)
    ensures
        matched(out@) == usable(pkgs.packages@, matched(cands@), game@),
{
    let ghost c = matched(cands@);
    let mut out: Vec<NameMatch<'a>> = Vec::new();
    let mut i: usize = 0;
    proof {
        assert(c.take(0) =~= Seq::<PackageEntry>::empty());
        assert(matched(out@) =~= Seq::<PackageEntry>::empty());
    }
    while i < cands.len()
        invariant
            i <= cands@.len(),
            c == matched(cands@),
            matched(out@) == usable(pkgs.packages@, c.take(i as int), game@),
        decreases cands.len() - i,
    {
        proof {
            assert(c.take(i + 1).drop_last() =~= c.take(i as int));
            assert(c.take(i + 1).last() == *cands@[i as int].pkg);
        }
        if pkgs.covers_game(cands[i].pkg.id.as_str(), game) {
            let ghost before = out@;
            out.push(NameMatch { pkg: cands[i].pkg });
            proof {
                assert(matched(out@) =~= matched(before).push(*cands@[i as int].pkg));
            }
        }
        i = i + 1;
    }
    proof {
        assert(c.take(i as int) =~= c);
    }
    out
}

/// The candidates that can be used in the game, or all of them where none can
/// or no game is known.
pub fn narrow_by_game<'a>(
    cands: Vec<NameMatch<'a>>,
    pkgs: &PackagesFile,
    game: Option<&str>,
) -> (out: Vec<NameMatch<'a>>)
    ensures
        matched(out@) == narrowed(pkgs.packages@, matched(cands@), opt_text(game)),
{
    match game {
        None => cands,
        Some(g) => {
            let few = usable_in(&cands, pkgs, g);
            if few.len() > 0 {
                few
            } else {
                cands
            }
        },
    }
}

/// What a user answers to the question which package is meant.
#[derive(Debug)]
pub enum Answer {
    /// Nobody can be asked.
    Silent,
    /// The line that was typed; none at the end of the input.
    Said(Option<String>),
}

/// The position that a line picks among `count` options, counted from one; none
/// for an empty line, for `n` and for anything that is no such number.
pub open spec fn pick_of(line: Option<Seq<char>>, count: nat) -> Option<nat> {
    match line {
        None => None,
        Some(l) => {
            let word = lowercase(trimmed(l));
            if word == "n"@ || word == ""@ {
                None
            } else {
                match count_text(word) {
                    Some(n) => if 1 <= n <= count {
                        Some((n - 1) as nat)
                    } else {
                        None
                    },
                    None => None,
                }
            }
        },
    }
}

/// The lines that offer the options, numbered from one.
pub open spec fn option_lines(options: Seq<Seq<char>>) -> Seq<char>
    decreases options.len(),
{
    if options.len() == 0 {
        Seq::empty()
    } else {
        option_lines(options.drop_last()) + ("["@ + decimal(options.len()) + "] "@ + options.last()
            + "\n"@)
    }
}

/// The question with its numbered options.
pub fn pick_prompt(prompt: &str, options: &Vec<String>) -> (out: String)
    requires
        options@.len() < u64::MAX,
    ensures
        out@ == prompt@ + "\n"@ + option_lines(texts(options@)) + "[n] none\n> "@,
{
    let mut out: String = own(prompt);
    out.append("\n");
    let ghost head = out@;
    let ghost all = texts(options@);
    let mut i: usize = 0;
    let mut n: u64 = 0;
    proof {
        assert(head + option_lines(all.take(0)) =~= head);
    }
    while i < options.len()
        invariant
            i <= options@.len(),
            n == i,
            options@.len() < u64::MAX,
            all == texts(options@),
            out@ == head + option_lines(all.take(i as int)),
        decreases options.len() - i,
    {
        n = n + 1;
        let number = decimal_text(n);
        let mut line = cat3("[", number.as_str(), "] ");
        line.append(options[i].as_str());
        line.append("\n");
        proof {
            assert(all.take(i + 1).drop_last() =~= all.take(i as int));
            assert(all.take(i + 1).last() == options@[i as int]@);
            assert((head + option_lines(all.take(i as int))) + line@ =~= head + (option_lines(
                all.take(i as int),
            ) + line@));
        }
        out.append(line.as_str());
        i = i + 1;
    }
    proof {
        assert(all.take(i as int) =~= all);
    }
    out.append("[n] none\n> ");
    out
}

/// The position that the line picks among `count` options.
pub fn pick(line: Option<&str>, count: usize) -> (r: Option<usize>)
    ensures
        match r {
            Some(i) => i < count && pick_of(opt_text(line), count as nat) == Some(i as nat),
            None => pick_of(opt_text(line), count as nat) is None,
        },
{
    match line {
        None => None,
        Some(l) => {
            let t = trim(l);
            let word = to_lower(t.as_str());
            if same(word.as_str(), "n") || same(word.as_str(), "") {
                return None;
            }
            match parse_count(word.as_str()) {
                Some(n) => if 1 <= n && n <= count {
                    Some(n - 1)
                } else {
                    None
                },
                None => None,
            }
        },
    }
}

/// The names of the candidates.
pub open spec fn display_names(c: Seq<PackageEntry>) -> Seq<Seq<char>> {
    c.map_values(|p: PackageEntry| p.name@)
}

/// The names of the candidates.
pub fn candidate_names<'a>(cands: &Vec<NameMatch<'a>>) -> (out: Vec<String>)
    ensures
        texts(out@) == display_names(matched(cands@)),
{
    let ghost want = display_names(matched(cands@));
    let mut out: Vec<String> = Vec::new();
    let mut i: usize = 0;
    while i < cands.len()
        invariant
            i <= cands@.len(),
            want == display_names(matched(cands@)),
            texts(out@) =~= want.take(i as int),
        decreases cands.len() - i,
    {
        let ghost before = out@;
        out.push(own(cands[i].display()));
        proof {
            assert(texts(out@) =~= texts(before).push(want[i as int]));
            assert(want.take(i + 1) =~= want.take(i as int).push(want[i as int]));
        }
        i = i + 1;
    }
    proof {
        assert(want.take(i as int) =~= want);
    }
    out
}

/// What was said, if somebody could be asked.
pub open spec fn said(line: Option<String>) -> Option<Seq<char>> {
    match line {
        Some(l) => Some(l@),
        None => None,
    }
}

/// The choice among the candidates: the only one, or the one that the answer
/// picks.
pub open spec fn chosen<T>(
    r: Result<T>,
    c: Seq<PackageEntry>,
    answer: Answer,
    is: spec_fn(T, PackageEntry) -> bool,
) -> bool {
    if c.len() == 1 {
        r matches Ok(m) && is(m, c[0])
    } else {
        match answer {
            Answer::Silent => r matches Err(ChefError::Ambiguous(names)) && texts(names@)
                == display_names(c),
            Answer::Said(line) => match pick_of(said(line), c.len()) {
                Some(i) => r matches Ok(m) && is(m, c[i as int]),
                None => fails(r, "no package selected"@),
            },
        }
    }
}

/// Picks among candidates: a single one wins; of several the answer picks one,
/// and without anybody to ask they are an error that names them.
pub fn disambiguate<'a>(cands: Vec<NameMatch<'a>>, answer: &Answer) -> (r: Result<NameMatch<'a>>)
    ensures
        chosen(r, matched(cands@), *answer, |m: NameMatch<'a>, p: PackageEntry| *m.pkg == p),
{
    if cands.len() == 1 {
        proof {
            assert(matched(cands@)[0] == *cands@[0].pkg);
        }
        return Ok(NameMatch { pkg: cands[0].pkg });
    }
    match answer {
        Answer::Silent => Err(ChefError::Ambiguous(candidate_names(&cands))),
        Answer::Said(line) => {
            let l: Option<&str> = match line {
                Some(s) => Some(s.as_str()),
                None => None,
            };
            match pick(l, cands.len()) {
                Some(i) => {
                    proof {
                        assert(matched(cands@)[i as int] == *cands@[i as int].pkg);
                    }
                    Ok(NameMatch { pkg: cands[i].pkg })
                },
                None => other(own("no package selected")),
            }
        },
    }
}

/// The packages that a typed name means in the game: where a game is known and
/// none of them is for it, the name is unknown.
pub fn resolve_for_game<'a>(
    pkgs: &'a PackagesFile,
    name: &str,
    game: Option<&str>,
) -> (r: Result<Vec<NameMatch<'a>>>)
    ensures
        meant(r, pkgs.packages@, name@, opt_text(game)),
{
    let cands = match resolve(pkgs, name, game) {
        Ok(c) => c,
        Err(e) => {
            return Err(e);
        },
    };
    proof {
        assert(matched(cands@).len() == cands@.len());
    }
    match game {
        None => Ok(cands),
        Some(g) => {
            let few = usable_in(&cands, pkgs, g);
            if few.len() == 0 {
                other(cat3("unknown package '", name, "'"))
            } else {
                Ok(few)
            }
        },
    }
}

/// What the packages meant by a typed name are, in the game.
pub open spec fn meant(
    r: Result<Vec<NameMatch>>,
    s: Seq<PackageEntry>,
    name: Seq<char>,
    game: Option<Seq<char>>,
) -> bool {
    let c = picked(s, hits(s, normalized(name)));
    if normalized(name).len() == 0 {
        fails(r, "empty package name"@)
    } else if c.len() == 0 || (game matches Some(g) && usable(s, c, g).len() == 0) {
        fails(r, "unknown package '"@ + name + "'"@)
    } else {
        r matches Ok(v) && matched(v@) == narrowed(s, c, game)
    }
}

/// What the id of the package meant by a typed name is, in the game.
pub open spec fn id_meant(
    r: Result<String>,
    s: Seq<PackageEntry>,
    name: Seq<char>,
    game: Option<Seq<char>>,
    answer: Answer,
) -> bool {
    let c = picked(s, hits(s, normalized(name)));
    if normalized(name).len() == 0 {
        fails(r, "empty package name"@)
    } else if c.len() == 0 || (game matches Some(g) && usable(s, c, g).len() == 0) {
        fails(r, "unknown package '"@ + name + "'"@)
    } else {
        chosen(r, narrowed(s, c, game), answer, |t: String, p: PackageEntry| t@ == p.id@)
    }
}

/// The id of the package that a typed name means. A name that means no package,
/// or none that is for the game, is unknown; of several the answer picks one.
pub fn resolve_id(
    pkgs: &PackagesFile,
    name: &str,
    game: Option<&str>,
    answer: &Answer,
) -> (r: Result<String>)
    ensures
        id_meant(r, pkgs.packages@, name@, opt_text(game), *answer),
{
    match resolve_for_game(pkgs, name, game) {
        Ok(cands) => match disambiguate(cands, answer) {
            Ok(m) => Ok(own(m.package_key())),
            Err(e) => Err(e),
        },
        Err(e) => Err(e),
    }
}

// ---------------------------------------------------------------------------
// What a name means
// ---------------------------------------------------------------------------

/// The package goes by this name: it is its id, its name or one of its aliases.
pub open spec fn goes_by(p: PackageEntry, name: Seq<char>) -> bool {
    p.id@ == name || p.name@ == name || exists|k: int|
        0 <= k < p.aliases@.len() && #[trigger] p.aliases@[k]@ == name
}

/// One of the names of the package has this normal form, which is not empty.
pub open spec fn read_as(p: PackageEntry, text: Seq<char>) -> bool {
    text.len() > 0 && exists|name: Seq<char>| #[trigger] goes_by(p, name) && normalized(name) == text
}

proof fn lemma_with_keys(keys: Seq<NameKey>, names: Seq<Seq<char>>, at: int, x: NameKey)
    ensures
        with_keys(keys, names, at).contains(x) <==> keys.contains(x) || (x.at == at && x.text.len()
            > 0 && exists|j: int|
            0 <= j < names.len() && normalized(#[trigger] names[j]) == x.text),
    decreases names.len(),
{
    if names.len() > 0 {
        let t = names.drop_last();
        let before = with_keys(keys, t, at);
        let l = names.len() - 1;
        lemma_with_keys(keys, t, at, x);
        assert(names[l] == names.last());
        assert forall|j: int| 0 <= j < t.len() implies #[trigger] names[j] == t[j] by {}
        if normalized(names.last()).len() > 0 {
            let key = NameKey { text: normalized(names.last()), at };
            assert(before.push(key).contains(x) <==> before.contains(x) || x == key) by {
                assert(before.push(key).last() == key);
                if before.contains(x) {
                    let i = before.index_of(x);
                    assert(before.push(key)[i] == x);
                }
            }
            if x.at == at && x.text == normalized(names.last()) {
                assert(x == key);
            }
        }
        if exists|j: int| 0 <= j < t.len() && normalized(#[trigger] t[j]) == x.text {
            let j = choose|j: int| 0 <= j < t.len() && normalized(#[trigger] t[j]) == x.text;
            assert(names[j] == t[j]);
        }
        if exists|j: int| 0 <= j < names.len() && normalized(#[trigger] names[j]) == x.text {
            let j = choose|j: int|
                0 <= j < names.len() && normalized(#[trigger] names[j]) == x.text;
            if j < l {
                assert(t[j] == names[j]);
            }
        }
    }
}

proof fn lemma_names_of(p: PackageEntry, text: Seq<char>)
    requires
        text.len() > 0,
    ensures
        read_as(p, text) <==> exists|j: int|
            0 <= j < names_of(p).len() && normalized(#[trigger] names_of(p)[j]) == text,
{
    let v = names_of(p);
    assert(v[0] == p.id@);
    assert(v[1] == p.name@);
    assert forall|k: int| 0 <= k < p.aliases@.len() implies v[k + 2] == (
    #[trigger] p.aliases@[k])@ by {
        assert(texts(p.aliases@)[k] == p.aliases@[k]@);
    }
    if read_as(p, text) {
        let name = choose|name: Seq<char>| #[trigger] goes_by(p, name) && normalized(name) == text;
        if p.id@ == name {
            assert(normalized(v[0]) == text);
        } else if p.name@ == name {
            assert(normalized(v[1]) == text);
        } else {
            let k = choose|k: int| 0 <= k < p.aliases@.len() && #[trigger] p.aliases@[k]@ == name;
            assert(normalized(v[k + 2]) == text);
        }
    }
    if exists|j: int| 0 <= j < v.len() && normalized(#[trigger] v[j]) == text {
        let j = choose|j: int| 0 <= j < v.len() && normalized(#[trigger] v[j]) == text;
        if j >= 2 {
            assert(p.aliases@[j - 2]@ == v[j]);
        }
        assert(goes_by(p, v[j]));
    }
}

proof fn lemma_all_keys(s: Seq<PackageEntry>, x: NameKey)
    ensures
        all_keys(s).contains(x) <==> 0 <= x.at < s.len() && read_as(s[x.at], x.text),
    decreases s.len(),
{
    if s.len() > 0 {
        let t = s.drop_last();
        let l = s.len() - 1;
        lemma_all_keys(t, x);
        lemma_with_keys(all_keys(t), names_of(s.last()), l, x);
        if x.text.len() > 0 {
            lemma_names_of(s.last(), x.text);
        }
        if 0 <= x.at < l {
            assert(t[x.at] == s[x.at]);
        }
    }
}

/// Among the keys is one that matches, of the package at this place.
spec fn agreed(keys: Seq<NameKey>, kind: Kind, typed: Seq<char>, at: int) -> bool {
    exists|k: int|
        0 <= k < keys.len() && (#[trigger] keys[k]).at == at && agrees(kind, typed, keys[k].text)
}

spec fn ids_apart(s: Seq<PackageEntry>, v: Seq<int>) -> bool {
    forall|i: int, j: int| 0 <= i < j < v.len() ==> s[#[trigger] v[i]].id@ != s[#[trigger] v[j]].id@
}

proof fn lemma_agreed_onwards(keys: Seq<NameKey>, kind: Kind, typed: Seq<char>, at: int)
    requires
        keys.len() > 0,
    ensures
        agreed(keys, kind, typed, at) <==> agreed(keys.drop_last(), kind, typed, at) || (
        keys.last().at == at && agrees(kind, typed, keys.last().text)),
{
    let t = keys.drop_last();
    let l = keys.len() - 1;
    assert(keys[l] == keys.last());
    if agreed(t, kind, typed, at) {
        let k = choose|k: int|
            0 <= k < t.len() && (#[trigger] t[k]).at == at && agrees(kind, typed, t[k].text);
        assert(keys[k] == t[k]);
    }
    if agreed(keys, kind, typed, at) {
        let k = choose|k: int|
            0 <= k < keys.len() && (#[trigger] keys[k]).at == at && agrees(
                kind,
                typed,
                keys[k].text,
            );
        if k < l {
            assert(t[k] == keys[k]);
        }
    }
}

proof fn lemma_matching(
    s: Seq<PackageEntry>,
    keys: Seq<NameKey>,
    kind: Kind,
    typed: Seq<char>,
    start: Seq<int>,
)
    requires
        ids_apart(s, start),
    ensures
        ({
            let m = matching(s, keys, kind, typed, start);
            &&& start.len() <= m.len()
            &&& forall|i: int| 0 <= i < start.len() ==> #[trigger] m[i] == start[i]
            &&& ids_apart(s, m)
            &&& forall|i: int|
                start.len() <= i < m.len() ==> agreed(keys, kind, typed, #[trigger] m[i])
            &&& forall|at: int| #[trigger]
                agreed(keys, kind, typed, at) ==> has_id(s, m, s[at].id@)
        }),
    decreases keys.len(),
{
    let m = matching(s, keys, kind, typed, start);
    if keys.len() > 0 {
        let t = keys.drop_last();
        let k = keys.last();
        let b = matching(s, t, kind, typed, start);
        lemma_matching(s, t, kind, typed, start);
        assert forall|at: int| #[trigger]
            agreed(keys, kind, typed, at) implies has_id(s, m, s[at].id@) by {
            lemma_agreed_onwards(keys, kind, typed, at);
            if agreed(t, kind, typed, at) || has_id(s, b, s[at].id@) {
                assert(has_id(s, b, s[at].id@));
                let i = choose|i: int| 0 <= i < b.len() && s[#[trigger] b[i]].id@ == s[at].id@;
                assert(m[i] == b[i]);
            } else {
                assert(m[b.len() as int] == k.at);
            }
        }
        assert forall|i: int| start.len() <= i < m.len() implies agreed(
            keys,
            kind,
            typed,
            #[trigger] m[i],
        ) by {
            lemma_agreed_onwards(keys, kind, typed, m[i]);
            if i < b.len() {
                assert(m[i] == b[i]);
            }
        }
        assert forall|i: int, j: int| 0 <= i < j < m.len() implies s[#[trigger] m[i]].id@
            != s[#[trigger] m[j]].id@ by {
            assert(m[i] == b[i]);
            if j < b.len() {
                assert(m[j] == b[j]);
            } else {
                assert(!has_id(s, b, s[m[j]].id@));
            }
        }
    } else {
        assert forall|at: int| #[trigger]
            agreed(keys, kind, typed, at) implies has_id(s, m, s[at].id@) by {}
    }
}

proof fn lemma_agreed(s: Seq<PackageEntry>, kind: Kind, typed: Seq<char>, at: int)
    ensures
        agreed(all_keys(s), kind, typed, at) <==> 0 <= at < s.len() && exists|text: Seq<char>|
            #[trigger] read_as(s[at], text) && agrees(kind, typed, text),
{
    let keys = all_keys(s);
    if agreed(keys, kind, typed, at) {
        let k = choose|k: int|
            0 <= k < keys.len() && (#[trigger] keys[k]).at == at && agrees(
                kind,
                typed,
                keys[k].text,
            );
        assert(keys.contains(keys[k]));
        lemma_all_keys(s, keys[k]);
        assert(read_as(s[at], keys[k].text));
    }
    if 0 <= at < s.len() && exists|text: Seq<char>| #[trigger]
        read_as(s[at], text) && agrees(kind, typed, text) {
        let text = choose|text: Seq<char>| #[trigger]
            read_as(s[at], text) && agrees(kind, typed, text);
        let x = NameKey { text, at };
        lemma_all_keys(s, x);
        let k = keys.index_of(x);
        assert(keys[k] == x);
    }
}

proof fn lemma_nearest(keys: Seq<NameKey>, typed: Seq<char>)
    ensures
        match nearest(keys, typed) {
            Some(d) => d <= 2 && (exists|k: int|
                0 <= k < keys.len() && distance(typed, (#[trigger] keys[k]).text) == d)
                && forall|k: int|
                0 <= k < keys.len() ==> distance(typed, (#[trigger] keys[k]).text) >= d,
            None => forall|k: int|
                0 <= k < keys.len() ==> distance(typed, (#[trigger] keys[k]).text) > 2,
        },
    decreases keys.len(),
{
    if keys.len() > 0 {
        let t = keys.drop_last();
        let l = keys.len() - 1;
        lemma_nearest(t, typed);
        assert(keys[l] == keys.last());
        assert forall|k: int| 0 <= k < l implies #[trigger] keys[k] == t[k] by {}
        match nearest(t, typed) {
            Some(b) => {
                let k = choose|k: int|
                    0 <= k < t.len() && distance(typed, (#[trigger] t[k]).text) == b;
                assert(keys[k] == t[k]);
            },
            None => {},
        }
    }
}

spec fn likes(p: PackageEntry, kind: Kind, typed: Seq<char>) -> bool {
    exists|text: Seq<char>| #[trigger] read_as(p, text) && agrees(kind, typed, text)
}

/// What was typed occurs in one of the names of the package.
pub open spec fn named_within(p: PackageEntry, typed: Seq<char>) -> bool {
    exists|text: Seq<char>| #[trigger] read_as(p, text) && occurs(text, typed)
}

/// One of the names of the package is among the nearest to what was typed.
pub open spec fn named_near(s: Seq<PackageEntry>, p: PackageEntry, typed: Seq<char>) -> bool {
    exists|text: Seq<char>| #[trigger] read_as(p, text) && closest(s, typed, text)
}

proof fn lemma_alike(
    s: Seq<PackageEntry>,
    kind: Kind,
    typed: Seq<char>,
    start: Seq<int>,
    m: Seq<int>,
)
    requires
        ids_apart(s, start),
        m == matching(s, all_keys(s), kind, typed, start),
        forall|i: int| 0 <= i < start.len() ==> 0 <= #[trigger] start[i] < s.len(),
    ensures
        start.len() <= m.len(),
        forall|i: int| 0 <= i < start.len() ==> #[trigger] m[i] == start[i],
        ids_apart(s, m),
        forall|i: int| 0 <= i < m.len() ==> 0 <= #[trigger] m[i] < s.len(),
        forall|i: int|
            start.len() <= i < m.len() ==> likes(s[#[trigger] m[i]], kind, typed),
        forall|at: int, text: Seq<char>|
            0 <= at < s.len() && #[trigger] read_as(s[at], text) && agrees(kind, typed, text)
                ==> has_id(s, m, s[at].id@),
{
    lemma_matching(s, all_keys(s), kind, typed, start);
    assert forall|i: int| start.len() <= i < m.len() implies 0 <= #[trigger] m[i] < s.len()
        && likes(s[m[i]], kind, typed) by {
        assert(agreed(all_keys(s), kind, typed, m[i]));
        lemma_agreed(s, kind, typed, m[i]);
    }
    assert forall|at: int, text: Seq<char>|
        0 <= at < s.len() && #[trigger] read_as(s[at], text) && agrees(
            kind,
            typed,
            text,
        ) implies has_id(s, m, s[at].id@) by {
        lemma_agreed(s, kind, typed, at);
        assert(agreed(all_keys(s), kind, typed, at));
    }
}

/// A typed name means the packages that go by it. Where there is none, it means
/// those in one of whose names it occurs; where there is none either, those one
/// of whose names is nearest to it, if at most two characters have to be put in,
/// taken out or changed. Names go by their normal forms, and of packages with the
/// same id one stands for all.
pub proof fn law_what_a_name_means(s: Seq<PackageEntry>, typed: Seq<char>)
    requires
        typed.len() > 0,
    ensures
        ({
            let h = hits(s, typed);
            let same = exists|at: int|
                0 <= at < s.len() && read_as(#[trigger] s[at], typed);
            let part = exists|at: int| 0 <= at < s.len() && named_within(#[trigger] s[at], typed);
            &&& forall|i: int| 0 <= i < h.len() ==> 0 <= #[trigger] h[i] < s.len()
            &&& forall|i: int, j: int|
                0 <= i < j < h.len() ==> s[#[trigger] h[i]].id@ != s[#[trigger] h[j]].id@
            &&& same ==> {
                &&& forall|i: int| 0 <= i < h.len() ==> read_as(s[#[trigger] h[i]], typed)
                &&& forall|at: int|
                    0 <= at < s.len() && read_as(#[trigger] s[at], typed) ==> has_id(
                        s,
                        h,
                        s[at].id@,
                    )
            }
            &&& !same && part ==> {
                &&& forall|i: int| 0 <= i < h.len() ==> named_within(s[#[trigger] h[i]], typed)
                &&& forall|at: int|
                    0 <= at < s.len() && named_within(#[trigger] s[at], typed) ==> has_id(
                        s,
                        h,
                        s[at].id@,
                    )
            }
            &&& !same && !part ==> {
                &&& forall|i: int| 0 <= i < h.len() ==> named_near(s, s[#[trigger] h[i]], typed)
                &&& forall|at: int|
                    0 <= at < s.len() && named_near(s, #[trigger] s[at], typed) ==> has_id(
                        s,
                        h,
                        s[at].id@,
                    )
            }
        }),
{
    let keys = all_keys(s);
    let none = Seq::<int>::empty();
    let a = matching(s, keys, Kind::Same, typed, none);
    let b = matching(s, keys, Kind::Front, typed, none);
    let c = matching(s, keys, Kind::Inside, typed, b);
    lemma_alike(s, Kind::Same, typed, none, a);
    lemma_alike(s, Kind::Front, typed, none, b);
    lemma_alike(s, Kind::Inside, typed, b, c);
    let same = exists|at: int| 0 <= at < s.len() && read_as(#[trigger] s[at], typed);
    let part = exists|at: int| 0 <= at < s.len() && named_within(#[trigger] s[at], typed);
    assert forall|at: int|
        0 <= at < s.len() && read_as(#[trigger] s[at], typed) implies has_id(s, a, s[at].id@) by {
        assert(agrees(Kind::Same, typed, typed));
    }
    assert forall|at: int|
        0 <= at < s.len() && named_within(#[trigger] s[at], typed) implies has_id(
        s,
        c,
        s[at].id@,
    ) by {
        let text = choose|text: Seq<char>| #[trigger] read_as(s[at], text) && occurs(text, typed);
        assert(agrees(Kind::Inside, typed, text));
    }
    if a.len() > 0 {
        assert forall|i: int| 0 <= i < a.len() implies read_as(s[#[trigger] a[i]], typed) by {
            assert(likes(s[a[i]], Kind::Same, typed));
        }
        assert(read_as(s[a[0]], typed));
        assert(same);
    } else {
        assert(!same);
        assert forall|i: int| 0 <= i < c.len() implies named_within(s[#[trigger] c[i]], typed) by {
            if i < b.len() {
                assert(likes(s[b[i]], Kind::Front, typed));
                let text = choose|text: Seq<char>| #[trigger]
                    read_as(s[b[i]], text) && agrees(Kind::Front, typed, text);
                assert(found_at(text, typed, 0));
                assert(read_as(s[c[i]], text) && occurs(text, typed));
            } else {
                assert(likes(s[c[i]], Kind::Inside, typed));
            }
        }
        if c.len() > 0 {
            assert(named_within(s[c[0]], typed));
            assert(part);
        } else {
            assert(!part);
            lemma_nearest(keys, typed);
            lemma_closest(s, typed);
            match nearest(keys, typed) {
                Some(d) => {
                    let kind = Kind::Near(d as usize);
                    let m = matching(s, keys, kind, typed, none);
                    lemma_alike(s, kind, typed, none, m);
                    assert forall|i: int| 0 <= i < m.len() implies named_near(
                        s,
                        s[#[trigger] m[i]],
                        typed,
                    ) by {
                        assert(likes(s[m[i]], kind, typed));
                        let text = choose|text: Seq<char>| #[trigger]
                            read_as(s[m[i]], text) && agrees(kind, typed, text);
                        assert(closest(s, typed, text));
                    }
                    assert forall|at: int|
                        0 <= at < s.len() && named_near(s, #[trigger] s[at], typed) implies has_id(
                        s,
                        m,
                        s[at].id@,
                    ) by {
                        let text = choose|text: Seq<char>| #[trigger]
                            read_as(s[at], text) && closest(s, typed, text);
                        assert(agrees(kind, typed, text));
                    }
                },
                None => {},
            }
        }
    }
}

/// The text is one of the nearest to what was typed, and at most two characters
/// have to be put in, taken out or changed.
pub open spec fn closest(s: Seq<PackageEntry>, typed: Seq<char>, text: Seq<char>) -> bool {
    distance(typed, text) <= 2 && forall|at: int, other: Seq<char>|
        0 <= at < s.len() && #[trigger] read_as(s[at], other) ==> distance(typed, text) <= distance(
            typed,
            other,
        )
}

proof fn lemma_closest(s: Seq<PackageEntry>, typed: Seq<char>)
    ensures
        forall|at: int, text: Seq<char>|
            0 <= at < s.len() && #[trigger] read_as(s[at], text) ==> (closest(s, typed, text)
                <==> nearest(all_keys(s), typed) == Some(distance(typed, text))),
{
    let keys = all_keys(s);
    lemma_nearest(keys, typed);
    assert forall|at: int, text: Seq<char>|
        0 <= at < s.len() && #[trigger] read_as(s[at], text) implies (closest(s, typed, text)
        <==> nearest(keys, typed) == Some(distance(typed, text))) by {
        let x = NameKey { text, at };
        lemma_all_keys(s, x);
        let k = keys.index_of(x);
        assert(keys[k] == x);
        match nearest(keys, typed) {
            Some(d) => {
                let n = choose|n: int|
                    0 <= n < keys.len() && distance(typed, (#[trigger] keys[n]).text) == d;
                assert(keys.contains(keys[n]));
                lemma_all_keys(s, keys[n]);
                assert(read_as(s[keys[n].at], keys[n].text));
                if d == distance(typed, text) {
                    assert forall|o: int, other: Seq<char>|
                        0 <= o < s.len() && #[trigger] read_as(s[o], other) implies distance(
                        typed,
                        text,
                    ) <= distance(typed, other) by {
                        let y = NameKey { text: other, at: o };
                        lemma_all_keys(s, y);
                        let w = keys.index_of(y);
                        assert(keys[w] == y);
                    }
                }
            },
            None => {},
        }
    }
}

/// A game leaves, of several packages, exactly those that can be used in it, in
/// the same order, unless it would leave none: then all stay.
pub proof fn law_game_narrows(s: Seq<PackageEntry>, c: Seq<PackageEntry>, game: Seq<char>)
    ensures
        ({
            let some = exists|i: int| 0 <= i < c.len() && covers(s, (#[trigger] c[i]).id@, game);
            let few = narrowed(s, c, Some(game));
            &&& !some ==> few == c
            &&& some ==> forall|p: PackageEntry| #[trigger]
                few.contains(p) <==> c.contains(p) && covers(s, p.id@, game)
        }),
        narrowed(s, c, None) == c,
{
    lemma_usable(s, c, game);
    if exists|i: int| 0 <= i < c.len() && covers(s, (#[trigger] c[i]).id@, game) {
        let i = choose|i: int| 0 <= i < c.len() && covers(s, (#[trigger] c[i]).id@, game);
        assert(c.contains(c[i]));
        assert(usable(s, c, game).contains(c[i]));
    } else if usable(s, c, game).len() > 0 {
        let u = usable(s, c, game);
        assert(u.contains(u[0]));
        let i = c.index_of(u[0]);
        assert(covers(s, c[i].id@, game));
    }
}

proof fn lemma_usable(s: Seq<PackageEntry>, c: Seq<PackageEntry>, game: Seq<char>)
    ensures
        forall|p: PackageEntry| #[trigger]
            usable(s, c, game).contains(p) <==> c.contains(p) && covers(s, p.id@, game),
    decreases c.len(),
{
    if c.len() > 0 {
        let t = c.drop_last();
        let b = usable(s, t, game);
        lemma_usable(s, t, game);
        assert forall|p: PackageEntry| #[trigger] usable(s, c, game).contains(p) <==> c.contains(p)
            && covers(s, p.id@, game) by {
            assert(c =~= t.push(c.last()));
            assert(c.contains(p) <==> t.contains(p) || p == c.last()) by {
                if t.contains(p) {
                    let i = t.index_of(p);
                    assert(c[i] == p);
                }
                if p == c.last() {
                    assert(c[c.len() - 1] == p);
                }
                if c.contains(p) {
                    let i = c.index_of(p);
                    if i < t.len() {
                        assert(t[i] == p);
                    }
                }
            }
            if covers(s, c.last().id@, game) {
                let u = b.push(c.last());
                assert(u.contains(p) <==> b.contains(p) || p == c.last()) by {
                    assert(u[b.len() as int] == c.last());
                    if b.contains(p) {
                        let i = b.index_of(p);
                        assert(u[i] == p);
                    }
                }
            }
        }
    }
}

/// The number of an option picks that option, with white space around it or not;
/// any other number picks none.
pub proof fn law_numbers_pick(line: Seq<char>, n: nat, count: nat)
    requires
        trimmed(line) == decimal(n),
        count <= usize::MAX,
    ensures
        pick_of(Some(line), count) == if 1 <= n <= count {
            Some((n - 1) as nat)
        } else {
            None::<nat>
        },
{
    let d = decimal(n);
    law_decimal_reads_back(n);
    assert(d.len() > 0);
    assert forall|i: int| 0 <= i < d.len() implies is_digit(#[trigger] d[i]) by {}
    assert(all_ascii(d));
    assert(lower_ascii(d) =~= d);
    reveal_strlit("n");
    reveal_strlit("");
    assert(d[0] != 'n');
    assert("n"@[0] == 'n');
    assert("n"@ != d);
    assert(d[0] != '+');
}

/// The id that a typed name comes to is that of a package with a matching name: it
/// goes by the name, or the name occurs in one of its names, or is near to one;
/// and with a game it is one that can be used in it. A name that only one package
/// goes by needs no answer.
pub proof fn law_ids_are_of_matching_packages(
    r: Result<String>,
    s: Seq<PackageEntry>,
    name: Seq<char>,
    game: Option<Seq<char>>,
    answer: Answer,
)
    requires
        id_meant(r, s, name, game, answer),
    ensures
        normalized(name).len() == 0 ==> r is Err,
        r is Ok ==> exists|at: int|
            0 <= at < s.len() && (#[trigger] s[at]).id@ == r->Ok_0@ && (read_as(
                s[at],
                normalized(name),
            ) || named_within(s[at], normalized(name)) || named_near(s, s[at], normalized(name))),
        r is Ok && game is Some ==> covers(s, r->Ok_0@, game->0),
        r is Ok && (exists|at: int| 0 <= at < s.len() && read_as(#[trigger] s[at], normalized(name)))
            ==> exists|at: int|
            0 <= at < s.len() && (#[trigger] s[at]).id@ == r->Ok_0@ && read_as(
                s[at],
                normalized(name),
            ),
        answer is Silent && game is None && normalized(name).len() > 0 && hits(
            s,
            normalized(name),
        ).len() == 1 ==> r is Ok,
        answer is Silent && game is None && normalized(name).len() > 0 && hits(
            s,
            normalized(name),
        ).len() > 1 ==> r matches Err(ChefError::Ambiguous(_)),
{
    let typed = normalized(name);
    if typed.len() > 0 {
        let h = hits(s, typed);
        let c = picked(s, h);
        let few = narrowed(s, c, game);
        law_what_a_name_means(s, typed);
        if game is Some {
            law_game_narrows(s, c, game->0);
            lemma_usable(s, c, game->0);
        } else {
            assert(few == c);
        }
        if r is Ok {
            let k: int = if few.len() == 1 {
                0
            } else {
                match answer {
                    Answer::Said(line) => pick_of(said(line), few.len())->0 as int,
                    Answer::Silent => 0,
                }
            };
            assert(0 <= k < few.len());
            assert(few.contains(few[k]));
            assert(c.contains(few[k])) by {
                if game is Some {
                    assert(usable(s, c, game->0).contains(few[k]));
                }
            }
            let n = c.index_of(few[k]);
            assert(s[h[n]] == few[k]);
            assert(r->Ok_0@ == few[k].id@);
        }
    }
}

/// Every option is offered on a line of its own, with the number that picks it.
pub proof fn law_options_are_numbered(options: Seq<Seq<char>>, i: int)
    requires
        0 <= i < options.len(),
    ensures
        exists|front: Seq<char>, back: Seq<char>|
            option_lines(options) == #[trigger] (front + ("["@ + decimal((i + 1) as nat) + "] "@
                + options[i] + "\n"@) + back),
    decreases options.len(),
{
    let t = options.drop_last();
    let last = "["@ + decimal(options.len()) + "] "@ + options.last() + "\n"@;
    let x = "["@ + decimal((i + 1) as nat) + "] "@ + options[i] + "\n"@;
    if i < t.len() {
        law_options_are_numbered(t, i);
        let (f, b) = choose|f: Seq<char>, b: Seq<char>|
            option_lines(t) == #[trigger] (f + ("["@ + decimal((i + 1) as nat) + "] "@ + t[i]
                + "\n"@) + b);
        assert(option_lines(options) =~= f + x + (b + last));
    } else {
        assert(last == x);
        assert(option_lines(options) =~= option_lines(t) + x + Seq::<char>::empty());
    }
}

/// The packages that a name means in a game are among those that it means, and all
/// can be used in the game; none of those that can is left out.
pub proof fn law_names_in_a_game<'a>(
    r: Result<Vec<NameMatch<'a>>>,
    s: Seq<PackageEntry>,
    name: Seq<char>,
    game: Seq<char>,
    p: PackageEntry,
)
    requires
        meant(r, s, name, Some(game)),
        r is Ok,
    ensures
        matched(r->Ok_0@).contains(p) <==> picked(s, hits(s, normalized(name))).contains(p)
            && covers(s, p.id@, game),
{
    let c = picked(s, hits(s, normalized(name)));
    lemma_usable(s, c, game);
}

/// What was typed begins one of the names of the package.
pub open spec fn named_from(p: PackageEntry, typed: Seq<char>) -> bool {
    exists|text: Seq<char>| #[trigger] read_as(p, text) && begins(text, typed)
}

/// Of the packages in whose names a typed name occurs, those come first that have
/// a name which it begins.
pub proof fn law_beginnings_come_first(s: Seq<PackageEntry>, typed: Seq<char>, i: int, j: int)
    requires
        forall|at: int| 0 <= at < s.len() ==> !read_as(#[trigger] s[at], typed),
        0 <= i < j < hits(s, typed).len(),
        named_within(s[hits(s, typed)[j]], typed),
        named_from(s[hits(s, typed)[j]], typed),
    ensures
        named_from(s[hits(s, typed)[i]], typed),
{
    let keys = all_keys(s);
    let none = Seq::<int>::empty();
    let a = matching(s, keys, Kind::Same, typed, none);
    let b = matching(s, keys, Kind::Front, typed, none);
    let c = matching(s, keys, Kind::Inside, typed, b);
    let h = hits(s, typed);
    lemma_alike(s, Kind::Same, typed, none, a);
    lemma_alike(s, Kind::Front, typed, none, b);
    lemma_alike(s, Kind::Inside, typed, b, c);
    if a.len() > 0 {
        assert(likes(s[a[0]], Kind::Same, typed));
        assert(read_as(s[a[0]], typed));
    }
    lemma_hits_are_there(s, typed, j);
    let at = h[j];
    let text = choose|text: Seq<char>| #[trigger] read_as(s[at], text) && occurs(text, typed);
    assert(agrees(Kind::Inside, typed, text));
    assert(has_id(s, c, s[at].id@));
    assert(c.len() > 0);
    assert(h == c);
    let front = choose|text: Seq<char>| #[trigger] read_as(s[at], text) && begins(text, typed);
    assert(agrees(Kind::Front, typed, front));
    assert(has_id(s, b, s[at].id@));
    let k = choose|k: int| 0 <= k < b.len() && s[#[trigger] b[k]].id@ == s[at].id@;
    assert(c[k] == b[k]);
    assert(k == j);
    assert(c[i] == b[i]);
    assert(likes(s[b[i]], Kind::Front, typed));
    let t = choose|text: Seq<char>| #[trigger]
        read_as(s[b[i]], text) && agrees(Kind::Front, typed, text);
    assert(read_as(s[h[i]], t) && begins(t, typed));
}

proof fn lemma_hits_are_there(s: Seq<PackageEntry>, typed: Seq<char>, j: int)
    requires
        0 <= j < hits(s, typed).len(),
    ensures
        0 <= hits(s, typed)[j] < s.len(),
{
    let keys = all_keys(s);
    let none = Seq::<int>::empty();
    let b = matching(s, keys, Kind::Front, typed, none);
    lemma_alike(s, Kind::Same, typed, none, matching(s, keys, Kind::Same, typed, none));
    lemma_alike(s, Kind::Front, typed, none, b);
    lemma_alike(s, Kind::Inside, typed, b, matching(s, keys, Kind::Inside, typed, b));
    match nearest(keys, typed) {
        Some(d) => {
            let kind = Kind::Near(d as usize);
            lemma_alike(s, kind, typed, none, matching(s, keys, kind, typed, none));
        },
        None => {},
    }
}

} // verus!
