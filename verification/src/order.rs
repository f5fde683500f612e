//! The order of texts, sorting and the removal of repeats.

use vstd::prelude::*;
use crate::text::{chars_of, texts};

verus! {

/// `a` comes before `b`: the first difference decides, by code point, and a
/// text comes before every longer text that it begins.
pub open spec fn lt(a: Seq<char>, b: Seq<char>) -> bool
    decreases a.len(),
{
    if b.len() == 0 {
        false
    } else if a.len() == 0 {
        true
    } else if a[0] != b[0] {
        a[0] < b[0]
    } else {
        lt(a.drop_first(), b.drop_first())
    }
}

/// No text comes before itself.
pub proof fn lemma_lt_irreflexive(a: Seq<char>)
    ensures
        !lt(a, a),
    decreases a.len(),
{
    if a.len() > 0 {
        lemma_lt_irreflexive(a.drop_first());
    }
}

/// Of two different texts one comes before the other.
pub proof fn lemma_lt_total(a: Seq<char>, b: Seq<char>)
    ensures
        lt(a, b) || lt(b, a) || a == b,
        !(lt(a, b) && lt(b, a)),
    decreases a.len(),
{
    if a.len() > 0 && b.len() > 0 && a[0] == b[0] {
        lemma_lt_total(a.drop_first(), b.drop_first());
        if a.drop_first() == b.drop_first() {
            assert(a =~= seq![a[0]] + a.drop_first());
            assert(b =~= seq![b[0]] + b.drop_first());
        }
    } else if a.len() == 0 && b.len() == 0 {
        assert(a =~= b);
    }
}

/// The order is transitive.
pub proof fn lemma_lt_transitive(a: Seq<char>, b: Seq<char>, c: Seq<char>)
    requires
        lt(a, b),
        lt(b, c),
    ensures
        lt(a, c),
    decreases a.len(),
{
    if a.len() > 0 && a[0] == b[0] && b[0] == c[0] {
        lemma_lt_transitive(a.drop_first(), b.drop_first(), c.drop_first());
    }
}

/// Does `a` come before `b`?
pub fn comes_before(a: &str, b: &str) -> (r: bool)
    ensures
        r == lt(a@, b@),
{
    let x = chars_of(a);
    let y = chars_of(b);
    let mut i: usize = 0;
    proof {
        assert(x@.skip(0) =~= x@);
        assert(y@.skip(0) =~= y@);
    }
    while i < x.len() && i < y.len()
        invariant
            i <= x@.len(),
            i <= y@.len(),
            x@ == a@,
            y@ == b@,
            lt(a@, b@) == lt(x@.skip(i as int), y@.skip(i as int)),
        decreases x.len() - i,
    {
        if x[i] != y[i] {
            return x[i] < y[i];
        }
        proof {
            assert(x@.skip(i as int).drop_first() =~= x@.skip(i + 1));
            assert(y@.skip(i as int).drop_first() =~= y@.skip(i + 1));
        }
        i = i + 1;
    }
    i < y.len()
}

/// `x` put into an ordered list: behind everything that does not come after it.
pub open spec fn placed(s: Seq<Seq<char>>, x: Seq<char>) -> Seq<Seq<char>>
    decreases s.len(),
{
    if s.len() > 0 && lt(x, s.last()) {
        placed(s.drop_last(), x).push(s.last())
    } else {
        s.push(x)
    }
}

/// The list in order.
pub open spec fn sorted(s: Seq<Seq<char>>) -> Seq<Seq<char>>
    decreases s.len(),
{
    if s.len() == 0 {
        s
    } else {
        placed(sorted(s.drop_last()), s.last())
    }
}

/// No text comes before an earlier one.
pub open spec fn ordered(s: Seq<Seq<char>>) -> bool {
    forall|i: int, j: int| 0 <= i < j < s.len() ==> !lt(#[trigger] s[j], #[trigger] s[i])
}

/// Each text comes before every later one.
pub open spec fn increasing(s: Seq<Seq<char>>) -> bool {
    forall|i: int, j: int| 0 <= i < j < s.len() ==> lt(#[trigger] s[i], #[trigger] s[j])
}

/// An ordered list without repeats of neighbours.
pub open spec fn without_repeats(s: Seq<Seq<char>>) -> Seq<Seq<char>>
    decreases s.len(),
{
    if s.len() == 0 {
        s
    } else if s.len() > 1 && s[s.len() - 2] == s.last() {
        without_repeats(s.drop_last())
    } else {
        without_repeats(s.drop_last()).push(s.last())
    }
}

pub proof fn lemma_placed_at(s: Seq<Seq<char>>, x: Seq<char>, j: int)
    requires
        0 <= j <= s.len(),
        forall|k: int| j <= k < s.len() ==> lt(x, #[trigger] s[k]),
        j > 0 ==> !lt(x, s[j - 1]),
    ensures
        placed(s, x) == s.insert(j, x),
    decreases s.len(),
{
    if s.len() > j {
        lemma_placed_at(s.drop_last(), x, j);
        assert(s.drop_last().insert(j, x).push(s.last()) =~= s.insert(j, x));
    } else {
        assert(s.push(x) =~= s.insert(j, x));
    }
}

proof fn lemma_placed(s: Seq<Seq<char>>, x: Seq<char>)
    requires
        ordered(s),
    ensures
        ordered(placed(s, x)),
        placed(s, x).to_multiset() == s.to_multiset().insert(x),
        placed(s, x).len() == s.len() + 1,
    decreases s.len(),
{
    broadcast use vstd::seq_lib::group_to_multiset_ensures;

    if s.len() > 0 && lt(x, s.last()) {
        let t = s.drop_last();
        lemma_placed(t, x);
        let p = placed(t, x);
        let q = p.push(s.last());
        assert(t.push(s.last()) =~= s);
        assert(q.to_multiset() =~= s.to_multiset().insert(x));
        assert forall|i: int, j: int| 0 <= i < j < q.len() implies !lt(
            #[trigger] q[j],
            #[trigger] q[i],
        ) by {
            if j == q.len() - 1 {
                assert(p.to_multiset().count(p[i]) > 0);
                if p[i] == x {
                    lemma_lt_total(x, s.last());
                } else {
                    assert(t.to_multiset().count(p[i]) > 0);
                    assert(t.contains(p[i]));
                    let k = t.index_of(p[i]);
                    assert(s[k] == p[i]);
                }
            }
        }
    } else {
        let q = s.push(x);
        assert(q.to_multiset() =~= s.to_multiset().insert(x));
        assert forall|i: int, j: int| 0 <= i < j < q.len() implies !lt(
            #[trigger] q[j],
            #[trigger] q[i],
        ) by {
            if j == q.len() - 1 {
                let z = s.last();
                if i == s.len() - 1 {
                } else {
                    assert(!lt(z, s[i]));
                    lemma_lt_total(z, s[i]);
                    lemma_lt_total(x, z);
                    if lt(x, s[i]) && x != z && s[i] != z {
                        lemma_lt_transitive(x, s[i], z);
                    }
                }
            }
        }
    }
}

/// Sorting puts a list in order and keeps what it holds.
pub proof fn lemma_sorted(s: Seq<Seq<char>>)
    ensures
        ordered(sorted(s)),
        sorted(s).to_multiset() == s.to_multiset(),
        sorted(s).len() == s.len(),
    decreases s.len(),
{
    broadcast use vstd::seq_lib::group_to_multiset_ensures;

    if s.len() > 0 {
        lemma_sorted(s.drop_last());
        lemma_placed(sorted(s.drop_last()), s.last());
        assert(s.drop_last().push(s.last()) =~= s);
    }
}

/// An ordered list without repeats is increasing and holds the same texts.
pub proof fn lemma_without_repeats(s: Seq<Seq<char>>)
    requires
        ordered(s),
    ensures
        increasing(without_repeats(s)),
        forall|x: Seq<char>| s.contains(x) <==> #[trigger] without_repeats(s).contains(x),
    decreases s.len(),
{
    if s.len() > 0 {
        let t = s.drop_last();
        lemma_without_repeats(t);
        let r = without_repeats(t);
        let w = without_repeats(s);
        assert forall|x: Seq<char>| s.contains(x) <==> #[trigger] w.contains(x) by {
            if s.contains(x) {
                let i = s.index_of(x);
                if i < t.len() {
                    assert(t[i] == x);
                    assert(r.contains(x));
                    let k = r.index_of(x);
                    assert(w[k] == x);
                } else if s.len() > 1 && s[s.len() - 2] == s.last() {
                    assert(t[t.len() - 1] == x);
                    assert(r.contains(x));
                } else {
                    assert(w[r.len() as int] == x);
                }
            }
            if w.contains(x) {
                let k = w.index_of(x);
                if k < r.len() {
                    assert(r[k] == x);
                    assert(r.contains(x));
                    assert(t.contains(x));
                    let i = t.index_of(x);
                    assert(s[i] == x);
                } else {
                    assert(s[s.len() - 1] == x);
                }
            }
        }
        if !(s.len() > 1 && s[s.len() - 2] == s.last()) {
            assert forall|i: int, j: int| 0 <= i < j < w.len() implies lt(
                #[trigger] w[i],
                #[trigger] w[j],
            ) by {
                if j == w.len() - 1 {
                    assert(r[i] == w[i]);
                    assert(r.contains(w[i]));
                    assert(t.contains(w[i]));
                    let k = t.index_of(w[i]);
                    let z = t[t.len() - 1];
                    lemma_lt_total(s[k], s.last());
                    if s[k] == s.last() {
                        assert(!lt(s.last(), z));
                        if k < t.len() - 1 {
                            assert(!lt(s[s.len() - 2], s[k]));
                        }
                        lemma_lt_total(z, s.last());
                    }
                }
            }
        }
    }
}

/// Puts `x` into the list, behind everything that does not come after it.
pub fn place(v: &mut Vec<String>, x: String)
    ensures
        texts(final(v)@) == placed(texts(old(v)@), x@),
{
    let mut j: usize = v.len();
    while j > 0 && comes_before(x.as_str(), v[j - 1].as_str())
        invariant
            j <= v@.len(),
            v@ == old(v)@,
            forall|k: int| j <= k < v@.len() ==> lt(x@, #[trigger] texts(v@)[k]),
        decreases j,
    {
        j = j - 1;
    }
    proof {
        lemma_placed_at(texts(v@), x@, j as int);
        assert(texts(v@.insert(j as int, x)) =~= texts(v@).insert(j as int, x@));
    }
    v.insert(j, x);
}

/// The texts in order.
pub fn sort_texts(v: &Vec<String>) -> (out: Vec<String>)
    ensures
        texts(out@) == sorted(texts(v@)),
{
    let mut out: Vec<String> = Vec::new();
    let mut i: usize = 0;
    proof {
        assert(texts(out@) =~= sorted(texts(v@).take(0)));
    }
    while i < v.len()
        invariant
            i <= v@.len(),
            texts(out@) == sorted(texts(v@).take(i as int)),
        decreases v.len() - i,
    {
        proof {
            assert(texts(v@).take(i + 1).drop_last() =~= texts(v@).take(i as int));
            assert(texts(v@).take(i + 1).last() == v@[i as int]@);
        }
        place(&mut out, v[i].clone());
        i = i + 1;
    }
    proof {
        assert(texts(v@).take(i as int) =~= texts(v@));
    }
    out
}

/// An ordered list without repeats.
pub fn drop_repeats(v: &Vec<String>) -> (out: Vec<String>)
    ensures
        texts(out@) == without_repeats(texts(v@)),
{
    let mut out: Vec<String> = Vec::new();
    let mut i: usize = 0;
    proof {
        assert(texts(out@) =~= without_repeats(texts(v@).take(0)));
    }
    while i < v.len()
        invariant
            i <= v@.len(),
            texts(out@) == without_repeats(texts(v@).take(i as int)),
        decreases v.len() - i,
    {
        let ghost now = texts(v@).take(i + 1);
        proof {
            assert(now.drop_last() =~= texts(v@).take(i as int));
            assert(now.last() == v@[i as int]@);
            assert(i > 0 ==> now[now.len() - 2] == v@[i - 1]@);
        }
        if i == 0 || v[i - 1] != v[i] {
            let ghost before = out@;
            out.push(v[i].clone());
            proof {
                assert(texts(out@) =~= texts(before).push(v@[i as int]@));
            }
        }
        i = i + 1;
    }
    proof {
        assert(texts(v@).take(i as int) =~= texts(v@));
    }
    out
}

/// Texts are ordered as in a dictionary: by the first character that differs, and
/// a text comes before the longer ones that it begins.
pub proof fn law_the_first_difference_decides(a: Seq<char>, b: Seq<char>, n: int)
    requires
        0 <= n <= a.len(),
        n < b.len(),
        forall|i: int| 0 <= i < n ==> a[i] == b[i],
        n < a.len() ==> a[n] < b[n],
    ensures
        lt(a, b),
        !lt(b, a),
    decreases n,
{
    if n > 0 {
        let s = a.drop_first();
        let t = b.drop_first();
        assert forall|i: int| 0 <= i < n - 1 implies s[i] == t[i] by {
            assert(a[i + 1] == b[i + 1]);
        }
        law_the_first_difference_decides(s, t, n - 1);
        assert(a[0] == b[0]);
    }
}

} // verus!
