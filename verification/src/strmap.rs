//! A map from texts to values that hands its entries out in the order of
//! their keys.

use vstd::prelude::*;
use crate::order::{
    comes_before, increasing, lemma_lt_irreflexive, lemma_lt_total, lemma_lt_transitive, lt,
};
use crate::text::same;

verus! {

/// The keys of a list of entries.
pub open spec fn keys_of<V>(s: Seq<(String, V)>) -> Seq<Seq<char>> {
    s.map_values(|e: (String, V)| e.0@)
}

/// The map that a list of entries with different keys writes down.
pub open spec fn map_of<V>(s: Seq<(String, V)>) -> Map<Seq<char>, V> {
    Map::new(
        |k: Seq<char>| keys_of(s).contains(k),
        |k: Seq<char>| s[keys_of(s).index_of(k)].1,
    )
}

/// A map from texts to values, kept in the order of the keys.
#[derive(Debug)]
pub struct StrMap<V> {
    entries: Vec<(String, V)>,
}

impl<V> View for StrMap<V> {
    type V = Map<Seq<char>, V>;

    closed spec fn view(&self) -> Map<Seq<char>, V> {
        map_of(self.entries@)
    }
}

pub proof fn lemma_increasing_index(s: Seq<Seq<char>>, i: int)
    requires
        increasing(s),
        0 <= i < s.len(),
    ensures
        s.index_of(s[i]) == i,
{
    let j = s.index_of(s[i]);
    assert(s.contains(s[i]));
    assert(s[j] == s[i]);
    if j != i {
        lemma_lt_irreflexive(s[i]);
    }
}

proof fn lemma_map_at<V>(s: Seq<(String, V)>, i: int)
    requires
        increasing(keys_of(s)),
        0 <= i < s.len(),
    ensures
        map_of(s).dom().contains(s[i].0@),
        map_of(s)[s[i].0@] == s[i].1,
{
    assert(keys_of(s)[i] == s[i].0@);
    lemma_increasing_index(keys_of(s), i);
}

impl<V> StrMap<V> {
    #[verifier::type_invariant]
    spec fn in_order(&self) -> bool {
        increasing(keys_of(self.entries@))
    }

    /// The keys in the order in which the entries are handed out.
    pub closed spec fn keys(&self) -> Seq<Seq<char>> {
        keys_of(self.entries@)
    }

    /// An empty map.
    pub fn new() -> (m: StrMap<V>)
        ensures
            m@ == Map::<Seq<char>, V>::empty(),
            m.keys() == Seq::<Seq<char>>::empty(),
    {
        let m = StrMap { entries: Vec::new() };
        assert(m@ =~= Map::<Seq<char>, V>::empty());
        m
    }

    /// How many entries there are. The keys are in increasing order and are
    /// those of the map.
    pub fn len(&self) -> (n: usize)
        ensures
            n == self.keys().len(),
            increasing(self.keys()),
            forall|k: Seq<char>|
                self@.dom().contains(k) <==> #[trigger] self.keys().contains(k),
    {
        proof {
            use_type_invariant(self);
        }
        self.entries.len()
    }

    /// The key of entry `i`.
    pub fn key_at(&self, i: usize) -> (k: &String)
        requires
            i < self.keys().len(),
        ensures
            k@ == self.keys()[i as int],
    {
        &self.entries[i].0
    }

    /// The value of entry `i`.
    pub fn value_at(&self, i: usize) -> (v: &V)
        requires
            i < self.keys().len(),
        ensures
            self@.dom().contains(self.keys()[i as int]),
            *v == self@[self.keys()[i as int]],
    {
        proof {
            use_type_invariant(self);
            lemma_map_at(self.entries@, i as int);
        }
        &self.entries[i].1
    }

    /// The first position whose key does not come before `key`.
    fn seek(&self, key: &str) -> (j: usize)
        ensures
            j <= self.entries@.len(),
            forall|k: int| 0 <= k < j ==> lt(#[trigger] self.entries@[k].0@, key@),
            j < self.entries@.len() ==> !lt(self.entries@[j as int].0@, key@),
    {
        let mut j: usize = 0;
        while j < self.entries.len() && comes_before(self.entries[j].0.as_str(), key)
            invariant
                j <= self.entries@.len(),
                forall|k: int| 0 <= k < j ==> lt(#[trigger] self.entries@[k].0@, key@),
            decreases self.entries.len() - j,
        {
            j = j + 1;
        }
        j
    }

    /// The value under `key`, if there is one.
    pub fn get(&self, key: &str) -> (r: Option<&V>)
        ensures
            match r {
                Some(v) => self@.dom().contains(key@) && *v == self@[key@],
                None => !self@.dom().contains(key@),
            },
    {
        let j: usize = self.seek(key);
        proof {
            use_type_invariant(self);
        }
        if j < self.entries.len() && same(self.entries[j].0.as_str(), key) {
            proof {
                lemma_map_at(self.entries@, j as int);
            }
            return Some(&self.entries[j].1);
        }
        proof {
            self.lemma_absent(key@, j as int);
        }
        None
    }

    proof fn lemma_absent(&self, key: Seq<char>, j: int)
        requires
            increasing(keys_of(self.entries@)),
            0 <= j <= self.entries@.len(),
            forall|k: int| 0 <= k < j ==> lt(#[trigger] self.entries@[k].0@, key),
            j < self.entries@.len() ==> !lt(self.entries@[j].0@, key) && self.entries@[j].0@
                != key,
        ensures
            !self@.dom().contains(key),
            forall|k: int| j <= k < self.entries@.len() ==> lt(key, #[trigger] self.entries@[k].0@),
    {
        let ks = keys_of(self.entries@);
        assert forall|k: int| j <= k < self.entries@.len() implies lt(
            key,
            #[trigger] self.entries@[k].0@,
        ) by {
            lemma_lt_total(self.entries@[j].0@, key);
            if k > j {
                assert(lt(ks[j], ks[k]));
                lemma_lt_transitive(key, ks[j], ks[k]);
            }
        }
        if ks.contains(key) {
            let i = ks.index_of(key);
            assert(ks[i] == self.entries@[i].0@);
            lemma_lt_irreflexive(key);
        }
    }

    /// Is there a value under `key`?
    pub fn contains_key(&self, key: &str) -> (b: bool)
        ensures
            b == self@.dom().contains(key@),
    {
        self.get(key).is_some()
    }

    /// Puts `value` under `key`, in place of what stood there.
    pub fn insert(&mut self, key: String, value: V)
        ensures
            final(self)@ == old(self)@.insert(key@, value),
    {
        let j: usize = self.seek(key.as_str());
        let here: bool = j < self.entries.len() && self.entries[j].0 == key;
        proof {
            use_type_invariant(&*self);
            if !here {
                self.lemma_absent(key@, j as int);
            }
        }
        let ghost before = self.entries@;
        let mut entries: Vec<(String, V)> = Vec::new();
        std::mem::swap(&mut entries, &mut self.entries);
        if here {
            entries.remove(j);
        }
        let ghost mid = entries@;
        let ghost k0 = key@;
        entries.insert(j, (key, value));
        proof {
            let now = entries@;
            assert(forall|k: int| 0 <= k < j ==> now[k] == before[k]);
            assert forall|k: int| j < k < now.len() implies now[k] == (if here {
                before[k]
            } else {
                before[k - 1]
            }) by {
                assert(now[k] == mid[k - 1]);
            }
            lemma_put(before, now, j as int, here, k0, value);
        }
        self.entries = entries;
    }

    /// Takes the entry under `key` out, if there is one.
    pub fn remove(&mut self, key: &str) -> (r: Option<V>)
        ensures
            final(self)@ == old(self)@.remove(key@),
            match r {
                Some(v) => old(self)@.dom().contains(key@) && v == old(self)@[key@],
                None => !old(self)@.dom().contains(key@),
            },
    {
        let j: usize = self.seek(key);
        proof {
            use_type_invariant(&*self);
        }
        if j < self.entries.len() && same(self.entries[j].0.as_str(), key) {
            let ghost before = self.entries@;
            let mut entries: Vec<(String, V)> = Vec::new();
            std::mem::swap(&mut entries, &mut self.entries);
            let e = entries.remove(j);
            proof {
                lemma_map_at(before, j as int);
                lemma_cut(before, entries@, j as int);
            }
            self.entries = entries;
            return Some(e.1);
        }
        proof {
            self.lemma_absent(key@, j as int);
            assert(self@.remove(key@) =~= self@);
        }
        None
    }
}

proof fn lemma_put<V>(
    before: Seq<(String, V)>,
    now: Seq<(String, V)>,
    j: int,
    here: bool,
    key: Seq<char>,
    value: V,
)
    requires
        increasing(keys_of(before)),
        0 <= j <= before.len(),
        here ==> j < before.len() && before[j].0@ == key,
        now.len() == before.len() + (if here { 0int } else { 1 }),
        forall|k: int| 0 <= k < j ==> now[k] == before[k] && lt(before[k].0@, key),
        now[j].0@ == key && now[j].1 == value,
        forall|k: int| j < k < now.len() ==> now[k] == (if here { before[k] } else { before[k - 1] }),
        !here ==> forall|k: int| j <= k < before.len() ==> lt(key, #[trigger] before[k].0@),
        !here ==> !map_of(before).dom().contains(key),
    ensures
        increasing(keys_of(now)),
        map_of(now) == map_of(before).insert(key, value),
{
    let kb = keys_of(before);
    let kn = keys_of(now);
    assert forall|a: int, b: int| 0 <= a < b < kn.len() implies lt(
        #[trigger] kn[a],
        #[trigger] kn[b],
    ) by {
        let oa = if a <= j || here { a } else { a - 1 };
        let ob = if b <= j || here { b } else { b - 1 };
        if a != j && b != j {
            assert(lt(kb[oa], kb[ob]));
        } else if a == j {
            if here {
                assert(lt(kb[j], kb[b]));
            } else {
                assert(now[b] == before[b - 1]);
            }
        } else {
            assert(now[a] == before[a]);
        }
    }
    let want = map_of(before).insert(key, value);
    assert forall|k: Seq<char>| #[trigger] map_of(now).dom().contains(k) <==> want.dom().contains(
        k,
    ) by {
        if kn.contains(k) {
            let i = kn.index_of(k);
            if i != j {
                let o = if i < j || here { i } else { i - 1 };
                assert(kb[o] == k);
            }
        }
        if k == key {
            assert(kn[j] == k);
        } else if kb.contains(k) {
            let o = kb.index_of(k);
            let i = if o < j || here { o } else { o + 1 };
            assert(now[i] == before[o]);
            assert(kn[i] == k);
        }
    }
    assert forall|k: Seq<char>| #[trigger] map_of(now).dom().contains(k) implies map_of(now)[k]
        == want[k] by {
        let i = kn.index_of(k);
        lemma_map_at(now, i);
        if i != j {
            let o = if i < j || here { i } else { i - 1 };
            lemma_map_at(before, o);
            if k == key {
                lemma_increasing_index(kn, i);
                lemma_increasing_index(kn, j);
                assert(kn[j] == key);
            }
        }
    }
    assert(map_of(now) =~= want);
}

proof fn lemma_cut<V>(before: Seq<(String, V)>, now: Seq<(String, V)>, j: int)
    requires
        increasing(keys_of(before)),
        0 <= j < before.len(),
        now == before.remove(j),
    ensures
        increasing(keys_of(now)),
        map_of(now) == map_of(before).remove(before[j].0@),
{
    let kb = keys_of(before);
    let kn = keys_of(now);
    let key = before[j].0@;
    assert(forall|a: int| 0 <= a < now.len() ==> now[a] == before[if a < j { a } else { a + 1 }]);
    assert forall|a: int, b: int| 0 <= a < b < kn.len() implies lt(
        #[trigger] kn[a],
        #[trigger] kn[b],
    ) by {
        let oa = if a < j { a } else { a + 1 };
        let ob = if b < j { b } else { b + 1 };
        assert(lt(kb[oa], kb[ob]));
    }
    let want = map_of(before).remove(key);
    assert forall|k: Seq<char>| #[trigger] map_of(now).dom().contains(k) <==> want.dom().contains(
        k,
    ) by {
        if kn.contains(k) {
            let i = kn.index_of(k);
            let o = if i < j { i } else { i + 1 };
            assert(kb[o] == k);
            lemma_increasing_index(kb, o);
            lemma_increasing_index(kb, j);
            assert(kb[j] == key);
        }
        if kb.contains(k) && k != key {
            let o = kb.index_of(k);
            let i = if o < j { o } else { o - 1 };
            assert(kn[i] == k);
        }
    }
    assert forall|k: Seq<char>| #[trigger] map_of(now).dom().contains(k) implies map_of(now)[k]
        == want[k] by {
        let i = kn.index_of(k);
        lemma_map_at(now, i);
        lemma_map_at(before, if i < j { i } else { i + 1 });
    }
    assert(map_of(now) =~= want);
}

} // verus!
