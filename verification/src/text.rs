//! Text as sequences of characters: the searching, splitting and joining
//! that names, paths and version strings need, each with an exact meaning.

use vstd::prelude::*;

verus! {

/// `String::push` of std: the character goes to the end.
pub assume_specification[ String::push ](s: &mut String, c: char)
    ensures
        final(s)@ == old(s)@.push(c),
;

/// What `str::to_lowercase` of std returns for a text that is not all ASCII.
pub uninterp spec fn unicode_lowercase(s: Seq<char>) -> Seq<char>;

/// A text in small letters.
pub open spec fn lowercase(s: Seq<char>) -> Seq<char> {
    if all_ascii(s) {
        lower_ascii(s)
    } else {
        unicode_lowercase(s)
    }
}

/// `str::to_lowercase` of std. Of an ASCII text it lowers the letters `A` to
/// `Z`; of any other the result is a function of the text, which the tables of
/// Unicode decide.
#[verifier::external_body]
pub(crate) fn to_lower(s: &str) -> (out: String)
    ensures
        out@ == if all_ascii(s@) {
            lower_ascii(s@)
        } else {
            unicode_lowercase(s@)
        },
{
    s.to_lowercase()
}

/// Every character is an ASCII one.
pub open spec fn all_ascii(s: Seq<char>) -> bool {
    forall|i: int| 0 <= i < s.len() ==> (#[trigger] s[i] as u32) < 128
}

// ---------------------------------------------------------------------------
// Characters
// ---------------------------------------------------------------------------

/// An ASCII digit.
pub open spec fn is_digit(c: char) -> bool {
    '0' <= c <= '9'
}

/// An ASCII letter or digit.
pub open spec fn is_alnum(c: char) -> bool {
    is_digit(c) || 'a' <= c <= 'z' || 'A' <= c <= 'Z'
}

/// The Unicode property White_Space.
pub open spec fn is_white(c: char) -> bool {
    ||| 0x9 <= c as u32 <= 0xd
    ||| c as u32 == 0x20
    ||| c as u32 == 0x85
    ||| c as u32 == 0xa0
    ||| c as u32 == 0x1680
    ||| 0x2000 <= c as u32 <= 0x200a
    ||| c as u32 == 0x2028
    ||| c as u32 == 0x2029
    ||| c as u32 == 0x202f
    ||| c as u32 == 0x205f
    ||| c as u32 == 0x3000
}

/// ASCII capitals become small letters; every other character stays.
pub open spec fn lower_char(c: char) -> char {
    if 'A' <= c <= 'Z' {
        ((c as u8) + 32) as u8 as char
    } else {
        c
    }
}

/// A text with its ASCII capitals lowered.
pub open spec fn lower_ascii(s: Seq<char>) -> Seq<char> {
    s.map_values(|c: char| lower_char(c))
}

pub fn char_is_digit(c: char) -> (b: bool)
    ensures
        b == is_digit(c),
{
    '0' <= c && c <= '9'
}

pub fn char_is_alnum(c: char) -> (b: bool)
    ensures
        b == is_alnum(c),
{
    char_is_digit(c) || ('a' <= c && c <= 'z') || ('A' <= c && c <= 'Z')
}

pub fn char_is_white(c: char) -> (b: bool)
    ensures
        b == is_white(c),
{
    let n: u32 = c as u32;
    (0x9 <= n && n <= 0xd) || n == 0x20 || n == 0x85 || n == 0xa0 || n == 0x1680 || (0x2000 <= n
        && n <= 0x200a) || n == 0x2028 || n == 0x2029 || n == 0x202f || n == 0x205f || n == 0x3000
}

pub fn char_to_lower(c: char) -> (r: char)
    ensures
        r == lower_char(c),
{
    if 'A' <= c && c <= 'Z' {
        ((c as u8) + 32) as char
    } else {
        c
    }
}

// ---------------------------------------------------------------------------
// Between texts and characters
// ---------------------------------------------------------------------------

/// The characters of a text.
pub fn chars_of(s: &str) -> (out: Vec<char>)
    ensures
        out@ == s@,
{
    let mut out: Vec<char> = Vec::new();
    for c in it: s.chars()
        invariant
            out@ == it.seq().take(it.index() as int),
            it.seq() == s@,
    {
        out.push(c);
    }
    out
}

/// The text made of the characters from `from` up to `to`.
pub fn slice_text(v: &Vec<char>, from: usize, to: usize) -> (out: String)
    requires
        from <= to <= v@.len(),
    ensures
        out@ == v@.subrange(from as int, to as int),
{
    let mut out: String = String::new();
    let mut i: usize = from;
    while i < to
        invariant
            from <= i <= to <= v@.len(),
            out@ == v@.subrange(from as int, i as int),
        decreases to - i,
    {
        out.push(v[i]);
        i = i + 1;
        proof {
            assert(v@.subrange(from as int, i as int) =~= v@.subrange(
                from as int,
                i - 1,
            ).push(v@[i - 1]));
        }
    }
    out
}

/// An owned copy of a text.
pub fn own(s: &str) -> (out: String)
    ensures
        out@ == s@,
{
    s.to_owned()
}

/// Two texts, one after the other.
pub fn cat(a: &str, b: &str) -> (out: String)
    ensures
        out@ == a@ + b@,
{
    let mut out: String = a.to_owned();
    out.append(b);
    out
}

/// Three texts in a row.
pub fn cat3(a: &str, b: &str, c: &str) -> (out: String)
    ensures
        out@ == a@ + b@ + c@,
{
    let mut out: String = cat(a, b);
    out.append(c);
    out
}

/// A copy of a list of texts.
pub fn own_all(v: &Vec<String>) -> (out: Vec<String>)
    ensures
        out@ == v@,
{
    let mut out: Vec<String> = Vec::new();
    let mut i: usize = 0;
    while i < v.len()
        invariant
            i <= v.len(),
            out@ =~= v@.take(i as int),
        decreases v.len() - i,
    {
        out.push(v[i].clone());
        i = i + 1;
    }
    proof {
        assert(v@.take(v@.len() as int) =~= v@);
    }
    out
}

// ---------------------------------------------------------------------------
// Equality and search
// ---------------------------------------------------------------------------

/// Do the characters of `v` from position `at` spell `w`?
pub open spec fn found_at(v: Seq<char>, w: Seq<char>, at: int) -> bool {
    0 <= at && at + w.len() <= v.len() && v.subrange(at, at + w.len()) == w
}

/// Does `w` begin the text `v`?
pub open spec fn begins(v: Seq<char>, w: Seq<char>) -> bool {
    found_at(v, w, 0)
}

/// Does `w` end the text `v`?
pub open spec fn ends(v: Seq<char>, w: Seq<char>) -> bool {
    found_at(v, w, v.len() - w.len())
}

/// Does `w` occur somewhere in the text `v`?
pub open spec fn occurs(v: Seq<char>, w: Seq<char>) -> bool {
    exists|at: int| #[trigger] found_at(v, w, at)
}

/// `w` stands in `v` at position `at`.
pub fn matches_at(v: &Vec<char>, w: &Vec<char>, at: usize) -> (b: bool)
    ensures
        b == found_at(v@, w@, at as int),
{
    if at > v.len() || w.len() > v.len() - at {
        return false;
    }
    let mut i: usize = 0;
    while i < w.len()
        invariant
            i <= w.len(),
            at + w.len() <= v.len(),
            forall|k: int| 0 <= k < i ==> v@[at + k] == w@[k],
        decreases w.len() - i,
    {
        if v[at + i] != w[i] {
            proof {
                assert(v@.subrange(at as int, at + w@.len())[i as int] != w@[i as int]);
            }
            return false;
        }
        i = i + 1;
    }
    proof {
        assert(v@.subrange(at as int, at + w@.len()) =~= w@);
    }
    true
}

/// `w` occurs in `v`.
pub fn chars_contain(v: &Vec<char>, w: &Vec<char>) -> (b: bool)
    ensures
        b == occurs(v@, w@),
{
    if w.len() > v.len() {
        return false;
    }
    let last: usize = v.len() - w.len();
    let mut at: usize = 0;
    loop
        invariant
            w@.len() <= v@.len(),
            last == v@.len() - w@.len(),
            at <= last,
            forall|k: int| 0 <= k < at ==> !found_at(v@, w@, k),
        decreases last - at,
    {
        if matches_at(v, w, at) {
            return true;
        }
        if at == last {
            return false;
        }
        at = at + 1;
    }
}

/// The two texts are the same.
pub fn same(a: &str, b: &str) -> (r: bool)
    ensures
        r == (a@ == b@),
{
    let x = chars_of(a);
    let y = chars_of(b);
    if x.len() != y.len() {
        return false;
    }
    let r = matches_at(&x, &y, 0);
    proof {
        assert(x@.subrange(0, x@.len() as int) =~= x@);
    }
    r
}

/// `w` begins `s`.
pub fn starts_with(s: &str, w: &str) -> (b: bool)
    ensures
        b == begins(s@, w@),
{
    matches_at(&chars_of(s), &chars_of(w), 0)
}

/// `w` ends `s`.
pub fn ends_with(s: &str, w: &str) -> (b: bool)
    ensures
        b == ends(s@, w@),
{
    let v = chars_of(s);
    let w = chars_of(w);
    if w.len() > v.len() {
        return false;
    }
    let at: usize = v.len() - w.len();
    matches_at(&v, &w, at)
}

/// `w` occurs in `s`.
pub fn contains(s: &str, w: &str) -> (b: bool)
    ensures
        b == occurs(s@, w@),
{
    chars_contain(&chars_of(s), &chars_of(w))
}

/// The list holds the text `w`.
pub open spec fn lists(v: Seq<String>, w: Seq<char>) -> bool {
    exists|i: int| 0 <= i < v.len() && #[trigger] v[i]@ == w
}

/// Is `w` one of the texts in the list?
pub fn list_has(v: &Vec<String>, w: &str) -> (b: bool)
    ensures
        b == lists(v@, w@),
{
    let mut i: usize = 0;
    while i < v.len()
        invariant
            i <= v.len(),
            forall|k: int| 0 <= k < i ==> v@[k]@ != w@,
        decreases v.len() - i,
    {
        if same(v[i].as_str(), w) {
            return true;
        }
        i = i + 1;
    }
    false
}

// ---------------------------------------------------------------------------
// Cutting
// ---------------------------------------------------------------------------

/// The text without its first `n` characters.
pub fn skip_text(v: &Vec<char>, n: usize) -> (out: String)
    requires
        n <= v@.len(),
    ensures
        out@ == v@.skip(n as int),
{
    let out = slice_text(v, n, v.len());
    proof {
        assert(v@.subrange(n as int, v@.len() as int) =~= v@.skip(n as int));
    }
    out
}

/// Without the white space in front.
pub open spec fn trim_front(s: Seq<char>) -> Seq<char>
    decreases s.len(),
{
    if s.len() > 0 && is_white(s[0]) {
        trim_front(s.drop_first())
    } else {
        s
    }
}

/// Without the white space behind.
pub open spec fn trim_back(s: Seq<char>) -> Seq<char>
    decreases s.len(),
{
    if s.len() > 0 && is_white(s.last()) {
        trim_back(s.drop_last())
    } else {
        s
    }
}

/// Without the white space around it.
pub open spec fn trimmed(s: Seq<char>) -> Seq<char> {
    trim_back(trim_front(s))
}

/// Without every character `c` behind.
pub open spec fn cut_back(s: Seq<char>, c: char) -> Seq<char>
    decreases s.len(),
{
    if s.len() > 0 && s.last() == c {
        cut_back(s.drop_last(), c)
    } else {
        s
    }
}

/// Without every character `c` in front.
pub open spec fn cut_front(s: Seq<char>, c: char) -> Seq<char>
    decreases s.len(),
{
    if s.len() > 0 && s[0] == c {
        cut_front(s.drop_first(), c)
    } else {
        s
    }
}

/// The text without the white space around it.
pub fn trim(s: &str) -> (out: String)
    ensures
        out@ == trimmed(s@),
{
    let v = chars_of(s);
    let mut i: usize = 0;
    proof {
        assert(v@.skip(0) =~= v@);
    }
    while i < v.len() && char_is_white(v[i])
        invariant
            i <= v@.len(),
            trim_front(v@) == trim_front(v@.skip(i as int)),
        decreases v.len() - i,
    {
        proof {
            assert(v@.skip(i as int).drop_first() =~= v@.skip(i + 1));
        }
        i = i + 1;
    }
    let ghost rest = v@.skip(i as int);
    let mut j: usize = v.len();
    proof {
        assert(v@.subrange(i as int, j as int) =~= rest);
    }
    while i < j && char_is_white(v[j - 1])
        invariant
            i <= j <= v@.len(),
            trim_back(rest) == trim_back(v@.subrange(i as int, j as int)),
        decreases j,
    {
        proof {
            assert(v@.subrange(i as int, j as int).drop_last() =~= v@.subrange(i as int, j - 1));
        }
        j = j - 1;
    }
    slice_text(&v, i, j)
}

/// The text without the characters `c` behind it.
pub fn trim_end(s: &str, c: char) -> (out: String)
    ensures
        out@ == cut_back(s@, c),
{
    let v = chars_of(s);
    let mut j: usize = v.len();
    proof {
        assert(v@.take(j as int) =~= v@);
    }
    while 0 < j && v[j - 1] == c
        invariant
            j <= v@.len(),
            cut_back(v@, c) == cut_back(v@.take(j as int), c),
        decreases j,
    {
        proof {
            assert(v@.take(j as int).drop_last() =~= v@.take(j - 1));
        }
        j = j - 1;
    }
    let out = slice_text(&v, 0, j);
    proof {
        assert(v@.subrange(0, j as int) =~= v@.take(j as int));
    }
    out
}

/// The text without the characters `c` in front of it.
pub fn trim_start(s: &str, c: char) -> (out: String)
    ensures
        out@ == cut_front(s@, c),
{
    let v = chars_of(s);
    let mut i: usize = 0;
    proof {
        assert(v@.skip(0) =~= v@);
    }
    while i < v.len() && v[i] == c
        invariant
            i <= v@.len(),
            cut_front(v@, c) == cut_front(v@.skip(i as int), c),
        decreases v.len() - i,
    {
        proof {
            assert(v@.skip(i as int).drop_first() =~= v@.skip(i + 1));
        }
        i = i + 1;
    }
    skip_text(&v, i)
}

/// The position of the first `c`, or the length where there is none.
pub open spec fn first_of(s: Seq<char>, c: char) -> int
    decreases s.len(),
{
    if s.len() == 0 || s[0] == c {
        0
    } else {
        1 + first_of(s.drop_first(), c)
    }
}

pub proof fn lemma_first_of(s: Seq<char>, c: char)
    ensures
        0 <= first_of(s, c) <= s.len(),
        first_of(s, c) < s.len() ==> s[first_of(s, c)] == c,
        forall|k: int| 0 <= k < first_of(s, c) ==> s[k] != c,
    decreases s.len(),
{
    if s.len() > 0 && s[0] != c {
        let r = s.drop_first();
        lemma_first_of(r, c);
        assert forall|k: int| 0 <= k < first_of(s, c) implies s[k] != c by {
            if k > 0 {
                assert(s[k] == r[k - 1]);
            }
        }
    }
}

pub proof fn lemma_first_of_is(s: Seq<char>, c: char, n: int)
    requires
        0 <= n <= s.len(),
        n < s.len() ==> s[n] == c,
        forall|k: int| 0 <= k < n ==> s[k] != c,
    ensures
        first_of(s, c) == n,
{
    lemma_first_of(s, c);
}

/// The position of the first `c`, if there is one.
pub fn find_char(v: &Vec<char>, c: char) -> (r: Option<usize>)
    ensures
        match r {
            Some(i) => i == first_of(v@, c) && i < v.len(),
            None => first_of(v@, c) == v@.len(),
        },
{
    let mut i: usize = 0;
    while i < v.len()
        invariant
            i <= v@.len(),
            forall|k: int| 0 <= k < i ==> v@[k] != c,
        decreases v.len() - i,
    {
        if v[i] == c {
            proof {
                lemma_first_of_is(v@, c, i as int);
            }
            return Some(i);
        }
        i = i + 1;
    }
    proof {
        lemma_first_of_is(v@, c, i as int);
    }
    None
}

/// What stands behind the last `c`: the whole text where there is none.
pub open spec fn after_last(s: Seq<char>, c: char) -> Seq<char>
    decreases s.len(),
{
    if s.len() == 0 || s.last() == c {
        Seq::empty()
    } else {
        after_last(s.drop_last(), c).push(s.last())
    }
}

/// What stands behind the last `/` of a path or address.
pub open spec fn base_name(s: Seq<char>) -> Seq<char> {
    after_last(s, '/')
}

/// The part of `s` behind its last `/`.
pub fn basename(s: &str) -> (out: String)
    ensures
        out@ == base_name(s@),
{
    let v = chars_of(s);
    let mut i: usize = 0;
    let mut start: usize = 0;
    while i < v.len()
        invariant
            start <= i <= v@.len(),
            after_last(v@.take(i as int), '/') == v@.subrange(start as int, i as int),
        decreases v.len() - i,
    {
        let c = v[i];
        i = i + 1;
        proof {
            assert(v@.take(i as int).drop_last() =~= v@.take(i - 1));
        }
        if c == '/' {
            start = i;
            proof {
                assert(v@.subrange(start as int, i as int) =~= Seq::<char>::empty());
            }
        } else {
            proof {
                assert(v@.subrange(start as int, i as int) =~= v@.subrange(
                    start as int,
                    i - 1,
                ).push(c));
            }
        }
    }
    proof {
        assert(v@.take(i as int) =~= v@);
    }
    slice_text(&v, start, i)
}

// ---------------------------------------------------------------------------
// Splitting, joining and replacing
// ---------------------------------------------------------------------------

/// The pieces between the characters of `seps`, empty ones included.
pub open spec fn pieces(s: Seq<char>, seps: Seq<char>) -> Seq<Seq<char>>
    decreases s.len(),
{
    if s.len() == 0 {
        seq![Seq::empty()]
    } else {
        let before = pieces(s.drop_last(), seps);
        if seps.contains(s.last()) {
            before.push(Seq::empty())
        } else {
            before.drop_last().push(before.last().push(s.last()))
        }
    }
}

pub proof fn lemma_pieces_nonempty(s: Seq<char>, seps: Seq<char>)
    ensures
        pieces(s, seps).len() >= 1,
    decreases s.len(),
{
    if s.len() > 0 {
        lemma_pieces_nonempty(s.drop_last(), seps);
    }
}

/// The views of a list of texts.
pub open spec fn texts(v: Seq<String>) -> Seq<Seq<char>> {
    v.map_values(|s: String| s@)
}

fn chars_have(v: &Vec<char>, c: char) -> (b: bool)
    ensures
        b == v@.contains(c),
{
    let mut i: usize = 0;
    while i < v.len()
        invariant
            i <= v@.len(),
            forall|k: int| 0 <= k < i ==> v@[k] != c,
        decreases v.len() - i,
    {
        if v[i] == c {
            return true;
        }
        i = i + 1;
    }
    false
}

/// Cuts `s` at every character of `seps`.
pub fn split(s: &str, seps: &str) -> (out: Vec<String>)
    ensures
        texts(out@) == pieces(s@, seps@),
        out@.len() >= 1,
{
    let v = chars_of(s);
    let cuts = chars_of(seps);
    let mut out: Vec<String> = Vec::new();
    let mut start: usize = 0;
    let mut i: usize = 0;
    let ghost mut done: Seq<Seq<char>> = Seq::empty();
    proof {
        assert(v@.subrange(0, 0) =~= Seq::<char>::empty());
        assert(v@.take(0) =~= Seq::<char>::empty());
        assert(done.push(Seq::<char>::empty()) =~= seq![Seq::<char>::empty()]);
    }
    while i < v.len()
        invariant
            start <= i <= v@.len(),
            cuts@ == seps@,
            texts(out@) =~= done,
            pieces(v@.take(i as int), seps@) == done.push(v@.subrange(start as int, i as int)),
        decreases v.len() - i,
    {
        let c = v[i];
        proof {
            assert(v@.take(i + 1).drop_last() =~= v@.take(i as int));
            assert(v@.take(i + 1).last() == c);
        }
        if chars_have(&cuts, c) {
            let piece = slice_text(&v, start, i);
            out.push(piece);
            proof {
                done = done.push(v@.subrange(start as int, i as int));
                assert(texts(out@) =~= done);
                assert(v@.subrange(i + 1, i + 1) =~= Seq::<char>::empty());
            }
            start = i + 1;
        } else {
            proof {
                let p = done.push(v@.subrange(start as int, i as int));
                assert(p.drop_last() =~= done);
                assert(p.last().push(c) =~= v@.subrange(start as int, i + 1));
            }
        }
        i = i + 1;
    }
    let piece = slice_text(&v, start, i);
    out.push(piece);
    proof {
        assert(v@.take(i as int) =~= v@);
        assert(texts(out@) =~= done.push(v@.subrange(start as int, i as int)));
    }
    out
}

/// The texts in a row with `sep` between neighbours.
pub open spec fn joined(v: Seq<Seq<char>>, sep: Seq<char>) -> Seq<char>
    decreases v.len(),
{
    if v.len() == 0 {
        Seq::empty()
    } else if v.len() == 1 {
        v[0]
    } else {
        joined(v.drop_last(), sep) + sep + v.last()
    }
}

/// Puts `sep` between the texts.
pub fn join(v: &Vec<String>, sep: &str) -> (out: String)
    ensures
        out@ == joined(texts(v@), sep@),
{
    let mut out: String = String::new();
    let mut i: usize = 0;
    let ghost all = texts(v@);
    while i < v.len()
        invariant
            i <= v@.len(),
            all == texts(v@),
            out@ == joined(all.take(i as int), sep@),
        decreases v.len() - i,
    {
        if i > 0 {
            out.append(sep);
        }
        out.append(v[i].as_str());
        proof {
            let now = all.take(i + 1);
            assert(now.drop_last() =~= all.take(i as int));
            assert(now.last() == v@[i as int]@);
            if i == 0 {
                assert(all.take(0).len() == 0);
                assert(out@ =~= v@[0]@);
            }
        }
        i = i + 1;
    }
    proof {
        assert(all.take(i as int) =~= all);
    }
    out
}

/// Every `from` becomes `to`.
pub open spec fn swapped_char(s: Seq<char>, from: char, to: char) -> Seq<char> {
    s.map_values(|c: char| if c == from { to } else { c })
}

/// The text with every `from` replaced by `to`.
pub fn replace_char(s: &str, from: char, to: char) -> (out: String)
    ensures
        out@ == swapped_char(s@, from, to),
{
    let v = chars_of(s);
    let mut out: String = String::new();
    let mut i: usize = 0;
    while i < v.len()
        invariant
            i <= v@.len(),
            out@ =~= swapped_char(v@, from, to).take(i as int),
        decreases v.len() - i,
    {
        if v[i] == from {
            out.push(to);
        } else {
            out.push(v[i]);
        }
        i = i + 1;
    }
    proof {
        assert(swapped_char(v@, from, to).take(i as int) =~= swapped_char(v@, from, to));
    }
    out
}

/// Every `from` found on the way from front to back becomes `to`.
pub open spec fn replaced(s: Seq<char>, from: Seq<char>, to: Seq<char>) -> Seq<char>
    decreases s.len(),
{
    if from.len() == 0 || s.len() == 0 {
        s
    } else if begins(s, from) {
        to + replaced(s.skip(from.len() as int), from, to)
    } else {
        seq![s[0]] + replaced(s.drop_first(), from, to)
    }
}

/// The text with every `from` replaced by `to`.
pub fn replace(s: &str, from: &str, to: &str) -> (out: String)
    requires
        from@.len() > 0,
    ensures
        out@ == replaced(s@, from@, to@),
{
    let v = chars_of(s);
    let w = chars_of(from);
    let mut out: String = String::new();
    let mut i: usize = 0;
    proof {
        assert(v@.skip(0) =~= v@);
        assert(Seq::<char>::empty() + replaced(v@, from@, to@) =~= replaced(v@, from@, to@));
    }
    while i < v.len()
        invariant
            i <= v@.len(),
            w@ == from@,
            w@.len() > 0,
            replaced(v@, from@, to@) == out@ + replaced(v@.skip(i as int), from@, to@),
        decreases v.len() - i,
    {
        let ghost rest = v@.skip(i as int);
        let ghost before = out@;
        if matches_at(&v, &w, i) {
            out.append(to);
            proof {
                assert(rest.subrange(0, w@.len() as int) =~= v@.subrange(i as int, i + w@.len()));
                assert(rest.skip(w@.len() as int) =~= v@.skip(i + w@.len()));
                assert(before + (to@ + replaced(v@.skip(i + w@.len()), from@, to@)) =~= (before
                    + to@) + replaced(v@.skip(i + w@.len()), from@, to@));
            }
            i = i + w.len();
        } else {
            out.push(v[i]);
            proof {
                if begins(rest, from@) {
                    assert(rest.subrange(0, w@.len() as int) =~= v@.subrange(
                        i as int,
                        i + w@.len(),
                    ));
                }
                assert(rest.drop_first() =~= v@.skip(i + 1));
                assert(before + (seq![rest[0]] + replaced(v@.skip(i + 1), from@, to@)) =~= out@
                    + replaced(v@.skip(i + 1), from@, to@));
            }
            i = i + 1;
        }
    }
    proof {
        assert(v@.skip(i as int).len() == 0);
        assert(out@ + v@.skip(i as int) =~= out@);
    }
    out
}

/// The text with its ASCII capitals lowered.
pub fn to_lower_ascii(s: &str) -> (out: String)
    ensures
        out@ == lower_ascii(s@),
{
    let v = chars_of(s);
    let mut out: String = String::new();
    let mut i: usize = 0;
    while i < v.len()
        invariant
            i <= v@.len(),
            out@ =~= lower_ascii(v@).take(i as int),
        decreases v.len() - i,
    {
        out.push(char_to_lower(v[i]));
        i = i + 1;
    }
    proof {
        assert(lower_ascii(v@).take(i as int) =~= lower_ascii(v@));
    }
    out
}

/// The texts differ at most in the case of ASCII letters.
pub fn same_ignoring_case(a: &str, b: &str) -> (r: bool)
    ensures
        r == (lower_ascii(a@) == lower_ascii(b@)),
{
    let x = to_lower_ascii(a);
    let y = to_lower_ascii(b);
    x == y
}

// ---------------------------------------------------------------------------
// Numbers
// ---------------------------------------------------------------------------

/// The digit that writes `d`.
pub open spec fn digit_char(d: nat) -> char {
    (48 + d) as char
}

/// A number in decimal, without leading zeros.
pub open spec fn decimal(n: nat) -> Seq<char>
    decreases n,
{
    if n < 10 {
        seq![digit_char(n)]
    } else {
        decimal(n / 10).push(digit_char(n % 10))
    }
}

/// The number in decimal.
pub fn decimal_text(n: u64) -> (out: String)
    ensures
        out@ == decimal(n as nat),
    decreases n,
{
    let d: u8 = (n % 10) as u8;
    let c: char = (48u8 + d) as char;
    if n < 10 {
        let mut out: String = String::new();
        out.push(c);
        out
    } else {
        let mut out: String = decimal_text(n / 10);
        out.push(c);
        out
    }
}

/// Are all characters ASCII digits?
pub open spec fn all_digits(s: Seq<char>) -> bool {
    forall|i: int| 0 <= i < s.len() ==> is_digit(#[trigger] s[i])
}

/// Is every character of `s` an ASCII digit?
pub fn only_digits(s: &str) -> (b: bool)
    ensures
        b == all_digits(s@),
{
    let v = chars_of(s);
    let mut i: usize = 0;
    while i < v.len()
        invariant
            i <= v@.len(),
            v@ == s@,
            forall|k: int| 0 <= k < i ==> is_digit(#[trigger] v@[k]),
        decreases v.len() - i,
    {
        if !char_is_digit(v[i]) {
            proof {
                assert(!is_digit(s@[i as int]));
            }
            return false;
        }
        i = i + 1;
    }
    true
}

/// The number that a row of digits writes.
pub open spec fn number(s: Seq<char>) -> nat
    decreases s.len(),
{
    if s.len() == 0 {
        0
    } else {
        number(s.drop_last()) * 10 + ((s.last() as nat - 48) as nat)
    }
}

pub proof fn lemma_number_grows(s: Seq<char>, k: int)
    requires
        0 <= k <= s.len(),
    ensures
        number(s.take(k)) <= number(s),
    decreases s.len() - k,
{
    if k < s.len() {
        lemma_number_grows(s, k + 1);
        assert(s.take(k + 1).drop_last() =~= s.take(k));
    } else {
        assert(s.take(k) =~= s);
    }
}

/// The text of a count: an optional `+`, then digits of a number that fits.
pub open spec fn count_text(s: Seq<char>) -> Option<nat> {
    let d = if s.len() > 0 && s[0] == '+' { s.drop_first() } else { s };
    if d.len() > 0 && all_digits(d) && number(d) <= usize::MAX {
        Some(number(d))
    } else {
        None
    }
}

/// The count that the text writes, where it writes one.
pub fn parse_count(s: &str) -> (r: Option<usize>)
    ensures
        match r {
            Some(n) => count_text(s@) == Some(n as nat),
            None => count_text(s@) is None,
        },
{
    let mut v = chars_of(s);
    if v.len() > 0 && v[0] == '+' {
        v.remove(0);
        proof {
            assert(v@ =~= s@.drop_first());
        }
    }
    if v.len() == 0 {
        return None;
    }
    let mut n: usize = 0;
    let mut i: usize = 0;
    while i < v.len()
        invariant
            i <= v@.len(),
            n == number(v@.take(i as int)),
            forall|k: int| 0 <= k < i ==> is_digit(#[trigger] v@[k]),
            v@ == if s@.len() > 0 && s@[0] == '+' { s@.drop_first() } else { s@ },
        decreases v.len() - i,
    {
        let c = v[i];
        if !char_is_digit(c) {
            return None;
        }
        let d: usize = (c as u32 - 48) as usize;
        proof {
            assert(v@.take(i + 1).drop_last() =~= v@.take(i as int));
            lemma_number_grows(v@, i + 1);
        }
        match n.checked_mul(10) {
            Some(m) => match m.checked_add(d) {
                Some(t) => {
                    n = t;
                },
                None => {
                    return None;
                },
            },
            None => {
                return None;
            },
        }
        i = i + 1;
    }
    proof {
        assert(v@.take(i as int) =~= v@);
    }
    Some(n)
}

// ---------------------------------------------------------------------------
// What holds of them
// ---------------------------------------------------------------------------

/// What is cut off behind is nothing but that character, and all of it.
pub proof fn law_cut_back(s: Seq<char>, c: char)
    ensures
        cut_back(s, c).len() <= s.len(),
        cut_back(s, c) == s.take(cut_back(s, c).len() as int),
        forall|i: int| cut_back(s, c).len() <= i < s.len() ==> #[trigger] s[i] == c,
        cut_back(s, c).len() > 0 ==> cut_back(s, c).last() != c,
    decreases s.len(),
{
    if s.len() > 0 && s.last() == c {
        let t = s.drop_last();
        law_cut_back(t, c);
        let n = cut_back(s, c).len() as int;
        assert(t.take(n) =~= s.take(n));
        assert forall|i: int| n <= i < s.len() implies #[trigger] s[i] == c by {
            if i < t.len() {
                assert(t[i] == c);
            }
        }
    } else {
        assert(s.take(s.len() as int) =~= s);
    }
}

/// What is cut off in front is nothing but that character, and all of it.
pub proof fn law_cut_front(s: Seq<char>, c: char)
    ensures
        cut_front(s, c).len() <= s.len(),
        cut_front(s, c) == s.skip(s.len() - cut_front(s, c).len()),
        forall|i: int| 0 <= i < s.len() - cut_front(s, c).len() ==> #[trigger] s[i] == c,
        cut_front(s, c).len() > 0 ==> cut_front(s, c)[0] != c,
    decreases s.len(),
{
    if s.len() > 0 && s[0] == c {
        let t = s.drop_first();
        law_cut_front(t, c);
        let n = s.len() - cut_front(s, c).len();
        assert(t.skip(n - 1) =~= s.skip(n));
        assert forall|i: int| 0 <= i < n implies #[trigger] s[i] == c by {
            if i > 0 {
                assert(t[i - 1] == c);
            }
        }
    } else {
        assert(s.skip(0) =~= s);
    }
}

proof fn lemma_trim_front(s: Seq<char>) -> (n: int)
    ensures
        0 <= n <= s.len(),
        trim_front(s) == s.skip(n),
        forall|i: int| 0 <= i < n ==> is_white(#[trigger] s[i]),
        trim_front(s).len() > 0 ==> !is_white(trim_front(s)[0]),
    decreases s.len(),
{
    if s.len() > 0 && is_white(s[0]) {
        let t = s.drop_first();
        let n = lemma_trim_front(t);
        assert(t.skip(n) =~= s.skip(n + 1));
        assert forall|i: int| 0 <= i < n + 1 implies is_white(#[trigger] s[i]) by {
            if i > 0 {
                assert(is_white(t[i - 1]));
            }
        }
        n + 1
    } else {
        assert(s.skip(0) =~= s);
        0
    }
}

proof fn lemma_trim_back(s: Seq<char>) -> (n: int)
    ensures
        0 <= n <= s.len(),
        trim_back(s) == s.take(n),
        forall|i: int| n <= i < s.len() ==> is_white(#[trigger] s[i]),
        n > 0 ==> !is_white(s[n - 1]),
    decreases s.len(),
{
    if s.len() > 0 && is_white(s.last()) {
        let t = s.drop_last();
        let n = lemma_trim_back(t);
        assert(t.take(n) =~= s.take(n));
        assert forall|i: int| n <= i < s.len() implies is_white(#[trigger] s[i]) by {
            if i < t.len() {
                assert(is_white(t[i]));
            }
        }
        n
    } else {
        assert(s.take(s.len() as int) =~= s);
        s.len() as int
    }
}

/// What is trimmed off a text is white space, and all of it that stands at its
/// ends: `n` characters in front, and what stands from `m` on.
pub proof fn law_trimmed(s: Seq<char>) -> (r: (int, int))
    ensures
        0 <= r.0 <= r.1 <= s.len(),
        trimmed(s) == s.subrange(r.0, r.1),
        forall|i: int| 0 <= i < r.0 ==> is_white(#[trigger] s[i]),
        forall|i: int| r.1 <= i < s.len() ==> is_white(#[trigger] s[i]),
        r.0 < r.1 ==> !is_white(s[r.0]) && !is_white(s[r.1 - 1]),
{
    let n = lemma_trim_front(s);
    let f = s.skip(n);
    let m = lemma_trim_back(f);
    assert(f.take(m) =~= s.subrange(n, n + m));
    assert forall|i: int| n + m <= i < s.len() implies is_white(#[trigger] s[i]) by {
        assert(is_white(f[i - n]));
    }
    if m > 0 {
        assert(f[0] == s[n]);
        assert(f[m - 1] == s[n + m - 1]);
    }
    (n, n + m)
}

/// The base name of a path ends it, holds no `/`, and has one before it unless it
/// is the whole path.
pub proof fn law_base_name(s: Seq<char>)
    ensures
        base_name(s).len() <= s.len(),
        base_name(s) == s.skip(s.len() - base_name(s).len()),
        !base_name(s).contains('/'),
        base_name(s).len() < s.len() ==> s[s.len() - base_name(s).len() - 1] == '/',
    decreases s.len(),
{
    if s.len() == 0 || s.last() == '/' {
        assert(s.skip(s.len() as int) =~= Seq::empty());
    } else {
        let t = s.drop_last();
        law_base_name(t);
        let b = base_name(t);
        assert(base_name(s) =~= s.skip(s.len() - base_name(s).len()));
        if base_name(s).contains('/') {
            let k = base_name(s).index_of('/');
            if k < b.len() {
                assert(b[k] == '/');
            }
        }
        if b.len() < t.len() {
            assert(t[t.len() - b.len() - 1] == s[s.len() - base_name(s).len() - 1]);
        }
    }
}

/// The pieces of two texts with a separator between them are the pieces of the
/// first and behind them those of the second.
pub proof fn law_pieces_of_both(a: Seq<char>, c: char, b: Seq<char>)
    ensures
        pieces(a + seq![c] + b, seq![c]) == pieces(a, seq![c]) + pieces(b, seq![c]),
    decreases b.len(),
{
    let w = a + seq![c] + b;
    if b.len() == 0 {
        assert(w.drop_last() =~= a);
        assert(seq![c].contains(c)) by {
            assert(seq![c][0] == c);
        }
        assert(w.last() == c);
        assert(pieces(w, seq![c]) =~= pieces(a, seq![c]) + seq![Seq::empty()]);
    } else {
        let t = b.drop_last();
        law_pieces_of_both(a, c, t);
        lemma_pieces_nonempty(t, seq![c]);
        assert(w.drop_last() =~= a + seq![c] + t);
        assert(w.last() == b.last());
        let pa = pieces(a, seq![c]);
        let pt = pieces(t, seq![c]);
        assert((pa + pt).last() == pt.last());
        assert((pa + pt).drop_last() =~= pa + pt.drop_last());
        assert(pieces(w, seq![c]) =~= pa + pieces(b, seq![c]));
    }
}

/// The pieces of a text with the separator between them are the text again, and no
/// piece holds the separator.
pub proof fn law_pieces_put_together(s: Seq<char>, c: char)
    ensures
        joined(pieces(s, seq![c]), seq![c]) == s,
        forall|i: int|
            0 <= i < pieces(s, seq![c]).len() ==> !(#[trigger] pieces(s, seq![c])[i]).contains(c),
    decreases s.len(),
{
    let p = pieces(s, seq![c]);
    if s.len() > 0 {
        let t = s.drop_last();
        law_pieces_put_together(t, c);
        lemma_pieces_nonempty(t, seq![c]);
        let b = pieces(t, seq![c]);
        let x = s.last();
        assert(seq![c].contains(x) <==> x == c) by {
            assert(seq![c][0] == c);
        }
        if x == c {
            assert(p.drop_last() =~= b);
            assert(joined(p, seq![c]) =~= s);
        } else {
            let last = b.last().push(x);
            assert(p.drop_last() =~= b.drop_last());
            if b.len() == 1 {
                assert(joined(p, seq![c]) =~= s);
            } else {
                assert(joined(b, seq![c]) == joined(b.drop_last(), seq![c]) + seq![c] + b.last());
                assert(joined(p, seq![c]) =~= joined(b, seq![c]).push(x));
                assert(t.push(x) =~= s);
            }
            assert forall|i: int| 0 <= i < p.len() implies !(#[trigger] p[i]).contains(c) by {
                if i < p.len() - 1 {
                    assert(p[i] == b[i]);
                } else if p[i].contains(c) {
                    let k = p[i].index_of(c);
                    assert(b.last() == b[b.len() - 1]);
                    if k < b.last().len() {
                        assert(b.last()[k] == c);
                    }
                }
            }
        }
    }
}

proof fn lemma_joined_both(a: Seq<Seq<char>>, b: Seq<Seq<char>>, sep: Seq<char>)
    requires
        a.len() > 0,
        b.len() > 0,
    ensures
        joined(a + b, sep) == joined(a, sep) + sep + joined(b, sep),
    decreases b.len(),
{
    if b.len() == 1 {
        assert((a + b).drop_last() =~= a);
    } else {
        lemma_joined_both(a, b.drop_last(), sep);
        assert((a + b).drop_last() =~= a + b.drop_last());
        assert((a + b).last() == b.last());
        assert(joined(a + b, sep) =~= joined(a, sep) + sep + joined(b, sep));
    }
}

/// A text is another one, or begins with it and a separator, exactly where the
/// pieces of the other are, one by one, the first of its own.
pub proof fn law_front_pieces(s: Seq<char>, front: Seq<char>, c: char)
    ensures
        (s == front || begins(s, front + seq![c])) <==> pieces(front, seq![c]).len() <= pieces(
            s,
            seq![c],
        ).len() && forall|i: int|
            0 <= i < pieces(front, seq![c]).len() ==> #[trigger] pieces(front, seq![c])[i]
                == pieces(s, seq![c])[i],
{
    let w = pieces(front, seq![c]);
    let h = pieces(s, seq![c]);
    lemma_pieces_nonempty(front, seq![c]);
    if begins(s, front + seq![c]) {
        let rest = s.skip(front.len() as int + 1);
        assert(s =~= front + seq![c] + rest);
        law_pieces_of_both(front, c, rest);
    }
    if w.len() <= h.len() && forall|i: int| 0 <= i < w.len() ==> #[trigger] w[i] == h[i] {
        law_pieces_put_together(front, c);
        law_pieces_put_together(s, c);
        let rest = h.skip(w.len() as int);
        if rest.len() == 0 {
            assert(h =~= w);
        } else {
            assert(h =~= w + rest);
            lemma_joined_both(w, rest, seq![c]);
            let n = front.len() + 1;
            assert(s.subrange(0, n as int) =~= front + seq![c]);
            assert(found_at(s, front + seq![c], 0));
        }
    }
}

/// A number in decimal reads as that number.
pub proof fn law_decimal_reads_back(n: nat)
    ensures
        all_digits(decimal(n)),
        number(decimal(n)) == n,
        n > 0 ==> decimal(n)[0] != '0',
    decreases n,
{
    reveal_with_fuel(number, 2);
    let s = decimal(n);
    if n >= 10 {
        law_decimal_reads_back(n / 10);
        assert(s.drop_last() =~= decimal(n / 10));
        assert(decimal(n / 10).len() > 0);
    } else {
        assert(s.drop_last() =~= Seq::empty());
    }
}

/// Swapping a character for another one leaves every other character in its place.
pub proof fn law_swapped_in_place(s: Seq<char>, from: char, to: char)
    ensures
        swapped_char(s, from, to).len() == s.len(),
        forall|i: int|
            0 <= i < s.len() && s[i] == from ==> #[trigger] swapped_char(s, from, to)[i] == to,
        forall|i: int|
            0 <= i < s.len() && s[i] != from ==> #[trigger] swapped_char(s, from, to)[i] == s[i],
        from != to ==> !swapped_char(s, from, to).contains(from),
{
}

/// A text of small letters and digits is in small letters already.
pub proof fn law_small_letters_stay(s: Seq<char>)
    requires
        forall|i: int| 0 <= i < s.len() ==> ('a' <= #[trigger] s[i] <= 'z') || is_digit(s[i]),
    ensures
        lowercase(s) == s,
        lower_ascii(s) == s,
{
    assert(all_ascii(s));
    assert(lower_ascii(s) =~= s);
}

} // verus!
