//! Entries of archives: where they may go, and how much they may unpack to.

use vstd::prelude::*;
use crate::error::{fails, other, Result};
use crate::text::{
    begins, cat, chars_of, contains, join, joined, occurs, own, pieces, replace_char, same, split,
    starts_with, swapped_char, texts,
};

verus! {

/// One archive may unpack to this many bytes.
pub const MAX_TOTAL_UNCOMPRESSED: u64 = 1073741824;

/// What `Debug` of std writes for a text with characters that it may escape.
pub uninterp spec fn debug_text(s: Seq<char>) -> Seq<char>;

/// Only printable ASCII characters, neither a quote nor a backslash.
pub open spec fn plain(s: Seq<char>) -> bool {
    forall|i: int|
        0 <= i < s.len() ==> 32 <= (#[trigger] s[i]) as u32 <= 126 && s[i] != '"' && s[i] != '\\'
}

/// A text in quotes.
pub open spec fn quoted(s: Seq<char>) -> Seq<char> {
    if plain(s) {
        "\""@ + s + "\""@
    } else {
        debug_text(s)
    }
}

/// `Debug` of std for `str`: quotes around a text of printable ASCII characters
/// without quotes and backslashes; of any other text the result is a function of
/// the text, with escapes that std chooses.
#[verifier::external_body]
pub(crate) fn quote(s: &str) -> (out: String)
    ensures
        out@ == if plain(s@) {
            "\""@ + s@ + "\""@
        } else {
            debug_text(s@)
        },
{
    format!("{:?}", s)
}

/// A drive stands in front, by the look of it: an ASCII character, or the sign of
/// the kelvin, whose small letter is `k`, and a colon.
pub open spec fn drive_mark(s: Seq<char>) -> bool {
    s.len() > 1 && s[1] == ':' && ((s[0] as u32) < 128 || s[0] == '\u{212A}')
}

/// The letter of a drive and a colon stand in front.
pub open spec fn drive_letter(s: Seq<char>) -> bool {
    s.len() > 1 && s[1] == ':' && ('a' <= s[0] <= 'z' || 'A' <= s[0] <= 'Z')
}

/// The path starts at a root: with a separator or with a drive.
pub open spec fn is_absolute(name: Seq<char>) -> bool {
    ||| begins(name, "/"@)
    ||| begins(name, "\\"@)
    ||| occurs(name, ":\\"@)
    ||| drive_mark(name)
}

/// The parts of a path once `.` and `..` are followed; none where `..` leads
/// above the start.
pub open spec fn resolved_parts(parts: Seq<Seq<char>>) -> Option<Seq<Seq<char>>>
    decreases parts.len(),
{
    if parts.len() == 0 {
        Some(Seq::empty())
    } else {
        match resolved_parts(parts.drop_last()) {
            None => None,
            Some(stack) => if parts.last() == ""@ || parts.last() == "."@ {
                Some(stack)
            } else if parts.last() == ".."@ {
                if stack.len() == 0 {
                    None
                } else {
                    Some(stack.drop_last())
                }
            } else {
                Some(stack.push(parts.last()))
            },
        }
    }
}

/// The parts of the path of an entry.
pub open spec fn entry_parts(name: Seq<char>) -> Option<Seq<Seq<char>>> {
    resolved_parts(pieces(swapped_char(name, '\\', '/'), "/"@))
}

/// What the path of an entry comes to.
pub open spec fn entry_path(r: Result<Option<String>>, name: Seq<char>) -> bool {
    if name.len() == 0 {
        r matches Ok(None)
    } else if is_absolute(name) {
        fails(r, "archive contains absolute path: "@ + quoted(name))
    } else {
        match entry_parts(name) {
            None => fails(r, "archive path escapes extraction root: "@ + quoted(name)),
            Some(p) => if p.len() == 0 {
                r matches Ok(None)
            } else if drive_letter(p[0]) {
                fails(r, "archive contains absolute path: "@ + quoted(name))
            } else {
                r matches Ok(Some(t)) && t@ == joined(p, "/"@)
            },
        }
    }
}

/// A part that names a file or a directory below the current one.
pub open spec fn proper_part(p: Seq<char>) -> bool {
    p != ""@ && p != "."@ && p != ".."@ && !p.contains('/') && !p.contains('\\')
}

/// The parts lead to something below the start: each names something below, and
/// the first is no drive.
pub open spec fn stays_inside(parts: Seq<Seq<char>>) -> bool {
    &&& parts.len() > 0
    &&& !drive_letter(parts[0])
    &&& forall|i: int| 0 <= i < parts.len() ==> proper_part(#[trigger] parts[i])
}

proof fn lemma_pieces_clean(s: Seq<char>, i: int)
    requires
        0 <= i < pieces(s, "/"@).len(),
    ensures
        !pieces(s, "/"@)[i].contains('/'),
        forall|c: char| #[trigger] pieces(s, "/"@)[i].contains(c) ==> s.contains(c),
    decreases s.len(),
{
    reveal_strlit("/");
    if s.len() > 0 {
        let t = s.drop_last();
        let b = pieces(t, "/"@);
        let n = pieces(s, "/"@);
        crate::text::lemma_pieces_nonempty(t, "/"@);
        let c0 = s.last();
        assert("/"@[0] == '/');
        if i < b.len() - 1 || "/"@.contains(c0) && i < b.len() {
            lemma_pieces_clean(t, i);
            assert(n[i] == b[i]);
            assert forall|c: char| #[trigger] n[i].contains(c) implies s.contains(c) by {
                assert(b[i].contains(c));
                let k = t.index_of(c);
                assert(s[k] == c);
            }
        } else if !"/"@.contains(c0) {
            lemma_pieces_clean(t, b.len() - 1);
            let p = b.last();
            assert(n[i] == p.push(c0));
            assert(c0 != '/') by {
                if c0 == '/' {
                    assert("/"@[0] == c0);
                }
            }
            assert forall|c: char| #[trigger] n[i].contains(c) implies s.contains(c) && c
                != '/' by {
                let k = n[i].index_of(c);
                if k < p.len() {
                    assert(p[k] == c);
                    assert(b[b.len() - 1].contains(c));
                    let m = t.index_of(c);
                    assert(s[m] == c);
                } else {
                    assert(s[s.len() - 1] == c);
                }
            }
        }
    }
}

proof fn lemma_resolved_proper(parts: Seq<Seq<char>>)
    requires
        forall|i: int|
            0 <= i < parts.len() ==> !(#[trigger] parts[i]).contains('/') && !parts[i].contains(
                '\\',
            ),
    ensures
        resolved_parts(parts) matches Some(p) ==> forall|i: int|
            0 <= i < p.len() ==> proper_part(#[trigger] p[i]),
    decreases parts.len(),
{
    if parts.len() > 0 {
        let t = parts.drop_last();
        assert(forall|i: int| 0 <= i < t.len() ==> #[trigger] t[i] == parts[i]);
        lemma_resolved_proper(t);
        assert(parts[parts.len() - 1] == parts.last());
    }
}

/// The parts that a path is resolved to are proper ones.
proof fn lemma_entry_parts(name: Seq<char>)
    ensures
        entry_parts(name) matches Some(p) ==> forall|i: int|
            0 <= i < p.len() ==> proper_part(#[trigger] p[i]),
{
    let s = swapped_char(name, '\\', '/');
    let ps = pieces(s, "/"@);
    assert(!s.contains('\\')) by {
        if s.contains('\\') {
            let k = s.index_of('\\');
            assert(s[k] == '\\');
        }
    }
    assert forall|i: int| 0 <= i < ps.len() implies !(#[trigger] ps[i]).contains('/')
        && !ps[i].contains('\\') by {
        lemma_pieces_clean(s, i);
    }
    lemma_resolved_proper(ps);
}

/// An entry that is accepted stays inside: its path is made of parts that each
/// name something below, none is empty, `.` or `..`, none holds a separator, and
/// the first is no drive.
pub proof fn law_entries_stay_inside(r: Result<Option<String>>, name: Seq<char>)
    requires
        entry_path(r, name),
        r matches Ok(Some(_)),
    ensures
        entry_parts(name) is Some,
        stays_inside(entry_parts(name)->0),
        r->Ok_0->0@ == joined(entry_parts(name)->0, "/"@),
{
    lemma_entry_parts(name);
}

/// Parts that name something.
pub open spec fn names_in(parts: Seq<Seq<char>>) -> nat
    decreases parts.len(),
{
    if parts.len() == 0 {
        0
    } else {
        let p = parts.last();
        names_in(parts.drop_last()) + (if p == ""@ || p == "."@ || p == ".."@ {
            0nat
        } else {
            1
        })
    }
}

/// Parts that lead one level up.
pub open spec fn ups_in(parts: Seq<Seq<char>>) -> nat
    decreases parts.len(),
{
    if parts.len() == 0 {
        0
    } else {
        ups_in(parts.drop_last()) + (if parts.last() == ".."@ {
            1nat
        } else {
            0
        })
    }
}

/// Somewhere on the way more parts led up than down.
pub open spec fn leads_above(parts: Seq<Seq<char>>) -> bool {
    exists|n: int|
        0 <= n <= parts.len() && ups_in(#[trigger] parts.take(n)) > names_in(parts.take(n))
}

proof fn lemma_leads_above(parts: Seq<Seq<char>>)
    ensures
        resolved_parts(parts) is None <==> leads_above(parts),
        resolved_parts(parts) matches Some(p) ==> p.len() + ups_in(parts) == names_in(parts),
    decreases parts.len(),
{
    reveal_strlit("");
    reveal_strlit(".");
    reveal_strlit("..");
    assert(""@.len() == 0 && "."@.len() == 1 && ".."@.len() == 2);
    if parts.len() == 0 {
        assert(parts.take(0) =~= parts);
    } else {
        let t = parts.drop_last();
        lemma_leads_above(t);
        assert(parts.take(parts.len() as int) =~= parts);
        if leads_above(t) {
            let n = choose|n: int|
                0 <= n <= t.len() && ups_in(#[trigger] t.take(n)) > names_in(t.take(n));
            assert(parts.take(n) =~= t.take(n));
            assert(leads_above(parts));
        } else if leads_above(parts) {
            let n = choose|n: int|
                0 <= n <= parts.len() && ups_in(#[trigger] parts.take(n)) > names_in(
                    parts.take(n),
                );
            if n < parts.len() {
                assert(parts.take(n) =~= t.take(n));
                assert(false);
            }
        }
        if resolved_parts(t) is Some && resolved_parts(parts) is None {
            assert(ups_in(parts.take(parts.len() as int)) > names_in(
                parts.take(parts.len() as int),
            ));
        }
    }
}

/// The parts in which the path of an entry is written.
pub open spec fn written_parts(name: Seq<char>) -> Seq<Seq<char>> {
    pieces(swapped_char(name, '\\', '/'), "/"@)
}

/// An entry is refused exactly where its path is absolute, leads above the start
/// on the way, or leads to a drive; without a colon in it exactly where it begins
/// with a separator or leads above the start. Of the others nothing is left
/// exactly where as many parts lead up as down.
pub proof fn law_entries_refused(r: Result<Option<String>>, name: Seq<char>)
    requires
        entry_path(r, name),
    ensures
        r is Err <==> is_absolute(name) || leads_above(written_parts(name)) || (entry_parts(
            name,
        ) matches Some(p) && p.len() > 0 && drive_letter(p[0])),
        !name.contains(':') ==> (r is Err <==> begins(name, "/"@) || begins(name, "\\"@)
            || leads_above(written_parts(name))),
        r is Ok ==> (r->Ok_0 is None <==> names_in(written_parts(name)) == ups_in(
            written_parts(name),
        )),
{
    let s = swapped_char(name, '\\', '/');
    lemma_leads_above(written_parts(name));
    if name.len() == 0 {
        reveal_strlit("/");
        reveal_strlit("\\");
        reveal_strlit(":\\");
        assert(s =~= Seq::<char>::empty());
        assert(written_parts(name) =~= seq![Seq::<char>::empty()]);
        assert(written_parts(name).drop_last() =~= Seq::<Seq<char>>::empty());
        reveal_strlit("");
        assert(written_parts(name).last() =~= ""@);
        assert(resolved_parts(written_parts(name).drop_last()) == Some(
            Seq::<Seq<char>>::empty(),
        ));
    }
    if !name.contains(':') {
        reveal_strlit(":\\");
        if occurs(name, ":\\"@) {
            let at = choose|at: int| #[trigger] crate::text::found_at(name, ":\\"@, at);
            assert(name.subrange(at, at + 2)[0] == ':');
            assert(name[at] == ':');
        }
        if drive_mark(name) {
            assert(name[1] == ':');
        }
        if entry_parts(name) is Some {
            let p = entry_parts(name)->0;
            if p.len() > 0 && drive_letter(p[0]) {
                lemma_resolved_from(written_parts(name), 0);
                let k = written_parts(name).index_of(p[0]);
                lemma_pieces_clean(s, k);
                assert(p[0][1] == ':');
                assert(written_parts(name)[k].contains(':'));
                let m = s.index_of(':');
                assert(s[m] == ':');
                assert(name[m] == ':');
            }
        }
    }
}

/// What is left of the parts was among them.
proof fn lemma_resolved_from(parts: Seq<Seq<char>>, i: int)
    requires
        resolved_parts(parts) is Some,
        0 <= i < resolved_parts(parts)->0.len(),
    ensures
        parts.contains(resolved_parts(parts)->0[i]),
    decreases parts.len(),
{
    if parts.len() > 0 {
        let t = parts.drop_last();
        let before = resolved_parts(t)->0;
        let now = resolved_parts(parts)->0;
        if i < before.len() {
            assert(now[i] == before[i]);
            lemma_resolved_from(t, i);
            let k = t.index_of(before[i]);
            assert(parts[k] == now[i]);
        } else {
            assert(parts[parts.len() - 1] == now[i]);
        }
    }
}

/// Proper parts are resolved to themselves.
proof fn lemma_proper_stay(parts: Seq<Seq<char>>)
    requires
        forall|i: int| 0 <= i < parts.len() ==> proper_part(#[trigger] parts[i]),
    ensures
        resolved_parts(parts) == Some(parts),
    decreases parts.len(),
{
    if parts.len() > 0 {
        let t = parts.drop_last();
        assert(forall|i: int| 0 <= i < t.len() ==> #[trigger] t[i] == parts[i]);
        lemma_proper_stay(t);
        assert(proper_part(parts[parts.len() - 1]));
        assert(t.push(parts.last()) =~= parts);
    } else {
        assert(parts =~= Seq::<Seq<char>>::empty());
    }
}

/// A text with no separator behind another one: it lengthens the last piece.
proof fn lemma_pieces_tail(s: Seq<char>, t: Seq<char>)
    requires
        !t.contains('/'),
    ensures
        pieces(s + t, "/"@) == pieces(s, "/"@).drop_last().push(pieces(s, "/"@).last() + t),
    decreases t.len(),
{
    reveal_strlit("/");
    crate::text::lemma_pieces_nonempty(s, "/"@);
    let b = pieces(s, "/"@);
    if t.len() == 0 {
        assert(s + t =~= s);
        assert(b.last() + t =~= b.last());
        assert(b.drop_last().push(b.last()) =~= b);
    } else {
        let r = t.drop_last();
        assert(forall|c: char| r.contains(c) ==> t.contains(c)) by {
            assert forall|c: char| r.contains(c) implies t.contains(c) by {
                let k = r.index_of(c);
                assert(t[k] == c);
            }
        }
        lemma_pieces_tail(s, r);
        assert((s + t).drop_last() =~= s + r);
        assert((s + t).last() == t.last());
        assert(t[t.len() - 1] == t.last());
        assert(!"/"@.contains(t.last())) by {
            if "/"@.contains(t.last()) {
                let k = "/"@.index_of(t.last());
                assert(t.last() == '/');
                assert(t.contains('/'));
            }
        }
        let before = pieces(s + r, "/"@);
        assert(before.drop_last() =~= b.drop_last());
        assert(before.last() == b.last() + r);
        assert((b.last() + r).push(t.last()) =~= b.last() + t);
    }
}

/// Texts without separators, joined by separators, are the pieces again.
proof fn lemma_pieces_joined(parts: Seq<Seq<char>>)
    requires
        parts.len() > 0,
        forall|i: int| 0 <= i < parts.len() ==> !(#[trigger] parts[i]).contains('/'),
    ensures
        pieces(joined(parts, "/"@), "/"@) == parts,
    decreases parts.len(),
{
    reveal_strlit("/");
    let none = Seq::<char>::empty();
    if parts.len() == 1 {
        assert(!parts[0].contains('/'));
        lemma_pieces_tail(none, parts[0]);
        assert(none + parts[0] =~= parts[0]);
        assert(pieces(none, "/"@) =~= seq![none]);
        assert(pieces(parts[0], "/"@) =~= parts);
    } else {
        let t = parts.drop_last();
        assert(forall|i: int| 0 <= i < t.len() ==> #[trigger] t[i] == parts[i]);
        lemma_pieces_joined(t);
        let j = joined(t, "/"@);
        let s = j + "/"@;
        assert(s.drop_last() =~= j);
        assert(s.last() == '/');
        assert("/"@[0] == '/');
        assert("/"@.contains('/'));
        assert(pieces(s, "/"@) == t.push(none));
        assert(parts[parts.len() - 1] == parts.last());
        lemma_pieces_tail(s, parts.last());
        assert(t.push(none).drop_last() =~= t);
        assert(t.push(none).last() + parts.last() =~= parts.last());
        assert(t.push(parts.last()) =~= parts);
    }
}

proof fn lemma_joined_chars(parts: Seq<Seq<char>>, c: char)
    requires
        joined(parts, "/"@).contains(c),
        c != '/',
    ensures
        exists|i: int| 0 <= i < parts.len() && (#[trigger] parts[i]).contains(c),
    decreases parts.len(),
{
    reveal_strlit("/");
    if parts.len() == 1 {
        assert(parts[0].contains(c));
    } else if parts.len() > 1 {
        let t = parts.drop_last();
        let j = joined(t, "/"@);
        let all = joined(parts, "/"@);
        let k = all.index_of(c);
        if k < j.len() {
            assert(j[k] == c);
            lemma_joined_chars(t, c);
            let i = choose|i: int| 0 <= i < t.len() && (#[trigger] t[i]).contains(c);
            assert(parts[i].contains(c));
        } else {
            assert(k > j.len());
            assert(parts.last()[k - j.len() - 1] == c);
            assert(parts[parts.len() - 1].contains(c));
        }
    }
}

proof fn lemma_joined_front(parts: Seq<Seq<char>>)
    requires
        parts.len() > 0,
        parts[0].len() > 0,
    ensures
        joined(parts, "/"@).len() > 0,
        joined(parts, "/"@)[0] == parts[0][0],
    decreases parts.len(),
{
    if parts.len() > 1 {
        lemma_joined_front(parts.drop_last());
    }
}

/// A cleaned path is clean: cleaning it again gives it back. Left out is a path
/// that looks like a drive which is none, such as `1:`.
pub proof fn law_cleaned_paths_are_clean(r: Result<Option<String>>, name: Seq<char>)
    requires
        entry_path(r, name),
        r matches Ok(Some(_)),
        !drive_mark(r->Ok_0->0@),
    ensures
        r->Ok_0->0@.len() > 0,
        r->Ok_0->0@[0] != '/',
        !r->Ok_0->0@.contains('\\'),
        entry_path(r, r->Ok_0->0@),
{
    reveal_strlit("/");
    reveal_strlit("\\");
    reveal_strlit(":\\");
    reveal_strlit("");
    law_entries_stay_inside(r, name);
    let p = entry_parts(name)->0;
    let t = r->Ok_0->0@;
    assert(proper_part(p[0]));
    assert(p[0].len() > 0) by {
        if p[0].len() == 0 {
            assert(p[0] =~= ""@);
        }
    }
    lemma_joined_front(p);
    assert(p[0].contains(p[0][0]));
    if t.contains('\\') {
        lemma_joined_chars(p, '\\');
        let i = choose|i: int| 0 <= i < p.len() && (#[trigger] p[i]).contains('\\');
        assert(proper_part(p[i]));
    }
    if begins(t, "/"@) {
        assert(t.subrange(0, 1)[0] == '/');
    }
    if begins(t, "\\"@) {
        assert(t.subrange(0, 1)[0] == '\\');
    }
    if occurs(t, ":\\"@) {
        let at = choose|at: int| #[trigger] crate::text::found_at(t, ":\\"@, at);
        assert(t.subrange(at, at + 2)[1] == '\\');
        assert(t[at + 1] == '\\');
    }
    assert(swapped_char(t, '\\', '/') =~= t) by {
        assert forall|i: int| 0 <= i < t.len() implies t[i] != '\\' by {
            if t[i] == '\\' {
                assert(t.contains('\\'));
            }
        }
    }
    assert forall|i: int| 0 <= i < p.len() implies !(#[trigger] p[i]).contains('/') by {
        assert(proper_part(p[i]));
    }
    lemma_pieces_joined(p);
    lemma_proper_stay(p);
}

/// The path of an entry below the place where the archive is unpacked: none for
/// an entry that is no file, an error for one that lies outside.
pub fn sanitize_entry(name: &str) -> (r: Result<Option<String>>)
    ensures
        entry_path(r, name@),
{
    if name.is_empty() {
        return Ok(None);
    }
    let cs = chars_of(name);
    let drive: bool = cs.len() > 1 && cs[1] == ':' && ((cs[0] as u32) < 128 || cs[0]
        == '\u{212A}');
    if starts_with(name, "/") || starts_with(name, "\\") || contains(name, ":\\") || drive {
        let q = quote(name);
        return other(cat("archive contains absolute path: ", q.as_str()));
    }
    let normalized = replace_char(name, '\\', '/');
    let parts = split(normalized.as_str(), "/");
    let ghost ps = texts(parts@);
    let mut stack: Vec<String> = Vec::new();
    let mut i: usize = 0;
    proof {
        assert(ps.take(0) =~= Seq::<Seq<char>>::empty());
        assert(texts(stack@) =~= Seq::<Seq<char>>::empty());
    }
    while i < parts.len()
        invariant
            i <= parts@.len(),
            ps == texts(parts@),
            name@.len() > 0,
            !is_absolute(name@),
            ps == pieces(swapped_char(name@, '\\', '/'), "/"@),
            resolved_parts(ps.take(i as int)) == Some(texts(stack@)),
        decreases parts.len() - i,
    {
        let part: &str = parts[i].as_str();
        proof {
            assert(ps.take(i + 1).drop_last() =~= ps.take(i as int));
            assert(ps.take(i + 1).last() == part@);
        }
        if same(part, "") || same(part, ".") {
        } else if same(part, "..") {
            if stack.len() == 0 {
                proof {
                    lemma_escapes(ps, i + 1);
                }
                let q = quote(name);
                return other(cat("archive path escapes extraction root: ", q.as_str()));
            }
            let ghost before = stack@;
            stack.pop();
            proof {
                assert(texts(stack@) =~= texts(before).drop_last());
            }
        } else {
            let ghost before = stack@;
            stack.push(own(part));
            proof {
                assert(texts(stack@) =~= texts(before).push(part@));
            }
        }
        i = i + 1;
    }
    proof {
        assert(ps.take(i as int) =~= ps);
    }
    if stack.len() == 0 {
        return Ok(None);
    }
    let first = chars_of(stack[0].as_str());
    proof {
        assert(texts(stack@)[0] == first@);
    }
    if first.len() > 1 && first[1] == ':' && ('a' <= first[0] && first[0] <= 'z' || 'A'
        <= first[0] && first[0] <= 'Z') {
        let q = quote(name);
        return other(cat("archive contains absolute path: ", q.as_str()));
    }
    Ok(Some(join(&stack, "/")))
}

proof fn lemma_escapes(parts: Seq<Seq<char>>, n: int)
    requires
        0 <= n <= parts.len(),
        resolved_parts(parts.take(n)) is None,
    ensures
        resolved_parts(parts) is None,
    decreases parts.len() - n,
{
    if n < parts.len() {
        assert(parts.take(n + 1).drop_last() =~= parts.take(n));
        lemma_escapes(parts, n + 1);
    } else {
        assert(parts.take(n) =~= parts);
    }
}

/// What is done with one entry of an archive.
#[derive(Debug)]
pub enum Unpack {
    /// Nothing.
    Skip,
    /// The directory is made.
    MakeDir(String),
    /// The file is written; so many bytes were unpacked with it.
    Write { rel: String, total: u64 },
}

/// So many bytes, or as many as can be counted.
pub open spec fn counted(total: u64, size: u64) -> u64 {
    if total + size > u64::MAX {
        u64::MAX
    } else {
        (total + size) as u64
    }
}

/// Decides what is done with an entry, when `total` bytes were unpacked before
/// it.
pub fn extract_entry(total: u64, name: &str, is_dir: bool, size: u64) -> (r: Result<Unpack>)
    ensures
        exists|path: Result<Option<String>>| #[trigger]
            entry_path(path, name@) && match path {
                Err(e) => r == Err::<Unpack, crate::error::ChefError>(e),
                Ok(None) => r matches Ok(Unpack::Skip),
                Ok(Some(p)) => if is_dir {
                    r matches Ok(Unpack::MakeDir(d)) && d@ == p@
                } else if counted(total, size) > MAX_TOTAL_UNCOMPRESSED {
                    fails(r, "archive expands beyond decompression limit"@)
                } else {
                    r matches Ok(Unpack::Write { rel, total: t }) && rel@ == p@ && t == counted(
                        total,
                        size,
                    )
                },
            },
{
    let path = sanitize_entry(name);
    let ghost p0 = path;
    assert(entry_path(p0, name@));
    match path {
        Err(e) => Err(e),
        Ok(None) => Ok(Unpack::Skip),
        Ok(Some(rel)) => {
            if is_dir {
                return Ok(Unpack::MakeDir(rel));
            }
            let t: u64 = total.saturating_add(size);
            if t > MAX_TOTAL_UNCOMPRESSED {
                return other(own("archive expands beyond decompression limit"));
            }
            Ok(Unpack::Write { rel, total: t })
        },
    }
}

/// The parts of a path are followed one by one: a name leads down, `..` takes back
/// the last name, and `.` and nothing lead nowhere.
pub proof fn law_parts_are_followed(parts: Seq<Seq<char>>, p: Seq<char>)
    requires
        resolved_parts(parts) is Some,
        proper_part(p),
    ensures
        resolved_parts(parts.push(p)) == Some(resolved_parts(parts)->0.push(p)),
        resolved_parts(parts.push(p).push(".."@)) == resolved_parts(parts),
        resolved_parts(parts.push("."@)) == resolved_parts(parts),
        resolved_parts(parts.push(""@)) == resolved_parts(parts),
        resolved_parts(parts)->0.len() == 0 ==> resolved_parts(parts.push(".."@)) is None,
{
    reveal_strlit("");
    reveal_strlit(".");
    reveal_strlit("..");
    assert(""@.len() == 0 && "."@.len() == 1 && ".."@.len() == 2);
    let stack = resolved_parts(parts)->0;
    assert(parts.push(p).drop_last() =~= parts);
    assert(parts.push("."@).drop_last() =~= parts);
    assert(parts.push(""@).drop_last() =~= parts);
    assert(parts.push(".."@).drop_last() =~= parts);
    assert(parts.push(p).push(".."@).drop_last() =~= parts.push(p));
    assert(stack.push(p).drop_last() =~= stack);
}

/// Unpacking an archive never writes more than the limit in all, counts every byte
/// that it writes, and takes the path of an entry as it was cleaned; a directory
/// costs nothing.
pub proof fn law_unpacking_is_limited(
    total: u64,
    name: &str,
    is_dir: bool,
    size: u64,
    r: Result<Unpack>,
)
    requires
        call_ensures(extract_entry, (total, name, is_dir, size), r),
    ensures
        r matches Ok(Unpack::Write { rel, total: t }) ==> !is_dir && t == total + size && t <= 1024
            * 1024 * 1024,
        r matches Ok(Unpack::MakeDir(_)) ==> is_dir,
        is_absolute(name@) && name@.len() > 0 ==> r is Err,
        name@.len() > 0 && leads_above(written_parts(name@)) ==> r is Err,
{
    let path = choose|path: Result<Option<String>>| #[trigger]
        entry_path(path, name@) && match path {
            Err(e) => r == Err::<Unpack, crate::error::ChefError>(e),
            Ok(None) => r matches Ok(Unpack::Skip),
            Ok(Some(p)) => if is_dir {
                r matches Ok(Unpack::MakeDir(d)) && d@ == p@
            } else if counted(total, size) > MAX_TOTAL_UNCOMPRESSED {
                fails(r, "archive expands beyond decompression limit"@)
            } else {
                r matches Ok(Unpack::Write { rel, total: t }) && rel@ == p@ && t == counted(
                    total,
                    size,
                )
            },
        };
    law_entries_refused(path, name@);
}

proof fn lemma_joined_second(parts: Seq<Seq<char>>)
    requires
        parts.len() > 0,
        parts[0].len() > 0,
    ensures
        parts[0].len() > 1 ==> joined(parts, "/"@).len() > 1 && joined(parts, "/"@)[1]
            == parts[0][1],
        parts[0].len() == 1 && joined(parts, "/"@).len() > 1 ==> joined(parts, "/"@)[1] == '/',
        joined(parts, "/"@).len() >= parts[0].len(),
        parts.len() == 1 ==> joined(parts, "/"@) == parts[0],
    decreases parts.len(),
{
    reveal_strlit("/");
    if parts.len() > 1 {
        let t = parts.drop_last();
        lemma_joined_second(t);
        assert("/"@[0] == '/');
        lemma_joined_front(t);
        if parts[0].len() == 1 && joined(t, "/"@).len() == 1 {
            assert(joined(parts, "/"@)[1] == "/"@[0]);
        }
    }
}

/// The path that an entry comes to is relative on every system: it begins neither
/// with a separator nor with the letter of a drive and a colon, and no part of it
/// leads up.
pub proof fn law_cleaned_paths_are_relative(r: Result<Option<String>>, name: Seq<char>)
    requires
        entry_path(r, name),
        r matches Ok(Some(_)),
    ensures
        ({
            let t = r->Ok_0->0@;
            &&& t.len() > 0
            &&& t[0] != '/' && t[0] != '\\'
            &&& !(t.len() > 1 && t[1] == ':' && ('a' <= t[0] <= 'z' || 'A' <= t[0] <= 'Z'))
            &&& forall|i: int|
                0 <= i < pieces(t, "/"@).len() ==> #[trigger] pieces(t, "/"@)[i] != ".."@
        }),
{
    reveal_strlit("");
    reveal_strlit("/");
    law_entries_stay_inside(r, name);
    let p = entry_parts(name)->0;
    assert(proper_part(p[0]));
    assert(p[0].len() > 0) by {
        if p[0].len() == 0 {
            assert(p[0] =~= ""@);
        }
    }
    lemma_joined_front(p);
    lemma_joined_second(p);
    assert(p[0].contains(p[0][0]));
    assert forall|i: int| 0 <= i < p.len() implies !(#[trigger] p[i]).contains('/') by {
        assert(proper_part(p[i]));
    }
    lemma_pieces_joined(p);
}

} // verus!
