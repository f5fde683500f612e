//! Empty directories that are cleared away.

use vstd::prelude::*;
use crate::order::{lemma_lt_total, lemma_sorted, lt, sort_texts, sorted};
use crate::text::{begins, cat, list_has, same, starts_with, texts};

verus! {

/// The path lies below the directory.
pub open spec fn lies_below(path: Seq<char>, dir: Seq<char>) -> bool {
    begins(path, dir + "/"@)
}

/// One of the files lies below the directory.
pub open spec fn holds_file(dir: Seq<char>, files: Seq<Seq<char>>) -> bool {
    exists|i: int| 0 <= i < files.len() && lies_below(#[trigger] files[i], dir)
}

/// The path is the directory or lies below it.
pub open spec fn at_or_below(path: Seq<char>, dir: Seq<char>) -> bool {
    path == dir || lies_below(path, dir)
}

/// The directory is left alone for the sake of `stop_at`, which lies in the tree
/// of `dir`.
pub open spec fn spared(x: Seq<char>, dir: Seq<char>, stop_at: Seq<char>) -> bool {
    at_or_below(stop_at, dir) && (at_or_below(x, stop_at) || lies_below(stop_at, x))
}

/// Every directory below this one is on the way to `dir`, or in its tree.
pub open spec fn only_way(x: Seq<char>, dir: Seq<char>, dirs: Seq<Seq<char>>) -> bool {
    forall|i: int|
        0 <= i < dirs.len() && lies_below(#[trigger] dirs[i], x) ==> at_or_below(dirs[i], dir)
            || lies_below(dir, dirs[i])
}

/// The directory goes: no file lies below it, and it is in the tree of `dir`, or
/// above it, below `stop_at`, and left empty when that tree is gone.
pub open spec fn goes(
    x: Seq<char>,
    dir: Seq<char>,
    stop_at: Seq<char>,
    dirs: Seq<Seq<char>>,
    files: Seq<Seq<char>>,
) -> bool {
    !holds_file(x, files) && !spared(x, dir, stop_at) && (at_or_below(x, dir) || (lies_below(
        dir,
        x,
    ) && lies_below(x, stop_at) && only_way(x, dir, dirs)))
}

/// Those of the first `n` directories that go.
pub open spec fn going(
    n: nat,
    dir: Seq<char>,
    stop_at: Seq<char>,
    dirs: Seq<Seq<char>>,
    files: Seq<Seq<char>>,
) -> Seq<Seq<char>>
    decreases n,
{
    if n == 0 {
        Seq::empty()
    } else {
        let before = going((n - 1) as nat, dir, stop_at, dirs, files);
        if goes(dirs[n - 1], dir, stop_at, dirs, files) {
            before.push(dirs[n - 1])
        } else {
            before
        }
    }
}

/// The directories that go, in the order in which they go; none where there is no
/// such directory.
pub open spec fn pruned(
    dir: Seq<char>,
    stop_at: Seq<char>,
    dirs: Seq<Seq<char>>,
    files: Seq<Seq<char>>,
) -> Seq<Seq<char>> {
    if dirs.contains(dir) {
        sorted(going(dirs.len(), dir, stop_at, dirs, files)).reverse()
    } else {
        Seq::empty()
    }
}

/// A directory comes before what lies below it.
pub proof fn lemma_below_comes_later(path: Seq<char>, dir: Seq<char>)
    requires
        lies_below(path, dir),
    ensures
        lt(dir, path),
    decreases dir.len(),
{
    reveal_strlit("/");
    let front = dir + "/"@;
    assert(path.subrange(0, front.len() as int) == front);
    if dir.len() > 0 {
        assert(path[0] == path.subrange(0, front.len() as int)[0]);
        assert(front[0] == dir[0]);
        let p = path.drop_first();
        let d = dir.drop_first();
        assert(d + "/"@ =~= front.drop_first());
        assert(p.subrange(0, (d + "/"@).len() as int) =~= path.subrange(
            0,
            front.len() as int,
        ).drop_first());
        lemma_below_comes_later(p, d);
    }
}

proof fn lemma_below_below(a: Seq<char>, b: Seq<char>, c: Seq<char>)
    requires
        lies_below(a, b),
        lies_below(b, c),
    ensures
        lies_below(a, c),
{
    let fb = b + "/"@;
    let fc = c + "/"@;
    assert(a.subrange(0, fb.len() as int) == fb);
    assert(b.subrange(0, fc.len() as int) == fc);
    assert(a.subrange(0, fc.len() as int) =~= fc) by {
        assert forall|k: int| 0 <= k < fc.len() implies a[k] == fc[k] by {
            assert(a[k] == a.subrange(0, fb.len() as int)[k]);
            assert(fb[k] == b[k]);
            assert(b[k] == b.subrange(0, fc.len() as int)[k]);
        }
    }
}

proof fn lemma_going(
    n: nat,
    dir: Seq<char>,
    stop_at: Seq<char>,
    dirs: Seq<Seq<char>>,
    files: Seq<Seq<char>>,
    d: Seq<char>,
)
    requires
        n <= dirs.len(),
    ensures
        going(n, dir, stop_at, dirs, files).contains(d) <==> goes(d, dir, stop_at, dirs, files)
            && exists|i: int| 0 <= i < n && #[trigger] dirs[i] == d,
    decreases n,
{
    if n > 0 {
        let m = (n - 1) as nat;
        lemma_going(m, dir, stop_at, dirs, files, d);
        let b = going(m, dir, stop_at, dirs, files);
        let g = going(n, dir, stop_at, dirs, files);
        if b.contains(d) {
            let k = b.index_of(d);
            assert(g[k] == d);
        }
        if g.contains(d) {
            let k = g.index_of(d);
            if k < b.len() {
                assert(b[k] == d);
            } else {
                assert(dirs[n - 1] == d);
            }
        }
        if dirs[n - 1] == d && goes(d, dir, stop_at, dirs, files) {
            assert(g[b.len() as int] == d);
        }
    }
}

proof fn lemma_pruned(
    dir: Seq<char>,
    stop_at: Seq<char>,
    dirs: Seq<Seq<char>>,
    files: Seq<Seq<char>>,
    d: Seq<char>,
)
    ensures
        pruned(dir, stop_at, dirs, files).contains(d) <==> dirs.contains(dir) && dirs.contains(d)
            && goes(d, dir, stop_at, dirs, files),
{
    broadcast use vstd::seq_lib::group_to_multiset_ensures;

    let e = going(dirs.len(), dir, stop_at, dirs, files);
    let s = sorted(e);
    lemma_sorted(e);
    lemma_going(dirs.len(), dir, stop_at, dirs, files, d);
    assert(s.contains(d) <==> s.to_multiset().count(d) > 0);
    assert(e.contains(d) <==> e.to_multiset().count(d) > 0);
    if dirs.contains(dir) {
        let p = pruned(dir, stop_at, dirs, files);
        if p.contains(d) {
            let k = p.index_of(d);
            assert(s[s.len() - 1 - k] == d);
        }
        if s.contains(d) {
            let k = s.index_of(d);
            assert(p[s.len() - 1 - k] == d);
        }
        if dirs.contains(d) {
            let k = dirs.index_of(d);
            assert(dirs[k] == d);
        }
    }
}

/// A directory goes after every directory below it.
pub proof fn law_children_go_first(
    dir: Seq<char>,
    stop_at: Seq<char>,
    dirs: Seq<Seq<char>>,
    files: Seq<Seq<char>>,
    i: int,
    j: int,
)
    requires
        0 <= i < pruned(dir, stop_at, dirs, files).len(),
        0 <= j < pruned(dir, stop_at, dirs, files).len(),
        lies_below(pruned(dir, stop_at, dirs, files)[i], pruned(dir, stop_at, dirs, files)[j]),
    ensures
        i < j,
{
    let p = pruned(dir, stop_at, dirs, files);
    let e = going(dirs.len(), dir, stop_at, dirs, files);
    let s = sorted(e);
    let n = s.len();
    lemma_sorted(e);
    lemma_below_comes_later(p[i], p[j]);
    let a = n - 1 - i;
    let b = n - 1 - j;
    assert(lt(s[b], s[a]));
    lemma_lt_total(s[b], s[a]);
    if i > j {
        assert(!lt(s[b], s[a]));
    } else if i == j {
        crate::order::lemma_lt_irreflexive(s[a]);
    }
}

/// No directory goes that a file lies below, the directory at which clearing
/// stops stays, and a directory that goes is empty by then: all that lies below
/// it goes too.
pub proof fn law_no_file_is_lost(
    dir: Seq<char>,
    stop_at: Seq<char>,
    dirs: Seq<Seq<char>>,
    files: Seq<Seq<char>>,
    d: Seq<char>,
)
    requires
        lies_below(dir, stop_at),
        pruned(dir, stop_at, dirs, files).contains(d),
    ensures
        dirs.contains(d),
        !holds_file(d, files),
        lies_below(d, stop_at),
        forall|e: Seq<char>|
            #[trigger] dirs.contains(e) && lies_below(e, d) ==> pruned(
                dir,
                stop_at,
                dirs,
                files,
            ).contains(e),
{
    lemma_pruned(dir, stop_at, dirs, files, d);
    if d != dir && lies_below(d, dir) {
        lemma_below_below(d, dir, stop_at);
    }
    assert forall|e: Seq<char>| #[trigger] dirs.contains(e) && lies_below(e, d) implies pruned(
        dir,
        stop_at,
        dirs,
        files,
    ).contains(e) by {
        lemma_below_goes(dir, stop_at, dirs, files, d, e);
        lemma_pruned(dir, stop_at, dirs, files, e);
    }
}

proof fn lemma_below_goes(
    dir: Seq<char>,
    stop_at: Seq<char>,
    dirs: Seq<Seq<char>>,
    files: Seq<Seq<char>>,
    d: Seq<char>,
    e: Seq<char>,
)
    requires
        lies_below(dir, stop_at),
        goes(d, dir, stop_at, dirs, files),
        dirs.contains(e),
        lies_below(e, d),
    ensures
        goes(e, dir, stop_at, dirs, files),
{
    if holds_file(e, files) {
        let k = choose|k: int| 0 <= k < files.len() && lies_below(#[trigger] files[k], e);
        lemma_below_below(files[k], e, d);
        assert(holds_file(d, files));
    }
    assert(!at_or_below(stop_at, dir)) by {
        reveal_strlit("/");
        assert(dir.len() > stop_at.len());
    }
    let i = dirs.index_of(e);
    assert(dirs[i] == e);
    if at_or_below(d, dir) {
        if d != dir {
            lemma_below_below(e, d, dir);
        }
    } else if !at_or_below(e, dir) {
        lemma_below_below(e, d, stop_at);
        assert forall|k: int| 0 <= k < dirs.len() && lies_below(#[trigger] dirs[k], e) implies
            at_or_below(dirs[k], dir) || lies_below(dir, dirs[k]) by {
            lemma_below_below(dirs[k], e, d);
        }
    }
}

/// A directory below the one at which clearing stops goes, with all below it,
/// where no file lies below it, and so does every directory above it that is left
/// empty by that.
pub proof fn law_empty_directories_go(
    dir: Seq<char>,
    stop_at: Seq<char>,
    dirs: Seq<Seq<char>>,
    files: Seq<Seq<char>>,
)
    requires
        dirs.contains(dir),
        lies_below(dir, stop_at),
        !holds_file(dir, files),
    ensures
        pruned(dir, stop_at, dirs, files).contains(dir),
        forall|x: Seq<char>|
            #[trigger] dirs.contains(x) && lies_below(x, dir) ==> pruned(
                dir,
                stop_at,
                dirs,
                files,
            ).contains(x),
        forall|x: Seq<char>|
            #[trigger] dirs.contains(x) && lies_below(dir, x) && lies_below(x, stop_at)
                && !holds_file(x, files) && only_way(x, dir, dirs) ==> pruned(
                dir,
                stop_at,
                dirs,
                files,
            ).contains(x),
{
    assert(!at_or_below(stop_at, dir)) by {
        reveal_strlit("/");
        assert(dir.len() > stop_at.len());
    }
    lemma_pruned(dir, stop_at, dirs, files, dir);
    law_no_file_is_lost(dir, stop_at, dirs, files, dir);
    assert forall|x: Seq<char>|
        #[trigger] dirs.contains(x) && lies_below(dir, x) && lies_below(x, stop_at)
            && !holds_file(x, files) && only_way(x, dir, dirs) implies pruned(
        dir,
        stop_at,
        dirs,
        files,
    ).contains(x) by {
        lemma_pruned(dir, stop_at, dirs, files, x);
    }
}

fn is_below(path: &str, dir: &str) -> (b: bool)
    ensures
        b == lies_below(path@, dir@),
{
    let front = cat(dir, "/");
    starts_with(path, front.as_str())
}

fn is_at_or_below(path: &str, dir: &str) -> (b: bool)
    ensures
        b == at_or_below(path@, dir@),
{
    same(path, dir) || is_below(path, dir)
}

fn has_file(dir: &str, files: &Vec<String>) -> (b: bool)
    ensures
        b == holds_file(dir@, texts(files@)),
{
    let front = cat(dir, "/");
    let ghost fs = texts(files@);
    let mut i: usize = 0;
    while i < files.len()
        invariant
            i <= files@.len(),
            fs == texts(files@),
            front@ == dir@ + "/"@,
            forall|k: int| 0 <= k < i ==> !lies_below(#[trigger] fs[k], dir@),
        decreases files.len() - i,
    {
        proof {
            assert(fs[i as int] == files@[i as int]@);
        }
        if starts_with(files[i].as_str(), front.as_str()) {
            return true;
        }
        i = i + 1;
    }
    false
}

fn is_only_way(x: &str, dir: &str, dirs: &Vec<String>) -> (b: bool)
    ensures
        b == only_way(x@, dir@, texts(dirs@)),
{
    let ghost ds = texts(dirs@);
    let mut i: usize = 0;
    while i < dirs.len()
        invariant
            i <= dirs@.len(),
            ds == texts(dirs@),
            forall|k: int|
                0 <= k < i && lies_below(#[trigger] ds[k], x@) ==> at_or_below(ds[k], dir@)
                    || lies_below(dir@, ds[k]),
        decreases dirs.len() - i,
    {
        let d: &str = dirs[i].as_str();
        proof {
            assert(ds[i as int] == d@);
        }
        if is_below(d, x) && !is_at_or_below(d, dir) && !is_below(dir, d) {
            return false;
        }
        i = i + 1;
    }
    true
}

fn does_go(
    x: &str,
    dir: &str,
    stop_at: &str,
    dirs: &Vec<String>,
    files: &Vec<String>,
) -> (b: bool)
    ensures
        b == goes(x@, dir@, stop_at@, texts(dirs@), texts(files@)),
{
    if has_file(x, files) {
        return false;
    }
    if is_at_or_below(stop_at, dir) && (is_at_or_below(x, stop_at) || is_below(stop_at, x)) {
        return false;
    }
    is_at_or_below(x, dir) || (is_below(dir, x) && is_below(x, stop_at) && is_only_way(
        x,
        dir,
        dirs,
    ))
}

/// The directories that are cleared away with `dir`, in the order in which they
/// go: those in its tree below which there is no file, a directory after those
/// below it, and the directories above it that are left empty, up to but without
/// `stop_at`. `dirs` and `files` are the directories and the files below
/// `stop_at`.
pub fn prune_empty_tree(
    dir: &str,
    stop_at: &str,
    dirs: &Vec<String>,
    files: &Vec<String>,
) -> (out: Vec<String>)
    ensures
        texts(out@) == pruned(dir@, stop_at@, texts(dirs@), texts(files@)),
{
    let ghost ds = texts(dirs@);
    let ghost fs = texts(files@);
    proof {
        crate::deploy::lemma_lists(dirs@, dir@);
    }
    if !list_has(dirs, dir) {
        let none: Vec<String> = Vec::new();
        proof {
            assert(texts(none@) =~= Seq::<Seq<char>>::empty());
        }
        return none;
    }
    let mut empty: Vec<String> = Vec::new();
    let mut i: usize = 0;
    proof {
        assert(texts(empty@) =~= Seq::<Seq<char>>::empty());
    }
    while i < dirs.len()
        invariant
            i <= dirs@.len(),
            ds == texts(dirs@),
            fs == texts(files@),
            texts(empty@) == going(i as nat, dir@, stop_at@, ds, fs),
        decreases dirs.len() - i,
    {
        proof {
            assert(ds[i as int] == dirs@[i as int]@);
        }
        if does_go(dirs[i].as_str(), dir, stop_at, dirs, files) {
            let ghost before = empty@;
            empty.push(dirs[i].clone());
            proof {
                assert(texts(empty@) =~= texts(before).push(dirs@[i as int]@));
            }
        }
        i = i + 1;
    }
    let in_order = sort_texts(&empty);
    let ghost s = texts(in_order@);
    let mut out: Vec<String> = Vec::new();
    let mut j: usize = in_order.len();
    proof {
        assert(texts(out@) =~= s.reverse().take(0));
    }
    while j > 0
        invariant
            j <= in_order@.len(),
            s == texts(in_order@),
            texts(out@) =~= s.reverse().take(s.len() - j),
        decreases j,
    {
        j = j - 1;
        let ghost before = out@;
        out.push(in_order[j].clone());
        proof {
            assert(texts(out@) =~= texts(before).push(s[j as int]));
            assert(s.reverse()[s.len() - 1 - j] == s[j as int]);
            assert(s.reverse().take(s.len() - j) =~= s.reverse().take(s.len() - j - 1).push(
                s[j as int],
            ));
        }
    }
    proof {
        assert(s.reverse().take(s.len() as int) =~= s.reverse());
    }
    out
}

/// Only the directory that is cleared away, what lies below it and what it lies
/// below can go: its neighbours stay.
pub proof fn law_neighbours_stay(
    dir: Seq<char>,
    stop_at: Seq<char>,
    dirs: Seq<Seq<char>>,
    files: Seq<Seq<char>>,
    d: Seq<char>,
)
    requires
        pruned(dir, stop_at, dirs, files).contains(d),
    ensures
        d == dir || begins(d, dir + "/"@) || begins(dir, d + "/"@),
        begins(dir, d + "/"@) ==> begins(d, stop_at + "/"@),
        forall|i: int| 0 <= i < files.len() ==> !begins(#[trigger] files[i], d + "/"@),
{
    lemma_pruned(dir, stop_at, dirs, files, d);
    assert forall|i: int| 0 <= i < files.len() implies !begins(
        #[trigger] files[i],
        d + "/"@,
    ) by {
        assert(!lies_below(files[i], d));
    }
    if begins(dir, d + "/"@) && at_or_below(d, dir) {
        if d == dir {
            assert((d + "/"@).len() <= d.len());
            reveal_strlit("/");
        } else {
            lemma_below_comes_later(dir, d);
            lemma_below_comes_later(d, dir);
            crate::order::lemma_lt_transitive(d, dir, d);
            crate::order::lemma_lt_irreflexive(d);
        }
    }
}

/// Where clearing is to stop within the tree that is cleared away, it does: the
/// directory at which it stops, all below it and all above it stay.
pub proof fn law_clearing_stops(
    dir: Seq<char>,
    stop_at: Seq<char>,
    dirs: Seq<Seq<char>>,
    files: Seq<Seq<char>>,
    d: Seq<char>,
)
    requires
        pruned(dir, stop_at, dirs, files).contains(d),
        stop_at == dir || begins(stop_at, dir + "/"@),
    ensures
        d != stop_at,
        !begins(d, stop_at + "/"@),
        !begins(stop_at, d + "/"@),
{
    lemma_pruned(dir, stop_at, dirs, files, d);
}

} // verus!
