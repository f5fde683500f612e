//! Which files of a recorded install are still there, and which records are
//! stale.

use vstd::prelude::*;
use crate::deploy::{is_there, look};
use crate::resolution::pairs;
use crate::state::{file_views, installs_at, Install, ManagedFile, ManagedView, StateFile};
use crate::strmap::StrMap;
use crate::text::{same, texts};
use crate::undo::Found;

verus! {

/// What became of the files of a recorded install.
#[derive(Debug)]
pub struct InstallCheck {
    /// Paths of files that are where they were put.
    pub present: Vec<String>,
    /// Paths of files that are not.
    pub missing: Vec<String>,
    /// Missing files that were found elsewhere: the path, and where.
    pub moved: Vec<(String, String)>,
}

/// The paths where something is, or where nothing is.
pub open spec fn paths_with(
    files: Seq<ManagedView>,
    seen: Map<Seq<char>, Found>,
    there: bool,
) -> Seq<Seq<char>>
    decreases files.len(),
{
    if files.len() == 0 {
        Seq::empty()
    } else {
        let before = paths_with(files.drop_last(), seen, there);
        if there == !(look(seen, files.last().path) is Nothing) {
            before.push(files.last().path)
        } else {
            before
        }
    }
}

/// The digest that is recorded for a path, by the last record of it.
pub open spec fn recorded_digest(files: Seq<ManagedView>, path: Seq<char>) -> Option<Seq<char>>
    decreases files.len(),
{
    if files.len() == 0 {
        None
    } else if files.last().path == path {
        Some(files.last().sha256)
    } else {
        recorded_digest(files.drop_last(), path)
    }
}

/// The first of the files in the game directory with this digest.
pub open spec fn with_digest(root: Seq<(String, String)>, digest: Seq<char>, from: int) -> Option<
    Seq<char>,
>
    decreases root.len() - from,
{
    if from >= root.len() {
        None
    } else if root[from].1@ == digest {
        Some(root[from].0@)
    } else {
        with_digest(root, digest, from + 1)
    }
}

/// The missing files that were found elsewhere.
pub open spec fn found_elsewhere(
    missing: Seq<Seq<char>>,
    files: Seq<ManagedView>,
    root: Seq<(String, String)>,
) -> Seq<(Seq<char>, Seq<char>)>
    decreases missing.len(),
{
    if missing.len() == 0 {
        Seq::empty()
    } else {
        let before = found_elsewhere(missing.drop_last(), files, root);
        match recorded_digest(files, missing.last()) {
            Some(d) => match with_digest(root, d, 0) {
                Some(at) => before.push((missing.last(), at)),
                None => before,
            },
            None => before,
        }
    }
}

/// The paths of the install that are free, whose files were found elsewhere.
pub open spec fn moved_files(
    files: Seq<ManagedView>,
    seen: Map<Seq<char>, Found>,
    root: Seq<(String, String)>,
) -> Seq<(Seq<char>, Seq<char>)> {
    found_elsewhere(paths_with(files, seen, false), files, root)
}

/// Nothing of the install is left, neither in its place nor elsewhere.
pub open spec fn all_gone(
    files: Seq<ManagedView>,
    seen: Map<Seq<char>, Found>,
    root: Seq<(String, String)>,
) -> bool {
    paths_with(files, seen, true).len() == 0 && moved_files(files, seen, root).len() == 0
}

impl Default for InstallCheck {
    fn default() -> (c: InstallCheck)
        ensures
            c.present@.len() == 0 && c.missing@.len() == 0 && c.moved@.len() == 0,
    {
        InstallCheck { present: Vec::new(), missing: Vec::new(), moved: Vec::new() }
    }
}

impl InstallCheck {
    /// Is every file where it was put?
    pub fn all_present(&self) -> (b: bool)
        ensures
            b == (self.missing@.len() == 0),
    {
        self.missing.len() == 0
    }

    /// Is nothing left of the install?
    pub fn fully_gone(&self) -> (b: bool)
        ensures
            b == (self.present@.len() == 0 && self.moved@.len() == 0),
    {
        self.present.len() == 0 && self.moved.len() == 0
    }
}

fn last_digest(files: &Vec<ManagedFile>, path: &str) -> (r: Option<String>)
    ensures
        match r {
            Some(d) => recorded_digest(file_views(files@), path@) == Some(d@),
            None => recorded_digest(file_views(files@), path@) is None,
        },
{
    let ghost fs = file_views(files@);
    let mut n: usize = files.len();
    proof {
        assert(fs.take(n as int) =~= fs);
    }
    while n > 0
        invariant
            n <= files@.len(),
            fs == file_views(files@),
            recorded_digest(fs, path@) == recorded_digest(fs.take(n as int), path@),
        decreases n,
    {
        proof {
            assert(fs.take(n as int).drop_last() =~= fs.take(n - 1));
            assert(fs.take(n as int).last() == files@[n - 1]@);
        }
        if same(files[n - 1].path.as_str(), path) {
            return Some(files[n - 1].sha256.clone());
        }
        n = n - 1;
    }
    None
}

fn first_with(root: &Vec<(String, String)>, digest: &str) -> (r: Option<String>)
    ensures
        match r {
            Some(p) => with_digest(root@, digest@, 0) == Some(p@),
            None => with_digest(root@, digest@, 0) is None,
        },
{
    let mut i: usize = 0;
    while i < root.len()
        invariant
            i <= root@.len(),
            with_digest(root@, digest@, 0) == with_digest(root@, digest@, i as int),
        decreases root.len() - i,
    {
        if same(root[i].1.as_str(), digest) {
            return Some(root[i].0.clone());
        }
        i = i + 1;
    }
    None
}

/// Looks what became of the files of an install. `seen` is what was found at
/// their paths, `root` the files directly in the game directory with their
/// digests.
pub fn check_install(
    inst: &Install,
    seen: &StrMap<Found>,
    root: &Vec<(String, String)>,
) -> (c: InstallCheck)
    ensures
        texts(c.present@) == paths_with(inst@.files, seen@, true),
        texts(c.missing@) == paths_with(inst@.files, seen@, false),
        pairs(c.moved@) == moved_files(inst@.files, seen@, root@),
{
    let ghost fs = inst@.files;
    let mut present: Vec<String> = Vec::new();
    let mut missing: Vec<String> = Vec::new();
    let mut i: usize = 0;
    proof {
        assert(fs.take(0) =~= Seq::<ManagedView>::empty());
        assert(texts(present@) =~= Seq::<Seq<char>>::empty());
    }
    while i < inst.files.len()
        invariant
            i <= inst.files@.len(),
            fs == file_views(inst.files@),
            texts(present@) == paths_with(fs.take(i as int), seen@, true),
            texts(missing@) == paths_with(fs.take(i as int), seen@, false),
        decreases inst.files.len() - i,
    {
        let f = &inst.files[i];
        proof {
            assert(fs.take(i + 1).drop_last() =~= fs.take(i as int));
            assert(fs.take(i + 1).last() == f@);
        }
        if is_there(seen, f.path.as_str()) {
            let ghost before = present@;
            present.push(f.path.clone());
            proof {
                assert(texts(present@) =~= texts(before).push(f.path@));
            }
        } else {
            let ghost before = missing@;
            missing.push(f.path.clone());
            proof {
                assert(texts(missing@) =~= texts(before).push(f.path@));
            }
        }
        i = i + 1;
    }
    proof {
        assert(fs.take(i as int) =~= fs);
    }
    let ghost ms = texts(missing@);
    let mut moved: Vec<(String, String)> = Vec::new();
    let mut j: usize = 0;
    proof {
        assert(ms.take(0) =~= Seq::<Seq<char>>::empty());
        assert(pairs(moved@) =~= Seq::<(Seq<char>, Seq<char>)>::empty());
    }
    while j < missing.len()
        invariant
            j <= missing@.len(),
            ms == texts(missing@),
            fs == file_views(inst.files@),
            pairs(moved@) == found_elsewhere(ms.take(j as int), fs, root@),
        decreases missing.len() - j,
    {
        proof {
            assert(ms.take(j + 1).drop_last() =~= ms.take(j as int));
            assert(ms.take(j + 1).last() == missing@[j as int]@);
        }
        if let Some(d) = last_digest(&inst.files, missing[j].as_str()) {
            if let Some(at) = first_with(root, d.as_str()) {
                let ghost before = moved@;
                let ghost av = at@;
                moved.push((missing[j].clone(), at));
                proof {
                    assert(pairs(moved@) =~= pairs(before).push((missing@[j as int]@, av)));
                }
            }
        }
        j = j + 1;
    }
    proof {
        assert(ms.take(j as int) =~= ms);
    }
    InstallCheck { present, missing, moved }
}

/// Every file of an install is either in its place or missing.
pub proof fn law_present_or_missing(
    files: Seq<ManagedView>,
    seen: Map<Seq<char>, Found>,
    path: Seq<char>,
)
    ensures
        crate::restoring::owns(files, path) <==> paths_with(files, seen, true).contains(path)
            || paths_with(files, seen, false).contains(path),
        !(paths_with(files, seen, true).contains(path) && paths_with(files, seen, false).contains(
            path,
        )),
        paths_with(files, seen, true).len() + paths_with(files, seen, false).len() == files.len(),
    decreases files.len(),
{
    if files.len() > 0 {
        let t = files.drop_last();
        law_present_or_missing(t, seen, path);
        lemma_paths_with(files, seen, true, path);
        lemma_paths_with(files, seen, false, path);
    }
}

proof fn lemma_paths_with(
    files: Seq<ManagedView>,
    seen: Map<Seq<char>, Found>,
    there: bool,
    path: Seq<char>,
)
    ensures
        paths_with(files, seen, there).contains(path) <==> crate::restoring::owns(files, path)
            && there == !(look(seen, path) is Nothing),
    decreases files.len(),
{
    if files.len() > 0 {
        let t = files.drop_last();
        lemma_paths_with(t, seen, there, path);
        let b = paths_with(t, seen, there);
        let n = paths_with(files, seen, there);
        assert(files[files.len() - 1] == files.last());
        if crate::restoring::owns(t, path) {
            let j = choose|j: int| 0 <= j < t.len() && (#[trigger] t[j]).path == path;
            assert(files[j].path == path);
        }
        if crate::restoring::owns(files, path) {
            let j = choose|j: int| 0 <= j < files.len() && (#[trigger] files[j]).path == path;
            if j < t.len() {
                assert(t[j].path == path);
            }
        }
        if b.contains(path) {
            let k = b.index_of(path);
            assert(n[k] == path);
        }
        if n.contains(path) {
            let k = n.index_of(path);
            if k < b.len() {
                assert(b[k] == path);
            }
        }
        if files.last().path == path && there == !(look(seen, path) is Nothing) {
            assert(n[b.len() as int] == path);
        }
    }
}

/// The packages of installs of which nothing is left.
pub open spec fn gone_packages(
    installs: Map<Seq<char>, Install>,
    seen: Map<Seq<char>, Found>,
    root: Seq<(String, String)>,
) -> Set<Seq<char>> {
    Set::new(
        |x: Seq<char>|
            exists|k: Seq<char>| #[trigger]
                installs.dom().contains(k) && installs[k].package@ == x && all_gone(
                    installs[k]@.files,
                    seen,
                    root,
                ),
    )
}

/// Strikes the installs of a game directory of which nothing is left, and the
/// directory with the last of them. Tells whether there was any.
pub fn prune_stale_state(
    st: &mut StateFile,
    key: &str,
    seen: &StrMap<Found>,
    root: &Vec<(String, String)>,
) -> (pruned: bool)
    ensures
        ({
            let before = installs_at(*old(st), key@);
            let gone = gone_packages(before, seen@, root@);
            &&& final(st).schema == old(st).schema
            &&& pruned == exists|x: Seq<char>| gone.contains(x)
            &&& installs_at(*final(st), key@) == before.remove_keys(gone)
            &&& !pruned ==> final(st).dirs@ == old(st).dirs@
            &&& pruned ==> (final(st).dirs@.dom().contains(key@) <==> exists|k: Seq<char>|
                before.remove_keys(gone).dom().contains(k))
            &&& forall|k: Seq<char>|
                k != key@ ==> (#[trigger] final(st).dirs@.dom().contains(k) <==> old(
                    st,
                ).dirs@.dom().contains(k))
            &&& forall|k: Seq<char>|
                k != key@ && old(st).dirs@.dom().contains(k) ==> #[trigger] final(st).dirs@[k]
                    == old(st).dirs@[k]
        }),
{
    let ghost before = installs_at(*st, key@);
    let ghost gone = gone_packages(before, seen@, root@);
    let d = match st.dirs.remove(key) {
        Some(d) => d,
        None => {
            proof {
                assert(gone =~= Set::empty());
                assert(before.remove_keys(gone) =~= before);
                assert(st.dirs@ =~= old(st).dirs@);
            }
            return false;
        },
    };
    let mut d = d;
    let n: usize = d.installs.len();
    let mut names: Vec<String> = Vec::new();
    let mut i: usize = 0;
    let ghost keys = d.installs.keys();
    while i < n
        invariant
            i <= n,
            n == keys.len(),
            keys == d.installs.keys(),
            d.installs@ == before,
            forall|k: Seq<char>| before.dom().contains(k) <==> #[trigger] keys.contains(k),
            gone == gone_packages(before, seen@, root@),
            forall|m: int| 0 <= m < names@.len() ==> gone.contains(#[trigger] names@[m]@),
            forall|m: int|
                0 <= m < i && all_gone(before[#[trigger] keys[m]]@.files, seen@, root@)
                    ==> crate::text::lists(names@, before[keys[m]].package@),
        decreases n - i,
    {
        let inst = d.installs.value_at(i);
        let c = check_install(inst, seen, root);
        proof {
            assert(keys.contains(keys[i as int]));
            assert(texts(c.present@).len() == c.present@.len());
            assert(pairs(c.moved@).len() == c.moved@.len());
        }
        if c.fully_gone() {
            let ghost prior = names@;
            names.push(inst.package.clone());
            proof {
                assert(before.dom().contains(keys[i as int]));
                assert(gone.contains(inst.package@));
                assert(names@[prior.len() as int]@ == inst.package@);
                assert forall|x: Seq<char>| crate::text::lists(prior, x) implies
                    crate::text::lists(names@, x) by {
                    let m = choose|m: int| 0 <= m < prior.len() && #[trigger] prior[m]@ == x;
                    assert(names@[m]@ == x);
                }
            }
        }
        i = i + 1;
    }
    proof {
        assert forall|x: Seq<char>| gone.contains(x) implies crate::text::lists(names@, x) by {
            let k = choose|k: Seq<char>| #[trigger]
                before.dom().contains(k) && before[k].package@ == x && all_gone(
                    before[k]@.files,
                    seen@,
                    root@,
                );
            assert(keys.contains(k));
            let m = keys.index_of(k);
            assert(keys[m] == k);
        }
    }
    if names.len() == 0 {
        proof {
            assert forall|x: Seq<char>| !gone.contains(x) by {
                if gone.contains(x) {
                    assert(crate::text::lists(names@, x));
                }
            }
            assert(gone =~= Set::empty());
            assert(before.remove_keys(gone) =~= before);
        }
        st.put_dir(key, d);
        proof {
            assert(st.dirs@ =~= old(st).dirs@);
        }
        return false;
    }
    proof {
        assert(gone.contains(names@[0]@));
    }
    let mut j: usize = 0;
    proof {
        assert(texts(names@).take(0).to_set() =~= Set::empty());
        assert(before.remove_keys(texts(names@).take(0).to_set()) =~= before);
    }
    while j < names.len()
        invariant
            j <= names@.len(),
            d.installs@ == before.remove_keys(texts(names@).take(j as int).to_set()),
        decreases names.len() - j,
    {
        proof {
            let s = texts(names@);
            let x = names@[j as int]@;
            assert(s.take(j + 1) =~= s.take(j as int).push(x));
            assert forall|k: Seq<char>| s.take(j + 1).to_set().contains(k) <==> s.take(
                j as int,
            ).to_set().contains(k) || k == x by {
                if s.take(j as int).contains(k) {
                    let m = s.take(j as int).index_of(k);
                    assert(s.take(j + 1)[m] == k);
                }
                assert(s.take(j + 1)[j as int] == x);
            }
            assert(before.remove_keys(s.take(j as int).to_set()).remove(x) =~= before.remove_keys(
                s.take(j + 1).to_set(),
            ));
        }
        d.installs.remove(names[j].as_str());
        j = j + 1;
    }
    proof {
        let s = texts(names@);
        assert(s.take(j as int) =~= s);
        assert forall|x: Seq<char>| s.to_set().contains(x) <==> gone.contains(x) by {
            if s.contains(x) {
                let m = s.index_of(x);
                assert(names@[m]@ == x);
            }
            if gone.contains(x) {
                let m = choose|m: int| 0 <= m < names@.len() && #[trigger] names@[m]@ == x;
                assert(s[m] == x);
            }
        }
        assert(s.to_set() =~= gone);
    }
    let ghost left = d.installs@;
    if d.installs.len() > 0 {
        proof {
            assert(d.installs.keys().contains(d.installs.keys()[0]));
            assert(left.dom().contains(d.installs.keys()[0]));
        }
        st.put_dir(key, d);
    } else {
        proof {
            assert forall|k: Seq<char>| !left.dom().contains(k) by {
                if left.dom().contains(k) {
                    assert(d.installs.keys().contains(k));
                }
            }
            assert(left =~= Map::empty());
        }
    }
    true
}

/// Nothing is at the paths of the files, and where a path has been recorded last
/// with a digest, none of the files directly in the game directory has it.
pub open spec fn nothing_left(
    files: Seq<ManagedView>,
    seen: Map<Seq<char>, Found>,
    root: Seq<(String, String)>,
) -> bool {
    &&& forall|i: int| 0 <= i < files.len() ==> look(seen, (#[trigger] files[i]).path) is Nothing
    &&& forall|i: int, k: int|
        0 <= i < files.len() && 0 <= k < root.len() && counts(files, i) ==> (
        #[trigger] root[k]).1@ != (#[trigger] files[i]).sha256
}

/// No later record is about the same path.
pub open spec fn counts(files: Seq<ManagedView>, i: int) -> bool {
    forall|j: int| i < j < files.len() ==> (#[trigger] files[j]).path != files[i].path
}

proof fn lemma_recorded_digest(files: Seq<ManagedView>, path: Seq<char>)
    ensures
        match recorded_digest(files, path) {
            Some(d) => exists|i: int|
                0 <= i < files.len() && (#[trigger] files[i]).path == path && files[i].sha256 == d
                    && counts(files, i),
            None => forall|i: int| 0 <= i < files.len() ==> (#[trigger] files[i]).path != path,
        },
        forall|i: int|
            0 <= i < files.len() && (#[trigger] files[i]).path == path && counts(files, i)
                ==> recorded_digest(files, path) == Some(files[i].sha256),
    decreases files.len(),
{
    if files.len() > 0 {
        let t = files.drop_last();
        let l = files.len() - 1;
        lemma_recorded_digest(t, path);
        assert(files[l] == files.last());
        assert forall|i: int| 0 <= i < l implies #[trigger] files[i] == t[i] by {}
        if files.last().path == path {
            assert(counts(files, l));
        } else {
            assert forall|i: int|
                0 <= i < l && (#[trigger] files[i]).path == path implies counts(files, i)
                == counts(t, i) by {
                if counts(t, i) {
                    assert forall|j: int| i < j < files.len() implies (#[trigger] files[j]).path
                        != files[i].path by {
                        if j < l {
                            assert(t[j] == files[j]);
                        }
                    }
                }
                if counts(files, i) {
                    assert forall|j: int| i < j < t.len() implies (#[trigger] t[j]).path
                        != t[i].path by {
                        assert(files[j] == t[j]);
                    }
                }
            }
            match recorded_digest(t, path) {
                Some(d) => {
                    let i = choose|i: int|
                        0 <= i < t.len() && (#[trigger] t[i]).path == path && t[i].sha256 == d
                            && counts(t, i);
                    assert(files[i] == t[i]);
                    assert(counts(files, i));
                },
                None => {},
            }
        }
    }
}

proof fn lemma_with_digest(root: Seq<(String, String)>, digest: Seq<char>, from: int)
    requires
        0 <= from <= root.len(),
    ensures
        match with_digest(root, digest, from) {
            Some(p) => exists|k: int|
                from <= k < root.len() && (#[trigger] root[k]).1@ == digest && root[k].0@ == p
                    && forall|j: int| from <= j < k ==> (#[trigger] root[j]).1@ != digest,
            None => forall|k: int| from <= k < root.len() ==> (#[trigger] root[k]).1@ != digest,
        },
    decreases root.len() - from,
{
    if from < root.len() {
        if root[from].1@ == digest {
            assert(root[from].0@ == with_digest(root, digest, from)->0);
        } else {
            lemma_with_digest(root, digest, from + 1);
        }
    }
}

spec fn told(moved: Seq<(Seq<char>, Seq<char>)>, path: Seq<char>) -> bool {
    exists|n: int| 0 <= n < moved.len() && (#[trigger] moved[n]).0 == path
}

spec fn moved_there(
    x: (Seq<char>, Seq<char>),
    missing: Seq<Seq<char>>,
    files: Seq<ManagedView>,
    root: Seq<(String, String)>,
) -> bool {
    missing.contains(x.0) && recorded_digest(files, x.0) is Some && with_digest(
        root,
        recorded_digest(files, x.0)->0,
        0,
    ) == Some(x.1)
}

proof fn lemma_found_elsewhere(
    missing: Seq<Seq<char>>,
    files: Seq<ManagedView>,
    root: Seq<(String, String)>,
)
    ensures
        ({
            let m = found_elsewhere(missing, files, root);
            &&& forall|n: int| 0 <= n < m.len() ==> moved_there(#[trigger] m[n], missing, files, root)
            &&& forall|i: int|
                0 <= i < missing.len() && recorded_digest(files, #[trigger] missing[i]) is Some
                    && with_digest(root, recorded_digest(files, missing[i])->0, 0) is Some ==> told(
                    m,
                    missing[i],
                )
        }),
    decreases missing.len(),
{
    if missing.len() > 0 {
        let t = missing.drop_last();
        let l = missing.len() - 1;
        let b = found_elsewhere(t, files, root);
        let m = found_elsewhere(missing, files, root);
        lemma_found_elsewhere(t, files, root);
        assert(missing[l] == missing.last());
        assert(missing.contains(missing[l]));
        assert forall|n: int| 0 <= n < m.len() implies moved_there(
            #[trigger] m[n],
            missing,
            files,
            root,
        ) by {
            if n < b.len() {
                assert(m[n] == b[n]);
                assert(moved_there(b[n], t, files, root));
                let i = t.index_of(b[n].0);
                assert(missing[i] == b[n].0);
            }
        }
        assert forall|i: int|
            0 <= i < missing.len() && recorded_digest(files, #[trigger] missing[i]) is Some
                && with_digest(root, recorded_digest(files, missing[i])->0, 0) is Some implies told(
            m,
            missing[i],
        ) by {
            if i < l {
                assert(t[i] == missing[i]);
                assert(told(b, t[i]));
                let n = choose|n: int| 0 <= n < b.len() && (#[trigger] b[n]).0 == t[i];
                assert(m[n] == b[n]);
            } else {
                assert(m[b.len() as int].0 == missing[i]);
            }
        }
    }
}

/// A file is told to have been moved exactly where its path is free and a file
/// directly in the game directory has its digest, and the first such is told.
pub proof fn law_moved_files_are_recognised(
    files: Seq<ManagedView>,
    seen: Map<Seq<char>, Found>,
    root: Seq<(String, String)>,
)
    ensures
        forall|n: int|
            0 <= n < moved_files(files, seen, root).len() ==> {
                let x = #[trigger] moved_files(files, seen, root)[n];
                exists|i: int, k: int|
                    0 <= i < files.len() && 0 <= k < root.len() && (#[trigger] files[i]).path == x.0
                        && look(seen, x.0) is Nothing && (#[trigger] root[k]).0@ == x.1
                        && root[k].1@ == files[i].sha256 && forall|j: int|
                        0 <= j < k ==> (#[trigger] root[j]).1@ != files[i].sha256
            },
        forall|i: int, k: int|
            0 <= i < files.len() && 0 <= k < root.len() && counts(files, i) && look(
                seen,
                (#[trigger] files[i]).path,
            ) is Nothing && (#[trigger] root[k]).1@ == files[i].sha256 ==> exists|n: int|
                0 <= n < moved_files(files, seen, root).len() && (#[trigger] moved_files(
                    files,
                    seen,
                    root,
                )[n]).0 == files[i].path,
{
    let missing = paths_with(files, seen, false);
    let m = moved_files(files, seen, root);
    lemma_found_elsewhere(missing, files, root);
    assert forall|n: int| 0 <= n < m.len() implies ({
        let x = #[trigger] m[n];
        exists|i: int, k: int|
            0 <= i < files.len() && 0 <= k < root.len() && (#[trigger] files[i]).path == x.0 && look(
                seen,
                x.0,
            ) is Nothing && (#[trigger] root[k]).0@ == x.1 && root[k].1@ == files[i].sha256
                && forall|j: int| 0 <= j < k ==> (#[trigger] root[j]).1@ != files[i].sha256
    }) by {
        let x = m[n];
        assert(moved_there(x, missing, files, root));
        lemma_paths_with(files, seen, false, x.0);
        lemma_recorded_digest(files, x.0);
        let d = recorded_digest(files, x.0)->0;
        lemma_with_digest(root, d, 0);
        let i = choose|i: int|
            0 <= i < files.len() && (#[trigger] files[i]).path == x.0 && files[i].sha256 == d
                && counts(files, i);
        let k = choose|k: int|
            0 <= k < root.len() && (#[trigger] root[k]).1@ == d && root[k].0@ == x.1 && forall|j: int|
                0 <= j < k ==> (#[trigger] root[j]).1@ != d;
        assert(files[i].path == x.0);
        assert(root[k].0@ == x.1);
    }
    assert forall|i: int, k: int|
        0 <= i < files.len() && 0 <= k < root.len() && counts(files, i) && look(
            seen,
            (#[trigger] files[i]).path,
        ) is Nothing && (#[trigger] root[k]).1@ == files[i].sha256 implies told(
        m,
        files[i].path,
    ) by {
        let p = files[i].path;
        lemma_paths_with(files, seen, false, p);
        lemma_recorded_digest(files, p);
        lemma_with_digest(root, files[i].sha256, 0);
        assert(crate::restoring::owns(files, p));
        let n = missing.index_of(p);
        assert(missing[n] == p);
    }
}

/// An install is struck out exactly where nothing of it is left, neither in its
/// place nor elsewhere in the game directory.
pub proof fn law_only_what_is_gone_is_struck_out(
    installs: Map<Seq<char>, Install>,
    seen: Map<Seq<char>, Found>,
    root: Seq<(String, String)>,
    id: Seq<char>,
)
    ensures
        gone_packages(installs, seen, root).contains(id) <==> exists|k: Seq<char>| #[trigger]
            installs.dom().contains(k) && installs[k].package@ == id && nothing_left(
                installs[k]@.files,
                seen,
                root,
            ),
{
    assert forall|k: Seq<char>| #[trigger] installs.dom().contains(k) implies all_gone(
        installs[k]@.files,
        seen,
        root,
    ) == nothing_left(installs[k]@.files, seen, root) by {
        lemma_all_gone(installs[k]@.files, seen, root);
    }
}

proof fn lemma_all_gone(
    files: Seq<ManagedView>,
    seen: Map<Seq<char>, Found>,
    root: Seq<(String, String)>,
)
    ensures
        all_gone(files, seen, root) == nothing_left(files, seen, root),
{
    let m = moved_files(files, seen, root);
    let here = paths_with(files, seen, true);
    law_moved_files_are_recognised(files, seen, root);
    if all_gone(files, seen, root) {
        assert forall|i: int| 0 <= i < files.len() implies look(
            seen,
            (#[trigger] files[i]).path,
        ) is Nothing by {
            lemma_paths_with(files, seen, true, files[i].path);
            assert(crate::restoring::owns(files, files[i].path));
            if !(look(seen, files[i].path) is Nothing) {
                assert(here.contains(files[i].path));
                let n = here.index_of(files[i].path);
                assert(0 <= n < here.len());
            }
        }
        assert forall|i: int, k: int|
            0 <= i < files.len() && 0 <= k < root.len() && counts(files, i) implies (
        #[trigger] root[k]).1@ != (#[trigger] files[i]).sha256 by {}
    }
    if nothing_left(files, seen, root) {
        if here.len() > 0 {
            lemma_paths_with(files, seen, true, here[0]);
            assert(here.contains(here[0]));
            let i = choose|i: int| 0 <= i < files.len() && (#[trigger] files[i]).path == here[0];
            assert(look(seen, files[i].path) is Nothing);
        }
        if m.len() > 0 {
            let x = m[0];
            let missing = paths_with(files, seen, false);
            lemma_found_elsewhere(missing, files, root);
            assert(moved_there(m[0], missing, files, root));
            lemma_recorded_digest(files, x.0);
            let d = recorded_digest(files, x.0)->0;
            lemma_with_digest(root, d, 0);
            let i = choose|i: int|
                0 <= i < files.len() && (#[trigger] files[i]).path == x.0 && files[i].sha256 == d
                    && counts(files, i);
            let k = choose|k: int| 0 <= k < root.len() && (#[trigger] root[k]).1@ == d;
            assert(root[k].1@ != files[i].sha256);
        }
    }
}

} // verus!
