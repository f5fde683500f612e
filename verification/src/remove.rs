//! Removing an install: by playing its script back, or, for records that are
//! older than scripts, by its files and its backup folder.

use vstd::prelude::*;
use crate::add::word_for;
use crate::catalog::{lookup, PackageEntry, PackagesFile};
use crate::deploy::{changed, look, not_in, sort_out, unchanged, without};
use crate::error::{fails, other, ChefError, Result};
use crate::json::{
    array, held, held_all, held_fields, lemma_shows, object, put, record, shows, string, strings,
    text_list, Json,
};
use crate::order::{sort_texts, sorted};
use crate::restoring::{
    lemma_changed_has, lemma_not_in, lemma_sorted_contains, lemma_unchanged, owned_changed, owns,
    removed_by_files,
};
use crate::state::{file_views, installs_at, Install, Op, StateFile};
use crate::strmap::StrMap;
use crate::text::{
    begins, cat, cat3, chars_of, cut_back, law_cut_back, law_front_pieces, list_has, lists, own_all,
    pieces, same, skip_text, starts_with, texts, trim_end,
};
use crate::undo::{found_in, Files, Found, FoundView};
use crate::version::version_word;

verus! {

/// A version as it is asked for on removal: without one `v` in front and without
/// dots behind.
pub open spec fn bare_version(v: Seq<char>) -> Seq<char> {
    cut_back(
        if v.len() > 0 && v[0] == 'v' {
            v.drop_first()
        } else {
            v
        },
        '.',
    )
}

/// The installed version is the one that is asked for, or begins with it and a
/// dot.
pub open spec fn version_meant(installed: Seq<char>, v: Seq<char>) -> bool {
    installed == bare_version(v) || installed == v || begins(installed, bare_version(v) + "."@)
}

fn is_version_meant(installed: &str, v: &str) -> (b: bool)
    ensures
        b == version_meant(installed@, v@),
{
    let cs = chars_of(v);
    let bare = if cs.len() > 0 && cs[0] == 'v' {
        let t = skip_text(&cs, 1);
        proof {
            assert(cs@.skip(1) =~= cs@.drop_first());
        }
        trim_end(t.as_str(), '.')
    } else {
        trim_end(v, '.')
    };
    let dotted = cat(bare.as_str(), ".");
    same(installed, bare.as_str()) || same(installed, v) || starts_with(installed, dotted.as_str())
}

/// A removal that expects a version goes on only where the parts of that version,
/// between its dots, are one by one the first parts of the installed one, or where
/// it is the very text of the installed one. What is expected is read without one
/// `v` in front and without dots behind.
pub proof fn law_removal_minds_the_version(
    installed: Seq<char>,
    v: Seq<char>,
    bare: Seq<char>,
    lead: bool,
    dots: nat,
)
    requires
        v == (if lead {
            seq!['v']
        } else {
            Seq::empty()
        }) + bare + Seq::new(dots, |i: int| '.'),
        !lead ==> v.len() == 0 || v[0] != 'v',
        bare.len() > 0 ==> bare.last() != '.',
    ensures
        version_meant(installed, v) <==> installed == v || {
            let want = pieces(bare, seq!['.']);
            let have = pieces(installed, seq!['.']);
            want.len() <= have.len() && forall|i: int|
                0 <= i < want.len() ==> #[trigger] want[i] == have[i]
        },
{
    reveal_strlit(".");
    let tail = Seq::new(dots, |i: int| '.');
    let rest = bare + tail;
    assert((if v.len() > 0 && v[0] == 'v' {
        v.drop_first()
    } else {
        v
    }) =~= rest) by {
        if lead {
            assert(v.drop_first() =~= rest);
        } else {
            assert(v =~= rest);
        }
    }
    law_cut_back(rest, '.');
    let cut = cut_back(rest, '.');
    if cut.len() < bare.len() {
        assert(rest[bare.len() - 1] == bare.last());
        assert(false);
    }
    if cut.len() > bare.len() {
        assert(cut.last() == rest[cut.len() - 1]);
        assert(rest[cut.len() - 1] == tail[cut.len() - 1 - bare.len()]);
        assert(false);
    }
    assert(cut =~= bare);
    assert("."@ =~= seq!['.']);
    law_front_pieces(installed, bare, '.');
}

/// The install that is to be removed: an error where there is none, and where
/// another version was asked for.
pub fn remove_install<'a>(
    st: &'a StateFile,
    key: &str,
    id: &str,
    expect_version: Option<&str>,
    game_dir: &str,
) -> (r: Result<&'a Install>)
    ensures
        ({
            let m = installs_at(*st, key@);
            if !m.dom().contains(id@) {
                fails(r, "no installation with id '"@ + id@ + "' found in "@ + game_dir@)
            } else if expect_version matches Some(v) && !version_meant(m[id@].version@, v@) {
                fails(
                    r,
                    "installed version of "@ + m[id@].package@ + " is "@ + m[id@].version@
                        + ", not "@ + expect_version->0@,
                )
            } else {
                r matches Ok(i) && *i == m[id@]
            }
        }),
{
    match st.install_of(key, id) {
        None => {
            let mut m = cat3("no installation with id '", id, "' found in ");
            m.append(game_dir);
            other(m)
        },
        Some(inst) => {
            if let Some(v) = expect_version {
                if !is_version_meant(inst.version.as_str(), v) {
                    let mut m = cat3("installed version of ", inst.package.as_str(), " is ");
                    m.append(inst.version.as_str());
                    m.append(", not ");
                    m.append(v);
                    return other(m);
                }
            }
            Ok(inst)
        },
    }
}

/// The operation to undo next, when `done` operations are undone: the last of
/// the script first.
pub fn next_to_undo(inst: &Install, done: usize) -> (r: Option<&Op>)
    ensures
        match r {
            Some(op) => done < inst.script@.len() && *op == inst.script@[inst.script@.len() - 1
                - done],
            None => done >= inst.script@.len(),
        },
{
    if done < inst.script.len() {
        Some(&inst.script[inst.script.len() - 1 - done])
    } else {
        None
    }
}

/// Does the record come with a script?
pub fn has_script(inst: &Install) -> (b: bool)
    ensures
        b == (inst.script@.len() > 0),
{
    inst.script.len() > 0
}

/// Strikes the install out of the recorded state.
pub fn forget_install(st: &mut StateFile, key: &str, id: &str)
    ensures
        final(st).schema == old(st).schema,
        final(st).dirs@.dom() == old(st).dirs@.dom(),
        installs_at(*final(st), key@) == installs_at(*old(st), key@).remove(id@),
        forall|k: Seq<char>|
            k != key@ && old(st).dirs@.dom().contains(k) ==> #[trigger] final(st).dirs@[k] == old(
                st,
            ).dirs@[k],
{
    match st.dirs.remove(key) {
        Some(d) => {
            let mut d = d;
            d.installs.remove(id);
            st.put_dir(key, d);
            proof {
                assert(st.dirs@.dom() =~= old(st).dirs@.dom());
            }
        },
        None => {
            proof {
                assert(installs_at(*st, key@) =~= installs_at(*old(st), key@).remove(id@));
                assert(st.dirs@ =~= old(st).dirs@);
            }
        },
    }
}

/// The files of an install without a script that are deleted, and those that
/// stay because a user changed them.
pub fn legacy_files(inst: &Install, seen: &StrMap<Found>) -> (r: (Vec<String>, Vec<String>))
    ensures
        texts(r.0@) == unchanged(file_views(inst.files@), seen@),
        texts(r.1@) == changed(file_views(inst.files@), seen@),
{
    let (mine, ours) = sort_out(&inst.files, seen);
    (ours, mine)
}

/// The files of the backup folder, in the order of `tree`, that are put back: all
/// but those at whose paths a changed file stays.
pub fn legacy_restores(tree: &Vec<String>, preserved: &Vec<String>) -> (out: Vec<String>)
    ensures
        texts(out@) == not_in(texts(tree@), texts(preserved@)),
{
    without(tree, preserved)
}

/// Is the snapshot of a displaced user file put back, when `restored` were put
/// back before it, its snapshot is there, and its path is free?
pub fn wants_displaced(
    rel: &str,
    restored: &Vec<String>,
    preserved: &Vec<String>,
    snapshot: bool,
    free: bool,
) -> (b: bool)
    ensures
        b == (!lists(restored@, rel@) && !lists(preserved@, rel@) && snapshot && free),
{
    !list_has(restored, rel) && !list_has(preserved, rel) && snapshot && free
}

// ---------------------------------------------------------------------------
// What is said
// ---------------------------------------------------------------------------

/// A package that was removed.
#[derive(Debug)]
pub struct Removed {
    pub id: String,
    pub name: String,
    pub version: String,
    /// Files that stay because a user changed them.
    pub preserved: Vec<String>,
    /// Files that were put back.
    pub restored: Vec<String>,
}

/// The name of a package, or its id where the catalog does not know it.
pub open spec fn title_or_id(s: Seq<PackageEntry>, id: Seq<char>) -> Seq<char> {
    match lookup(s, id) {
        Some(p) => p.name@,
        None => id,
    }
}

/// The files are told in order where a script was played back, and else as they
/// were dealt with.
pub open spec fn told_files(script: bool, v: Seq<Seq<char>>) -> Seq<Seq<char>> {
    if script {
        sorted(v)
    } else {
        v
    }
}

/// What is told of a removed install.
pub fn removed_row(
    inst: &Install,
    pkgs: &PackagesFile,
    preserved: &Vec<String>,
    restored: &Vec<String>,
) -> (r: Removed)
    ensures
        r.id@ == inst.package@,
        r.name@ == title_or_id(pkgs.packages@, inst.package@),
        r.version@ == inst.version@,
        texts(r.preserved@) == told_files(inst.script@.len() > 0, texts(preserved@)),
        texts(r.restored@) == told_files(inst.script@.len() > 0, texts(restored@)),
{
    let script: bool = has_script(inst);
    let name = match pkgs.pkg(inst.package.as_str()) {
        Some(p) => p.name.clone(),
        None => inst.package.clone(),
    };
    Removed {
        id: inst.package.clone(),
        name,
        version: inst.version.clone(),
        preserved: if script { sort_texts(preserved) } else { own_all(preserved) },
        restored: if script { sort_texts(restored) } else { own_all(restored) },
    }
}

/// A removed package as a document.
pub open spec fn removed_document(r: Removed) -> Json {
    record(
        seq![
            ("id"@, Json::Text(r.id@)),
            ("name"@, Json::Text(r.name@)),
            ("version"@, Json::Text(r.version@)),
            ("preserved"@, text_list(texts(r.preserved@))),
            ("restored"@, text_list(texts(r.restored@))),
        ],
    )
}

fn removed_value(r: &Removed) -> (v: serde_json::Value)
    ensures
        held(v) == removed_document(*r),
{
    let mut f: Vec<(String, serde_json::Value)> = Vec::new();
    put(&mut f, "id", string(r.id.as_str()));
    put(&mut f, "name", string(r.name.as_str()));
    put(&mut f, "version", string(r.version.as_str()));
    put(&mut f, "preserved", strings(&r.preserved));
    put(&mut f, "restored", strings(&r.restored));
    proof {
        assert(held_fields(f@) =~= seq![
            ("id"@, Json::Text(r.id@)),
            ("name"@, Json::Text(r.name@)),
            ("version"@, Json::Text(r.version@)),
            ("preserved"@, text_list(texts(r.preserved@))),
            ("restored"@, text_list(texts(r.restored@))),
        ]);
    }
    object(f)
}

/// The document about a run: the packages that were removed. None where there
/// was none.
pub fn remove_value(rows: &Vec<Removed>) -> (r: Option<serde_json::Value>)
    ensures
        rows@.len() == 0 ==> r is None,
        rows@.len() > 0 ==> r is Some && held(r->0) == record(
            seq![
                ("remove"@, Json::List(rows@.map_values(|x: Removed| removed_document(x)))),
            ],
        ),
{
    if rows.len() == 0 {
        return None;
    }
    let ghost want = rows@.map_values(|x: Removed| removed_document(x));
    let mut items: Vec<serde_json::Value> = Vec::new();
    let mut i: usize = 0;
    while i < rows.len()
        invariant
            i <= rows@.len(),
            want == rows@.map_values(|x: Removed| removed_document(x)),
            held_all(items@) =~= want.take(i as int),
        decreases rows.len() - i,
    {
        let ghost before = items@;
        items.push(removed_value(&rows[i]));
        proof {
            assert(held_all(items@) =~= held_all(before).push(want[i as int]));
            assert(want.take(i + 1) =~= want.take(i as int).push(want[i as int]));
        }
        i = i + 1;
    }
    proof {
        assert(want.take(i as int) =~= want);
    }
    let mut f: Vec<(String, serde_json::Value)> = Vec::new();
    put(&mut f, "remove", array(items));
    proof {
        assert(held_fields(f@) =~= seq![("remove"@, Json::List(want))]);
    }
    Some(object(f))
}

/// The lines about files that stayed.
pub open spec fn preserved_lines(v: Seq<Seq<char>>) -> Seq<Seq<char>> {
    v.map_values(|p: Seq<char>| "restored user-modified file: "@ + p)
}

/// The lines about files that were put back.
pub open spec fn restored_lines(v: Seq<Seq<char>>) -> Seq<Seq<char>> {
    v.map_values(|p: Seq<char>| "restored your original file: "@ + p)
}

/// What is said of a removed package, line by line.
pub fn removed_lines(r: &Removed) -> (out: Vec<String>)
    ensures
        texts(out@) == seq!["removed "@ + r.name@ + word_for(r.version@)] + preserved_lines(
            texts(r.preserved@),
        ) + restored_lines(texts(r.restored@)),
{
    let mut out: Vec<String> = Vec::new();
    let w = version_word(r.version.as_str());
    out.push(cat3("removed ", r.name.as_str(), w.as_str()));
    let ghost head = seq!["removed "@ + r.name@ + word_for(r.version@)];
    let ghost a = preserved_lines(texts(r.preserved@));
    let ghost b = restored_lines(texts(r.restored@));
    let mut i: usize = 0;
    proof {
        assert(texts(out@) =~= head + a.take(0));
    }
    while i < r.preserved.len()
        invariant
            i <= r.preserved@.len(),
            a == preserved_lines(texts(r.preserved@)),
            texts(out@) =~= head + a.take(i as int),
        decreases r.preserved.len() - i,
    {
        let ghost before = out@;
        out.push(cat("restored user-modified file: ", r.preserved[i].as_str()));
        proof {
            assert(texts(out@) =~= texts(before).push(a[i as int]));
            assert(head + a.take(i + 1) =~= (head + a.take(i as int)).push(a[i as int]));
        }
        i = i + 1;
    }
    let mut j: usize = 0;
    proof {
        assert(a.take(i as int) =~= a);
        assert(texts(out@) =~= head + a + b.take(0));
    }
    while j < r.restored.len()
        invariant
            j <= r.restored@.len(),
            b == restored_lines(texts(r.restored@)),
            texts(out@) =~= head + a + b.take(j as int),
        decreases r.restored.len() - j,
    {
        let ghost before = out@;
        out.push(cat("restored your original file: ", r.restored[j].as_str()));
        proof {
            assert(texts(out@) =~= texts(before).push(b[j as int]));
            assert(head + a + b.take(j + 1) =~= (head + a + b.take(j as int)).push(b[j as int]));
        }
        j = j + 1;
    }
    proof {
        assert(b.take(j as int) =~= b);
    }
    out
}

// ---------------------------------------------------------------------------
// One package after the other
// ---------------------------------------------------------------------------

/// The course of a removal of several packages. A failure is kept, and the next
/// package is looked after.
#[derive(Debug)]
pub struct RemoveRun {
    /// The packages, each with the version that is expected.
    pub wanted: Vec<(String, Option<String>)>,
    /// How many of them were looked after.
    pub done: usize,
    /// Those that were removed.
    pub removed: Vec<Removed>,
    /// The first failure.
    pub first: Option<ChefError>,
}

impl RemoveRun {
    /// The run before its first step.
    pub fn new(wanted: Vec<(String, Option<String>)>) -> (run: RemoveRun)
        ensures
            run.wanted == wanted,
            run.done == 0,
            run.removed@.len() == 0,
            run.first is None,
    {
        RemoveRun { wanted, done: 0, removed: Vec::new(), first: None }
    }

    /// The place of the package that is looked after next; none once all were.
    pub fn next(&self) -> (at: Option<usize>)
        ensures
            at == if self.done < self.wanted@.len() {
                Some(self.done)
            } else {
                None
            },
    {
        if self.done < self.wanted.len() {
            Some(self.done)
        } else {
            None
        }
    }

    /// Takes note of what became of a package.
    pub fn advance(&mut self, outcome: Result<Removed>)
        requires
            old(self).done < old(self).wanted@.len(),
        ensures
            noted(*old(self), outcome, *final(self)),
    {
        assert(self.done < self.wanted.len());
        let total: usize = self.wanted.len();
        assert(self.done < total);
        self.done = self.done + 1;
        match outcome {
            Ok(r) => {
                self.removed.push(r);
            },
            Err(e) => {
                if self.first.is_none() {
                    self.first = Some(e);
                }
            },
        }
    }
}

/// What became of a package led from one state of the run to the next.
pub open spec fn noted(before: RemoveRun, outcome: Result<Removed>, after: RemoveRun) -> bool {
    &&& after.wanted == before.wanted
    &&& after.done == before.done + 1
    &&& match outcome {
        Ok(r) => after.removed@ == before.removed@.push(r) && after.first == before.first,
        Err(e) => after.removed@ == before.removed@ && after.first == if before.first is Some {
            before.first
        } else {
            Some(e)
        },
    }
}

/// The packages that were removed, in order.
pub open spec fn successes(outcomes: Seq<Result<Removed>>) -> Seq<Removed>
    decreases outcomes.len(),
{
    if outcomes.len() == 0 {
        Seq::empty()
    } else {
        let before = successes(outcomes.drop_last());
        match outcomes.last() {
            Ok(r) => before.push(r),
            Err(_) => before,
        }
    }
}

/// The first failure, if there was one.
pub open spec fn first_failure(outcomes: Seq<Result<Removed>>) -> Option<ChefError>
    decreases outcomes.len(),
{
    if outcomes.len() == 0 {
        None
    } else {
        let before = first_failure(outcomes.drop_last());
        match outcomes.last() {
            Err(e) => if before is Some {
                before
            } else {
                Some(e)
            },
            Ok(_) => before,
        }
    }
}

/// A removal goes on after a failure: every package is looked after, whatever
/// became of those before, all that could be removed are told, and the failure
/// that counts at the end is the first.
pub proof fn law_removal_goes_on(course: Seq<RemoveRun>, outcomes: Seq<Result<Removed>>)
    requires
        course.len() == outcomes.len() + 1,
        course[0].done == 0,
        course[0].removed@.len() == 0,
        course[0].first is None,
        forall|k: int|
            0 <= k < outcomes.len() ==> noted(course[k], #[trigger] outcomes[k], course[k + 1]),
    ensures
        course.last().wanted == course[0].wanted,
        course.last().done == outcomes.len(),
        course.last().removed@ == successes(outcomes),
        course.last().first == first_failure(outcomes),
    decreases outcomes.len(),
{
    if outcomes.len() > 0 {
        let c = course.drop_last();
        let o = outcomes.drop_last();
        assert forall|k: int| 0 <= k < o.len() implies noted(c[k], #[trigger] o[k], c[k + 1]) by {
            assert(o[k] == outcomes[k]);
        }
        law_removal_goes_on(c, o);
        let n = outcomes.len() - 1;
        assert(noted(course[n], outcomes[n], course[n + 1]));
    } else {
        assert(course.last().removed@ =~= Seq::empty());
    }
}

/// What a removal of several packages tells at its end: every package that could
/// be removed, and as its failure that of the first that could not.
pub proof fn law_what_a_removal_tells(course: Seq<RemoveRun>, outcomes: Seq<Result<Removed>>)
    requires
        course.len() == outcomes.len() + 1,
        course[0].done == 0,
        course[0].removed@.len() == 0,
        course[0].first is None,
        forall|k: int|
            0 <= k < outcomes.len() ==> noted(course[k], #[trigger] outcomes[k], course[k + 1]),
    ensures
        forall|r: Removed| #[trigger]
            course.last().removed@.contains(r) <==> exists|k: int|
                0 <= k < outcomes.len() && #[trigger] outcomes[k] == Ok::<Removed, ChefError>(r),
        match course.last().first {
            Some(e) => exists|k: int|
                0 <= k < outcomes.len() && #[trigger] outcomes[k] == Err::<Removed, ChefError>(e)
                    && forall|j: int| 0 <= j < k ==> (#[trigger] outcomes[j]) is Ok,
            None => forall|j: int| 0 <= j < outcomes.len() ==> (#[trigger] outcomes[j]) is Ok,
        },
    decreases outcomes.len(),
{
    if outcomes.len() > 0 {
        let l = outcomes.len() - 1;
        let t = outcomes.drop_last();
        let c = course.drop_last();
        let b = course[l];
        assert forall|k: int| 0 <= k < t.len() implies noted(c[k], #[trigger] t[k], c[k + 1]) by {
            assert(t[k] == outcomes[k]);
        }
        law_what_a_removal_tells(c, t);
        assert(c.last() == b);
        assert(noted(b, outcomes[l], course[l + 1]));
        assert(course.last() == course[l + 1]);
        assert forall|k: int| 0 <= k < l implies #[trigger] outcomes[k] == t[k] by {}
        let after = course.last().removed@;
        assert forall|r: Removed| #[trigger] after.contains(r) <==> exists|k: int|
            0 <= k < outcomes.len() && #[trigger] outcomes[k] == Ok::<Removed, ChefError>(r) by {
            if b.removed@.contains(r) {
                let k = choose|k: int|
                    0 <= k < t.len() && #[trigger] t[k] == Ok::<Removed, ChefError>(r);
                assert(outcomes[k] == t[k]);
                let i = b.removed@.index_of(r);
                assert(after[i] == r);
            }
            if exists|k: int|
                0 <= k < outcomes.len() && #[trigger] outcomes[k] == Ok::<Removed, ChefError>(r) {
                let k = choose|k: int|
                    0 <= k < outcomes.len() && #[trigger] outcomes[k] == Ok::<Removed, ChefError>(
                        r,
                    );
                if k < l {
                    assert(t[k] == outcomes[k]);
                    assert(b.removed@.contains(r));
                } else {
                    assert(after.last() == r);
                    assert(after[after.len() - 1] == r);
                }
            }
            if after.contains(r) && !b.removed@.contains(r) {
                let i = after.index_of(r);
                if i < b.removed@.len() {
                    assert(b.removed@[i] == r);
                }
                assert(outcomes[l] == Ok::<Removed, ChefError>(r));
            }
        }
        match b.first {
            Some(e) => {
                let k = choose|k: int|
                    0 <= k < t.len() && #[trigger] t[k] == Err::<Removed, ChefError>(e)
                        && forall|j: int| 0 <= j < k ==> (#[trigger] t[j]) is Ok;
                assert(outcomes[k] == t[k]);
                assert forall|j: int| 0 <= j < k implies (#[trigger] outcomes[j]) is Ok by {
                    assert(t[j] == outcomes[j]);
                }
            },
            None => {
                assert forall|j: int| 0 <= j < l implies (#[trigger] outcomes[j]) is Ok by {
                    assert(t[j] == outcomes[j]);
                }
            },
        }
    }
}

/// An install is removed only where it is recorded for that game directory under
/// the id that is named, and where a version is expected only in that version.
pub proof fn law_only_what_is_named_is_removed<'a>(
    st: &'a StateFile,
    key: &str,
    id: &str,
    expect: Option<&str>,
    dir: &str,
    r: Result<&'a Install>,
)
    requires
        call_ensures(remove_install, (st, key, id, expect, dir), r),
    ensures
        r is Ok <==> st.dirs@.dom().contains(key@) && st.dirs@[key@].installs@.dom().contains(id@)
            && (expect is Some ==> version_meant(
            st.dirs@[key@].installs@[id@].version@,
            expect->0@,
        )),
        r is Ok ==> *r->Ok_0 == st.dirs@[key@].installs@[id@],
{
}

/// A script is undone from its end: each operation once, the last first.
pub proof fn law_the_last_operation_is_undone_first(
    inst: &Install,
    done: usize,
    r: Option<&Op>,
)
    requires
        call_ensures(next_to_undo, (inst, done), r),
    ensures
        done < inst.script@.len() ==> r is Some && *r->0 == inst.script@[inst.script@.len() - 1
            - done],
        done >= inst.script@.len() ==> r is None,
{
}

/// The files of an install without a script are dealt with as the recorded files
/// say: those that are unchanged go, those that were changed stay, and the backup
/// comes back everywhere but there.
pub proof fn law_old_records_are_removed_by_their_files(
    inst: &Install,
    seen: &StrMap<Found>,
    game: Files,
    snaps: Files,
    tree: &Vec<String>,
    sorted_out: (Vec<String>, Vec<String>),
    back: Vec<String>,
    p: Seq<char>,
)
    requires
        call_ensures(legacy_files, (inst, seen), sorted_out),
        call_ensures(legacy_restores, (tree, &sorted_out.1), back),
        forall|q: Seq<char>|
            owns(inst@.files, q) ==> #[trigger] look(seen@, q) == found_in(game, q),
        forall|q: Seq<char>| #[trigger] snaps.dom().contains(q) <==> texts(tree@).contains(q),
        forall|i: int, j: int|
            0 <= i < j < inst@.files.len() && (#[trigger] inst@.files[i]).path == (
            #[trigger] inst@.files[j]).path ==> inst@.files[i].sha256 == inst@.files[j].sha256,
    ensures
        found_in(removed_by_files(inst@.files, game, snaps), p) == if texts(back@).contains(p) {
            found_in(snaps, p)
        } else if texts(sorted_out.0@).contains(p) {
            FoundView::Nothing
        } else {
            found_in(game, p)
        },
{
    let files = inst@.files;
    lemma_unchanged(files, seen@, p);
    lemma_changed_has(files, seen@, p);
    lemma_not_in(texts(tree@), texts(sorted_out.1@), p);
    assert(file_views(inst.files@) == files);
    if owns(files, p) {
        assert(look(seen@, p) == found_in(game, p));
        let j = choose|j: int| 0 <= j < files.len() && (#[trigger] files[j]).path == p;
        if game.dom().contains(p) && !owned_changed(files, game, p) {
            assert(files[j].sha256 == game[p]);
        }
    }
}

/// A package that was removed is told with its id, its name and its version, the
/// files that stayed and those that came back.
pub proof fn law_removals_are_told_in_full(r: Removed)
    ensures
        shows(removed_document(r), "id"@, Json::Text(r.id@)),
        shows(removed_document(r), "name"@, Json::Text(r.name@)),
        shows(removed_document(r), "version"@, Json::Text(r.version@)),
        shows(removed_document(r), "preserved"@, text_list(texts(r.preserved@))),
        shows(removed_document(r), "restored"@, text_list(texts(r.restored@))),
{
    reveal_strlit("id");
    reveal_strlit("name");
    reveal_strlit("version");
    reveal_strlit("preserved");
    reveal_strlit("restored");
    assert("id"@.len() == 2);
    assert("name"@.len() == 4);
    assert("version"@.len() == 7);
    assert("preserved"@.len() == 9);
    assert("restored"@.len() == 8);
    let f = seq![
        ("id"@, Json::Text(r.id@)),
        ("name"@, Json::Text(r.name@)),
        ("version"@, Json::Text(r.version@)),
        ("preserved"@, text_list(texts(r.preserved@))),
        ("restored"@, text_list(texts(r.restored@))),
    ];
    lemma_shows(f, 0);
    lemma_shows(f, 1);
    lemma_shows(f, 2);
    lemma_shows(f, 3);
    lemma_shows(f, 4);
}

/// A removed package is told with the name that the catalog gives it, or its id,
/// and with all the files that stayed and that came back.
pub proof fn law_removed_rows_tell_all(
    inst: &Install,
    pkgs: &PackagesFile,
    preserved: &Vec<String>,
    restored: &Vec<String>,
    r: Removed,
    p: Seq<char>,
)
    requires
        call_ensures(removed_row, (inst, pkgs, preserved, restored), r),
    ensures
        r.id@ == inst.package@,
        r.version@ == inst.version@,
        lookup(pkgs.packages@, inst.package@) is None ==> r.name@ == inst.package@,
        lookup(pkgs.packages@, inst.package@) matches Some(x) ==> r.name@ == x.name@,
        texts(r.preserved@).contains(p) <==> texts(preserved@).contains(p),
        texts(r.restored@).contains(p) <==> texts(restored@).contains(p),
{
    lemma_sorted_contains(texts(preserved@), p);
    lemma_sorted_contains(texts(restored@), p);
}

/// Of a removed package the lines tell each file that stayed and each that came
/// back.
pub proof fn law_removed_lines_tell_every_file(r: &Removed, out: Vec<String>)
    requires
        call_ensures(removed_lines, (r,), out),
    ensures
        out@.len() == 1 + r.preserved@.len() + r.restored@.len(),
        forall|i: int|
            0 <= i < r.preserved@.len() ==> (#[trigger] out@[i + 1])@
                == "restored user-modified file: "@ + r.preserved@[i]@,
        forall|i: int|
            0 <= i < r.restored@.len() ==> out@[1 + r.preserved@.len() + i]@
                == "restored your original file: "@ + (#[trigger] r.restored@[i])@,
{
    let w = texts(out@);
    assert(w.len() == out@.len());
    assert(texts(r.preserved@).len() == r.preserved@.len());
    assert(texts(r.restored@).len() == r.restored@.len());
    assert forall|i: int| 0 <= i < r.preserved@.len() implies (#[trigger] out@[i + 1])@
        == "restored user-modified file: "@ + r.preserved@[i]@ by {
        assert(w[i + 1] == out@[i + 1]@);
        assert(texts(r.preserved@)[i] == r.preserved@[i]@);
    }
    assert forall|i: int| 0 <= i < r.restored@.len() implies out@[1 + r.preserved@.len() + i]@
        == "restored your original file: "@ + (#[trigger] r.restored@[i])@ by {
        let k = 1 + r.preserved@.len() + i;
        assert(w[k] == out@[k]@);
        assert(texts(r.restored@)[i] == r.restored@[i]@);
    }
}

} // verus!
