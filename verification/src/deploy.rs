//! Deploying a release: what is backed up, removed, written and recorded, and
//! how a failed deployment is taken back.

use vstd::prelude::*;
use crate::order::{sort_texts, sorted};
use crate::resolution::ResolvedVersion;
use crate::state::{
    file_views, installs_at, op_views, opt, paths_of, GameDirState, Install, InstallView,
    ManagedFile, ManagedView, Op, OpView, StateFile,
};
use crate::strmap::StrMap;
use crate::text::{
    begins, cat, chars_of, find_char, first_of, join, joined, lemma_first_of, lemma_first_of_is,
    list_has, lists, lower_ascii, lowercase, own, own_all, replace_char, same_ignoring_case,
    skip_text, slice_text, starts_with, swapped_char, texts, to_lower,
};
use crate::undo::{Found, FoundView};

verus! {

/// One file of a release, ready to deploy.
#[derive(Debug)]
pub struct DeployFile {
    /// Path in the game directory, with `/` between its parts.
    pub dest_rel: String,
    /// Path of the file in the store.
    pub src: String,
    pub sha256: String,
}

/// A release to deploy.
#[derive(Debug)]
pub struct DeployRequest<'a> {
    pub product: &'a ResolvedVersion,
    /// Ids that share the slot; the install of any of them gives way.
    pub slot: &'a Vec<String>,
    pub version: &'a str,
    pub files: &'a Vec<DeployFile>,
    pub dry_run: bool,
}

/// What a deployment did.
#[derive(Debug)]
pub struct DeployOutcome {
    pub replaced: Option<Install>,
    pub preserved_modified: Vec<String>,
    /// User files that were backed up.
    pub displaced: Vec<String>,
}

/// What a deployment will do, before anything is changed.
#[derive(Debug)]
pub struct DeployPlan {
    /// The install that gives way.
    pub previous: Option<Install>,
    /// A backup folder is needed.
    pub needs_backup: bool,
    /// Files of the previous install that a user changed: they are not removed.
    pub preserved: Vec<String>,
    /// Game files that are copied to the backup folder.
    pub snapshots: Vec<String>,
    /// Snapshots of user files that are copied over from the previous backup
    /// folder.
    pub carried: Vec<String>,
    /// User files whose paths the install takes.
    pub displaced: Vec<String>,
    /// Files of the previous install that are removed.
    pub removals: Vec<String>,
    /// Game files whose place in the backup folder an earlier user file takes:
    /// until the deployment is done they are kept elsewhere as well.
    pub aside: Vec<String>,
}

// ---------------------------------------------------------------------------
// What is found
// ---------------------------------------------------------------------------

/// What was seen at a path.
pub open spec fn look(seen: Map<Seq<char>, Found>, path: Seq<char>) -> FoundView {
    if seen.dom().contains(path) {
        seen[path]@
    } else {
        FoundView::Nothing
    }
}

/// Is something at the path?
pub fn is_there(seen: &StrMap<Found>, path: &str) -> (b: bool)
    ensures
        b == !(look(seen@, path@) is Nothing),
{
    match seen.get(path) {
        Some(f) => f.is_there(),
        None => false,
    }
}

/// Is a file with this digest at the path?
pub fn has_content(seen: &StrMap<Found>, path: &str, digest: &str) -> (b: bool)
    ensures
        b == (look(seen@, path@) == FoundView::Content(digest@)),
{
    match seen.get(path) {
        Some(f) => f.is_content(digest),
        None => false,
    }
}

// ---------------------------------------------------------------------------
// What the slot holds
// ---------------------------------------------------------------------------

/// The first id of the slot that is installed.
pub open spec fn occupant(installs: Map<Seq<char>, Install>, slot: Seq<Seq<char>>) -> Option<
    Install,
>
    decreases slot.len(),
{
    if slot.len() == 0 {
        None
    } else if installs.dom().contains(slot[0]) {
        Some(installs[slot[0]])
    } else {
        occupant(installs, slot.drop_first())
    }
}

/// One of the files has this path, up to case.
pub open spec fn has_path(files: Seq<ManagedView>, path: Seq<char>) -> bool {
    exists|j: int| 0 <= j < files.len() && lowercase((#[trigger] files[j]).path) == lowercase(path)
}

/// An install in the slot manages this path, up to case.
pub open spec fn slot_manages(
    installs: Map<Seq<char>, Install>,
    slot: Seq<Seq<char>>,
    path: Seq<char>,
) -> bool {
    exists|i: int|
        0 <= i < slot.len() && installs.dom().contains(#[trigger] slot[i]) && has_path(
            installs[slot[i]]@.files,
            path,
        )
}

fn find_occupant<'a>(dir: Option<&'a GameDirState>, slot: &Vec<String>) -> (r: Option<&'a Install>)
    ensures
        match r {
            Some(i) => occupant(dir_map(dir), texts(slot@)) == Some(*i),
            None => occupant(dir_map(dir), texts(slot@)) is None,
        },
{
    let ghost s = texts(slot@);
    let mut i: usize = 0;
    proof {
        assert(s.skip(0) =~= s);
    }
    while i < slot.len()
        invariant
            i <= slot@.len(),
            s == texts(slot@),
            occupant(dir_map(dir), s) == occupant(dir_map(dir), s.skip(i as int)),
        decreases slot.len() - i,
    {
        proof {
            assert(s.skip(i as int).drop_first() =~= s.skip(i + 1));
            assert(s.skip(i as int)[0] == slot@[i as int]@);
        }
        if let Some(d) = dir {
            if let Some(x) = d.installs.get(slot[i].as_str()) {
                return Some(x);
            }
        }
        i = i + 1;
    }
    None
}

/// The installs of a game directory, none where nothing is recorded for it.
pub open spec fn dir_map(dir: Option<&GameDirState>) -> Map<Seq<char>, Install> {
    match dir {
        Some(d) => d.installs@,
        None => Map::empty(),
    }
}

fn path_in(files: &Vec<ManagedFile>, path: &str) -> (b: bool)
    ensures
        b == has_path(file_views(files@), path@),
{
    let low = to_lower(path);
    let mut i: usize = 0;
    while i < files.len()
        invariant
            i <= files@.len(),
            low@ == lowercase(path@),
            forall|k: int|
                0 <= k < i ==> lowercase((#[trigger] file_views(files@)[k]).path) != lowercase(
                    path@,
                ),
        decreases files.len() - i,
    {
        let other = to_lower(files[i].path.as_str());
        if other == low {
            proof {
                assert(lowercase(file_views(files@)[i as int].path) == lowercase(path@));
            }
            return true;
        }
        i = i + 1;
    }
    false
}

fn slot_has_path(dir: Option<&GameDirState>, slot: &Vec<String>, path: &str) -> (b: bool)
    ensures
        b == slot_manages(dir_map(dir), texts(slot@), path@),
{
    let mut i: usize = 0;
    while i < slot.len()
        invariant
            i <= slot@.len(),
            forall|k: int|
                0 <= k < i ==> !(dir_map(dir).dom().contains(#[trigger] texts(slot@)[k])
                    && has_path(dir_map(dir)[texts(slot@)[k]]@.files, path@)),
        decreases slot.len() - i,
    {
        proof {
            assert(texts(slot@)[i as int] == slot@[i as int]@);
        }
        if let Some(d) = dir {
            if let Some(x) = d.installs.get(slot[i].as_str()) {
                if path_in(&x.files, path) {
                    return true;
                }
            }
        }
        i = i + 1;
    }
    false
}

// ---------------------------------------------------------------------------
// The plan
// ---------------------------------------------------------------------------

/// A file of a release: where it goes, where it is, and its digest.
#[verifier::ext_equal]
pub struct Placed {
    pub dest: Seq<char>,
    pub src: Seq<char>,
    pub sha256: Seq<char>,
}

/// What the files of a release are.
pub open spec fn placements(files: Seq<DeployFile>) -> Seq<Placed> {
    files.map_values(|f: DeployFile| Placed { dest: f.dest_rel@, src: f.src@, sha256: f.sha256@ })
}

/// The paths in the way: something is there that no install in the slot
/// manages.
pub open spec fn in_the_way(
    files: Seq<Placed>,
    installs: Map<Seq<char>, Install>,
    slot: Seq<Seq<char>>,
    seen: Map<Seq<char>, Found>,
) -> Seq<Seq<char>>
    decreases files.len(),
{
    if files.len() == 0 {
        Seq::empty()
    } else {
        let before = in_the_way(files.drop_last(), installs, slot, seen);
        let d = files.last().dest;
        if !(look(seen, d) is Nothing) && !slot_manages(installs, slot, d) {
            before.push(d)
        } else {
            before
        }
    }
}

/// The paths that are written over: something is there that an install in the
/// slot manages, other than those listed in `ours`.
pub open spec fn overwritten(
    files: Seq<Placed>,
    installs: Map<Seq<char>, Install>,
    slot: Seq<Seq<char>>,
    seen: Map<Seq<char>, Found>,
    ours: Seq<Seq<char>>,
) -> Seq<Seq<char>>
    decreases files.len(),
{
    if files.len() == 0 {
        Seq::empty()
    } else {
        let before = overwritten(files.drop_last(), installs, slot, seen, ours);
        let d = files.last().dest;
        if !(look(seen, d) is Nothing) && slot_manages(installs, slot, d) && !ours.contains(d) {
            before.push(d)
        } else {
            before
        }
    }
}

/// Files of the previous install that are there but changed.
pub open spec fn changed(files: Seq<ManagedView>, seen: Map<Seq<char>, Found>) -> Seq<Seq<char>>
    decreases files.len(),
{
    if files.len() == 0 {
        Seq::empty()
    } else {
        let before = changed(files.drop_last(), seen);
        let f = files.last();
        if look(seen, f.path) is Nothing || look(seen, f.path) == FoundView::Content(f.sha256) {
            before
        } else {
            before.push(f.path)
        }
    }
}

/// Files of the previous install that are there unchanged.
pub open spec fn unchanged(files: Seq<ManagedView>, seen: Map<Seq<char>, Found>) -> Seq<Seq<char>>
    decreases files.len(),
{
    if files.len() == 0 {
        Seq::empty()
    } else {
        let before = unchanged(files.drop_last(), seen);
        let f = files.last();
        if look(seen, f.path) == FoundView::Content(f.sha256) {
            before.push(f.path)
        } else {
            before
        }
    }
}

/// The path is listed, up to the case of ASCII letters.
pub open spec fn listed_ignoring_case(v: Seq<Seq<char>>, path: Seq<char>) -> bool {
    exists|i: int| 0 <= i < v.len() && lower_ascii(#[trigger] v[i]) == lower_ascii(path)
}

/// The paths in the way, and behind them the user files that earlier installs
/// displaced and whose snapshots are in the previous backup folder.
pub open spec fn displaced_by(
    in_way: Seq<Seq<char>>,
    earlier: Seq<Seq<char>>,
    kept: Seq<String>,
) -> Seq<Seq<char>>
    decreases earlier.len(),
{
    if earlier.len() == 0 {
        in_way
    } else {
        let before = displaced_by(in_way, earlier.drop_last(), kept);
        let d = earlier.last();
        if !listed_ignoring_case(before, d) && lists(kept, d) {
            before.push(d)
        } else {
            before
        }
    }
}

/// The paths that are not listed.
pub open spec fn not_in(paths: Seq<Seq<char>>, v: Seq<Seq<char>>) -> Seq<Seq<char>>
    decreases paths.len(),
{
    if paths.len() == 0 {
        Seq::empty()
    } else if v.contains(paths.last()) {
        not_in(paths.drop_last(), v)
    } else {
        not_in(paths.drop_last(), v).push(paths.last())
    }
}

/// The paths that are listed.
pub open spec fn only_in(paths: Seq<Seq<char>>, v: Seq<Seq<char>>) -> Seq<Seq<char>>
    decreases paths.len(),
{
    if paths.len() == 0 {
        Seq::empty()
    } else if v.contains(paths.last()) {
        only_in(paths.drop_last(), v).push(paths.last())
    } else {
        only_in(paths.drop_last(), v)
    }
}

/// What a deployment will do.
#[verifier::ext_equal]
pub struct PlanView {
    pub previous: Option<InstallView>,
    pub needs_backup: bool,
    pub preserved: Seq<Seq<char>>,
    pub snapshots: Seq<Seq<char>>,
    pub carried: Seq<Seq<char>>,
    pub displaced: Seq<Seq<char>>,
    pub removals: Seq<Seq<char>>,
    pub aside: Seq<Seq<char>>,
}

impl View for DeployPlan {
    type V = PlanView;

    open spec fn view(&self) -> PlanView {
        PlanView {
            previous: opt_install(self.previous),
            needs_backup: self.needs_backup,
            preserved: texts(self.preserved@),
            snapshots: texts(self.snapshots@),
            carried: texts(self.carried@),
            displaced: texts(self.displaced@),
            removals: texts(self.removals@),
            aside: texts(self.aside@),
        }
    }
}

/// The files of the previous install, if there is one.
pub open spec fn prev_files(prev: Option<InstallView>) -> Seq<ManagedView> {
    match prev {
        Some(p) => p.files,
        None => Seq::empty(),
    }
}

/// The user files that earlier installs displaced, where a backup folder holds
/// their snapshots.
pub open spec fn prev_displaced(prev: Option<InstallView>) -> Seq<Seq<char>> {
    match prev {
        Some(p) => if p.backup is Some {
            p.displaced
        } else {
            Seq::empty()
        },
        None => Seq::empty(),
    }
}

/// What deploying over the previous install will do, where `in_way` are the paths
/// in the way, in order, and `taken` the other paths that are written over. A
/// snapshot is taken of every file that is written over or removed.
pub open spec fn plan_over(
    in_way: Seq<Seq<char>>,
    taken: Seq<Seq<char>>,
    prev: Option<InstallView>,
    seen: Map<Seq<char>, Found>,
    kept: Seq<String>,
) -> PlanView {
    let files = prev_files(prev);
    let all = displaced_by(in_way, prev_displaced(prev), kept);
    let snapshots = unchanged(files, seen) + taken + in_way;
    let carried = all.skip(in_way.len() as int);
    PlanView {
        previous: prev,
        needs_backup: prev is Some || in_way.len() > 0,
        preserved: changed(files, seen),
        snapshots,
        carried,
        displaced: all,
        removals: not_in(paths_of(files), changed(files, seen)),
        aside: only_in(snapshots, carried),
    }
}

/// What deploying the files into the slot will do.
pub open spec fn plan_for(
    files: Seq<Placed>,
    installs: Map<Seq<char>, Install>,
    slot: Seq<Seq<char>>,
    seen: Map<Seq<char>, Found>,
    kept: Seq<String>,
) -> PlanView {
    let prev = opt_install(occupant(installs, slot));
    plan_over(
        sorted(in_the_way(files, installs, slot, seen)),
        overwritten(files, installs, slot, seen, unchanged(prev_files(prev), seen)),
        prev,
        seen,
        kept,
    )
}

/// What an optional install is.
pub open spec fn opt_install(i: Option<Install>) -> Option<InstallView> {
    match i {
        Some(i) => Some(i@),
        None => None,
    }
}

fn list_in_the_way(
    files: &Vec<DeployFile>,
    dir: Option<&GameDirState>,
    slot: &Vec<String>,
    seen: &StrMap<Found>,
) -> (out: Vec<String>)
    ensures
        texts(out@) == in_the_way(placements(files@), dir_map(dir), texts(slot@), seen@),
{
    let ghost ps = placements(files@);
    let mut out: Vec<String> = Vec::new();
    let mut i: usize = 0;
    proof {
        assert(ps.take(0) =~= Seq::<Placed>::empty());
        assert(texts(out@) =~= Seq::<Seq<char>>::empty());
    }
    while i < files.len()
        invariant
            i <= files@.len(),
            ps == placements(files@),
            texts(out@) == in_the_way(ps.take(i as int), dir_map(dir), texts(slot@), seen@),
        decreases files.len() - i,
    {
        let d = &files[i].dest_rel;
        proof {
            assert(ps.take(i + 1).drop_last() =~= ps.take(i as int));
            assert(ps.take(i + 1).last().dest == d@);
        }
        if is_there(seen, d.as_str()) && !slot_has_path(dir, slot, d.as_str()) {
            let ghost before = out@;
            out.push(d.clone());
            proof {
                assert(texts(out@) =~= texts(before).push(d@));
            }
        }
        i = i + 1;
    }
    proof {
        assert(ps.take(i as int) =~= ps);
    }
    out
}

fn list_overwritten(
    files: &Vec<DeployFile>,
    dir: Option<&GameDirState>,
    slot: &Vec<String>,
    seen: &StrMap<Found>,
    ours: &Vec<String>,
) -> (out: Vec<String>)
    ensures
        texts(out@) == overwritten(
            placements(files@),
            dir_map(dir),
            texts(slot@),
            seen@,
            texts(ours@),
        ),
{
    let ghost ps = placements(files@);
    let mut out: Vec<String> = Vec::new();
    let mut i: usize = 0;
    proof {
        assert(ps.take(0) =~= Seq::<Placed>::empty());
        assert(texts(out@) =~= Seq::<Seq<char>>::empty());
    }
    while i < files.len()
        invariant
            i <= files@.len(),
            ps == placements(files@),
            texts(out@) == overwritten(
                ps.take(i as int),
                dir_map(dir),
                texts(slot@),
                seen@,
                texts(ours@),
            ),
        decreases files.len() - i,
    {
        let d = &files[i].dest_rel;
        proof {
            assert(ps.take(i + 1).drop_last() =~= ps.take(i as int));
            assert(ps.take(i + 1).last().dest == d@);
            lemma_lists(ours@, d@);
        }
        if is_there(seen, d.as_str()) && slot_has_path(dir, slot, d.as_str()) && !list_has(
            ours,
            d.as_str(),
        ) {
            let ghost before = out@;
            out.push(d.clone());
            proof {
                assert(texts(out@) =~= texts(before).push(d@));
            }
        }
        i = i + 1;
    }
    proof {
        assert(ps.take(i as int) =~= ps);
    }
    out
}

/// The changed and the unchanged files of an install, of those that are there.
pub fn sort_out(files: &Vec<ManagedFile>, seen: &StrMap<Found>) -> (r: (Vec<String>, Vec<String>))
    ensures
        texts(r.0@) == changed(file_views(files@), seen@),
        texts(r.1@) == unchanged(file_views(files@), seen@),
{
    let ghost fs = file_views(files@);
    let mut mine: Vec<String> = Vec::new();
    let mut ours: Vec<String> = Vec::new();
    let mut i: usize = 0;
    proof {
        assert(fs.take(0) =~= Seq::<ManagedView>::empty());
        assert(texts(mine@) =~= Seq::<Seq<char>>::empty());
    }
    while i < files.len()
        invariant
            i <= files@.len(),
            fs == file_views(files@),
            texts(mine@) == changed(fs.take(i as int), seen@),
            texts(ours@) == unchanged(fs.take(i as int), seen@),
        decreases files.len() - i,
    {
        let f = &files[i];
        proof {
            assert(fs.take(i + 1).drop_last() =~= fs.take(i as int));
            assert(fs.take(i + 1).last() == f@);
        }
        if is_there(seen, f.path.as_str()) {
            if has_content(seen, f.path.as_str(), f.sha256.as_str()) {
                let ghost before = ours@;
                ours.push(f.path.clone());
                proof {
                    assert(texts(ours@) =~= texts(before).push(f.path@));
                }
            } else {
                let ghost before = mine@;
                mine.push(f.path.clone());
                proof {
                    assert(texts(mine@) =~= texts(before).push(f.path@));
                }
            }
        }
        i = i + 1;
    }
    proof {
        assert(fs.take(i as int) =~= fs);
    }
    (mine, ours)
}

fn listed_somehow(v: &Vec<String>, path: &str) -> (b: bool)
    ensures
        b == listed_ignoring_case(texts(v@), path@),
{
    let mut i: usize = 0;
    while i < v.len()
        invariant
            i <= v@.len(),
            forall|k: int|
                0 <= k < i ==> lower_ascii(#[trigger] texts(v@)[k]) != lower_ascii(path@),
        decreases v.len() - i,
    {
        proof {
            assert(texts(v@)[i as int] == v@[i as int]@);
        }
        if same_ignoring_case(v[i].as_str(), path) {
            return true;
        }
        i = i + 1;
    }
    false
}

fn carry_over(in_way: &Vec<String>, earlier: &Vec<String>, kept: &Vec<String>) -> (out: Vec<String>)
    ensures
        texts(out@) == displaced_by(texts(in_way@), texts(earlier@), kept@),
        texts(out@).len() >= in_way@.len(),
{
    let ghost es = texts(earlier@);
    let mut out: Vec<String> = own_all(in_way);
    let mut i: usize = 0;
    proof {
        assert(es.take(0) =~= Seq::<Seq<char>>::empty());
    }
    while i < earlier.len()
        invariant
            i <= earlier@.len(),
            es == texts(earlier@),
            out@.len() >= in_way@.len(),
            texts(out@) == displaced_by(texts(in_way@), es.take(i as int), kept@),
        decreases earlier.len() - i,
    {
        let d = &earlier[i];
        proof {
            assert(es.take(i + 1).drop_last() =~= es.take(i as int));
            assert(es.take(i + 1).last() == d@);
        }
        if !listed_somehow(&out, d.as_str()) && list_has(kept, d.as_str()) {
            let ghost before = out@;
            out.push(d.clone());
            proof {
                assert(texts(out@) =~= texts(before).push(d@));
            }
        }
        i = i + 1;
    }
    proof {
        assert(es.take(i as int) =~= es);
    }
    out
}

pub proof fn lemma_lists(v: Seq<String>, x: Seq<char>)
    ensures
        lists(v, x) <==> texts(v).contains(x),
{
    if lists(v, x) {
        let k = choose|k: int| 0 <= k < v.len() && #[trigger] v[k]@ == x;
        assert(texts(v)[k] == x);
    }
    if texts(v).contains(x) {
        let k = texts(v).index_of(x);
        assert(v[k]@ == x);
    }
}

/// The paths that are not listed.
pub fn without(paths: &Vec<String>, v: &Vec<String>) -> (out: Vec<String>)
    ensures
        texts(out@) == not_in(texts(paths@), texts(v@)),
{
    let ghost ps = texts(paths@);
    let mut out: Vec<String> = Vec::new();
    let mut i: usize = 0;
    proof {
        assert(ps.take(0) =~= Seq::<Seq<char>>::empty());
        assert(texts(out@) =~= Seq::<Seq<char>>::empty());
    }
    while i < paths.len()
        invariant
            i <= paths@.len(),
            ps == texts(paths@),
            texts(out@) == not_in(ps.take(i as int), texts(v@)),
        decreases paths.len() - i,
    {
        proof {
            assert(ps.take(i + 1).drop_last() =~= ps.take(i as int));
            assert(ps.take(i + 1).last() == paths@[i as int]@);
            lemma_lists(v@, paths@[i as int]@);
        }
        if !list_has(v, paths[i].as_str()) {
            let ghost before = out@;
            out.push(paths[i].clone());
            proof {
                assert(texts(out@) =~= texts(before).push(paths@[i as int]@));
            }
        }
        i = i + 1;
    }
    proof {
        assert(ps.take(i as int) =~= ps);
    }
    out
}

fn within(paths: &Vec<String>, v: &Vec<String>) -> (out: Vec<String>)
    ensures
        texts(out@) == only_in(texts(paths@), texts(v@)),
{
    let ghost ps = texts(paths@);
    let mut out: Vec<String> = Vec::new();
    let mut i: usize = 0;
    proof {
        assert(ps.take(0) =~= Seq::<Seq<char>>::empty());
        assert(texts(out@) =~= Seq::<Seq<char>>::empty());
    }
    while i < paths.len()
        invariant
            i <= paths@.len(),
            ps == texts(paths@),
            texts(out@) == only_in(ps.take(i as int), texts(v@)),
        decreases paths.len() - i,
    {
        proof {
            assert(ps.take(i + 1).drop_last() =~= ps.take(i as int));
            assert(ps.take(i + 1).last() == paths@[i as int]@);
            lemma_lists(v@, paths@[i as int]@);
        }
        if list_has(v, paths[i].as_str()) {
            let ghost before = out@;
            out.push(paths[i].clone());
            proof {
                assert(texts(out@) =~= texts(before).push(paths@[i as int]@));
            }
        }
        i = i + 1;
    }
    proof {
        assert(ps.take(i as int) =~= ps);
    }
    out
}

fn append_all(v: &mut Vec<String>, more: &Vec<String>)
    ensures
        texts(final(v)@) == texts(old(v)@) + texts(more@),
{
    let mut copy = own_all(more);
    let ghost a = v@;
    v.append(&mut copy);
    proof {
        assert(texts(v@) =~= texts(a) + texts(more@));
    }
}

/// The backup folder of the install that gives way, by its name, and the user
/// files that it displaced; none where nothing gives way or nothing was backed
/// up.
pub fn previous_backup(dir: Option<&GameDirState>, slot: &Vec<String>) -> (r: Option<
    (String, Vec<String>),
>)
    ensures
        match opt_install(occupant(dir_map(dir), texts(slot@))) {
            Some(p) => match p.backup {
                Some(b) => r matches Some(x) && x.0@ == b && texts(x.1@) == p.displaced,
                None => r is None,
            },
            None => r is None,
        },
{
    match find_occupant(dir, slot) {
        Some(p) => match &p.backup {
            Some(b) => Some((b.clone(), own_all(&p.displaced))),
            None => None,
        },
        None => None,
    }
}

/// The paths in the game directory that a deployment has to look at.
pub fn paths_to_look_at(req: &DeployRequest, dir: Option<&GameDirState>) -> (out: Vec<String>)
    ensures
        texts(out@) == placements(req.files@).map_values(|p: Placed| p.dest) + paths_of(
            prev_files(opt_install(occupant(dir_map(dir), texts(req.slot@)))),
        ),
{
    let ghost want = placements(req.files@).map_values(|p: Placed| p.dest);
    let mut out: Vec<String> = Vec::new();
    let mut i: usize = 0;
    while i < req.files.len()
        invariant
            i <= req.files@.len(),
            want == placements(req.files@).map_values(|p: Placed| p.dest),
            texts(out@) =~= want.take(i as int),
        decreases req.files.len() - i,
    {
        let ghost before = out@;
        out.push(req.files[i].dest_rel.clone());
        proof {
            assert(texts(out@) =~= texts(before).push(want[i as int]));
            assert(want.take(i + 1) =~= want.take(i as int).push(want[i as int]));
        }
        i = i + 1;
    }
    proof {
        assert(want.take(i as int) =~= want);
    }
    match find_occupant(dir, req.slot) {
        Some(p) => {
            let mut more = p.managed_paths();
            let ghost a = out@;
            let ghost b = more@;
            out.append(&mut more);
            proof {
                assert(texts(out@) =~= texts(a) + texts(b));
            }
        },
        None => {
            proof {
                assert(texts(out@) =~= want + paths_of(prev_files(None)));
            }
        },
    }
    out
}

/// Plans a deployment. `seen` is what was found at the paths to look at, and
/// `kept` are the displaced user files of the previous install whose snapshots
/// are in its backup folder. A dry run plans nothing.
pub fn deploy(
    req: &DeployRequest,
    dir: Option<&GameDirState>,
    seen: &StrMap<Found>,
    kept: &Vec<String>,
) -> (plan: DeployPlan)
    ensures
        plan@ == if req.dry_run {
            plan_over(Seq::empty(), Seq::empty(), None, seen@, kept@)
        } else {
            plan_for(placements(req.files@), dir_map(dir), texts(req.slot@), seen@, kept@)
        },
{
    let none: Vec<String> = Vec::new();
    proof {
        assert(texts(none@) =~= Seq::<Seq<char>>::empty());
    }
    if req.dry_run {
        let plan = DeployPlan {
            previous: None,
            needs_backup: false,
            preserved: Vec::new(),
            snapshots: Vec::new(),
            carried: Vec::new(),
            displaced: Vec::new(),
            removals: Vec::new(),
            aside: Vec::new(),
        };
        proof {
            let want = plan_over(Seq::empty(), Seq::empty(), None, seen@, kept@);
            assert(want.snapshots =~= Seq::<Seq<char>>::empty());
            assert(plan@ =~= want);
        }
        return plan;
    }
    let raw = list_in_the_way(req.files, dir, req.slot, seen);
    let in_way = sort_texts(&raw);
    let ghost ws = texts(in_way@);
    let found = find_occupant(dir, req.slot);
    let (preserved, mut snapshots) = match found {
        Some(p) => sort_out(&p.files, seen),
        None => (Vec::new(), Vec::new()),
    };
    let ghost prev = opt_install(occupant(dir_map(dir), texts(req.slot@)));
    proof {
        assert(texts(preserved@) =~= changed(prev_files(prev), seen@));
        assert(texts(snapshots@) =~= unchanged(prev_files(prev), seen@));
    }
    let taken = list_overwritten(req.files, dir, req.slot, seen, &snapshots);
    append_all(&mut snapshots, &taken);
    append_all(&mut snapshots, &in_way);
    let displaced = match found {
        Some(p) => match &p.backup {
            Some(_) => carry_over(&in_way, &p.displaced, kept),
            None => carry_over(&in_way, &none, kept),
        },
        None => carry_over(&in_way, &none, kept),
    };
    let mut carried: Vec<String> = Vec::new();
    let mut i: usize = in_way.len();
    while i < displaced.len()
        invariant
            in_way@.len() <= i <= displaced@.len(),
            texts(carried@) =~= texts(displaced@).subrange(in_way@.len() as int, i as int),
        decreases displaced.len() - i,
    {
        let ghost before = carried@;
        carried.push(displaced[i].clone());
        proof {
            let all = texts(displaced@);
            let n = in_way@.len() as int;
            assert(texts(carried@) =~= texts(before).push(all[i as int]));
            assert(all.subrange(n, i + 1) =~= all.subrange(n, i as int).push(all[i as int]));
        }
        i = i + 1;
    }
    let removals = match found {
        Some(p) => {
            let paths = p.managed_paths();
            without(&paths, &preserved)
        },
        None => Vec::new(),
    };
    let previous = match found {
        Some(p) => Some(p.copy()),
        None => None,
    };
    let aside = within(&snapshots, &carried);
    let plan = DeployPlan {
        needs_backup: previous.is_some() || in_way.len() > 0,
        previous,
        preserved,
        snapshots,
        carried,
        displaced,
        removals,
        aside,
    };
    proof {
        let want = plan_for(
            placements(req.files@),
            dir_map(dir),
            texts(req.slot@),
            seen@,
            kept@,
        );
        assert(texts(plan.displaced@) == want.displaced);
        assert(texts(plan.carried@) =~= texts(plan.displaced@).skip(ws.len() as int));
        assert(texts(plan.removals@) =~= want.removals);
        assert(plan@ =~= want);
    }
    plan
}

// ---------------------------------------------------------------------------
// The record
// ---------------------------------------------------------------------------

/// The operations that wrote the files; `saved` are the paths with a snapshot in
/// the backup folder.
pub open spec fn writes(files: Seq<Placed>, saved: Seq<String>) -> Seq<OpView> {
    files.map_values(
        |p: Placed|
            OpView::Overwrite {
                to: p.dest,
                digest: p.sha256,
                before: if lists(saved, p.dest) {
                    Some(p.dest)
                } else {
                    None
                },
            },
    )
}

/// One of the files goes to this path, up to case.
pub open spec fn goes_to(files: Seq<Placed>, path: Seq<char>) -> bool {
    exists|i: int| 0 <= i < files.len() && lowercase((#[trigger] files[i]).dest) == lowercase(path)
}

/// The operations that deleted files of the previous install which are not
/// written anew and which nobody changed.
pub open spec fn deletes(
    prev: Seq<ManagedView>,
    files: Seq<Placed>,
    seen: Map<Seq<char>, Found>,
    saved: Seq<String>,
) -> Seq<OpView>
    decreases prev.len(),
{
    if prev.len() == 0 {
        Seq::empty()
    } else {
        let before = deletes(prev.drop_last(), files, seen, saved);
        let f = prev.last();
        if !goes_to(files, f.path) && look(seen, f.path) == FoundView::Content(f.sha256) {
            before.push(
                OpView::Delete {
                    path: f.path,
                    before: if lists(saved, f.path) {
                        Some(f.path)
                    } else {
                        None
                    },
                },
            )
        } else {
            before
        }
    }
}

/// The undo script of a deployment.
pub open spec fn script_of(
    files: Seq<Placed>,
    prev: Seq<ManagedView>,
    seen: Map<Seq<char>, Found>,
    saved: Seq<String>,
) -> Seq<OpView> {
    writes(files, saved) + deletes(prev, files, seen, saved)
}

/// The top-level directories that the files go to, each once up to case.
pub open spec fn top_dirs(files: Seq<Placed>) -> Seq<Seq<char>>
    decreases files.len(),
{
    if files.len() == 0 {
        Seq::empty()
    } else {
        let before = top_dirs(files.drop_last());
        let d = files.last().dest;
        let first = d.take(first_of(d, '/'));
        if first.len() > 0 && first.len() < d.len() && !listed_ignoring_case(before, first) {
            before.push(first)
        } else {
            before
        }
    }
}

/// Where a deployed file came from: its path below the store, or its whole path
/// where it is not in the store.
pub open spec fn source_of(src: Seq<char>, store: Seq<char>) -> Seq<char> {
    if begins(src, store + "/"@) {
        "store/"@ + swapped_char(src.skip((store + "/"@).len() as int), '\\', '/')
    } else {
        src
    }
}

/// What is recorded of the files.
pub open spec fn managed(files: Seq<DeployFile>, store: Seq<char>) -> Seq<ManagedView> {
    files.map_values(
        |f: DeployFile|
            ManagedView {
                path: f.dest_rel@,
                source: source_of(f.src@, store),
                sha256: f.sha256@,
            },
    )
}

fn snapshot_of(saved: &Vec<String>, path: &String) -> (r: Option<String>)
    ensures
        opt(r) == if lists(saved@, path@) {
            Some(path@)
        } else {
            None
        },
{
    if list_has(saved, path.as_str()) {
        Some(path.clone())
    } else {
        None
    }
}

fn written_anew(files: &Vec<DeployFile>, path: &str) -> (b: bool)
    ensures
        b == goes_to(placements(files@), path@),
{
    let low = to_lower(path);
    let mut i: usize = 0;
    while i < files.len()
        invariant
            i <= files@.len(),
            low@ == lowercase(path@),
            forall|k: int|
                0 <= k < i ==> lowercase((#[trigger] placements(files@)[k]).dest) != lowercase(
                    path@,
                ),
        decreases files.len() - i,
    {
        let other = to_lower(files[i].dest_rel.as_str());
        if other == low {
            proof {
                assert(lowercase(placements(files@)[i as int].dest) == lowercase(path@));
            }
            return true;
        }
        i = i + 1;
    }
    false
}

/// The undo script of a deployment; `saved` are the paths with a snapshot in the
/// backup folder.
pub fn undo_script(
    files: &Vec<DeployFile>,
    previous: &Option<Install>,
    seen: &StrMap<Found>,
    saved: &Vec<String>,
) -> (out: Vec<Op>)
    ensures
        op_views(out@) == script_of(
            placements(files@),
            prev_files(opt_install(*previous)),
            seen@,
            saved@,
        ),
{
    let ghost ps = placements(files@);
    let ghost want = writes(ps, saved@);
    let mut out: Vec<Op> = Vec::new();
    let mut i: usize = 0;
    while i < files.len()
        invariant
            i <= files@.len(),
            ps == placements(files@),
            want == writes(ps, saved@),
            op_views(out@) =~= want.take(i as int),
        decreases files.len() - i,
    {
        let f = &files[i];
        let ghost before = out@;
        out.push(
            Op::Overwrite {
                to: f.dest_rel.clone(),
                digest: f.sha256.clone(),
                before: snapshot_of(saved, &f.dest_rel),
            },
        );
        proof {
            assert(op_views(out@) =~= op_views(before).push(want[i as int]));
            assert(want.take(i + 1) =~= want.take(i as int).push(want[i as int]));
        }
        i = i + 1;
    }
    proof {
        assert(want.take(i as int) =~= want);
        assert(want + Seq::<OpView>::empty() =~= want);
    }
    if let Some(p) = previous {
        let ghost fs = file_views(p.files@);
        let mut j: usize = 0;
        proof {
            assert(fs.take(0) =~= Seq::<ManagedView>::empty());
        }
        while j < p.files.len()
            invariant
                j <= p.files@.len(),
                fs == file_views(p.files@),
                ps == placements(files@),
                op_views(out@) == want + deletes(fs.take(j as int), ps, seen@, saved@),
            decreases p.files.len() - j,
        {
            let f = &p.files[j];
            proof {
                assert(fs.take(j + 1).drop_last() =~= fs.take(j as int));
                assert(fs.take(j + 1).last() == f@);
            }
            if !written_anew(files, f.path.as_str()) && has_content(
                seen,
                f.path.as_str(),
                f.sha256.as_str(),
            ) {
                let ghost before = out@;
                let ghost d = deletes(fs.take(j as int), ps, seen@, saved@);
                let op = Op::Delete {
                    path: f.path.clone(),
                    before: snapshot_of(saved, &f.path),
                };
                let ghost ov = op@;
                out.push(op);
                proof {
                    assert(op_views(out@) =~= op_views(before).push(ov));
                    assert((want + d).push(ov) =~= want + d.push(ov));
                }
            }
            j = j + 1;
        }
        proof {
            assert(fs.take(j as int) =~= fs);
        }
    }
    out
}

/// The top-level directories that the files go to.
fn owned_dirs_of(files: &Vec<DeployFile>) -> (out: Vec<String>)
    ensures
        texts(out@) == top_dirs(placements(files@)),
{
    let ghost ps = placements(files@);
    let mut out: Vec<String> = Vec::new();
    let mut i: usize = 0;
    proof {
        assert(ps.take(0) =~= Seq::<Placed>::empty());
        assert(texts(out@) =~= Seq::<Seq<char>>::empty());
    }
    while i < files.len()
        invariant
            i <= files@.len(),
            ps == placements(files@),
            texts(out@) == top_dirs(ps.take(i as int)),
        decreases files.len() - i,
    {
        let d = chars_of(files[i].dest_rel.as_str());
        proof {
            assert(ps.take(i + 1).drop_last() =~= ps.take(i as int));
            assert(ps.take(i + 1).last().dest == d@);
            crate::text::lemma_first_of(d@, '/');
        }
        if let Some(k) = find_char(&d, '/') {
            let first = slice_text(&d, 0, k);
            proof {
                assert(d@.subrange(0, k as int) =~= d@.take(k as int));
            }
            if k > 0 && !listed_somehow(&out, first.as_str()) {
                let ghost before = out@;
                let ghost fv = first@;
                out.push(first);
                proof {
                    assert(texts(out@) =~= texts(before).push(fv));
                }
            }
        }
        i = i + 1;
    }
    proof {
        assert(ps.take(i as int) =~= ps);
    }
    out
}

fn source_label(src: &str, store: &str) -> (out: String)
    ensures
        out@ == source_of(src@, store@),
{
    let root = cat(store, "/");
    if starts_with(src, root.as_str()) {
        let v = chars_of(src);
        let r = chars_of(root.as_str());
        let rest = skip_text(&v, r.len());
        let tail = replace_char(rest.as_str(), '\\', '/');
        cat("store/", tail.as_str())
    } else {
        own(src)
    }
}

/// What is recorded of a deployment: `backup` is the name of the backup folder,
/// `saved` the paths with a snapshot in it, `store` the root of the store and
/// `now` the time.
pub fn install_record(
    req: &DeployRequest,
    plan: &DeployPlan,
    seen: &StrMap<Found>,
    saved: &Vec<String>,
    backup: Option<String>,
    store: &str,
    now: u64,
) -> (r: Install)
    ensures
        r@ == (InstallView {
            package: req.product.id@,
            version: req.version@,
            files: managed(req.files@, store@),
            owned_dirs: top_dirs(placements(req.files@)),
            backup: opt(backup),
            displaced: plan@.displaced,
            script: script_of(
                placements(req.files@),
                prev_files(opt_install(plan.previous)),
                seen@,
                saved@,
            ),
            at: now,
        }),
{
    let ghost want = managed(req.files@, store@);
    let mut files: Vec<ManagedFile> = Vec::new();
    let mut i: usize = 0;
    while i < req.files.len()
        invariant
            i <= req.files@.len(),
            want == managed(req.files@, store@),
            file_views(files@) =~= want.take(i as int),
        decreases req.files.len() - i,
    {
        let f = &req.files[i];
        let ghost before = files@;
        files.push(
            ManagedFile {
                path: f.dest_rel.clone(),
                source: source_label(f.src.as_str(), store),
                sha256: f.sha256.clone(),
            },
        );
        proof {
            assert(file_views(files@) =~= file_views(before).push(want[i as int]));
            assert(want.take(i + 1) =~= want.take(i as int).push(want[i as int]));
        }
        i = i + 1;
    }
    proof {
        assert(want.take(i as int) =~= want);
    }
    Install {
        package: req.product.id.clone(),
        version: own(req.version),
        files,
        owned_dirs: owned_dirs_of(req.files),
        backup,
        displaced: own_all(&plan.displaced),
        script: undo_script(req.files, &plan.previous, seen, saved),
        at: now,
    }
}

/// The installs without those of the slot.
pub open spec fn evicted(installs: Map<Seq<char>, Install>, slot: Seq<Seq<char>>) -> Map<
    Seq<char>,
    Install,
> {
    installs.remove_keys(slot.to_set())
}

/// Records an install: every install of the slot is struck out, then the new one
/// is put under its id.
pub fn record_install(
    st: &mut StateFile,
    key: &str,
    slot: &Vec<String>,
    id: &str,
    install: Install,
)
    ensures
        final(st).schema == old(st).schema,
        forall|k: Seq<char>|
            k != key@ ==> (final(st).dirs@.dom().contains(k) <==> old(st).dirs@.dom().contains(k)),
        forall|k: Seq<char>|
            k != key@ && old(st).dirs@.dom().contains(k) ==> #[trigger] final(st).dirs@[k] == old(
                st,
            ).dirs@[k],
        installs_at(*final(st), key@) == evicted(installs_at(*old(st), key@), texts(slot@)).insert(
            id@,
            install,
        ),
{
    let mut d = match st.dirs.remove(key) {
        Some(d) => d,
        None => GameDirState { installs: StrMap::new() },
    };
    let ghost start = d.installs@;
    let ghost s = texts(slot@);
    proof {
        assert(start =~= installs_at(*old(st), key@));
        assert(s.take(0).to_set() =~= Set::empty());
        assert(evicted(start, s.take(0)) =~= start);
    }
    let mut i: usize = 0;
    while i < slot.len()
        invariant
            i <= slot@.len(),
            s == texts(slot@),
            d.installs@ == evicted(start, s.take(i as int)),
        decreases slot.len() - i,
    {
        proof {
            let x = slot@[i as int]@;
            assert(s.take(i + 1) =~= s.take(i as int).push(x));
            assert forall|k: Seq<char>| s.take(i + 1).to_set().contains(k) <==> s.take(
                i as int,
            ).to_set().contains(k) || k == x by {
                if s.take(i as int).contains(k) {
                    let m = s.take(i as int).index_of(k);
                    assert(s.take(i + 1)[m] == k);
                }
                assert(s.take(i + 1)[i as int] == x);
            }
            assert(evicted(start, s.take(i as int)).remove(x) =~= evicted(start, s.take(i + 1)));
        }
        d.installs.remove(slot[i].as_str());
        i = i + 1;
    }
    proof {
        assert(s.take(i as int) =~= s);
    }
    d.installs.insert(own(id), install);
    st.put_dir(key, d);
}

// ---------------------------------------------------------------------------
// Taking a failed deployment back
// ---------------------------------------------------------------------------

/// The files that a failed deployment leaves behind: those with no snapshot to
/// put in their place.
pub open spec fn leftovers(files: Seq<Placed>, snapshots: Seq<Seq<char>>) -> Seq<Seq<char>> {
    not_in(files.map_values(|p: Placed| p.dest), snapshots)
}

/// The files that are deleted when a deployment failed, once the snapshots are
/// back in place.
pub fn rollback_deletes(files: &Vec<DeployFile>, plan: &DeployPlan) -> (out: Vec<String>)
    ensures
        texts(out@) == leftovers(placements(files@), plan@.snapshots),
{
    let ghost want = placements(files@).map_values(|p: Placed| p.dest);
    let mut dests: Vec<String> = Vec::new();
    let mut i: usize = 0;
    while i < files.len()
        invariant
            i <= files@.len(),
            want == placements(files@).map_values(|p: Placed| p.dest),
            texts(dests@) =~= want.take(i as int),
        decreases files.len() - i,
    {
        let ghost before = dests@;
        dests.push(files[i].dest_rel.clone());
        proof {
            assert(texts(dests@) =~= texts(before).push(want[i as int]));
            assert(want.take(i + 1) =~= want.take(i as int).push(want[i as int]));
        }
        i = i + 1;
    }
    proof {
        assert(want.take(i as int) =~= want);
    }
    without(&dests, &plan.snapshots)
}

/// The snapshots that are put back when a deployment failed, and whether each is
/// taken from those that were kept elsewhere, not from the backup folder.
pub fn rollback_restores(plan: &DeployPlan) -> (out: Vec<(String, bool)>)
    ensures
        out@.map_values(|x: (String, bool)| (x.0@, x.1)) == plan@.snapshots.map_values(
            |p: Seq<char>| (p, plan@.aside.contains(p)),
        ),
{
    let ghost want = plan@.snapshots.map_values(|p: Seq<char>| (p, plan@.aside.contains(p)));
    let mut out: Vec<(String, bool)> = Vec::new();
    let mut i: usize = 0;
    while i < plan.snapshots.len()
        invariant
            i <= plan.snapshots@.len(),
            want == plan@.snapshots.map_values(|p: Seq<char>| (p, plan@.aside.contains(p))),
            out@.map_values(|x: (String, bool)| (x.0@, x.1)) =~= want.take(i as int),
        decreases plan.snapshots.len() - i,
    {
        let p = &plan.snapshots[i];
        proof {
            lemma_lists(plan.aside@, p@);
            assert(want[i as int] == (p@, plan@.aside.contains(p@)));
            assert(want.take(i + 1) =~= want.take(i as int).push(want[i as int]));
        }
        let ghost before = out@;
        out.push((p.clone(), list_has(&plan.aside, p.as_str())));
        proof {
            assert(out@.map_values(|x: (String, bool)| (x.0@, x.1)) =~= before.map_values(
                |x: (String, bool)| (x.0@, x.1),
            ).push(want[i as int]));
        }
        i = i + 1;
    }
    proof {
        assert(want.take(i as int) =~= want);
    }
    out
}

/// The lines that report on snapshots that were, or could not be, put back.
pub open spec fn restore_lines(restored: Seq<(String, bool)>) -> Seq<Seq<char>> {
    restored.map_values(
        |r: (String, bool)|
            if r.1 {
                "restored snapshot: "@ + r.0@
            } else {
                "FAILED to restore snapshot: "@ + r.0@
            },
    )
}

/// The lines that report on deleted files.
pub open spec fn delete_lines(deleted: Seq<String>) -> Seq<Seq<char>> {
    deleted.map_values(|d: String| "deleted staged file: "@ + d@)
}

/// The message of a deployment that failed for `cause` and was taken back.
pub fn rollback_report(
    cause: &str,
    restored: &Vec<(String, bool)>,
    deleted: &Vec<String>,
) -> (out: String)
    ensures
        out@ == "rolled back - previous state intact\n"@ + joined(
            seq!["deployment failed: "@ + cause@] + restore_lines(restored@) + delete_lines(
                deleted@,
            ),
            "\n  "@,
        ),
{
    let mut lines: Vec<String> = Vec::new();
    lines.push(cat("deployment failed: ", cause));
    let ghost head = seq!["deployment failed: "@ + cause@];
    let ghost a = restore_lines(restored@);
    let ghost b = delete_lines(deleted@);
    let mut i: usize = 0;
    proof {
        assert(texts(lines@) =~= head + a.take(0));
    }
    while i < restored.len()
        invariant
            i <= restored@.len(),
            a == restore_lines(restored@),
            texts(lines@) =~= head + a.take(i as int),
        decreases restored.len() - i,
    {
        let line = if restored[i].1 {
            cat("restored snapshot: ", restored[i].0.as_str())
        } else {
            cat("FAILED to restore snapshot: ", restored[i].0.as_str())
        };
        let ghost before = lines@;
        lines.push(line);
        proof {
            assert(texts(lines@) =~= texts(before).push(a[i as int]));
            assert(head + a.take(i + 1) =~= (head + a.take(i as int)).push(a[i as int]));
        }
        i = i + 1;
    }
    proof {
        assert(a.take(i as int) =~= a);
    }
    let mut j: usize = 0;
    proof {
        assert(texts(lines@) =~= head + a + b.take(0));
    }
    while j < deleted.len()
        invariant
            j <= deleted@.len(),
            b == delete_lines(deleted@),
            texts(lines@) =~= head + a + b.take(j as int),
        decreases deleted.len() - j,
    {
        let ghost before = lines@;
        lines.push(cat("deleted staged file: ", deleted[j].as_str()));
        proof {
            assert(texts(lines@) =~= texts(before).push(b[j as int]));
            assert(head + a + b.take(j + 1) =~= (head + a + b.take(j as int)).push(b[j as int]));
        }
        j = j + 1;
    }
    proof {
        assert(b.take(j as int) =~= b);
    }
    let body = join(&lines, "\n  ");
    cat("rolled back - previous state intact\n", body.as_str())
}

/// Every install of the slot is struck out, and no other.
pub proof fn law_the_slot_is_cleared(
    installs: Map<Seq<char>, Install>,
    slot: Seq<Seq<char>>,
    id: Seq<char>,
)
    ensures
        evicted(installs, slot).dom().contains(id) <==> installs.dom().contains(id)
            && forall|i: int| 0 <= i < slot.len() ==> #[trigger] slot[i] != id,
        evicted(installs, slot).dom().contains(id) ==> evicted(installs, slot)[id] == installs[id],
{
    assert(slot.to_set().contains(id) <==> slot.contains(id));
    if slot.contains(id) {
        let i = slot.index_of(id);
        assert(slot[i] == id);
    }
}

proof fn lemma_top_dirs(files: Seq<Placed>)
    ensures
        forall|i: int|
            #![trigger files[i]]
            0 <= i < files.len() && 0 < first_of(files[i].dest, '/') < files[i].dest.len()
                ==> listed_ignoring_case(
                top_dirs(files),
                files[i].dest.take(first_of(files[i].dest, '/')),
            ),
        forall|k: int| 0 <= k < top_dirs(files).len() ==> heads(files, #[trigger] top_dirs(files)[k]),
        forall|k: int, l: int|
            0 <= k < l < top_dirs(files).len() ==> lower_ascii(#[trigger] top_dirs(files)[k])
                != lower_ascii(#[trigger] top_dirs(files)[l]),
    decreases files.len(),
{
    if files.len() > 0 {
        let t = files.drop_last();
        let l = files.len() - 1;
        let b = top_dirs(t);
        let v = top_dirs(files);
        let d = files.last().dest;
        let first = d.take(first_of(d, '/'));
        lemma_top_dirs(t);
        lemma_first_of(d, '/');
        assert(files[l] == files.last());
        assert forall|i: int|
            #![trigger files[i]]
            0 <= i < files.len() && 0 < first_of(files[i].dest, '/')
                < files[i].dest.len() implies listed_ignoring_case(
            v,
            files[i].dest.take(first_of(files[i].dest, '/')),
        ) by {
            let x = files[i].dest.take(first_of(files[i].dest, '/'));
            if i < l {
                assert(t[i] == files[i]);
            }
            if listed_ignoring_case(b, x) {
                let k = choose|k: int|
                    0 <= k < b.len() && lower_ascii(#[trigger] b[k]) == lower_ascii(x);
                assert(v[k] == b[k]);
            } else {
                assert(v[b.len() as int] == first);
            }
        }
        assert forall|k: int| 0 <= k < v.len() implies heads(files, #[trigger] v[k]) by {
            if k < b.len() {
                assert(v[k] == b[k]);
                assert(heads(t, b[k]));
                let i = choose|i: int|
                    0 <= i < t.len() && 0 < first_of((#[trigger] t[i]).dest, '/')
                        < t[i].dest.len() && b[k] == t[i].dest.take(first_of(t[i].dest, '/'));
                assert(files[i] == t[i]);
            } else {
                assert(first.len() == first_of(d, '/'));
                assert(files[l].dest == d);
            }
        }
        assert forall|k: int, m: int| 0 <= k < m < v.len() implies lower_ascii(#[trigger] v[k])
            != lower_ascii(#[trigger] v[m]) by {
            assert(v[k] == b[k]);
            if m < b.len() {
                assert(v[m] == b[m]);
            }
        }
    }
}

spec fn heads(files: Seq<Placed>, x: Seq<char>) -> bool {
    exists|i: int|
        0 <= i < files.len() && 0 < first_of((#[trigger] files[i]).dest, '/') < files[i].dest.len()
            && x == files[i].dest.take(first_of(files[i].dest, '/'))
}

/// The directories that an install owns are the first parts of the paths of its
/// files that lie in a directory, each once up to the case of ASCII letters.
pub proof fn law_owned_directories(files: Seq<Placed>)
    ensures
        forall|i: int, n: int|
            #![trigger files[i].dest[n]]
            0 <= i < files.len() && 0 < n < files[i].dest.len() && files[i].dest[n] == '/'
                && !files[i].dest.take(n).contains('/') ==> exists|k: int|
                0 <= k < top_dirs(files).len() && lower_ascii(#[trigger] top_dirs(files)[k])
                    == lower_ascii(files[i].dest.take(n)),
        forall|k: int|
            0 <= k < top_dirs(files).len() ==> {
                let d = #[trigger] top_dirs(files)[k];
                d.len() > 0 && !d.contains('/') && exists|i: int|
                    0 <= i < files.len() && begins((#[trigger] files[i]).dest, d.push('/'))
            },
        forall|k: int, l: int|
            0 <= k < l < top_dirs(files).len() ==> lower_ascii(#[trigger] top_dirs(files)[k])
                != lower_ascii(#[trigger] top_dirs(files)[l]),
{
    lemma_top_dirs(files);
    assert forall|i: int, n: int|
        #![trigger files[i].dest[n]]
        0 <= i < files.len() && 0 < n < files[i].dest.len() && files[i].dest[n] == '/'
            && !files[i].dest.take(n).contains('/') implies listed_ignoring_case(
        top_dirs(files),
        files[i].dest.take(n),
    ) by {
        let d = files[i].dest;
        assert forall|j: int| 0 <= j < n implies d[j] != '/' by {
            assert(d.take(n)[j] == d[j]);
        }
        lemma_first_of_is(d, '/', n);
    }
    assert forall|k: int| 0 <= k < top_dirs(files).len() implies ({
        let d = #[trigger] top_dirs(files)[k];
        d.len() > 0 && !d.contains('/') && exists|i: int|
            0 <= i < files.len() && begins((#[trigger] files[i]).dest, d.push('/'))
    }) by {
        let d = top_dirs(files)[k];
        assert(heads(files, d));
        let i = choose|i: int|
            0 <= i < files.len() && 0 < first_of((#[trigger] files[i]).dest, '/')
                < files[i].dest.len() && d == files[i].dest.take(first_of(files[i].dest, '/'));
        let x = files[i].dest;
        lemma_first_of(x, '/');
        let n = first_of(x, '/');
        assert(x.subrange(0, n + 1) =~= d.push('/'));
        assert(begins(files[i].dest, d.push('/')));
    }
}

/// A file of the store is recorded by its path below the store, and any other by
/// its whole path.
pub proof fn law_sources_lie_in_the_store(store: Seq<char>, rest: Seq<char>, src: Seq<char>)
    requires
        !rest.contains('\\'),
        !begins(src, store.push('/')),
    ensures
        source_of(store.push('/') + rest, store) == "store/"@ + rest,
        source_of(src, store) == src,
{
    reveal_strlit("/");
    assert("/"@ =~= seq!['/']);
    assert(store + "/"@ =~= store.push('/'));
    let whole = store.push('/') + rest;
    assert(whole.subrange(0, store.push('/').len() as int) =~= store.push('/'));
    assert(whole.skip(store.push('/').len() as int) =~= rest);
    assert forall|i: int| 0 <= i < rest.len() implies rest[i] != '\\' by {
        assert(rest.contains(rest[i]));
    }
    assert(swapped_char(rest, '\\', '/') =~= rest);
}

/// What is recorded of a deployment is what was deployed: the package and its
/// version, a file for each that was written, with its path and its digest, the
/// user files that were displaced, and the backup folder.
pub proof fn law_records_tell_what_was_deployed(
    req: &DeployRequest,
    plan: &DeployPlan,
    seen: &StrMap<Found>,
    saved: &Vec<String>,
    backup: Option<String>,
    store: &str,
    now: u64,
    r: Install,
)
    requires
        call_ensures(install_record, (req, plan, seen, saved, backup, store, now), r),
    ensures
        r.package@ == req.product.id@,
        r.version@ == req.version@,
        r.at == now,
        r.backup is Some <==> backup is Some,
        backup is Some ==> r.backup->0@ == backup->0@,
        texts(r.displaced@) == texts(plan.displaced@),
        r.files@.len() == req.files@.len(),
        forall|i: int|
            0 <= i < req.files@.len() ==> (#[trigger] r.files@[i]).path@ == req.files@[i].dest_rel@
                && r.files@[i].sha256@ == req.files@[i].sha256@,
{
    let v = r@.files;
    assert(v.len() == r.files@.len());
    assert forall|i: int| 0 <= i < req.files@.len() implies (#[trigger] r.files@[i]).path@
        == req.files@[i].dest_rel@ && r.files@[i].sha256@ == req.files@[i].sha256@ by {
        assert(v[i].path == r.files@[i].path@);
        assert(v[i].sha256 == r.files@[i].sha256@);
    }
}

/// A failed deployment is taken back file by file: every snapshot that was taken is
/// put back, and a file of the release goes exactly where there is no snapshot to
/// put in its place.
pub proof fn law_taking_back_covers_all(
    files: &Vec<DeployFile>,
    plan: &DeployPlan,
    gone: Vec<String>,
    back: Vec<(String, bool)>,
    i: int,
)
    requires
        call_ensures(rollback_deletes, (files, plan), gone),
        call_ensures(rollback_restores, (plan,), back),
        0 <= i < files@.len(),
    ensures
        texts(gone@).contains(files@[i].dest_rel@) <==> !texts(plan.snapshots@).contains(
            files@[i].dest_rel@,
        ),
        back@.len() == plan.snapshots@.len(),
        forall|k: int|
            0 <= k < back@.len() ==> (#[trigger] back@[k]).0@ == plan.snapshots@[k]@ && (back@[k].1
                <==> texts(plan.aside@).contains(plan.snapshots@[k]@)),
{
    let dests = placements(files@).map_values(|p: Placed| p.dest);
    assert(dests[i] == files@[i].dest_rel@);
    crate::restoring::lemma_not_in(dests, texts(plan.snapshots@), files@[i].dest_rel@);
    let a = back@.map_values(|x: (String, bool)| (x.0@, x.1));
    let b = plan@.snapshots.map_values(|p: Seq<char>| (p, plan@.aside.contains(p)));
    assert(a.len() == b.len());
    assert forall|k: int| 0 <= k < back@.len() implies (#[trigger] back@[k]).0@
        == plan.snapshots@[k]@ && (back@[k].1 <==> texts(plan.aside@).contains(
        plan.snapshots@[k]@,
    )) by {
        assert(a[k] == (back@[k].0@, back@[k].1));
        assert(b[k] == a[k]);
        assert(plan@.snapshots[k] == plan.snapshots@[k]@);
    }
}

} // verus!
