//! What deploying and removing do to the files of a game, and that removing
//! gives back what deploying took.

use vstd::prelude::*;
use crate::deploy::{
    changed, deletes, displaced_by, goes_to, has_path, in_the_way, leftovers, listed_ignoring_case,
    look, not_in, occupant, only_in, opt_install, overwritten, plan_for, prev_displaced, prev_files,
    script_of, slot_manages, unchanged, writes, Placed, PlanView,
};
use crate::order::{lemma_sorted, sorted};
use crate::state::{paths_of, Install, InstallView, ManagedView, OpView};
use crate::text::{lists, lower_ascii, lowercase};
use crate::undo::{
    found_in, in_place, lemma_touched, lemma_untouched, op_before, op_path, played_back, touches,
    Files, Found, FoundView,
};

verus! {

/// The backup folder once the snapshots are taken and the earlier ones are
/// carried over; `old` is the previous backup folder.
pub open spec fn backup_after(plan: PlanView, game: Files, old: Files) -> Files {
    Map::new(
        |p: Seq<char>| plan.snapshots.contains(p) || plan.carried.contains(p),
        |p: Seq<char>|
            if plan.carried.contains(p) {
                old[p]
            } else {
                game[p]
            },
    )
}

/// The files with those of a release written over them, in order.
pub open spec fn written(game: Files, files: Seq<Placed>) -> Files
    decreases files.len(),
{
    if files.len() == 0 {
        game
    } else {
        written(game, files.drop_last()).insert(files.last().dest, files.last().sha256)
    }
}

/// The game files after a deployment.
pub open spec fn game_after(plan: PlanView, game: Files, files: Seq<Placed>) -> Files {
    written(game.remove_keys(plan.removals.to_set()), files)
}

/// One of the files of a release goes to exactly this path.
pub open spec fn lands_at(files: Seq<Placed>, path: Seq<char>) -> bool {
    exists|i: int| 0 <= i < files.len() && (#[trigger] files[i]).dest == path
}

/// An install has exactly this path among its files.
pub open spec fn owns(prev: Seq<ManagedView>, path: Seq<char>) -> bool {
    exists|j: int| 0 <= j < prev.len() && (#[trigger] prev[j]).path == path
}

/// One deployment: the files of a release, the state of the game directory with
/// the slot, the game files, the previous backup folder, and what was seen of
/// them.
pub struct Deployment {
    pub files: Seq<Placed>,
    pub installs: Map<Seq<char>, Install>,
    pub slot: Seq<Seq<char>>,
    pub game: Files,
    pub old: Files,
    pub seen: Map<Seq<char>, Found>,
    pub kept: Seq<String>,
    pub saved: Seq<String>,
}

impl Deployment {
    /// The install that gives way.
    pub open spec fn prev(self) -> Option<InstallView> {
        opt_install(occupant(self.installs, self.slot))
    }

    /// The files of the install that gives way.
    pub open spec fn mine(self) -> Seq<ManagedView> {
        prev_files(self.prev())
    }

    /// The paths in the way, in order.
    pub open spec fn in_way(self) -> Seq<Seq<char>> {
        sorted(in_the_way(self.files, self.installs, self.slot, self.seen))
    }

    /// The other paths that are written over.
    pub open spec fn taken(self) -> Seq<Seq<char>> {
        overwritten(
            self.files,
            self.installs,
            self.slot,
            self.seen,
            unchanged(self.mine(), self.seen),
        )
    }

    /// What the deployment does.
    pub open spec fn plan(self) -> PlanView {
        plan_for(self.files, self.installs, self.slot, self.seen, self.kept)
    }

    /// Its backup folder.
    pub open spec fn backup(self) -> Files {
        backup_after(self.plan(), self.game, self.old)
    }

    /// Its undo script.
    pub open spec fn script(self) -> Seq<OpView> {
        script_of(self.files, self.mine(), self.seen, self.saved)
    }

    /// The game files after it.
    pub open spec fn after(self) -> Files {
        game_after(self.plan(), self.game, self.files)
    }

    /// What was seen is what there is.
    pub open spec fn seen_right(self) -> bool {
        &&& forall|p: Seq<char>|
            lands_at(self.files, p) || owns(self.mine(), p) ==> #[trigger] look(self.seen, p)
                == found_in(self.game, p)
        &&& forall|p: Seq<char>|
            #[trigger] lists(self.kept, p) && prev_displaced(self.prev()).contains(p)
                ==> self.old.dom().contains(p)
        &&& forall|p: Seq<char>|
            lands_at(self.files, p) || owns(self.mine(), p) ==> (#[trigger] lists(self.saved, p)
                <==> self.backup().dom().contains(p))
    }

    /// Where the path has an unchanged file of the install that gives way, and the
    /// release ships it up to case, it ships it under that very path.
    pub open spec fn case_agrees(self, p: Seq<char>) -> bool {
        unchanged(self.mine(), self.seen).contains(p) && goes_to(self.files, p) ==> lands_at(
            self.files,
            p,
        )
    }
}

pub(crate) proof fn lemma_in_the_way(
    files: Seq<Placed>,
    installs: Map<Seq<char>, Install>,
    slot: Seq<Seq<char>>,
    seen: Map<Seq<char>, Found>,
    p: Seq<char>,
)
    ensures
        in_the_way(files, installs, slot, seen).contains(p) <==> lands_at(files, p) && !(look(
            seen,
            p,
        ) is Nothing) && !slot_manages(installs, slot, p),
    decreases files.len(),
{
    if files.len() > 0 {
        let t = files.drop_last();
        lemma_in_the_way(t, installs, slot, seen, p);
        let b = in_the_way(t, installs, slot, seen);
        let n = in_the_way(files, installs, slot, seen);
        if lands_at(t, p) {
            let i = choose|i: int| 0 <= i < t.len() && (#[trigger] t[i]).dest == p;
            assert(files[i].dest == p);
        }
        if lands_at(files, p) {
            let i = choose|i: int| 0 <= i < files.len() && (#[trigger] files[i]).dest == p;
            if i < t.len() {
                assert(t[i].dest == p);
            }
        }
        assert(files[files.len() - 1] == files.last());
        if b.contains(p) {
            let k = b.index_of(p);
            assert(n[k] == p);
        }
        if n.contains(p) {
            let k = n.index_of(p);
            if k < b.len() {
                assert(b[k] == p);
            }
        }
        if p == files.last().dest && !(look(seen, p) is Nothing) && !slot_manages(
            installs,
            slot,
            p,
        ) {
            assert(n[b.len() as int] == p);
        }
    }
}

proof fn lemma_overwritten(
    files: Seq<Placed>,
    installs: Map<Seq<char>, Install>,
    slot: Seq<Seq<char>>,
    seen: Map<Seq<char>, Found>,
    ours: Seq<Seq<char>>,
    p: Seq<char>,
)
    ensures
        overwritten(files, installs, slot, seen, ours).contains(p) <==> lands_at(files, p)
            && !(look(seen, p) is Nothing) && slot_manages(installs, slot, p) && !ours.contains(p),
    decreases files.len(),
{
    if files.len() > 0 {
        let t = files.drop_last();
        lemma_overwritten(t, installs, slot, seen, ours, p);
        let b = overwritten(t, installs, slot, seen, ours);
        let n = overwritten(files, installs, slot, seen, ours);
        if lands_at(t, p) {
            let i = choose|i: int| 0 <= i < t.len() && (#[trigger] t[i]).dest == p;
            assert(files[i].dest == p);
        }
        if lands_at(files, p) {
            let i = choose|i: int| 0 <= i < files.len() && (#[trigger] files[i]).dest == p;
            if i < t.len() {
                assert(t[i].dest == p);
            }
        }
        assert(files[files.len() - 1] == files.last());
        if b.contains(p) {
            let k = b.index_of(p);
            assert(n[k] == p);
        }
        if n.contains(p) {
            let k = n.index_of(p);
            if k < b.len() {
                assert(b[k] == p);
            }
        }
        if p == files.last().dest && !(look(seen, p) is Nothing) && slot_manages(
            installs,
            slot,
            p,
        ) && !ours.contains(p) {
            assert(n[b.len() as int] == p);
        }
    }
}

/// Where nothing gives way, the slot manages nothing.
proof fn lemma_no_occupant(installs: Map<Seq<char>, Install>, slot: Seq<Seq<char>>)
    requires
        occupant(installs, slot) is None,
    ensures
        forall|i: int| 0 <= i < slot.len() ==> !installs.dom().contains(#[trigger] slot[i]),
    decreases slot.len(),
{
    if slot.len() > 0 {
        let t = slot.drop_first();
        lemma_no_occupant(installs, t);
        assert forall|i: int| 0 <= i < slot.len() implies !installs.dom().contains(
            #[trigger] slot[i],
        ) by {
            if i > 0 {
                assert(t[i - 1] == slot[i]);
            }
        }
    }
}

/// Where nothing gives way, snapshots are taken of what is in the way alone.
proof fn lemma_first_install(d: Deployment)
    requires
        d.prev() is None,
    ensures
        d.plan().snapshots == d.in_way(),
        d.plan().displaced == d.in_way(),
        d.plan().carried.len() == 0,
        d.plan().removals.len() == 0,
{
    lemma_no_occupant(d.installs, d.slot);
    if d.taken().len() > 0 {
        let p = d.taken()[0];
        assert(d.taken().contains(p));
        lemma_overwritten(
            d.files,
            d.installs,
            d.slot,
            d.seen,
            unchanged(d.mine(), d.seen),
            p,
        );
        assert(false);
    }
    assert(d.plan().snapshots =~= d.in_way());
    assert(d.plan().displaced =~= d.in_way());
}

pub(crate) proof fn lemma_sorted_contains(s: Seq<Seq<char>>, p: Seq<char>)
    ensures
        sorted(s).contains(p) <==> s.contains(p),
{
    broadcast use vstd::seq_lib::group_to_multiset_ensures;

    lemma_sorted(s);
    assert(sorted(s).contains(p) <==> sorted(s).to_multiset().count(p) > 0);
    assert(s.contains(p) <==> s.to_multiset().count(p) > 0);
}

pub(crate) proof fn lemma_unchanged(files: Seq<ManagedView>, seen: Map<Seq<char>, Found>, p: Seq<char>)
    ensures
        unchanged(files, seen).contains(p) <==> exists|j: int|
            0 <= j < files.len() && (#[trigger] files[j]).path == p && look(seen, p)
                == FoundView::Content(files[j].sha256),
    decreases files.len(),
{
    if files.len() > 0 {
        let t = files.drop_last();
        lemma_unchanged(t, seen, p);
        let b = unchanged(t, seen);
        let n = unchanged(files, seen);
        assert(files[files.len() - 1] == files.last());
        if n.contains(p) {
            let k = n.index_of(p);
            if k < b.len() {
                assert(b[k] == p);
                let j = choose|j: int|
                    0 <= j < t.len() && (#[trigger] t[j]).path == p && look(seen, p)
                        == FoundView::Content(t[j].sha256);
                assert(files[j] == t[j]);
            }
        }
        if exists|j: int|
            0 <= j < files.len() && (#[trigger] files[j]).path == p && look(seen, p)
                == FoundView::Content(files[j].sha256) {
            let j = choose|j: int|
                0 <= j < files.len() && (#[trigger] files[j]).path == p && look(seen, p)
                    == FoundView::Content(files[j].sha256);
            if j < t.len() {
                assert(t[j] == files[j]);
                let k = b.index_of(p);
                assert(n[k] == p);
            } else {
                assert(n[b.len() as int] == p);
            }
        }
    }
}

pub(crate) proof fn lemma_changed(files: Seq<ManagedView>, seen: Map<Seq<char>, Found>, j: int)
    requires
        0 <= j < files.len(),
        !(look(seen, files[j].path) is Nothing),
        look(seen, files[j].path) != FoundView::Content(files[j].sha256),
    ensures
        changed(files, seen).contains(files[j].path),
    decreases files.len(),
{
    let t = files.drop_last();
    let b = changed(t, seen);
    let n = changed(files, seen);
    if j < t.len() {
        lemma_changed(t, seen, j);
        assert(t[j] == files[j]);
        let k = b.index_of(files[j].path);
        assert(n[k] == files[j].path);
    } else {
        assert(n[b.len() as int] == files[j].path);
    }
}

pub(crate) proof fn lemma_not_in(paths: Seq<Seq<char>>, v: Seq<Seq<char>>, p: Seq<char>)
    ensures
        not_in(paths, v).contains(p) <==> paths.contains(p) && !v.contains(p),
    decreases paths.len(),
{
    if paths.len() > 0 {
        let t = paths.drop_last();
        lemma_not_in(t, v, p);
        let b = not_in(t, v);
        let n = not_in(paths, v);
        assert(paths[paths.len() - 1] == paths.last());
        if t.contains(p) {
            let k = t.index_of(p);
            assert(paths[k] == p);
        }
        if paths.contains(p) {
            let k = paths.index_of(p);
            if k < t.len() {
                assert(t[k] == p);
            }
        }
        if b.contains(p) {
            let k = b.index_of(p);
            assert(n[k] == p);
        }
        if n.contains(p) {
            let k = n.index_of(p);
            if k < b.len() {
                assert(b[k] == p);
            }
        }
        if p == paths.last() && !v.contains(p) {
            assert(n[b.len() as int] == p);
        }
    }
}

proof fn lemma_only_in(paths: Seq<Seq<char>>, v: Seq<Seq<char>>, p: Seq<char>)
    ensures
        only_in(paths, v).contains(p) <==> paths.contains(p) && v.contains(p),
    decreases paths.len(),
{
    if paths.len() > 0 {
        let t = paths.drop_last();
        lemma_only_in(t, v, p);
        let b = only_in(t, v);
        let n = only_in(paths, v);
        assert(paths[paths.len() - 1] == paths.last());
        if t.contains(p) {
            let k = t.index_of(p);
            assert(paths[k] == p);
        }
        if paths.contains(p) {
            let k = paths.index_of(p);
            if k < t.len() {
                assert(t[k] == p);
            }
        }
        if b.contains(p) {
            let k = b.index_of(p);
            assert(n[k] == p);
        }
        if n.contains(p) {
            let k = n.index_of(p);
            if k < b.len() {
                assert(b[k] == p);
            }
        }
        if p == paths.last() && v.contains(p) {
            assert(n[b.len() as int] == p);
        }
    }
}

proof fn lemma_displaced(in_way: Seq<Seq<char>>, earlier: Seq<Seq<char>>, kept: Seq<String>)
    ensures
        displaced_by(in_way, earlier, kept).len() >= in_way.len(),
        displaced_by(in_way, earlier, kept).take(in_way.len() as int) == in_way,
        forall|p: Seq<char>|
            #[trigger] displaced_by(in_way, earlier, kept).skip(in_way.len() as int).contains(p)
                ==> lists(kept, p) && earlier.contains(p),
    decreases earlier.len(),
{
    let n = displaced_by(in_way, earlier, kept);
    let w = in_way.len() as int;
    if earlier.len() > 0 {
        let t = earlier.drop_last();
        lemma_displaced(in_way, t, kept);
        let b = displaced_by(in_way, t, kept);
        assert(n.take(w) =~= b.take(w));
        assert forall|p: Seq<char>| #[trigger] n.skip(w).contains(p) implies lists(kept, p)
            && earlier.contains(p) by {
            let k = n.skip(w).index_of(p);
            assert(n[w + k] == p);
            if w + k < b.len() {
                assert(b.skip(w)[k] == p);
                assert(b.skip(w).contains(p));
                let m = t.index_of(p);
                assert(earlier[m] == p);
            } else {
                assert(earlier[earlier.len() - 1] == p);
            }
        }
    } else {
        assert(n.take(w) =~= in_way);
        assert(n.skip(w).len() == 0);
    }
}

proof fn lemma_written(game: Files, files: Seq<Placed>, p: Seq<char>)
    ensures
        !lands_at(files, p) ==> found_in(written(game, files), p) == found_in(game, p),
    decreases files.len(),
{
    if files.len() > 0 {
        let t = files.drop_last();
        lemma_written(game, t, p);
        assert(files[files.len() - 1] == files.last());
        if lands_at(t, p) {
            let i = choose|i: int| 0 <= i < t.len() && (#[trigger] t[i]).dest == p;
            assert(files[i].dest == p);
        }
    }
}

proof fn lemma_written_last(game: Files, files: Seq<Placed>, last: int)
    requires
        0 <= last < files.len(),
        forall|i: int| last < i < files.len() ==> (#[trigger] files[i]).dest != files[last].dest,
    ensures
        found_in(written(game, files), files[last].dest) == FoundView::Content(files[last].sha256),
    decreases files.len(),
{
    if last < files.len() - 1 {
        let t = files.drop_last();
        assert(forall|i: int| 0 <= i < t.len() ==> #[trigger] t[i] == files[i]);
        lemma_written_last(game, t, last);
        assert(files[files.len() - 1].dest != files[last].dest);
    }
}

proof fn lemma_last_at(files: Seq<Placed>, p: Seq<char>) -> (last: int)
    requires
        lands_at(files, p),
    ensures
        0 <= last < files.len(),
        files[last].dest == p,
        forall|i: int| last < i < files.len() ==> (#[trigger] files[i]).dest != p,
    decreases files.len(),
{
    if files.last().dest == p {
        files.len() - 1
    } else {
        let t = files.drop_last();
        let i = choose|i: int| 0 <= i < files.len() && (#[trigger] files[i]).dest == p;
        assert(i < t.len());
        assert(t[i].dest == p);
        let last = lemma_last_at(t, p);
        assert forall|k: int| last < k < files.len() implies (#[trigger] files[k]).dest != p by {
            if k < t.len() {
                assert(t[k] == files[k]);
            }
        }
        last
    }
}

proof fn lemma_deletes(
    prev: Seq<ManagedView>,
    files: Seq<Placed>,
    seen: Map<Seq<char>, Found>,
    saved: Seq<String>,
)
    ensures
        forall|i: int|
            0 <= i < deletes(prev, files, seen, saved).len() ==> {
                let op = #[trigger] deletes(prev, files, seen, saved)[i];
                &&& op is Delete
                &&& op_before(op) == if lists(saved, op_path(op)) {
                    Some(op_path(op))
                } else {
                    None::<Seq<char>>
                }
                &&& !goes_to(files, op_path(op))
                &&& owns(prev, op_path(op))
                &&& unchanged(prev, seen).contains(op_path(op))
            },
        forall|j: int|
            0 <= j < prev.len() && !goes_to(files, (#[trigger] prev[j]).path) && look(
                seen,
                prev[j].path,
            ) == FoundView::Content(prev[j].sha256) ==> touches(
                deletes(prev, files, seen, saved),
                prev[j].path,
            ),
    decreases prev.len(),
{
    if prev.len() > 0 {
        let t = prev.drop_last();
        lemma_deletes(t, files, seen, saved);
        let b = deletes(t, files, seen, saved);
        let n = deletes(prev, files, seen, saved);
        assert(prev[prev.len() - 1] == prev.last());
        assert forall|i: int| 0 <= i < n.len() implies {
            let op = #[trigger] n[i];
            &&& op is Delete
            &&& op_before(op) == if lists(saved, op_path(op)) {
                Some(op_path(op))
            } else {
                None::<Seq<char>>
            }
            &&& !goes_to(files, op_path(op))
            &&& owns(prev, op_path(op))
            &&& unchanged(prev, seen).contains(op_path(op))
        } by {
            let p = op_path(n[i]);
            if i < b.len() {
                assert(n[i] == b[i]);
                let j = choose|j: int| 0 <= j < t.len() && (#[trigger] t[j]).path == p;
                assert(prev[j].path == p);
                lemma_unchanged(t, seen, p);
                let m = choose|m: int|
                    0 <= m < t.len() && (#[trigger] t[m]).path == p && look(seen, p)
                        == FoundView::Content(t[m].sha256);
                assert(prev[m] == t[m]);
                lemma_unchanged(prev, seen, p);
            } else {
                assert(prev[prev.len() - 1].path == p);
                lemma_unchanged(prev, seen, p);
            }
        }
        assert forall|j: int|
            0 <= j < prev.len() && !goes_to(files, (#[trigger] prev[j]).path) && look(
                seen,
                prev[j].path,
            ) == FoundView::Content(prev[j].sha256) implies touches(n, prev[j].path) by {
            if j < t.len() {
                assert(t[j] == prev[j]);
                let i = choose|i: int|
                    0 <= i < b.len() && op_path(#[trigger] b[i]) == prev[j].path;
                assert(n[i] == b[i]);
            } else {
                assert(op_path(n[b.len() as int]) == prev[j].path);
            }
        }
    }
}

/// The last operation of a list that touches a path.
proof fn lemma_last_op(s: Seq<OpView>, p: Seq<char>) -> (last: int)
    requires
        touches(s, p),
    ensures
        0 <= last < s.len(),
        op_path(s[last]) == p,
        forall|i: int| last < i < s.len() ==> op_path(#[trigger] s[i]) != p,
    decreases s.len(),
{
    if op_path(s.last()) == p {
        s.len() - 1
    } else {
        let t = s.drop_last();
        let i = choose|i: int| 0 <= i < s.len() && op_path(#[trigger] s[i]) == p;
        assert(i < t.len());
        assert(op_path(t[i]) == p);
        let last = lemma_last_op(t, p);
        assert forall|k: int| last < k < s.len() implies op_path(#[trigger] s[k]) != p by {
            if k < t.len() {
                assert(t[k] == s[k]);
            }
        }
        last
    }
}

/// A snapshot is taken exactly of what there is at the paths that the release
/// goes to, and of the unchanged files of the install that gives way.
proof fn lemma_snapshots(d: Deployment, p: Seq<char>)
    requires
        d.seen_right(),
    ensures
        d.plan().snapshots.contains(p) <==> d.game.dom().contains(p) && (lands_at(d.files, p)
            || unchanged(d.mine(), d.seen).contains(p)),
{
    let w = in_the_way(d.files, d.installs, d.slot, d.seen);
    let u = unchanged(d.mine(), d.seen);
    let t = d.taken();
    let s = d.plan().snapshots;
    lemma_in_the_way(d.files, d.installs, d.slot, d.seen, p);
    lemma_overwritten(d.files, d.installs, d.slot, d.seen, u, p);
    lemma_sorted_contains(w, p);
    lemma_unchanged(d.mine(), d.seen, p);
    assert(s == u + t + d.in_way());
    if u.contains(p) {
        let k = u.index_of(p);
        assert(s[k] == p);
        assert(owns(d.mine(), p));
    }
    if t.contains(p) {
        let k = t.index_of(p);
        assert(s[u.len() + k] == p);
    }
    if d.in_way().contains(p) {
        let k = d.in_way().index_of(p);
        assert(s[u.len() + t.len() + k] == p);
    }
    if s.contains(p) {
        let k = s.index_of(p);
        if k < u.len() {
            assert(u[k] == p);
        } else if k < u.len() + t.len() {
            assert(t[k - u.len()] == p);
        } else {
            assert(d.in_way()[k - u.len() - t.len()] == p);
        }
    }
    if lands_at(d.files, p) || owns(d.mine(), p) {
        assert(look(d.seen, p) == found_in(d.game, p));
    }
}

/// What the backup folder holds of a path that the release goes to, or that the
/// install that gives way owns unchanged.
proof fn lemma_backup_of(d: Deployment, p: Seq<char>)
    requires
        d.seen_right(),
        lands_at(d.files, p) || unchanged(d.mine(), d.seen).contains(p),
        !d.plan().carried.contains(p),
    ensures
        found_in(d.backup(), p) == found_in(d.game, p),
{
    lemma_snapshots(d, p);
}

/// Removing an install undoes it: where nobody touched its files, playing its
/// script back gives every file of the game back as it was before the
/// deployment, also a file of another install that a user had changed. A path
/// whose user file an earlier install had displaced, and that the script touches,
/// gets that user file back. Left out is a path with a file of the install that
/// gives way that the release ships under a path that differs in case only.
pub proof fn law_remove_undoes_deploy(d: Deployment, p: Seq<char>)
    requires
        d.seen_right(),
        d.case_agrees(p),
    ensures
        found_in(played_back(d.script(), d.after(), d.backup()), p) == if touches(d.script(), p)
            && d.plan().carried.contains(p) {
            FoundView::Content(d.old[p])
        } else {
            found_in(d.game, p)
        },
{
    let script = d.script();
    let ws = writes(d.files, d.saved);
    let ds = deletes(d.mine(), d.files, d.seen, d.saved);
    let snaps = d.backup();
    let after = d.after();
    lemma_deletes(d.mine(), d.files, d.seen, d.saved);
    assert forall|i: int| 0 <= i < script.len() implies {
        let op = #[trigger] script[i];
        &&& !(op is Rename)
        &&& op_before(op) == if snaps.dom().contains(op_path(op)) {
            Some(op_path(op))
        } else {
            None::<Seq<char>>
        }
    } by {
        if i < ws.len() {
            assert(script[i] == ws[i]);
            assert(d.files[i].dest == op_path(ws[i]));
            assert(lands_at(d.files, op_path(ws[i])));
        } else {
            assert(script[i] == ds[i - ws.len()]);
        }
    }
    assert(in_place(script, snaps));
    if lands_at(d.files, p) {
        let last = lemma_last_at(d.files, p);
        assert(script[last] == ws[last]);
        assert forall|i: int| last < i < script.len() implies op_path(#[trigger] script[i]) != p by {
            if i < ws.len() {
                assert(script[i] == ws[i]);
                assert(d.files[i].dest != p);
            } else {
                assert(script[i] == ds[i - ws.len()]);
                if op_path(script[i]) == p {
                    assert(lowercase(d.files[last].dest) == lowercase(p));
                    assert(goes_to(d.files, p));
                }
            }
        }
        lemma_written_last(d.game.remove_keys(d.plan().removals.to_set()), d.files, last);
        lemma_touched(script, after, snaps, p, last);
        assert(op_path(script[last]) == p);
        if !d.plan().carried.contains(p) {
            lemma_backup_of(d, p);
        }
    } else if touches(script, p) {
        let last = lemma_last_op(script, p);
        if last < ws.len() {
            assert(script[last] == ws[last]);
            assert(d.files[last].dest == p);
            assert(false);
        }
        assert(script[last] == ds[last - ws.len()]);
        assert(unchanged(d.mine(), d.seen).contains(p));
        let u = unchanged(d.mine(), d.seen);
        let k = u.index_of(p);
        assert(d.plan().snapshots[k] == p);
        assert(snaps.dom().contains(p));
        lemma_touched(script, after, snaps, p, last);
        if !d.plan().carried.contains(p) {
            lemma_backup_of(d, p);
        }
    } else {
        lemma_untouched(script, after, snaps, p);
        let base = d.game.remove_keys(d.plan().removals.to_set());
        lemma_written(base, d.files, p);
        lemma_not_in(paths_of(d.mine()), changed(d.mine(), d.seen), p);
        if d.plan().removals.contains(p) {
            let k = paths_of(d.mine()).index_of(p);
            assert(d.mine()[k].path == p);
            assert(owns(d.mine(), p));
            if d.game.dom().contains(p) {
                assert(look(d.seen, p) == found_in(d.game, p));
                if look(d.seen, p) != FoundView::Content(d.mine()[k].sha256) {
                    lemma_changed(d.mine(), d.seen, k);
                    assert(false);
                }
                if !goes_to(d.files, p) {
                    assert(touches(ds, p));
                    let i = choose|i: int| 0 <= i < ds.len() && op_path(#[trigger] ds[i]) == p;
                    assert(script[ws.len() + i] == ds[i]);
                    assert(false);
                } else {
                    lemma_unchanged(d.mine(), d.seen, p);
                    assert(false);
                }
            }
        }
    }
}

proof fn lemma_touched_agrees(d: Deployment, p: Seq<char>)
    requires
        touches(d.script(), p),
    ensures
        d.case_agrees(p),
{
    let ws = writes(d.files, d.saved);
    let ds = deletes(d.mine(), d.files, d.seen, d.saved);
    lemma_deletes(d.mine(), d.files, d.seen, d.saved);
    let i = choose|i: int| 0 <= i < d.script().len() && op_path(#[trigger] d.script()[i]) == p;
    if i < ws.len() {
        assert(d.script()[i] == ws[i]);
        assert(d.files[i].dest == p);
    } else {
        assert(d.script()[i] == ds[i - ws.len()]);
    }
}

/// A user file that a first install displaced survives the replacement of that
/// install by another: removing the second one brings it back.
pub proof fn law_user_files_survive_replacement(a: Deployment, b: Deployment, p: Seq<char>)
    requires
        a.seen_right(),
        a.prev() is None,
        b.seen_right(),
        b.old == a.backup(),
        b.plan().carried.contains(p),
        a.plan().displaced.contains(p),
        touches(b.script(), p),
    ensures
        a.game.dom().contains(p),
        found_in(played_back(b.script(), b.after(), b.backup()), p) == FoundView::Content(
            a.game[p],
        ),
{
    lemma_touched_agrees(b, p);
    law_remove_undoes_deploy(b, p);
    lemma_first_install(a);
    lemma_in_the_way(a.files, a.installs, a.slot, a.seen, p);
    lemma_sorted_contains(in_the_way(a.files, a.installs, a.slot, a.seen), p);
    assert(look(a.seen, p) == found_in(a.game, p));
}

/// A deployment leaves the content of the release at every path that it goes to,
/// whatever was there before, where the release has no two different files for
/// one path.
pub proof fn law_files_are_written(d: Deployment, i: int)
    requires
        consistent(d.files),
        0 <= i < d.files.len(),
    ensures
        found_in(d.after(), d.files[i].dest) == FoundView::Content(d.files[i].sha256),
{
    let base = d.game.remove_keys(d.plan().removals.to_set());
    assert(lands_at(d.files, d.files[i].dest));
    let last = lemma_last_at(d.files, d.files[i].dest);
    lemma_written_last(base, d.files, last);
    if i < last {
        assert(d.files[i].sha256 == d.files[last].sha256);
    }
}

/// The game files that are kept elsewhere until the deployment is done.
pub open spec fn kept_aside(plan: PlanView, game: Files) -> Files {
    Map::new(|p: Seq<char>| plan.aside.contains(p), |p: Seq<char>| game[p])
}

/// Taking a failed deployment back gives every file of the game back, whatever
/// had been done by then: `mid` is the game at the failure, which differs from
/// the game before at most where the deployment writes, or removed a file.
pub proof fn law_rollback(d: Deployment, mid: Files, p: Seq<char>)
    requires
        d.seen_right(),
        forall|q: Seq<char>|
            !lands_at(d.files, q) ==> #[trigger] found_in(mid, q) == found_in(d.game, q) || (
            found_in(mid, q) is Nothing && d.plan().removals.contains(q)),
    ensures
        found_in(rolled_back(d, mid), p) == found_in(d.game, p),
{
    let s = d.plan().snapshots;
    let dests = d.files.map_values(|f: Placed| f.dest);
    assert(found_in(mid, p) == found_in(mid, p));
    lemma_not_in(dests, s, p);
    lemma_not_in(paths_of(d.mine()), changed(d.mine(), d.seen), p);
    lemma_only_in(s, d.plan().carried, p);
    lemma_snapshots(d, p);
    assert(lands_at(d.files, p) <==> dests.contains(p)) by {
        if lands_at(d.files, p) {
            let i = choose|i: int| 0 <= i < d.files.len() && (#[trigger] d.files[i]).dest == p;
            assert(dests[i] == p);
        }
        if dests.contains(p) {
            let i = dests.index_of(p);
            assert(d.files[i].dest == p);
        }
    }
    if !s.contains(p) && !lands_at(d.files, p) && d.plan().removals.contains(p) {
        let k = paths_of(d.mine()).index_of(p);
        assert(d.mine()[k].path == p);
        assert(owns(d.mine(), p));
        assert(look(d.seen, p) == found_in(d.game, p));
        if d.game.dom().contains(p) {
            if look(d.seen, p) != FoundView::Content(d.mine()[k].sha256) {
                lemma_changed(d.mine(), d.seen, k);
            }
            lemma_unchanged(d.mine(), d.seen, p);
        }
    }
}

/// The game files once a failed deployment is taken back: the snapshots are in
/// place again, those that were kept elsewhere from there, and what has none is
/// deleted.
pub open spec fn rolled_back(d: Deployment, mid: Files) -> Files {
    let s = d.plan().snapshots;
    let gone = leftovers(d.files, s);
    let aside = kept_aside(d.plan(), d.game);
    Map::new(
        |p: Seq<char>| s.contains(p) || (mid.dom().contains(p) && !gone.contains(p)),
        |p: Seq<char>|
            if aside.dom().contains(p) {
                aside[p]
            } else if s.contains(p) {
                d.backup()[p]
            } else {
                mid[p]
            },
    )
}

// ---------------------------------------------------------------------------
// Records without a script
// ---------------------------------------------------------------------------

/// The game files once an install is removed by its files and its backup folder:
/// unchanged files are deleted, and everything in the backup folder is put back,
/// except over a changed file.
pub open spec fn removed_by_files(files: Seq<ManagedView>, game: Files, snaps: Files) -> Files {
    Map::new(
        |p: Seq<char>|
            if owned_changed(files, game, p) {
                true
            } else {
                snaps.dom().contains(p) || (game.dom().contains(p) && !owns(files, p))
            },
        |p: Seq<char>|
            if owned_changed(files, game, p) || !snaps.dom().contains(p) {
                game[p]
            } else {
                snaps[p]
            },
    )
}

/// A file of the install is at the path, with another content than recorded.
pub open spec fn owned_changed(files: Seq<ManagedView>, game: Files, p: Seq<char>) -> bool {
    game.dom().contains(p) && exists|j: int|
        0 <= j < files.len() && (#[trigger] files[j]).path == p && files[j].sha256 != game[p]
}

/// The files that are recorded for those of a release.
pub open spec fn recorded(files: Seq<Placed>, mine: Seq<ManagedView>) -> bool {
    mine.len() == files.len() && forall|i: int|
        0 <= i < files.len() ==> (#[trigger] mine[i]).path == files[i].dest && mine[i].sha256
            == files[i].sha256
}

/// No two files of the release with different content go to one path.
pub open spec fn consistent(files: Seq<Placed>) -> bool {
    forall|i: int, j: int|
        0 <= i < j < files.len() && (#[trigger] files[i]).dest == (#[trigger] files[j]).dest
            ==> files[i].sha256 == files[j].sha256
}

/// Removing a first install by its files and its backup folder gives every file
/// of the game back, as playing its script back would, where the release has no
/// two different files for one path.
pub proof fn law_removal_by_files(d: Deployment, mine: Seq<ManagedView>, p: Seq<char>)
    requires
        d.seen_right(),
        d.prev() is None,
        recorded(d.files, mine),
        consistent(d.files),
    ensures
        found_in(removed_by_files(mine, d.after(), d.backup()), p) == found_in(d.game, p),
        found_in(removed_by_files(mine, d.after(), d.backup()), p) == found_in(
            played_back(d.script(), d.after(), d.backup()),
            p,
        ),
{
    law_remove_undoes_deploy(d, p);
    lemma_first_install(d);
    let base = d.game.remove_keys(d.plan().removals.to_set());
    assert(d.plan().removals.to_set() =~= Set::empty());
    assert(base =~= d.game);
    if lands_at(d.files, p) {
        let last = lemma_last_at(d.files, p);
        lemma_written_last(base, d.files, last);
        assert(mine[last].path == p);
        assert(owns(mine, p));
        assert(!owned_changed(mine, d.after(), p)) by {
            if owned_changed(mine, d.after(), p) {
                let j = choose|j: int|
                    0 <= j < mine.len() && (#[trigger] mine[j]).path == p && mine[j].sha256
                        != d.after()[p];
                assert(d.files[j].dest == p);
                if j < last {
                    assert(d.files[j].sha256 == d.files[last].sha256);
                }
            }
        }
        lemma_backup_of(d, p);
    } else {
        lemma_written(base, d.files, p);
        assert(!owns(mine, p)) by {
            if owns(mine, p) {
                let j = choose|j: int| 0 <= j < mine.len() && (#[trigger] mine[j]).path == p;
                assert(d.files[j].dest == p);
            }
        }
        lemma_in_the_way(d.files, d.installs, d.slot, d.seen, p);
        lemma_sorted_contains(in_the_way(d.files, d.installs, d.slot, d.seen), p);
        assert(!d.backup().dom().contains(p));
    }
}

proof fn lemma_occupant_first(installs: Map<Seq<char>, Install>, slot: Seq<Seq<char>>)
    ensures
        match occupant(installs, slot) {
            Some(x) => exists|i: int|
                0 <= i < slot.len() && installs.dom().contains(#[trigger] slot[i])
                    && installs[slot[i]] == x && forall|j: int|
                    0 <= j < i ==> !installs.dom().contains(#[trigger] slot[j]),
            None => forall|i: int|
                0 <= i < slot.len() ==> !installs.dom().contains(#[trigger] slot[i]),
        },
    decreases slot.len(),
{
    if slot.len() > 0 {
        if installs.dom().contains(slot[0]) {
            assert(installs[slot[0]] == occupant(installs, slot)->0);
        } else {
            let t = slot.drop_first();
            lemma_occupant_first(installs, t);
            assert forall|j: int| 0 < j < slot.len() implies #[trigger] slot[j] == t[j - 1] by {}
            match occupant(installs, t) {
                Some(x) => {
                    let i = choose|i: int|
                        0 <= i < t.len() && installs.dom().contains(#[trigger] t[i])
                            && installs[t[i]] == x && forall|j: int|
                            0 <= j < i ==> !installs.dom().contains(#[trigger] t[j]);
                    assert(slot[i + 1] == t[i]);
                    assert forall|j: int| 0 <= j < i + 1 implies !installs.dom().contains(
                        #[trigger] slot[j],
                    ) by {
                        if j > 0 {
                            assert(t[j - 1] == slot[j]);
                        }
                    }
                },
                None => {
                    assert forall|i: int| 0 <= i < slot.len() implies !installs.dom().contains(
                        #[trigger] slot[i],
                    ) by {
                        if i > 0 {
                            assert(t[i - 1] == slot[i]);
                        }
                    }
                },
            }
        }
    }
}

pub(crate) proof fn lemma_changed_has(files: Seq<ManagedView>, seen: Map<Seq<char>, Found>, p: Seq<char>)
    ensures
        changed(files, seen).contains(p) <==> exists|j: int|
            0 <= j < files.len() && (#[trigger] files[j]).path == p && !(look(seen, p) is Nothing)
                && look(seen, p) != FoundView::Content(files[j].sha256),
    decreases files.len(),
{
    if files.len() > 0 {
        let t = files.drop_last();
        let l = files.len() - 1;
        let b = changed(t, seen);
        lemma_changed_has(t, seen, p);
        assert(files[l] == files.last());
        assert forall|j: int| 0 <= j < l implies #[trigger] files[j] == t[j] by {}
        if b.contains(p) {
            let j = choose|j: int|
                0 <= j < t.len() && (#[trigger] t[j]).path == p && !(look(seen, p) is Nothing)
                    && look(seen, p) != FoundView::Content(t[j].sha256);
            assert(files[j] == t[j]);
            let i = b.index_of(p);
            assert(changed(files, seen)[i] == p);
        }
        let w = b.push(files.last().path);
        assert(w.contains(p) <==> b.contains(p) || p == files.last().path) by {
            assert(w[b.len() as int] == files.last().path);
            if b.contains(p) {
                let i = b.index_of(p);
                assert(w[i] == p);
            }
        }
        if exists|j: int|
            0 <= j < files.len() && (#[trigger] files[j]).path == p && !(look(seen, p) is Nothing)
                && look(seen, p) != FoundView::Content(files[j].sha256) {
            let j = choose|j: int|
                0 <= j < files.len() && (#[trigger] files[j]).path == p && !(look(
                    seen,
                    p,
                ) is Nothing) && look(seen, p) != FoundView::Content(files[j].sha256);
            if j < l {
                assert(t[j] == files[j]);
            }
        }
    }
}

proof fn lemma_displaced_has(
    in_way: Seq<Seq<char>>,
    earlier: Seq<Seq<char>>,
    kept: Seq<String>,
    p: Seq<char>,
)
    ensures
        displaced_by(in_way, earlier, kept).len() >= in_way.len(),
        displaced_by(in_way, earlier, kept).take(in_way.len() as int) == in_way,
        displaced_by(in_way, earlier, kept).contains(p) ==> in_way.contains(p) || (earlier.contains(
            p,
        ) && lists(kept, p)),
        earlier.contains(p) && lists(kept, p) ==> listed_ignoring_case(
            displaced_by(in_way, earlier, kept),
            p,
        ),
    decreases earlier.len(),
{
    let all = displaced_by(in_way, earlier, kept);
    if earlier.len() > 0 {
        let t = earlier.drop_last();
        let b = displaced_by(in_way, t, kept);
        let d = earlier.last();
        lemma_displaced_has(in_way, t, kept, p);
        assert(all.take(in_way.len() as int) =~= b.take(in_way.len() as int));
        assert(earlier[earlier.len() - 1] == d);
        if t.contains(p) {
            let i = t.index_of(p);
            assert(earlier[i] == p);
        }
        if earlier.contains(p) && p != d {
            let i = earlier.index_of(p);
            assert(t[i] == p);
        }
        if listed_ignoring_case(b, p) {
            let i = choose|i: int| 0 <= i < b.len() && lower_ascii(#[trigger] b[i]) == lower_ascii(p);
            assert(all[i] == b[i]);
        }
        if all.len() > b.len() {
            assert(all[b.len() as int] == d);
            if all.contains(p) && p != d {
                let i = all.index_of(p);
                assert(b[i] == p);
            }
        }
    } else {
        assert(all.take(in_way.len() as int) =~= in_way);
    }
}

/// One of the installs of the slot recorded a file at this path, up to case.
pub open spec fn slot_knows(
    installs: Map<Seq<char>, Install>,
    slot: Seq<Seq<char>>,
    path: Seq<char>,
) -> bool {
    exists|i: int, j: int|
        #![trigger installs[slot[i]].files@[j]]
        0 <= i < slot.len() && installs.dom().contains(slot[i]) && 0 <= j
            < installs[slot[i]].files@.len() && lowercase(installs[slot[i]].files@[j].path@)
            == lowercase(path)
}

proof fn lemma_slot_knows(
    installs: Map<Seq<char>, Install>,
    slot: Seq<Seq<char>>,
    path: Seq<char>,
)
    ensures
        slot_manages(installs, slot, path) <==> slot_knows(installs, slot, path),
{
    if slot_manages(installs, slot, path) {
        let i = choose|i: int|
            0 <= i < slot.len() && installs.dom().contains(#[trigger] slot[i]) && has_path(
                installs[slot[i]]@.files,
                path,
            );
        let v = installs[slot[i]]@.files;
        let j = choose|j: int|
            0 <= j < v.len() && lowercase((#[trigger] v[j]).path) == lowercase(path);
        assert(v[j].path == installs[slot[i]].files@[j].path@);
    }
    if slot_knows(installs, slot, path) {
        let (i, j) = choose|i: int, j: int|
            #![trigger installs[slot[i]].files@[j]]
            0 <= i < slot.len() && installs.dom().contains(slot[i]) && 0 <= j
                < installs[slot[i]].files@.len() && lowercase(installs[slot[i]].files@[j].path@)
                == lowercase(path);
        let v = installs[slot[i]]@.files;
        assert(v[j].path == installs[slot[i]].files@[j].path@);
        assert(has_path(v, path));
        assert(installs.dom().contains(slot[i]));
    }
}

/// The first package of the slot that is installed gives way.
pub proof fn law_what_gives_way(
    files: Seq<Placed>,
    installs: Map<Seq<char>, Install>,
    slot: Seq<Seq<char>>,
    seen: Map<Seq<char>, Found>,
    kept: Seq<String>,
)
    ensures
        match plan_for(files, installs, slot, seen, kept).previous {
            Some(p) => exists|i: int|
                0 <= i < slot.len() && installs.dom().contains(#[trigger] slot[i])
                    && installs[slot[i]]@ == p && forall|j: int|
                    0 <= j < i ==> !installs.dom().contains(#[trigger] slot[j]),
            None => forall|i: int|
                0 <= i < slot.len() ==> !installs.dom().contains(#[trigger] slot[i]),
        },
{
    lemma_occupant_first(installs, slot);
    match occupant(installs, slot) {
        Some(x) => {
            let i = choose|i: int|
                0 <= i < slot.len() && installs.dom().contains(#[trigger] slot[i])
                    && installs[slot[i]] == x && forall|j: int|
                    0 <= j < i ==> !installs.dom().contains(#[trigger] slot[j]);
            assert(installs[slot[i]]@ == x@);
        },
        None => {},
    }
}

/// What a deployment does to a file goes by what is found there: of the files of
/// the install that gives way, those that a user changed stay and are told, the
/// others go; of everything that is written over or goes, and of nothing that is
/// not there, a snapshot is taken; and a file that is written over but that no
/// install of the slot recorded is a displaced user file.
pub proof fn law_what_deploying_touches(
    files: Seq<Placed>,
    installs: Map<Seq<char>, Install>,
    slot: Seq<Seq<char>>,
    seen: Map<Seq<char>, Found>,
    kept: Seq<String>,
    plan: PlanView,
    mine: Seq<ManagedView>,
    p: Seq<char>,
)
    requires
        plan == plan_for(files, installs, slot, seen, kept),
        match plan.previous {
            Some(x) => mine == x.files,
            None => mine.len() == 0,
        },
    ensures
        ({
            let there = !(look(seen, p) is Nothing);
            let ours = exists|j: int| 0 <= j < mine.len() && (#[trigger] mine[j]).path == p;
            let edited = exists|j: int|
                0 <= j < mine.len() && (#[trigger] mine[j]).path == p && there && look(seen, p)
                    != FoundView::Content(mine[j].sha256);
            let lands = exists|i: int| 0 <= i < files.len() && (#[trigger] files[i]).dest == p;
            &&& plan.preserved.contains(p) <==> edited
            &&& plan.removals.contains(p) <==> ours && !edited
            &&& plan.snapshots.contains(p) ==> there && (lands || ours)
            &&& there && (lands || plan.removals.contains(p)) ==> plan.snapshots.contains(p)
            &&& there && lands && !slot_knows(installs, slot, p) ==> plan.displaced.contains(p)
            &&& plan.displaced.contains(p) ==> (there && lands && !slot_knows(installs, slot, p))
                || (plan.carried.contains(p) && lists(kept, p) && plan.previous is Some
                && plan.previous->0.backup is Some && plan.previous->0.displaced.contains(p))
            &&& plan.aside.contains(p) <==> plan.snapshots.contains(p) && plan.carried.contains(p)
            &&& plan.previous is Some ==> plan.needs_backup
            &&& there && lands && !slot_knows(installs, slot, p) ==> plan.needs_backup
        }),
{
    let prev = opt_install(occupant(installs, slot));
    assert(mine =~= prev_files(prev));
    let way = in_the_way(files, installs, slot, seen);
    let in_way = sorted(way);
    let un = unchanged(mine, seen);
    let taken = overwritten(files, installs, slot, seen, un);
    let all = displaced_by(in_way, prev_displaced(prev), kept);
    let carried = all.skip(in_way.len() as int);
    lemma_slot_knows(installs, slot, p);
    lemma_in_the_way(files, installs, slot, seen, p);
    lemma_overwritten(files, installs, slot, seen, un, p);
    lemma_sorted_contains(way, p);
    lemma_unchanged(mine, seen, p);
    lemma_changed_has(mine, seen, p);
    lemma_not_in(paths_of(mine), changed(mine, seen), p);
    lemma_only_in(plan.snapshots, plan.carried, p);
    lemma_displaced_has(in_way, prev_displaced(prev), kept, p);
    assert(paths_of(mine).contains(p) <==> exists|j: int|
        0 <= j < mine.len() && (#[trigger] mine[j]).path == p) by {
        if paths_of(mine).contains(p) {
            let j = paths_of(mine).index_of(p);
            assert(mine[j].path == p);
        }
        if exists|j: int| 0 <= j < mine.len() && (#[trigger] mine[j]).path == p {
            let j = choose|j: int| 0 <= j < mine.len() && (#[trigger] mine[j]).path == p;
            assert(paths_of(mine)[j] == p);
        }
    }
    assert(plan.snapshots.contains(p) <==> un.contains(p) || taken.contains(p) || in_way.contains(
        p,
    )) by {
        lemma_in_both(un, taken, p);
        lemma_in_both(un + taken, in_way, p);
    }
    assert(all =~= in_way + carried);
    lemma_in_both(in_way, carried, p);
    if in_way.contains(p) {
        assert(in_way.len() > 0);
    }
    if all.contains(p) && !in_way.contains(p) {
        assert(prev_displaced(prev).contains(p));
    }
}

proof fn lemma_in_both(a: Seq<Seq<char>>, b: Seq<Seq<char>>, p: Seq<char>)
    ensures
        (a + b).contains(p) <==> a.contains(p) || b.contains(p),
{
    if a.contains(p) {
        let i = a.index_of(p);
        assert((a + b)[i] == p);
    }
    if b.contains(p) {
        let i = b.index_of(p);
        assert((a + b)[a.len() + i] == p);
    }
    if (a + b).contains(p) {
        let i = (a + b).index_of(p);
        if i >= a.len() {
            assert(b[i - a.len()] == p);
        } else {
            assert(a[i] == p);
        }
    }
}

/// The snapshots of user files that the install which gives way displaced do not
/// get lost: each that its backup folder holds belongs to the displaced files of
/// the new install, up to the case of ASCII letters.
pub proof fn law_earlier_user_files_are_carried(
    files: Seq<Placed>,
    installs: Map<Seq<char>, Install>,
    slot: Seq<Seq<char>>,
    seen: Map<Seq<char>, Found>,
    kept: Seq<String>,
    plan: PlanView,
    p: Seq<char>,
)
    requires
        plan == plan_for(files, installs, slot, seen, kept),
        plan.previous is Some,
        plan.previous->0.backup is Some,
        plan.previous->0.displaced.contains(p),
        lists(kept, p),
    ensures
        exists|i: int|
            0 <= i < plan.displaced.len() && lower_ascii(#[trigger] plan.displaced[i])
                == lower_ascii(p),
{
    let prev = opt_install(occupant(installs, slot));
    let in_way = sorted(in_the_way(files, installs, slot, seen));
    lemma_displaced_has(in_way, prev_displaced(prev), kept, p);
    assert(listed_ignoring_case(plan.displaced, p));
}

} // verus!
