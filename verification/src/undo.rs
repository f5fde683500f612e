//! Undoing what an install did, operation by operation, the last one first.

use vstd::prelude::*;
use crate::state::{Op, OpView};
use crate::text::{same, texts};

verus! {

/// What is found at a path.
#[derive(Debug)]
pub enum Found {
    /// Nothing.
    Nothing,
    /// Something whose content cannot be read.
    Opaque,
    /// A file with this digest.
    Content(String),
}

/// What is found at a path.
#[verifier::ext_equal]
pub enum FoundView {
    Nothing,
    Opaque,
    Content(Seq<char>),
}

impl View for Found {
    type V = FoundView;

    open spec fn view(&self) -> FoundView {
        match self {
            Found::Nothing => FoundView::Nothing,
            Found::Opaque => FoundView::Opaque,
            Found::Content(d) => FoundView::Content(d@),
        }
    }
}

impl Found {
    /// A file with this digest?
    pub fn is_content(&self, digest: &str) -> (b: bool)
        ensures
            b == (self@ == FoundView::Content(digest@)),
    {
        match self {
            Found::Content(d) => same(d.as_str(), digest),
            _ => false,
        }
    }

    /// Something, whatever it is?
    pub fn is_there(&self) -> (b: bool)
        ensures
            b == !(self@ is Nothing),
    {
        match self {
            Found::Nothing => false,
            _ => true,
        }
    }
}

/// Files by their paths, each as the digest of its content.
pub type Files = Map<Seq<char>, Seq<char>>;

/// What is found at a path where these are the files.
pub open spec fn found_in(files: Files, path: Seq<char>) -> FoundView {
    if files.dom().contains(path) {
        FoundView::Content(files[path])
    } else {
        FoundView::Nothing
    }
}

/// What undoing one operation comes to.
#[derive(Debug)]
pub enum Revert {
    /// Nothing to do.
    Nothing,
    /// The file was changed since: it is left to its owner.
    Keep { path: String },
    /// The snapshot goes back to the path.
    Restore { from: String, to: String },
    /// The file is deleted.
    Delete { path: String },
    /// The file is moved.
    Move { from: String, to: String },
}

/// The path of the file that an operation wrote, deleted or moved to.
pub open spec fn op_path(op: OpView) -> Seq<char> {
    match op {
        OpView::Overwrite { to, .. } => to,
        OpView::Delete { path, .. } => path,
        OpView::Rename { to, .. } => to,
    }
}

/// The snapshot of what an operation replaced.
pub open spec fn op_before(op: OpView) -> Option<Seq<char>> {
    match op {
        OpView::Overwrite { before, .. } => before,
        OpView::Delete { before, .. } => before,
        OpView::Rename { .. } => None,
    }
}

/// There is a snapshot of what the operation replaced.
pub open spec fn has_snapshot(op: OpView, snaps: Files) -> bool {
    op_before(op) matches Some(b) && snaps.dom().contains(b)
}

/// The game files after undoing one operation.
///
/// A file that the operation wrote and that is unchanged gives way to the
/// snapshot, or goes where there is none. A changed file stays as it is. At an
/// empty path, and for a deleted file, the snapshot comes back. A moved file
/// moves back.
pub open spec fn reverted(op: OpView, game: Files, snaps: Files) -> Files {
    match op {
        OpView::Overwrite { to, digest, before } => if game.dom().contains(to) && game[to]
            != digest {
            game
        } else if has_snapshot(op, snaps) {
            game.insert(to, snaps[before->0])
        } else {
            game.remove(to)
        },
        OpView::Delete { path, before } => if has_snapshot(op, snaps) {
            game.insert(path, snaps[before->0])
        } else {
            game
        },
        OpView::Rename { from, to } => if game.dom().contains(to) {
            game.remove(to).insert(from, game[to])
        } else {
            game
        },
    }
}

/// The game files after undoing a script, the last operation first.
pub open spec fn played_back(script: Seq<OpView>, game: Files, snaps: Files) -> Files
    decreases script.len(),
{
    if script.len() == 0 {
        game
    } else {
        played_back(script.drop_last(), reverted(script.last(), game, snaps), snaps)
    }
}

/// The game files after what undoing one operation comes to.
pub open spec fn performed(r: Revert, game: Files, snaps: Files) -> Files {
    match r {
        Revert::Nothing => game,
        Revert::Keep { path } => game,
        Revert::Restore { from, to } => game.insert(to@, snaps[from@]),
        Revert::Delete { path } => game.remove(path@),
        Revert::Move { from, to } => game.remove(from@).insert(to@, game[from@]),
    }
}

/// What undoing an operation comes to, where `here` is found at its path and
/// `snapshot` says whether the snapshot of what it replaced is there.
pub open spec fn revert_of(op: OpView, here: FoundView, snapshot: bool, r: Revert) -> bool {
    match op {
        OpView::Overwrite { to, digest, before } => if here == FoundView::Content(digest) {
            if before is Some && snapshot {
                r matches Revert::Restore { from, to: t } && from@ == before->0 && t@ == to
            } else {
                r matches Revert::Delete { path } && path@ == to
            }
        } else if here is Nothing {
            if before is Some && snapshot {
                r matches Revert::Restore { from, to: t } && from@ == before->0 && t@ == to
            } else {
                r is Nothing
            }
        } else {
            r matches Revert::Keep { path } && path@ == to
        },
        OpView::Delete { path, before } => if before is Some && snapshot {
            r matches Revert::Restore { from, to } && from@ == before->0 && to@ == path
        } else {
            r is Nothing
        },
        OpView::Rename { from, to } => if here is Nothing {
            r is Nothing
        } else {
            r matches Revert::Move { from: f, to: t } && f@ == to && t@ == from
        },
    }
}

/// Decides what undoing an operation comes to, where `here` is found at its path
/// and `snapshot` says whether the snapshot of what it replaced is there.
pub fn revert_op(op: &Op, here: &Found, snapshot: bool) -> (r: Revert)
    ensures
        revert_of(op@, here@, snapshot, r),
{
    match op {
        Op::Overwrite { to, digest, before } => {
            let untouched: bool = here.is_content(digest.as_str());
            if !untouched && here.is_there() {
                return Revert::Keep { path: to.clone() };
            }
            match before {
                Some(b) => {
                    if snapshot {
                        return Revert::Restore { from: b.clone(), to: to.clone() };
                    }
                },
                None => {},
            }
            if untouched {
                Revert::Delete { path: to.clone() }
            } else {
                Revert::Nothing
            }
        },
        Op::Delete { path, before } => match before {
            Some(b) => if snapshot {
                Revert::Restore { from: b.clone(), to: path.clone() }
            } else {
                Revert::Nothing
            },
            None => Revert::Nothing,
        },
        Op::Rename { from, to } => if here.is_there() {
            Revert::Move { from: to.clone(), to: from.clone() }
        } else {
            Revert::Nothing
        },
    }
}

/// Doing what was decided for an operation undoes it.
pub proof fn law_revert(op: OpView, game: Files, snaps: Files, r: Revert)
    requires
        revert_of(op, found_in(game, op_path(op)), has_snapshot(op, snaps), r),
    ensures
        performed(r, game, snaps) == reverted(op, game, snaps),
{
    match op {
        OpView::Overwrite { to, .. } => {
            if !game.dom().contains(to) {
                assert(game.remove(to) =~= game);
            }
        },
        _ => {},
    }
}

/// A file that was changed after the install is left as it is.
pub proof fn law_changed_files_stay(op: OpView, game: Files, snaps: Files)
    requires
        op matches OpView::Overwrite { to, digest, .. } && game.dom().contains(to) && game[to]
            != digest,
    ensures
        reverted(op, game, snaps) == game,
{
}

/// Moving a file and undoing that gives the files back, where the path that it
/// was moved to was free.
pub proof fn law_rename_undone(from: Seq<char>, to: Seq<char>, game: Files, snaps: Files)
    requires
        game.dom().contains(from),
        !game.dom().contains(to),
    ensures
        reverted(
            OpView::Rename { from, to },
            game.remove(from).insert(to, game[from]),
            snaps,
        ) == game,
{
    let moved = game.remove(from).insert(to, game[from]);
    assert(moved.remove(to).insert(from, moved[to]) =~= game);
}

/// Notes what became of one operation: `done` says whether it could be carried
/// out.
pub fn settle(r: &Revert, done: bool, preserved: &mut Vec<String>, restored: &mut Vec<String>)
    ensures
        texts(final(preserved)@) == match *r {
            Revert::Keep { path } => texts(old(preserved)@).push(path@),
            _ => texts(old(preserved)@),
        },
        texts(final(restored)@) == match *r {
            Revert::Restore { from, to } => if done {
                texts(old(restored)@).push(to@)
            } else {
                texts(old(restored)@)
            },
            Revert::Move { from, to } => if done {
                texts(old(restored)@).push(to@)
            } else {
                texts(old(restored)@)
            },
            _ => texts(old(restored)@),
        },
{
    match r {
        Revert::Keep { path } => {
            let ghost before = preserved@;
            preserved.push(path.clone());
            proof {
                assert(texts(preserved@) =~= texts(before).push(path@));
            }
        },
        Revert::Restore { from, to } => {
            if done {
                let ghost before = restored@;
                restored.push(to.clone());
                proof {
                    assert(texts(restored@) =~= texts(before).push(to@));
                }
            }
        },
        Revert::Move { from, to } => {
            if done {
                let ghost before = restored@;
                restored.push(to.clone());
                proof {
                    assert(texts(restored@) =~= texts(before).push(to@));
                }
            }
        },
        _ => {},
    }
}

// ---------------------------------------------------------------------------
// Playing a script back
// ---------------------------------------------------------------------------

/// No operation of the script moves files, and each keeps its snapshot, if there
/// is one, under its own path.
pub open spec fn in_place(script: Seq<OpView>, snaps: Files) -> bool {
    forall|i: int|
        0 <= i < script.len() ==> {
            let op = #[trigger] script[i];
            &&& !(op is Rename)
            &&& op_before(op) == if snaps.dom().contains(op_path(op)) {
                Some(op_path(op))
            } else {
                None::<Seq<char>>
            }
        }
}

/// An operation of the script touched the path.
pub open spec fn touches(script: Seq<OpView>, path: Seq<char>) -> bool {
    exists|i: int| 0 <= i < script.len() && op_path(#[trigger] script[i]) == path
}

/// Playing back leaves a path that no operation touched.
pub proof fn lemma_untouched(script: Seq<OpView>, game: Files, snaps: Files, path: Seq<char>)
    requires
        in_place(script, snaps),
        !touches(script, path),
    ensures
        found_in(played_back(script, game, snaps), path) == found_in(game, path),
    decreases script.len(),
{
    if script.len() > 0 {
        let t = script.drop_last();
        assert(script[script.len() - 1] == script.last());
        assert(forall|i: int| 0 <= i < t.len() ==> #[trigger] t[i] == script[i]);
        assert(op_path(script.last()) != path);
        lemma_untouched(t, reverted(script.last(), game, snaps), snaps, path);
    }
}

/// Once a path is back to what its snapshot says, it stays so.
proof fn lemma_stays(script: Seq<OpView>, game: Files, snaps: Files, path: Seq<char>)
    requires
        in_place(script, snaps),
        found_in(game, path) == found_in(snaps, path),
    ensures
        found_in(played_back(script, game, snaps), path) == found_in(snaps, path),
    decreases script.len(),
{
    if script.len() > 0 {
        let t = script.drop_last();
        assert(script[script.len() - 1] == script.last());
        assert(forall|i: int| 0 <= i < t.len() ==> #[trigger] t[i] == script[i]);
        lemma_stays(t, reverted(script.last(), game, snaps), snaps, path);
    }
}

/// A path that the script touched, and that is as the last operation on it left
/// it, gets its snapshot back, or becomes empty where there is none.
pub proof fn lemma_touched(
    script: Seq<OpView>,
    game: Files,
    snaps: Files,
    path: Seq<char>,
    last: int,
)
    requires
        in_place(script, snaps),
        0 <= last < script.len(),
        op_path(script[last]) == path,
        forall|i: int| last < i < script.len() ==> op_path(#[trigger] script[i]) != path,
        match script[last] {
            OpView::Overwrite { digest, .. } => found_in(game, path) == FoundView::Content(digest),
            _ => snaps.dom().contains(path),
        },
    ensures
        found_in(played_back(script, game, snaps), path) == found_in(snaps, path),
    decreases script.len(),
{
    let t = script.drop_last();
    let after = reverted(script.last(), game, snaps);
    assert(script[script.len() - 1] == script.last());
    assert(forall|i: int| 0 <= i < t.len() ==> #[trigger] t[i] == script[i]);
    if last == script.len() - 1 {
        lemma_stays(t, after, snaps, path);
    } else {
        assert(op_path(script.last()) != path);
        lemma_touched(t, after, snaps, path, last);
    }
}

/// What undoing an operation may do: only a file that is as the operation wrote it
/// is deleted, and only where there is no snapshot to put in its place; only a
/// snapshot that is there is put back, to the path it was taken from; and a file
/// that somebody else has written since is left alone.
pub proof fn law_undoing_is_careful(op: OpView, here: FoundView, snapshot: bool, r: Revert)
    requires
        revert_of(op, here, snapshot, r),
    ensures
        r matches Revert::Delete { path } ==> (op matches OpView::Overwrite { to, digest, before }
            && path@ == to && here == FoundView::Content(digest) && !(before is Some && snapshot)),
        r matches Revert::Restore { from, to } ==> snapshot && match op {
            OpView::Overwrite { to: t, digest, before } => to@ == t && before == Some(from@) && (here
                is Nothing || here == FoundView::Content(digest)),
            OpView::Delete { path, before } => to@ == path && before == Some(from@),
            OpView::Rename { .. } => false,
        },
        r matches Revert::Move { from, to } ==> !(here is Nothing) && op == (OpView::Rename {
            from: to@,
            to: from@,
        }),
        r matches Revert::Keep { path } ==> (op matches OpView::Overwrite { to, digest, .. }
            && path@ == to && !(here is Nothing) && here != FoundView::Content(digest)),
        r is Nothing ==> here is Nothing || op is Delete,
        op matches OpView::Delete { before, .. } && before is Some && snapshot ==> r is Restore,
        op matches OpView::Overwrite { before, .. } && here is Nothing && before is Some && snapshot
            ==> r is Restore,
{
}

} // verus!
