//! One program at a time in a game directory.

use vstd::prelude::*;
use crate::error::{fails, fails_for, other, other_for, Result};
use crate::text::{cat, cat3, own};

verus! {

/// A lock file that is older than this, in seconds, is taken over.
pub const LOCK_STALE_SECS: u64 = 30;

/// A lock that is held, by its file.
#[derive(Debug)]
pub struct Lock {
    pub path: String,
}

/// How an attempt to create the lock file ended.
#[derive(Debug)]
pub enum Attempt {
    /// The file was created.
    Created,
    /// There was one already, of this age in seconds where that can be told.
    Taken(Option<u64>),
    /// It could not be created, for this reason.
    Failed(String),
}

/// What follows an attempt.
#[derive(Debug)]
pub enum LockStep {
    /// The lock is held.
    Held(Lock),
    /// The old file is deleted, and the attempt repeated.
    TakeOver,
}

/// A lock file of this age is stale; one whose age cannot be told is.
pub open spec fn is_stale(age: Option<u64>) -> bool {
    match age {
        Some(a) => a > LOCK_STALE_SECS,
        None => true,
    }
}

/// What follows an attempt to create the lock file at `path`.
pub open spec fn follows(r: Result<LockStep>, path: Seq<char>, attempt: Attempt) -> bool {
    match attempt {
        Attempt::Created => r matches Ok(LockStep::Held(l)) && l.path@ == path,
        Attempt::Taken(age) => if is_stale(age) {
            r matches Ok(LockStep::TakeOver)
        } else {
            fails(
                r,
                "another chef process is working on this game directory (lock: "@ + path + ")"@,
            )
        },
        Attempt::Failed(why) => fails_for(r, "cannot create lock "@ + path, why@),
    }
}

/// How an attempt to create the lock file ends where these lock files are there,
/// each with its age, and nothing else is in the way.
pub open spec fn attempt_on(files: Map<Seq<char>, u64>, path: Seq<char>) -> Attempt {
    if files.dom().contains(path) {
        Attempt::Taken(Some(files[path]))
    } else {
        Attempt::Created
    }
}

/// The lock files after an attempt and what follows it: a file that was created is
/// there, a stale one is deleted, and where the attempt is refused all stay.
pub open spec fn files_after(files: Map<Seq<char>, u64>, path: Seq<char>) -> Map<Seq<char>, u64> {
    if !files.dom().contains(path) {
        files.insert(path, 0)
    } else if is_stale(Some(files[path])) {
        files.remove(path)
    } else {
        files
    }
}

/// While a lock is held and fresh, nobody else gets it, and its file stays; a lock
/// on another directory is not in the way; once its file is deleted the lock can
/// be had again.
pub proof fn law_lock_is_exclusive(
    files: Map<Seq<char>, u64>,
    path: Seq<char>,
    elsewhere: Seq<char>,
    again: Result<LockStep>,
    theirs: Result<LockStep>,
    later: Result<LockStep>,
)
    requires
        files.dom().contains(path),
        files[path] <= LOCK_STALE_SECS,
        follows(again, path, attempt_on(files, path)),
        elsewhere != path,
        follows(theirs, elsewhere, attempt_on(files, elsewhere)),
        follows(later, path, attempt_on(files.remove(path), path)),
    ensures
        again is Err,
        files_after(files, path) == files,
        !files.dom().contains(elsewhere) ==> (theirs matches Ok(LockStep::Held(l)) && l.path@
            == elsewhere),
        files_after(files, elsewhere).dom().contains(path),
        later matches Ok(LockStep::Held(l)) && l.path@ == path,
{
}

/// A stale lock is taken over: its file is deleted, and the attempt is repeated
/// with success.
pub proof fn law_stale_lock_is_taken_over(
    files: Map<Seq<char>, u64>,
    path: Seq<char>,
    first: Result<LockStep>,
    second: Result<LockStep>,
)
    requires
        files.dom().contains(path),
        files[path] > LOCK_STALE_SECS,
        follows(first, path, attempt_on(files, path)),
        follows(second, path, attempt_on(files_after(files, path), path)),
    ensures
        first matches Ok(LockStep::TakeOver),
        second matches Ok(LockStep::Held(l)) && l.path@ == path,
{
}

impl Lock {
    /// Decides what follows an attempt to create the lock file at `path`.
    pub fn acquire(path: &str, attempt: Attempt) -> (r: Result<LockStep>)
        ensures
            follows(r, path@, attempt),
    {
        match attempt {
            Attempt::Created => Ok(LockStep::Held(Lock { path: own(path) })),
            Attempt::Taken(age) => {
                let stale: bool = match age {
                    Some(a) => a > LOCK_STALE_SECS,
                    None => true,
                };
                if stale {
                    Ok(LockStep::TakeOver)
                } else {
                    other(
                        cat3(
                            "another chef process is working on this game directory (lock: ",
                            path,
                            ")",
                        ),
                    )
                }
            },
            Attempt::Failed(why) => other_for(cat("cannot create lock ", path), why),
        }
    }
}

/// A lock file is left to its owner for half a minute, and is stale from then on.
pub proof fn law_locks_last_half_a_minute(age: u64)
    ensures
        is_stale(Some(age)) <==> age > 30,
        is_stale(None),
{
}

} // verus!
