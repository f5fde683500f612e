//! What can go wrong, and how it is told.

use vstd::prelude::*;
use crate::text::{cat3, own, texts};

verus! {

/// A message, and what lies behind it where something does.
#[derive(Debug)]
pub struct Failure {
    pub message: String,
    /// The causes, the nearest first, with `: ` between them.
    pub cause: Option<String>,
}

/// A failed command.
#[derive(Debug)]
pub enum ChefError {
    /// A package name that matches several packages, with their names. Exit
    /// code 2.
    Ambiguous(Vec<String>),
    /// Every other failure. Exit code 1.
    Other(Failure),
    /// Failures that were already reported one by one, with the first of them.
    /// Exit code 1, and nothing more is printed.
    Reported(Failure),
}

/// The result of a command.
pub type Result<T> = core::result::Result<T, ChefError>;

/// The call failed with this message and nothing behind it.
pub open spec fn fails<T>(r: Result<T>, message: Seq<char>) -> bool {
    match r {
        Err(ChefError::Other(f)) => f.message@ == message && f.cause is None,
        _ => false,
    }
}

/// The call failed with this message, for this cause.
pub open spec fn fails_for<T>(r: Result<T>, message: Seq<char>, cause: Seq<char>) -> bool {
    match r {
        Err(ChefError::Other(f)) => f.cause matches Some(c) && c@ == cause && f.message@ == message,
        _ => false,
    }
}

/// The error with this message.
pub fn other<T>(message: String) -> (r: Result<T>)
    ensures
        fails(r, message@),
{
    Err(ChefError::Other(Failure { message, cause: None }))
}

/// The error with this message, for this cause.
pub fn other_for<T>(message: String, cause: String) -> (r: Result<T>)
    ensures
        fails_for(r, message@, cause@),
{
    Err(ChefError::Other(Failure { message, cause: Some(cause) }))
}

impl Failure {
    /// The message and what lies behind it, with `: ` between.
    pub open spec fn whole(&self) -> Seq<char> {
        match self.cause {
            Some(c) => self.message@ + ": "@ + c@,
            None => self.message@,
        }
    }

    /// The message and what lies behind it.
    pub fn text(&self) -> (out: String)
        ensures
            out@ == self.whole(),
    {
        match &self.cause {
            Some(c) => cat3(self.message.as_str(), ": ", c.as_str()),
            None => self.message.clone(),
        }
    }
}

/// The lines that name candidates.
pub open spec fn candidate_lines(c: Seq<Seq<char>>) -> Seq<char>
    decreases c.len(),
{
    if c.len() == 0 {
        Seq::empty()
    } else {
        candidate_lines(c.drop_last()) + ("  "@ + c.last() + "\n"@)
    }
}

impl ChefError {
    /// The message that users see.
    pub open spec fn says(&self) -> Seq<char> {
        match self {
            ChefError::Ambiguous(c) => "ambiguous package name - did you mean:\n"@
                + candidate_lines(texts(c@)),
            ChefError::Other(f) => f.whole(),
            ChefError::Reported(_) => "operation failed"@,
        }
    }

    /// The message that users see.
    pub fn message(&self) -> (out: String)
        ensures
            out@ == self.says(),
    {
        match self {
            ChefError::Ambiguous(c) => {
                let mut out: String = own("ambiguous package name - did you mean:\n");
                let ghost head = out@;
                let ghost all = texts(c@);
                let mut i: usize = 0;
                proof {
                    assert(head + candidate_lines(all.take(0)) =~= head);
                }
                while i < c.len()
                    invariant
                        i <= c@.len(),
                        all == texts(c@),
                        out@ == head + candidate_lines(all.take(i as int)),
                    decreases c.len() - i,
                {
                    let line = cat3("  ", c[i].as_str(), "\n");
                    proof {
                        assert(all.take(i + 1).drop_last() =~= all.take(i as int));
                        assert(all.take(i + 1).last() == c@[i as int]@);
                        assert((head + candidate_lines(all.take(i as int))) + line@ =~= head + (
                        candidate_lines(all.take(i as int)) + line@));
                    }
                    out.append(line.as_str());
                    i = i + 1;
                }
                proof {
                    assert(all.take(i as int) =~= all);
                }
                out
            },
            ChefError::Other(f) => f.text(),
            ChefError::Reported(_) => own("operation failed"),
        }
    }

    /// The exit code of the process: 2 for an ambiguous name, else 1.
    pub fn exit_code(&self) -> (code: i32)
        ensures
            code == if *self is Ambiguous {
                2int
            } else {
                1
            },
    {
        match self {
            ChefError::Ambiguous(_) => 2,
            _ => 1,
        }
    }
}

/// Only an ambiguous name ends with exit code 2, and what was reported before is
/// not told again in detail.
pub proof fn law_exit_codes(e: &ChefError, code: i32)
    requires
        call_ensures(ChefError::exit_code, (e,), code),
    ensures
        code == 2 <==> *e is Ambiguous,
        code == 1 || code == 2,
{
}

/// The message about an ambiguous name tells every candidate on a line of its own.
pub proof fn law_every_candidate_is_told(c: Seq<Seq<char>>, i: int)
    requires
        0 <= i < c.len(),
    ensures
        exists|front: Seq<char>, back: Seq<char>|
            candidate_lines(c) == #[trigger] (front + ("  "@ + c[i] + "\n"@) + back),
    decreases c.len(),
{
    let t = c.drop_last();
    let last = "  "@ + c.last() + "\n"@;
    let none = Seq::<char>::empty();
    if i < t.len() {
        law_every_candidate_is_told(t, i);
        let (f, b) = choose|f: Seq<char>, b: Seq<char>|
            candidate_lines(t) == #[trigger] (f + ("  "@ + t[i] + "\n"@) + b);
        assert(candidate_lines(c) =~= f + ("  "@ + c[i] + "\n"@) + (b + last));
    } else {
        assert(candidate_lines(c) =~= candidate_lines(t) + ("  "@ + c[i] + "\n"@) + none);
    }
}

} // verus!
