//! What can be asked of the program, and how package arguments are read.

use vstd::prelude::*;
use crate::error::{fails, other, ChefError, Failure, Result};
use crate::resolution::{is_numeric, numeric};
use crate::state::opt;
use crate::text::{
    cat3, chars_of, ends, ends_with, find_char, first_of, is_digit, lemma_first_of, own, skip_text,
    slice_text,
};
use crate::version::{is_exact_version, strict, strip_v_prefix, without_v};

verus! {

/// One invocation.
#[derive(Debug)]
pub struct Cli {
    /// Documents instead of words.
    pub json: bool,
    pub cmd: Cmd,
}

/// What is asked for.
#[derive(Debug)]
pub enum Cmd {
    /// Install packages, each with an optional version: `cleo@5`.
    Add { pkgs: Vec<String>, dir: Option<String>, dry_run: bool },
    /// Remove installed packages.
    Remove { pkgs: Vec<String>, dir: Option<String> },
    /// Show what can be installed.
    Menu { pkg: Option<String>, dir: Option<String>, refresh: bool },
    /// Show what is installed.
    Which { pkg: Option<String>, dir: Option<String> },
    /// Update installed packages.
    Update { pkg: Option<String>, dir: Option<String>, dry_run: bool },
    /// Update the program itself.
    Upgrade { check: bool },
}

/// A package argument: the name before the first `@`, and what stands behind it.
pub open spec fn argument(input: Seq<char>) -> (Seq<char>, Option<Seq<char>>) {
    let at = first_of(input, '@');
    if at < input.len() {
        (input.take(at), Some(input.skip(at + 1)))
    } else {
        (input, None)
    }
}

/// Reads a package argument: `cleo@5.4.0` asks for version 5.4.0 of `cleo`.
pub fn split_pkg_spec(input: &str) -> (r: (String, Option<String>))
    ensures
        r.0@ == argument(input@).0,
        opt(r.1) == argument(input@).1,
{
    let v = chars_of(input);
    match find_char(&v, '@') {
        Some(i) => {
            let name = slice_text(&v, 0, i);
            let spec = skip_text(&v, i + 1);
            proof {
                assert(v@.subrange(0, i as int) =~= v@.take(i as int));
            }
            (name, Some(spec))
        },
        None => (own(input), None),
    }
}

/// Package arguments, read.
pub open spec fn arguments(inputs: Seq<String>) -> Seq<(Seq<char>, Option<Seq<char>>)> {
    inputs.map_values(|s: String| argument(s@))
}

/// What requests say.
pub open spec fn request_views(v: Seq<(String, Option<String>)>) -> Seq<
    (Seq<char>, Option<Seq<char>>),
> {
    v.map_values(|r: (String, Option<String>)| (r.0@, opt(r.1)))
}

/// Reads package arguments.
pub fn requests(inputs: &Vec<String>) -> (out: Vec<(String, Option<String>)>)
    ensures
        request_views(out@) == arguments(inputs@),
{
    let ghost want = arguments(inputs@);
    let mut out: Vec<(String, Option<String>)> = Vec::new();
    let mut i: usize = 0;
    while i < inputs.len()
        invariant
            i <= inputs@.len(),
            want == arguments(inputs@),
            request_views(out@) =~= want.take(i as int),
        decreases inputs.len() - i,
    {
        let ghost before = out@;
        out.push(split_pkg_spec(inputs[i].as_str()));
        proof {
            assert(request_views(out@) =~= request_views(before).push(want[i as int]));
            assert(want.take(i + 1) =~= want.take(i as int).push(want[i as int]));
        }
        i = i + 1;
    }
    proof {
        assert(want.take(i as int) =~= want);
    }
    out
}

// ---------------------------------------------------------------------------
// What is removed
// ---------------------------------------------------------------------------

/// The version of a removal, without a leading `v`, can be told: it is a whole
/// version, or numbers with dots between them.
pub open spec fn removal_ok(norm: Seq<char>, exact: bool) -> bool {
    exact || (norm.len() > 0 && !ends(norm, "."@) && numeric(norm))
}

/// The message about a removal with another kind of version.
pub open spec fn removal_message(name: Seq<char>) -> Seq<char> {
    "remove requires an exact version (e.g. "@ + name + "@4.4.4)"@
}

/// Reads the version of a removal; `exact` says whether it spells a version.
pub fn removal_version(name: &str, norm: &str, exact: bool) -> (r: Result<()>)
    ensures
        if removal_ok(norm@, exact) {
            r is Ok
        } else {
            fails(r, removal_message(name@))
        },
{
    if exact || (norm.unicode_len() > 0 && !ends_with(norm, ".") && is_numeric(norm)) {
        Ok(())
    } else {
        other(cat3("remove requires an exact version (e.g. ", name, "@4.4.4)"))
    }
}

/// The removal that an argument asks for.
pub open spec fn removal(input: Seq<char>) -> core::result::Result<
    (Seq<char>, Option<Seq<char>>),
    Seq<char>,
> {
    let (name, spec) = argument(input);
    match spec {
        None => Ok((name, None)),
        Some(s) => if removal_ok(without_v(s), strict(without_v(s)) is Some) {
            Ok((name, Some(without_v(s))))
        } else {
            Err(removal_message(name))
        },
    }
}

/// The removals that the arguments ask for, or the message about the first that
/// asks for none.
pub open spec fn removals(inputs: Seq<String>) -> core::result::Result<
    Seq<(Seq<char>, Option<Seq<char>>)>,
    Seq<char>,
>
    decreases inputs.len(),
{
    if inputs.len() == 0 {
        Ok(Seq::empty())
    } else {
        match removals(inputs.drop_last()) {
            Err(m) => Err(m),
            Ok(v) => match removal(inputs.last()@) {
                Ok(x) => Ok(v.push(x)),
                Err(m) => Err(m),
            },
        }
    }
}

proof fn lemma_removals_fail(inputs: Seq<String>, n: int, m: Seq<char>)
    requires
        0 <= n <= inputs.len(),
        removals(inputs.take(n)) == Err::<Seq<(Seq<char>, Option<Seq<char>>)>, Seq<char>>(m),
    ensures
        removals(inputs) == Err::<Seq<(Seq<char>, Option<Seq<char>>)>, Seq<char>>(m),
    decreases inputs.len() - n,
{
    if n < inputs.len() {
        assert(inputs.take(n + 1).drop_last() =~= inputs.take(n));
        lemma_removals_fail(inputs, n + 1, m);
    } else {
        assert(inputs.take(n) =~= inputs);
    }
}

/// Reads the arguments of a removal, all of them before anything is touched.
pub fn removal_requests(inputs: &Vec<String>) -> (r: Result<Vec<(String, Option<String>)>>)
    ensures
        match removals(inputs@) {
            Ok(v) => r matches Ok(out) && request_views(out@) == v,
            Err(m) => fails(r, m),
        },
{
    let mut out: Vec<(String, Option<String>)> = Vec::new();
    let mut i: usize = 0;
    proof {
        assert(inputs@.take(0) =~= Seq::<String>::empty());
        assert(request_views(out@) =~= Seq::<(Seq<char>, Option<Seq<char>>)>::empty());
    }
    while i < inputs.len()
        invariant
            i <= inputs@.len(),
            removals(inputs@.take(i as int)) == Ok::<
                Seq<(Seq<char>, Option<Seq<char>>)>,
                Seq<char>,
            >(request_views(out@)),
        decreases inputs.len() - i,
    {
        proof {
            assert(inputs@.take(i + 1).drop_last() =~= inputs@.take(i as int));
            assert(inputs@.take(i + 1).last() == inputs@[i as int]);
        }
        let (name, spec) = split_pkg_spec(inputs[i].as_str());
        let ghost before = out@;
        let ghost nv = name@;
        match spec {
            None => {
                out.push((name, None));
                proof {
                    assert(request_views(out@) =~= request_views(before).push((nv, None)));
                }
            },
            Some(s) => {
                let norm = strip_v_prefix(s.as_str());
                let exact: bool = is_exact_version(norm.as_str());
                match removal_version(name.as_str(), norm.as_str(), exact) {
                    Ok(_) => {
                        let ghost sv = norm@;
                        out.push((name, Some(norm)));
                        proof {
                            assert(request_views(out@) =~= request_views(before).push(
                                (nv, Some(sv)),
                            ));
                        }
                    },
                    Err(e) => {
                        proof {
                            lemma_removals_fail(inputs@, i + 1, removal_message(nv));
                        }
                        return Err(e);
                    },
                }
            },
        }
        i = i + 1;
    }
    proof {
        assert(inputs@.take(i as int) =~= inputs@);
    }
    Ok(out)
}

/// How a batch ends whose failures were reported one by one: well where there
/// was none, else with the first of them.
pub fn finish_batch(first: Option<ChefError>) -> (r: Result<()>)
    ensures
        match first {
            None => r is Ok,
            Some(ChefError::Other(f)) => r == Err::<(), ChefError>(ChefError::Reported(f)),
            Some(e) => r matches Err(ChefError::Reported(f)) && f.message@ == e.says()
                && f.cause is None,
        },
{
    match first {
        None => Ok(()),
        Some(e) => match e {
            ChefError::Other(f) => Err(ChefError::Reported(f)),
            e => Err(ChefError::Reported(Failure { message: e.message(), cause: None })),
        },
    }
}

/// A package argument is read as the name before its first `@` and the text
/// behind it: put together with an `@` they are the argument again.
pub proof fn law_arguments_are_split_at_the_first_at(input: Seq<char>)
    ensures
        !argument(input).0.contains('@'),
        match argument(input).1 {
            Some(spec) => input == argument(input).0.push('@') + spec,
            None => input == argument(input).0,
        },
{
    lemma_first_of(input, '@');
    let at = first_of(input, '@');
    let name = argument(input).0;
    assert forall|i: int| 0 <= i < name.len() implies name[i] != '@' by {}
    if at < input.len() {
        assert(input =~= input.take(at).push('@') + input.skip(at + 1));
    }
}

/// A removal can be told: what stands behind the `@`, without white space around
/// it and one `v` in front, is a whole version, or numbers with dots between and
/// no dot behind.
pub open spec fn tells_what_to_remove(input: Seq<char>) -> bool {
    match argument(input).1 {
        None => true,
        Some(s) => strict(without_v(s)) is Some || (without_v(s).len() > 0 && without_v(s).last()
            != '.' && forall|i: int|
            0 <= i < without_v(s).len() ==> is_digit(#[trigger] without_v(s)[i])
                || without_v(s)[i] == '.'),
    }
}

proof fn lemma_removal(input: Seq<char>)
    ensures
        match removal(input) {
            Ok(x) => tells_what_to_remove(input) && x.0 == argument(input).0 && x.1 == match argument(
                input,
            ).1 {
                None => None,
                Some(s) => Some(without_v(s)),
            },
            Err(m) => !tells_what_to_remove(input) && m == removal_message(argument(input).0),
        },
{
    reveal_strlit(".");
    match argument(input).1 {
        None => {},
        Some(s) => {
            let n = without_v(s);
            if n.len() > 0 {
                assert(ends(n, "."@) <==> n.last() == '.') by {
                    let tail = n.subrange(n.len() - 1, n.len() as int);
                    assert(tail.len() == 1 && tail[0] == n.last());
                    if n.last() == '.' {
                        assert(tail =~= "."@);
                    }
                }
            }
        },
    }
}

/// The arguments of a removal are taken all together: where each can be told, each
/// is read, in order, and else nothing is removed, and the message is about the
/// first that cannot.
pub proof fn law_removals_are_read_all_together(inputs: Seq<String>)
    ensures
        match removals(inputs) {
            Ok(v) => v.len() == inputs.len() && forall|i: int|
                0 <= i < inputs.len() ==> tells_what_to_remove((#[trigger] inputs[i])@) && v[i].0
                    == argument(inputs[i]@).0 && (v[i].1 is Some <==> argument(inputs[i]@).1
                    is Some) && (v[i].1 is Some ==> v[i].1->0 == without_v(
                    argument(inputs[i]@).1->0,
                )),
            Err(m) => exists|i: int|
                0 <= i < inputs.len() && !tells_what_to_remove((#[trigger] inputs[i])@) && m
                    == removal_message(argument(inputs[i]@).0) && forall|j: int|
                    0 <= j < i ==> tells_what_to_remove((#[trigger] inputs[j])@),
        },
    decreases inputs.len(),
{
    if inputs.len() > 0 {
        let t = inputs.drop_last();
        let l = inputs.len() - 1;
        law_removals_are_read_all_together(t);
        lemma_removal(inputs.last()@);
        assert(inputs[l] == inputs.last());
        assert forall|i: int| 0 <= i < l implies #[trigger] inputs[i] == t[i] by {}
        match removals(t) {
            Err(m) => {
                let i = choose|i: int|
                    0 <= i < t.len() && !tells_what_to_remove((#[trigger] t[i])@) && m
                        == removal_message(argument(t[i]@).0) && forall|j: int|
                        0 <= j < i ==> tells_what_to_remove((#[trigger] t[j])@);
                assert(inputs[i] == t[i]);
                assert forall|j: int| 0 <= j < i implies tells_what_to_remove(
                    (#[trigger] inputs[j])@,
                ) by {
                    assert(t[j] == inputs[j]);
                }
            },
            Ok(b) => {
                match removal(inputs.last()@) {
                    Ok(x) => {
                        let v = b.push(x);
                        assert(v[l] == x);
                        assert forall|i: int| 0 <= i < l implies v[i] == b[i] && #[trigger] inputs[i]
                            == t[i] by {}
                    },
                    Err(m) => {
                        assert forall|j: int| 0 <= j < l implies tells_what_to_remove(
                            (#[trigger] inputs[j])@,
                        ) by {
                            assert(t[j] == inputs[j]);
                        }
                        assert(!tells_what_to_remove(inputs[l]@));
                    },
                }
            },
        }
    }
}

/// A batch ends well exactly where nothing failed, and else with the message of
/// the first failure, which is not told again.
pub proof fn law_batches_end_with_the_first_failure(first: Option<ChefError>, r: Result<()>)
    requires
        call_ensures(finish_batch, (first,), r),
    ensures
        r is Ok <==> first is None,
        r is Err ==> r->Err_0 is Reported,
        first matches Some(ChefError::Other(f)) ==> r->Err_0 == ChefError::Reported(f),
{
}

/// Every package argument is read, in order, and none is left out.
pub proof fn law_every_argument_is_read(
    inputs: &Vec<String>,
    out: Vec<(String, Option<String>)>,
    i: int,
)
    requires
        call_ensures(requests, (inputs,), out),
        0 <= i < inputs@.len(),
    ensures
        out@.len() == inputs@.len(),
        !out@[i].0@.contains('@'),
        match out@[i].1 {
            Some(spec) => inputs@[i]@ == out@[i].0@.push('@') + spec@,
            None => inputs@[i]@ == out@[i].0@,
        },
{
    law_arguments_are_split_at_the_first_at(inputs@[i]@);
    assert(request_views(out@).len() == arguments(inputs@).len());
    assert(request_views(out@)[i] == (out@[i].0@, opt(out@[i].1)));
    assert(arguments(inputs@)[i] == argument(inputs@[i]@));
}

/// The arguments of a removal are handed on as they were read: one request for
/// each, in order.
pub proof fn law_every_removal_is_handed_on(
    inputs: &Vec<String>,
    r: Result<Vec<(String, Option<String>)>>,
    i: int,
)
    requires
        call_ensures(removal_requests, (inputs,), r),
        0 <= i < inputs@.len(),
    ensures
        !tells_what_to_remove(inputs@[i]@) ==> r is Err,
        r is Ok ==> r->Ok_0@.len() == inputs@.len(),
        r is Ok ==> r->Ok_0@[i].0@ == argument(inputs@[i]@).0,
        r is Ok ==> (r->Ok_0@[i].1 is Some <==> argument(inputs@[i]@).1 is Some),
        r is Ok && r->Ok_0@[i].1 is Some ==> r->Ok_0@[i].1->0@ == without_v(
            argument(inputs@[i]@).1->0,
        ),
{
    law_removals_are_read_all_together(inputs@);
    if r is Ok {
        let v = removals(inputs@)->Ok_0;
        assert(request_views(r->Ok_0@).len() == v.len());
        assert(request_views(r->Ok_0@)[i] == (r->Ok_0@[i].0@, opt(r->Ok_0@[i].1)));
        assert(tells_what_to_remove(inputs@[i]@));
    }
}

} // verus!
