//! Installing packages: what is installed, in which version, from which files,
//! and what is said about it.

use vstd::prelude::*;
use crate::archive::{quote, quoted};
use crate::catalog::{
    existent_slot, known_slot, lookup, LockFile, LockedAsset, PackageEntry, PackagesFile,
};
use crate::commands::request_views;
use crate::deploy::{
    dir_map, has_content, lemma_lists, look, placements, DeployFile, Placed,
};
use crate::error::{fails, other, ChefError, Result};
use crate::identify::{
    all_known, in_archive_of, law_packages_are_known_by_their_files, payload_basenames, ships,
    tells, Known,
};
use crate::json::{
    array, held, held_all, held_fields, lemma_shows, object, put, record, shows, string, Json,
};
use crate::layout::{below, join_path};
use crate::names::{id_meant, law_numbers_pick, pick, pick_of, resolve_id, said, Answer};
use crate::plan::{step_document, step_value, step_views, PlanStep, StepView};
use crate::resolution::{
    opt_text, pairs, resolve_spec, spec_or_stable, spec_resolved, ResolvedVersion,
};
use crate::state::{file_views, opt, GameDirState, Install, ManagedView};
use crate::strmap::StrMap;
use crate::text::{
    base_name, basename, cat3, chars_of, decimal, join, joined, list_has, lists, lowercase, own,
    replace_char, swapped_char, texts, to_lower, trimmed,
};
use crate::undo::{Found, FoundView};
use crate::version::{message_version, version_word};

verus! {

// ---------------------------------------------------------------------------
// What is installed
// ---------------------------------------------------------------------------

/// What a package argument comes to: first the package that is meant, then the
/// release.
pub open spec fn request_resolved(
    r: Result<ResolvedVersion>,
    pkgs: Seq<PackageEntry>,
    lock: Map<Seq<char>, LockedAsset>,
    name: Seq<char>,
    spec: Seq<char>,
    game: Option<Seq<char>>,
    answer: Answer,
    platform: Seq<char>,
) -> bool {
    exists|id: Result<String>| #[trigger]
        id_meant(id, pkgs, name, game, answer) && match id {
            Err(e) => r == Err::<ResolvedVersion, ChefError>(e),
            Ok(i) => spec_resolved(r, pkgs, lock, i@, game, spec, platform),
        }
}

/// The release that a package argument asks for.
pub fn plan_request(
    pkgs: &PackagesFile,
    lock: &LockFile,
    name: &str,
    spec: Option<&str>,
    game: Option<&str>,
    answer: &Answer,
    platform: &str,
) -> (r: Result<ResolvedVersion>)
    ensures
        request_resolved(
            r,
            pkgs.packages@,
            lock.assets@,
            name@,
            spec_or_stable(spec),
            opt_text(game),
            *answer,
            platform@,
        ),
{
    let id = resolve_id(pkgs, name, game, answer);
    let ghost id0 = id;
    assert(id_meant(id0, pkgs.packages@, name@, opt_text(game), *answer));
    match id {
        Ok(i) => resolve_spec(pkgs, lock, i.as_str(), game, spec, platform),
        Err(e) => Err(e),
    }
}

/// What the argument at place `i` comes to.
pub open spec fn request_at(
    r: Result<ResolvedVersion>,
    pkgs: Seq<PackageEntry>,
    lock: Map<Seq<char>, LockedAsset>,
    asked: Seq<(Seq<char>, Option<Seq<char>>)>,
    answers: Seq<Answer>,
    game: Option<Seq<char>>,
    platform: Seq<char>,
    i: int,
) -> bool {
    request_resolved(
        r,
        pkgs,
        lock,
        asked[i].0,
        match asked[i].1 {
            Some(s) => s,
            None => "stable"@,
        },
        game,
        answers[i],
        platform,
    )
}

/// What the arguments come to that were answered for: a release for each, in
/// order, or the error of the first that comes to none.
pub open spec fn requests_resolved(
    r: Result<Vec<ResolvedVersion>>,
    pkgs: Seq<PackageEntry>,
    lock: Map<Seq<char>, LockedAsset>,
    asked: Seq<(Seq<char>, Option<Seq<char>>)>,
    answers: Seq<Answer>,
    game: Option<Seq<char>>,
    platform: Seq<char>,
) -> bool {
    match r {
        Ok(plan) => plan@.len() == answers.len() && forall|i: int|
            0 <= i < answers.len() ==> request_at(
                Ok(#[trigger] plan@[i]),
                pkgs,
                lock,
                asked,
                answers,
                game,
                platform,
                i,
            ),
        Err(e) => exists|i: int|
            0 <= i < answers.len() && #[trigger] request_at(
                Err(e),
                pkgs,
                lock,
                asked,
                answers,
                game,
                platform,
                i,
            ) && (forall|j: int|
                0 <= j < i ==> #[trigger] comes_to_one(
                    pkgs,
                    lock,
                    asked,
                    answers,
                    game,
                    platform,
                    j,
                )),
    }
}

/// The argument at place `i` comes to a release.
pub open spec fn comes_to_one(
    pkgs: Seq<PackageEntry>,
    lock: Map<Seq<char>, LockedAsset>,
    asked: Seq<(Seq<char>, Option<Seq<char>>)>,
    answers: Seq<Answer>,
    game: Option<Seq<char>>,
    platform: Seq<char>,
    i: int,
) -> bool {
    exists|v: ResolvedVersion| #[trigger]
        request_at(Ok(v), pkgs, lock, asked, answers, game, platform, i)
}

/// The releases that the package arguments ask for, all of them or none; `answers`
/// are the answers for the first of them, and only those are looked at.
pub fn plan_requests(
    pkgs: &PackagesFile,
    lock: &LockFile,
    asked: &Vec<(String, Option<String>)>,
    answers: &Vec<Answer>,
    game: Option<&str>,
    platform: &str,
) -> (r: Result<Vec<ResolvedVersion>>)
    requires
        answers@.len() <= asked@.len(),
    ensures
        requests_resolved(
            r,
            pkgs.packages@,
            lock.assets@,
            request_views(asked@),
            answers@,
            opt_text(game),
            platform@,
        ),
{
    let ghost ps = pkgs.packages@;
    let ghost ls = lock.assets@;
    let ghost qs = request_views(asked@);
    let ghost g = opt_text(game);
    let mut plan: Vec<ResolvedVersion> = Vec::new();
    let mut i: usize = 0;
    while i < answers.len()
        invariant
            i <= answers@.len() <= asked@.len(),
            ps == pkgs.packages@,
            ls == lock.assets@,
            qs == request_views(asked@),
            g == opt_text(game),
            plan@.len() == i,
            forall|k: int|
                0 <= k < i ==> request_at(
                    Ok(#[trigger] plan@[k]),
                    ps,
                    ls,
                    qs,
                    answers@,
                    g,
                    platform@,
                    k,
                ),
        decreases answers.len() - i,
    {
        let spec: Option<&str> = match &asked[i].1 {
            Some(s) => Some(s.as_str()),
            None => None,
        };
        assert(qs[i as int] == (asked@[i as int].0@, opt(asked@[i as int].1)));
        match plan_request(pkgs, lock, asked[i].0.as_str(), spec, game, &answers[i], platform) {
            Ok(v) => {
                plan.push(v);
            },
            Err(e) => {
                proof {
                    let bad: Result<ResolvedVersion> = Err(e);
                    assert(request_at(bad, ps, ls, qs, answers@, g, platform@, i as int));
                    assert forall|j: int| 0 <= j < i implies #[trigger] comes_to_one(
                        ps,
                        ls,
                        qs,
                        answers@,
                        g,
                        platform@,
                        j,
                    ) by {
                        let v = plan@[j];
                        let good: Result<ResolvedVersion> = Ok(v);
                        assert(request_at(good, ps, ls, qs, answers@, g, platform@, j));
                    }
                }
                return Err(e);
            },
        }
        i = i + 1;
    }
    Ok(plan)
}

/// One argument that comes to no release keeps all others from being installed:
/// there is no plan then.
pub proof fn law_one_bad_argument_stops_all(
    r: Result<Vec<ResolvedVersion>>,
    pkgs: Seq<PackageEntry>,
    lock: Map<Seq<char>, LockedAsset>,
    asked: Seq<(Seq<char>, Option<Seq<char>>)>,
    answers: Seq<Answer>,
    game: Option<Seq<char>>,
    platform: Seq<char>,
    i: int,
)
    requires
        requests_resolved(r, pkgs, lock, asked, answers, game, platform),
        0 <= i < answers.len(),
        !comes_to_one(pkgs, lock, asked, answers, game, platform, i),
    ensures
        r is Err,
{
    if r is Ok {
        let good: Result<ResolvedVersion> = Ok(r->Ok_0@[i]);
        assert(request_at(good, pkgs, lock, asked, answers, game, platform, i));
    }
}

/// Every file is there unchanged.
pub open spec fn intact(files: Seq<ManagedView>, seen: Map<Seq<char>, Found>) -> bool {
    forall|i: int|
        0 <= i < files.len() ==> look(seen, (#[trigger] files[i]).path) == FoundView::Content(
            files[i].sha256,
        )
}

/// The release is installed in this very version, with all its files unchanged.
pub open spec fn installed_already(
    id: Seq<char>,
    version: Seq<char>,
    installs: Map<Seq<char>, Install>,
    seen: Map<Seq<char>, Found>,
) -> bool {
    installs.dom().contains(id) && installs[id].version@ == version && intact(
        installs[id]@.files,
        seen,
    )
}

/// Is the release installed in this very version, with all its files unchanged?
pub fn already_installed(
    product: &ResolvedVersion,
    dir: Option<&GameDirState>,
    seen: &StrMap<Found>,
) -> (b: bool)
    ensures
        b == installed_already(product.id@, product.version@, dir_map(dir), seen@),
{
    let inst = match dir {
        Some(d) => match d.installs.get(product.id.as_str()) {
            Some(i) => i,
            None => {
                return false;
            },
        },
        None => {
            return false;
        },
    };
    if inst.version != product.version {
        return false;
    }
    let ghost fs = inst@.files;
    let mut i: usize = 0;
    while i < inst.files.len()
        invariant
            i <= inst.files@.len(),
            fs == file_views(inst.files@),
            dir_map(dir).dom().contains(product.id@),
            *inst == dir_map(dir)[product.id@],
            inst.version@ == product.version@,
            forall|k: int|
                0 <= k < i ==> look(seen@, (#[trigger] fs[k]).path) == FoundView::Content(
                    fs[k].sha256,
                ),
        decreases inst.files.len() - i,
    {
        proof {
            assert(fs[i as int] == inst.files@[i as int]@);
        }
        if !has_content(seen, inst.files[i].path.as_str(), inst.files[i].sha256.as_str()) {
            return false;
        }
        i = i + 1;
    }
    true
}

// ---------------------------------------------------------------------------
// What it needs
// ---------------------------------------------------------------------------

/// The lists share a text.
pub open spec fn share(a: Seq<Seq<char>>, b: Seq<Seq<char>>) -> bool {
    exists|i: int| 0 <= i < a.len() && b.contains(#[trigger] a[i])
}

/// One of the ids is installed.
pub open spec fn some_installed(ids: Seq<Seq<char>>, installs: Map<Seq<char>, Install>) -> bool {
    exists|i: int| 0 <= i < ids.len() && installs.dom().contains(#[trigger] ids[i])
}

/// One of the files in the game directory has a name under which one of the
/// packages ships a file.
pub open spec fn some_on_disk(
    names: Seq<Seq<char>>,
    ids: Seq<Seq<char>>,
    index: Seq<Known>,
) -> bool {
    exists|i: int, j: int|
        0 <= i < names.len() && 0 <= j < ids.len() && #[trigger] ships(
            index,
            lowercase(names[i]),
            ids[j],
        )
}

/// A dependency is met: something that shares its slot is installed in the same
/// run, or is installed already, or lies in the game directory.
pub open spec fn met(
    dep: Seq<char>,
    planned: Seq<Seq<char>>,
    pkgs: Seq<PackageEntry>,
    lock: Map<Seq<char>, LockedAsset>,
    game: Option<Seq<char>>,
    installs: Map<Seq<char>, Install>,
    names: Seq<Seq<char>>,
) -> bool {
    let slot = known_slot(pkgs, dep);
    share(planned, slot) || some_installed(slot, installs) || some_on_disk(
        names,
        slot,
        all_known(pkgs, lock, game),
    )
}

/// A dependency is met exactly where a package of its slot is planned, installed,
/// or known by the name of a file in the game directory.
pub(crate) proof fn lemma_met(
    dep: Seq<char>,
    planned: Seq<Seq<char>>,
    pkgs: Seq<PackageEntry>,
    lock: Map<Seq<char>, LockedAsset>,
    game: Option<Seq<char>>,
    installs: Map<Seq<char>, Install>,
    names: Seq<Seq<char>>,
)
    ensures
        met(dep, planned, pkgs, lock, game, installs, names) <==> {
            ||| exists|k: int|
                0 <= k < planned.len() && known_slot(pkgs, dep).contains(#[trigger] planned[k])
            ||| exists|id: Seq<char>| #[trigger]
                installs.dom().contains(id) && known_slot(pkgs, dep).contains(id)
            ||| exists|n: int, id: Seq<char>|
                0 <= n < names.len() && known_slot(pkgs, dep).contains(id)
                    && #[trigger] in_archive_of(pkgs, lock, game, id, lowercase(names[n]))
        },
{
    let slot = known_slot(pkgs, dep);
    let index = all_known(pkgs, lock, game);
    assert forall|n: int, id: Seq<char>|
        #[trigger] in_archive_of(pkgs, lock, game, id, lowercase(names[n])) <==> ships(
            index,
            lowercase(names[n]),
            id,
        ) by {
        law_packages_are_known_by_their_files(pkgs, lock, game, id, lowercase(names[n]));
    }
    if some_installed(slot, installs) {
        let i = choose|i: int| 0 <= i < slot.len() && installs.dom().contains(#[trigger] slot[i]);
        assert(slot.contains(slot[i]));
    }
    if exists|id: Seq<char>| #[trigger] installs.dom().contains(id) && slot.contains(id) {
        let id = choose|id: Seq<char>| #[trigger] installs.dom().contains(id) && slot.contains(id);
        assert(slot[slot.index_of(id)] == id);
    }
    if some_on_disk(names, slot, index) {
        let (i, j) = choose|i: int, j: int|
            0 <= i < names.len() && 0 <= j < slot.len() && #[trigger] ships(
                index,
                lowercase(names[i]),
                slot[j],
            );
        law_packages_are_known_by_their_files(pkgs, lock, game, slot[j], lowercase(names[i]));
        assert(slot.contains(slot[j]));
        assert(in_archive_of(pkgs, lock, game, slot[j], lowercase(names[i])));
    }
    if exists|n: int, id: Seq<char>|
        0 <= n < names.len() && slot.contains(id) && #[trigger] in_archive_of(
            pkgs,
            lock,
            game,
            id,
            lowercase(names[n]),
        ) {
        let (n, id) = choose|n: int, id: Seq<char>|
            0 <= n < names.len() && slot.contains(id) && #[trigger] in_archive_of(
                pkgs,
                lock,
                game,
                id,
                lowercase(names[n]),
            );
        let j = slot.index_of(id);
        assert(ships(index, lowercase(names[n]), slot[j]));
    }
}

fn lists_share(a: &Vec<String>, b: &Vec<String>) -> (r: bool)
    ensures
        r == share(texts(a@), texts(b@)),
{
    let mut i: usize = 0;
    while i < a.len()
        invariant
            i <= a@.len(),
            forall|k: int| 0 <= k < i ==> !texts(b@).contains(#[trigger] texts(a@)[k]),
        decreases a.len() - i,
    {
        proof {
            lemma_lists(b@, a@[i as int]@);
            assert(texts(a@)[i as int] == a@[i as int]@);
        }
        if list_has(b, a[i].as_str()) {
            return true;
        }
        i = i + 1;
    }
    false
}

/// Is the dependency met? `names` are the files directly in the game directory.
pub fn dep_present(
    dep: &str,
    planned: &Vec<String>,
    pkgs: &PackagesFile,
    lock: &LockFile,
    game: Option<&str>,
    dir: Option<&GameDirState>,
    names: &Vec<String>,
) -> (b: bool)
    ensures
        b == met(
            dep@,
            texts(planned@),
            pkgs.packages@,
            lock.assets@,
            opt_text(game),
            dir_map(dir),
            texts(names@),
        ),
{
    let slot = existent_slot(pkgs, dep);
    let ghost ids = texts(slot@);
    if lists_share(planned, &slot) {
        return true;
    }
    if let Some(d) = dir {
        let mut i: usize = 0;
        while i < slot.len()
            invariant
                i <= slot@.len(),
                ids == texts(slot@),
                ids == known_slot(pkgs.packages@, dep@),
                dir_map(dir) == d.installs@,
                forall|k: int| 0 <= k < i ==> !d.installs@.dom().contains(#[trigger] ids[k]),
            decreases slot.len() - i,
        {
            proof {
                assert(ids[i as int] == slot@[i as int]@);
            }
            if d.installs.contains_key(slot[i].as_str()) {
                return true;
            }
            i = i + 1;
        }
    }
    proof {
        assert(!some_installed(ids, dir_map(dir)));
    }
    let known = payload_basenames(pkgs, lock, game);
    let ghost index = all_known(pkgs.packages@, lock.assets@, opt_text(game));
    let ghost ns = texts(names@);
    let mut i: usize = 0;
    while i < names.len()
        invariant
            i <= names@.len(),
            ids == texts(slot@),
            ids == known_slot(pkgs.packages@, dep@),
            ns == texts(names@),
            index == all_known(pkgs.packages@, lock.assets@, opt_text(game)),
            tells(known@, index),
            forall|k: int, j: int|
                0 <= k < i && 0 <= j < ids.len() ==> !#[trigger] ships(
                    index,
                    lowercase(ns[k]),
                    ids[j],
                ),
        decreases names.len() - i,
    {
        let low = to_lower(names[i].as_str());
        proof {
            assert(ns[i as int] == names@[i as int]@);
        }
        let mut hit: bool = false;
        if let Some(v) = known.get(low.as_str()) {
            if lists_share(v, &slot) {
                hit = true;
                proof {
                    let k = choose|k: int|
                        0 <= k < texts(v@).len() && ids.contains(#[trigger] texts(v@)[k]);
                    let j = ids.index_of(texts(v@)[k]);
                    lemma_lists(v@, ids[j]);
                    assert(texts(v@).contains(ids[j]));
                    assert(lists(v@, ids[j]));
                    assert(ships(index, low@, ids[j]));
                    assert(ships(index, lowercase(ns[i as int]), ids[j]));
                }
            }
        }
        if hit {
            return true;
        }
        proof {
            assert forall|j: int| 0 <= j < ids.len() implies !#[trigger] ships(
                index,
                lowercase(ns[i as int]),
                ids[j],
            ) by {
                if ships(index, low@, ids[j]) {
                    assert(known@.dom().contains(low@));
                    let v = known@[low@];
                    lemma_lists(v@, ids[j]);
                    let k = texts(v@).index_of(ids[j]);
                    assert(ids.contains(texts(v@)[k]));
                    assert(share(texts(v@), ids));
                }
            }
        }
        i = i + 1;
    }
    false
}

/// What is done about a dependency.
#[derive(Debug)]
pub enum Dependency {
    /// Nothing.
    Met,
    /// A dry run only mentions it.
    Note(String),
    /// The packages that would do are offered.
    Offer { question: String, options: Vec<String>, slot: Vec<String> },
}

/// The names of the packages with these ids, or the ids where there are none.
pub open spec fn slot_names(pkgs: Seq<PackageEntry>, slot: Seq<Seq<char>>) -> Seq<Seq<char>> {
    slot.map_values(
        |id: Seq<char>|
            match lookup(pkgs, id) {
                Some(p) => p.name@,
                None => id,
            },
    )
}

/// The first text, or an empty one.
pub open spec fn first_text(v: Seq<Seq<char>>) -> Seq<char> {
    if v.len() > 0 {
        v[0]
    } else {
        Seq::empty()
    }
}

fn names_of_slot(pkgs: &PackagesFile, slot: &Vec<String>) -> (out: Vec<String>)
    ensures
        texts(out@) == slot_names(pkgs.packages@, texts(slot@)),
{
    let ghost want = slot_names(pkgs.packages@, texts(slot@));
    let mut out: Vec<String> = Vec::new();
    let mut i: usize = 0;
    while i < slot.len()
        invariant
            i <= slot@.len(),
            want == slot_names(pkgs.packages@, texts(slot@)),
            texts(out@) =~= want.take(i as int),
        decreases slot.len() - i,
    {
        let name = match pkgs.pkg(slot[i].as_str()) {
            Some(p) => p.name.clone(),
            None => slot[i].clone(),
        };
        let ghost before = out@;
        out.push(name);
        proof {
            assert(texts(out@) =~= texts(before).push(want[i as int]));
            assert(want.take(i + 1) =~= want.take(i as int).push(want[i as int]));
        }
        i = i + 1;
    }
    proof {
        assert(want.take(i as int) =~= want);
    }
    out
}

fn first_of_list(v: &Vec<String>) -> (out: String)
    ensures
        out@ == first_text(texts(v@)),
{
    if v.len() > 0 {
        v[0].clone()
    } else {
        String::new()
    }
}

/// What is done about a dependency of the package `title`: nothing where it is
/// met or was dealt with before.
pub fn dependency_step(
    title: &str,
    dep: &str,
    handled: &Vec<String>,
    present: bool,
    dry_run: bool,
    pkgs: &PackagesFile,
) -> (r: Dependency)
    ensures
        ({
            let slot = known_slot(pkgs.packages@, dep@);
            let names = slot_names(pkgs.packages@, slot);
            if lists(handled@, dep@) || present {
                r is Met
            } else if dry_run {
                r matches Dependency::Note(m) && m@ == "note: "@ + title@ + " needs "@ + first_text(
                    slot,
                ) + " - none found (would offer to install)"@
            } else {
                r matches Dependency::Offer { question, options, slot: s } && question@ == title@
                    + " needs "@ + first_text(names) + " - set up one?"@ && texts(options@)
                    == names && texts(s@) == slot
            }
        }),
{
    if list_has(handled, dep) || present {
        return Dependency::Met;
    }
    let slot = existent_slot(pkgs, dep);
    if dry_run {
        let first = first_of_list(&slot);
        let mut m = cat3("note: ", title, " needs ");
        m.append(first.as_str());
        m.append(" - none found (would offer to install)");
        return Dependency::Note(m);
    }
    let options = names_of_slot(pkgs, &slot);
    let first = first_of_list(&options);
    let mut question = cat3(title, " needs ", first.as_str());
    question.append(" - set up one?");
    Dependency::Offer { question, options, slot }
}

/// What comes of an offer.
#[derive(Debug)]
pub enum Offered {
    /// The package with this id is installed too.
    Take(String),
    /// Nothing is; this is said instead.
    Warn(String),
}

/// What comes of an offer, by the answer to it.
pub fn answer_offer(
    title: &str,
    options: &Vec<String>,
    slot: &Vec<String>,
    answer: &Answer,
) -> (r: Offered)
    ensures
        match *answer {
            Answer::Said(line) => match pick_of(said(line), slot@.len()) {
                Some(i) => r matches Offered::Take(id) && id@ == slot@[i as int]@,
                None => r matches Offered::Warn(m) && m@ == unmet_warning(
                    title@,
                    texts(options@),
                    texts(slot@),
                ),
            },
            Answer::Silent => r matches Offered::Warn(m) && m@ == unmet_warning(
                title@,
                texts(options@),
                texts(slot@),
            ),
        },
{
    if let Answer::Said(line) = answer {
        let l: Option<&str> = match line {
            Some(s) => Some(s.as_str()),
            None => None,
        };
        if let Some(i) = pick(l, slot.len()) {
            return Offered::Take(slot[i].clone());
        }
    }
    let first = first_of_list(options);
    let ids = join(slot, "' or '");
    let mut m = cat3(title, " needs ", first.as_str());
    m.append(" but none is installed - 'chef add <dir> ");
    m.append(ids.as_str());
    m.append("' adds it");
    Offered::Warn(m)
}

/// What is said about a dependency that stays unmet.
pub open spec fn unmet_warning(
    title: Seq<char>,
    options: Seq<Seq<char>>,
    slot: Seq<Seq<char>>,
) -> Seq<char> {
    title + " needs "@ + first_text(options) + " but none is installed - 'chef add <dir> "@
        + joined(slot, "' or '"@) + "' adds it"@
}

// ---------------------------------------------------------------------------
// Where its files are
// ---------------------------------------------------------------------------

/// How many directories lie above the file.
pub open spec fn depth(path: Seq<char>) -> nat
    decreases path.len(),
{
    if path.len() == 0 {
        0
    } else {
        depth(path.drop_last()) + (if path.last() == '/' {
            1nat
        } else {
            0
        })
    }
}

/// The position of the file with this name, up to case, that has the fewest
/// directories above it, the first of them.
pub open spec fn located(files: Seq<Seq<char>>, name: Seq<char>) -> Option<int>
    decreases files.len(),
{
    if files.len() == 0 {
        None
    } else {
        let before = located(files.drop_last(), name);
        let f = files.last();
        if lowercase(base_name(f)) != lowercase(name) {
            before
        } else {
            match before {
                Some(b) => if depth(files[b]) > depth(f) {
                    Some(files.len() - 1)
                } else {
                    before
                },
                None => Some(files.len() - 1),
            }
        }
    }
}

fn depth_of(path: &str) -> (d: usize)
    ensures
        d == depth(path@),
        d <= path@.len(),
{
    let v = chars_of(path);
    let mut d: usize = 0;
    let mut i: usize = 0;
    proof {
        assert(v@.take(0) =~= Seq::<char>::empty());
    }
    while i < v.len()
        invariant
            i <= v.len(),
            d <= i,
            d == depth(v@.take(i as int)),
        decreases v.len() - i,
    {
        proof {
            assert(v@.take(i + 1).drop_last() =~= v@.take(i as int));
        }
        if v[i] == '/' {
            d = d + 1;
        }
        i = i + 1;
    }
    proof {
        assert(v@.take(i as int) =~= v@);
    }
    d
}

/// Finds a file among those of an unpacked archive, given by their paths in it,
/// by its name. Archives sometimes put their files into directories: the
/// shallowest one counts.
pub fn locate_payload_file(files: &Vec<String>, wanted: &str) -> (r: Option<usize>)
    ensures
        match r {
            Some(i) => i < files@.len() && located(texts(files@), wanted@) == Some(i as int),
            None => located(texts(files@), wanted@) is None,
        },
{
    let ghost fs = texts(files@);
    let low = to_lower(wanted);
    let mut best: Option<usize> = None;
    let mut i: usize = 0;
    proof {
        assert(fs.take(0) =~= Seq::<Seq<char>>::empty());
    }
    while i < files.len()
        invariant
            i <= files@.len(),
            fs == texts(files@),
            low@ == lowercase(wanted@),
            match best {
                Some(b) => b < i && located(fs.take(i as int), wanted@) == Some(b as int),
                None => located(fs.take(i as int), wanted@) is None,
            },
        decreases files.len() - i,
    {
        proof {
            assert(fs.take(i + 1).drop_last() =~= fs.take(i as int));
            assert(fs.take(i + 1).last() == files@[i as int]@);
        }
        let base = basename(files[i].as_str());
        let b = to_lower(base.as_str());
        if b == low {
            match best {
                Some(k) => {
                    proof {
                        assert(fs.take(i as int)[k as int] == files@[k as int]@);
                        assert(fs.take(i + 1)[k as int] == files@[k as int]@);
                    }
                    if depth_of(files[k].as_str()) > depth_of(files[i].as_str()) {
                        best = Some(i);
                    }
                },
                None => {
                    best = Some(i);
                },
            }
        }
        i = i + 1;
    }
    proof {
        assert(fs.take(i as int) =~= fs);
    }
    best
}

/// The files of the release that are found in its unpacked archive; the first
/// must be there.
pub open spec fn collected(
    store: Seq<char>,
    payload: Seq<(Seq<char>, Seq<char>)>,
    files: Seq<(String, String)>,
) -> core::result::Result<Seq<Placed>, Seq<char>>
    decreases payload.len(),
{
    if payload.len() == 0 {
        Ok(Seq::empty())
    } else {
        match collected(store, payload.drop_last(), files) {
            Err(m) => Err(m),
            Ok(v) => {
                let p = payload.last();
                match located(pairs(files).map_values(|f: (Seq<char>, Seq<char>)| f.0), base_name(p.1)) {
                    Some(i) => Ok(
                        v.push(
                            Placed {
                                dest: swapped_char(p.0, '\\', '/'),
                                src: below(store, files[i].0@),
                                sha256: files[i].1@,
                            },
                        ),
                    ),
                    None => if payload.len() == 1 {
                        Err(
                            "required payload file "@ + quoted(p.1)
                                + " not found in the release archive"@,
                        )
                    } else {
                        Ok(v)
                    },
                }
            },
        }
    }
}

proof fn lemma_collected_fail(
    store: Seq<char>,
    payload: Seq<(Seq<char>, Seq<char>)>,
    files: Seq<(String, String)>,
    n: int,
    m: Seq<char>,
)
    requires
        0 <= n <= payload.len(),
        collected(store, payload.take(n), files) == Err::<Seq<Placed>, Seq<char>>(m),
    ensures
        collected(store, payload, files) == Err::<Seq<Placed>, Seq<char>>(m),
    decreases payload.len() - n,
{
    if n < payload.len() {
        assert(payload.take(n + 1).drop_last() =~= payload.take(n));
        lemma_collected_fail(store, payload, files, n + 1, m);
    } else {
        assert(payload.take(n) =~= payload);
    }
}

/// Where a file goes, with `/` between the parts of its path.
pub fn normalize_dest_name(want: &str) -> (out: String)
    ensures
        out@ == swapped_char(want@, '\\', '/'),
{
    replace_char(want, '\\', '/')
}

/// The files to deploy, found in the unpacked archive in `store_dir`: `files` are
/// the paths in it with their digests.
pub fn collect_deployment(
    store_dir: &str,
    payload: &Vec<(String, String)>,
    files: &Vec<(String, String)>,
) -> (r: Result<Vec<DeployFile>>)
    ensures
        if payload@.len() == 0 {
            fails(r, "package declares no payload files"@)
        } else {
            match collected(store_dir@, pairs(payload@), files@) {
                Err(m) => fails(r, m),
                Ok(v) => r matches Ok(out) && placements(out@) == v,
            }
        },
{
    if payload.len() == 0 {
        return other(own("package declares no payload files"));
    }
    let ghost pay = pairs(payload@);
    let ghost firsts = pairs(files@).map_values(|f: (Seq<char>, Seq<char>)| f.0);
    let mut paths: Vec<String> = Vec::new();
    let mut k: usize = 0;
    while k < files.len()
        invariant
            k <= files@.len(),
            firsts == pairs(files@).map_values(|f: (Seq<char>, Seq<char>)| f.0),
            texts(paths@) =~= firsts.take(k as int),
        decreases files.len() - k,
    {
        let ghost before = paths@;
        paths.push(files[k].0.clone());
        proof {
            assert(texts(paths@) =~= texts(before).push(firsts[k as int]));
            assert(firsts.take(k + 1) =~= firsts.take(k as int).push(firsts[k as int]));
        }
        k = k + 1;
    }
    proof {
        assert(firsts.take(k as int) =~= firsts);
        assert(texts(paths@).len() == paths@.len());
    }
    let mut out: Vec<DeployFile> = Vec::new();
    let mut i: usize = 0;
    proof {
        assert(pay.take(0) =~= Seq::<(Seq<char>, Seq<char>)>::empty());
        assert(placements(out@) =~= Seq::<Placed>::empty());
    }
    while i < payload.len()
        invariant
            i <= payload@.len(),
            pay == pairs(payload@),
            payload@.len() > 0,
            firsts == pairs(files@).map_values(|f: (Seq<char>, Seq<char>)| f.0),
            texts(paths@) == firsts,
            paths@.len() == files@.len(),
            collected(store_dir@, pay.take(i as int), files@) == Ok::<
                Seq<Placed>,
                Seq<char>,
            >(placements(out@)),
        decreases payload.len() - i,
    {
        let p = &payload[i];
        proof {
            assert(pay.take(i + 1).drop_last() =~= pay.take(i as int));
            assert(pay.take(i + 1).last() == (p.0@, p.1@));
        }
        let base = basename(p.1.as_str());
        match locate_payload_file(&paths, base.as_str()) {
            Some(at) => {
                let f = DeployFile {
                    dest_rel: normalize_dest_name(p.0.as_str()),
                    src: join_path(store_dir, files[at].0.as_str()),
                    sha256: files[at].1.clone(),
                };
                let ghost before = out@;
                let ghost fv = Placed { dest: f.dest_rel@, src: f.src@, sha256: f.sha256@ };
                out.push(f);
                proof {
                    assert(placements(out@) =~= placements(before).push(fv));
                }
            },
            None => {
                if i == 0 {
                    let q = quote(p.1.as_str());
                    let m = cat3(
                        "required payload file ",
                        q.as_str(),
                        " not found in the release archive",
                    );
                    proof {
                        lemma_collected_fail(store_dir@, pay, files@, 1, m@);
                    }
                    return other(m);
                }
            },
        }
        i = i + 1;
    }
    proof {
        assert(pay.take(i as int) =~= pay);
    }
    Ok(out)
}

// ---------------------------------------------------------------------------
// What is said
// ---------------------------------------------------------------------------

/// What became of a package.
#[derive(Debug, Clone, Copy, PartialEq, Eq, Structural)]
pub enum Status {
    Already,
    WouldInstall,
    Installed,
}

impl Status {
    /// The word for it.
    pub open spec fn word_of(self) -> Seq<char> {
        match self {
            Status::Already => "already"@,
            Status::WouldInstall => "would-install"@,
            Status::Installed => "installed"@,
        }
    }

    /// The word for it.
    pub fn word(&self) -> (w: &'static str)
        ensures
            w@ == self.word_of(),
    {
        match self {
            Status::Already => "already",
            Status::WouldInstall => "would-install",
            Status::Installed => "installed",
        }
    }
}

/// What became of one package, with the plan of a dry run.
#[derive(Debug)]
pub struct AddRow {
    pub id: String,
    pub name: String,
    pub version: String,
    pub status: Status,
    pub plan: Vec<PlanStep>,
}

/// A row as a document; an empty plan is left out.
pub open spec fn row_document(
    id: Seq<char>,
    name: Seq<char>,
    version: Seq<char>,
    status: Status,
    plan: Seq<StepView>,
) -> Json {
    let base = seq![
        ("id"@, Json::Text(id)),
        ("name"@, Json::Text(name)),
        ("version"@, Json::Text(version)),
        ("status"@, Json::Text(status.word_of())),
    ];
    if plan.len() == 0 {
        record(base)
    } else {
        record(base.push(("plan"@, Json::List(plan.map_values(|s: StepView| step_document(s))))))
    }
}

fn row_value(r: &AddRow) -> (v: serde_json::Value)
    ensures
        held(v) == row_document(r.id@, r.name@, r.version@, r.status, step_views(r.plan@)),
{
    let mut f: Vec<(String, serde_json::Value)> = Vec::new();
    put(&mut f, "id", string(r.id.as_str()));
    put(&mut f, "name", string(r.name.as_str()));
    put(&mut f, "version", string(r.version.as_str()));
    put(&mut f, "status", string(r.status.word()));
    proof {
        assert(held_fields(f@) =~= seq![
            ("id"@, Json::Text(r.id@)),
            ("name"@, Json::Text(r.name@)),
            ("version"@, Json::Text(r.version@)),
            ("status"@, Json::Text(r.status.word_of())),
        ]);
    }
    if r.plan.len() > 0 {
        let ghost want = step_views(r.plan@).map_values(|s: StepView| step_document(s));
        let mut steps: Vec<serde_json::Value> = Vec::new();
        let mut i: usize = 0;
        while i < r.plan.len()
            invariant
                i <= r.plan@.len(),
                want == step_views(r.plan@).map_values(|s: StepView| step_document(s)),
                held_all(steps@) =~= want.take(i as int),
            decreases r.plan.len() - i,
        {
            let ghost before = steps@;
            steps.push(step_value(&r.plan[i]));
            proof {
                assert(held_all(steps@) =~= held_all(before).push(want[i as int]));
                assert(want.take(i + 1) =~= want.take(i as int).push(want[i as int]));
            }
            i = i + 1;
        }
        proof {
            assert(want.take(i as int) =~= want);
        }
        put(&mut f, "plan", array(steps));
    }
    object(f)
}

/// The document about a run: a row for each package.
pub open spec fn add_document(rows: Seq<AddRow>) -> Json {
    record(
        seq![
            (
                "add"@,
                Json::List(
                    rows.map_values(
                        |r: AddRow|
                            row_document(r.id@, r.name@, r.version@, r.status, step_views(r.plan@)),
                    ),
                ),
            ),
        ],
    )
}

/// The document about a run.
pub fn add_value(rows: &Vec<AddRow>) -> (v: serde_json::Value)
    ensures
        held(v) == add_document(rows@),
{
    let ghost want = rows@.map_values(
        |r: AddRow| row_document(r.id@, r.name@, r.version@, r.status, step_views(r.plan@)),
    );
    let mut items: Vec<serde_json::Value> = Vec::new();
    let mut i: usize = 0;
    while i < rows.len()
        invariant
            i <= rows@.len(),
            want == rows@.map_values(
                |r: AddRow| row_document(r.id@, r.name@, r.version@, r.status, step_views(r.plan@)),
            ),
            held_all(items@) =~= want.take(i as int),
        decreases rows.len() - i,
    {
        let ghost before = items@;
        items.push(row_value(&rows[i]));
        proof {
            assert(held_all(items@) =~= held_all(before).push(want[i as int]));
            assert(want.take(i + 1) =~= want.take(i as int).push(want[i as int]));
        }
        i = i + 1;
    }
    proof {
        assert(want.take(i as int) =~= want);
    }
    let mut f: Vec<(String, serde_json::Value)> = Vec::new();
    put(&mut f, "add", array(items));
    proof {
        assert(held_fields(f@) =~= seq![("add"@, Json::List(want))]);
    }
    object(f)
}

/// The version with a space in front, or nothing for a release without one.
pub open spec fn word_for(v: Seq<char>) -> Seq<char> {
    if message_version(v).len() == 0 {
        Seq::empty()
    } else {
        " "@ + v
    }
}

/// What is said before a package is installed.
pub fn installing_text(name: &str, version: &str) -> (out: String)
    ensures
        out@ == "installing "@ + name@ + word_for(version@) + "..."@,
{
    let w = version_word(version);
    let mut m = cat3("installing ", name, w.as_str());
    m.append("...");
    m
}

/// What is said once a package is installed.
pub fn installed_text(name: &str, version: &str) -> (out: String)
    ensures
        out@ == name@ + word_for(version@) + " installed"@,
{
    let w = version_word(version);
    cat3(name, w.as_str(), " installed")
}

/// What is said of a package that is installed in this version already.
pub fn already_text(name: &str, version: &str) -> (out: String)
    ensures
        out@ == name@ + " "@ + version@ + " is already installed - nothing to do"@,
{
    let mut m = cat3(name, " ", version);
    m.append(" is already installed - nothing to do");
    m
}

// ---------------------------------------------------------------------------
// What holds of it
// ---------------------------------------------------------------------------

/// The depth of a path counts its separators: it adds up over the parts of a
/// path, and is zero exactly where there is no separator.
pub proof fn law_depth_adds_up(a: Seq<char>, b: Seq<char>)
    ensures
        depth(a + b) == depth(a) + depth(b),
        depth(seq!['/']) == 1,
        depth(a) == 0 <==> !a.contains('/'),
    decreases a.len() + b.len(),
{
    assert(seq!['/'].drop_last() =~= Seq::<char>::empty());
    reveal_with_fuel(depth, 2);
    if b.len() > 0 {
        law_depth_adds_up(a, b.drop_last());
        assert((a + b).drop_last() =~= a + b.drop_last());
    } else {
        assert(a + b =~= a);
        if a.len() > 0 {
            let t = a.drop_last();
            law_depth_adds_up(t, b);
            if a.contains('/') && a.last() != '/' {
                let i = a.index_of('/');
                assert(t[i] == '/');
            }
            if t.contains('/') {
                let i = t.index_of('/');
                assert(a[i] == '/');
            }
            if a.last() == '/' {
                assert(a[a.len() - 1] == '/');
            }
        }
    }
}

/// The file has the name that is looked for, up to case.
pub open spec fn is_named(path: Seq<char>, name: Seq<char>) -> bool {
    lowercase(base_name(path)) == lowercase(name)
}

/// Of the files with a name, up to case, the one with the fewest directories above
/// it is found, and of several such the first; none exactly where no file has the
/// name.
pub proof fn law_the_shallowest_is_found(files: Seq<Seq<char>>, name: Seq<char>)
    ensures
        match located(files, name) {
            Some(i) => 0 <= i < files.len() && is_named(files[i], name) && forall|j: int|
                0 <= j < files.len() && j != i && is_named(#[trigger] files[j], name) ==> depth(
                    files[i],
                ) < depth(files[j]) || (depth(files[i]) == depth(files[j]) && i < j),
            None => forall|j: int|
                0 <= j < files.len() ==> !is_named(#[trigger] files[j], name),
        },
    decreases files.len(),
{
    if files.len() > 0 {
        let t = files.drop_last();
        law_the_shallowest_is_found(t, name);
        assert(files[files.len() - 1] == files.last());
        assert forall|j: int| 0 <= j < t.len() implies #[trigger] files[j] == t[j] by {}
    }
}

/// What is deployed for one file of a release: the shallowest file of that name in
/// the unpacked archive, under the path that the release gives it.
pub open spec fn deployed_from(
    x: Placed,
    store: Seq<char>,
    want: (Seq<char>, Seq<char>),
    files: Seq<(String, String)>,
) -> bool {
    exists|i: int|
        0 <= i < files.len() && is_named((#[trigger] files[i]).0@, base_name(want.1)) && (
        forall|j: int|
            0 <= j < files.len() && j != i && is_named((#[trigger] files[j]).0@, base_name(want.1))
                ==> depth(files[i].0@) <= depth(files[j].0@)) && x.dest == swapped_char(
            want.0,
            '\\',
            '/',
        ) && x.src == below(store, files[i].0@) && x.sha256 == files[i].1@
}

/// The archive has a file with the name of the wanted one.
pub open spec fn archive_has(want: (Seq<char>, Seq<char>), files: Seq<(String, String)>) -> bool {
    exists|j: int|
        0 <= j < files.len() && is_named((#[trigger] files[j]).0@, base_name(want.1))
}

/// Nothing of a release gets lost on the way from its archive: each of its files
/// that the archive has is deployed from there, and nothing else is; only where
/// the archive lacks the first of them it is not deployed at all.
pub proof fn law_files_come_from_the_archive(
    store: Seq<char>,
    payload: Seq<(Seq<char>, Seq<char>)>,
    files: Seq<(String, String)>,
)
    requires
        payload.len() > 0,
    ensures
        match collected(store, payload, files) {
            Err(_) => !archive_has(payload[0], files),
            Ok(v) => {
                &&& archive_has(payload[0], files)
                &&& forall|k: int|
                    0 <= k < payload.len() && archive_has(#[trigger] payload[k], files)
                        ==> fetched(v, store, payload[k], files)
                &&& forall|n: int| 0 <= n < v.len() ==> wanted_by(#[trigger] v[n], store, payload, files)
            },
        },
    decreases payload.len(),
{
    let names = pairs(files).map_values(|f: (Seq<char>, Seq<char>)| f.0);
    let t = payload.drop_last();
    let l = payload.len() - 1;
    let p = payload.last();
    assert(payload[l] == p);
    assert forall|j: int| 0 <= j < files.len() implies names[j] == (#[trigger] files[j]).0@ by {}
    law_the_shallowest_is_found(names, base_name(p.1));
    if t.len() > 0 {
        law_files_come_from_the_archive(store, t, files);
        assert(t[0] == payload[0]);
    } else {
        assert(collected(store, t, files) == Ok::<Seq<Placed>, Seq<char>>(Seq::empty()));
    }
    match collected(store, t, files) {
        Err(_) => {},
        Ok(b) => {
            match located(names, base_name(p.1)) {
                Some(i) => {
                    let x = Placed {
                        dest: swapped_char(p.0, '\\', '/'),
                        src: below(store, files[i].0@),
                        sha256: files[i].1@,
                    };
                    let v = b.push(x);
                    assert(is_named(files[i].0@, base_name(p.1)));
                    assert(archive_has(p, files));
                    assert forall|j: int|
                        0 <= j < files.len() && j != i && is_named(
                            (#[trigger] files[j]).0@,
                            base_name(p.1),
                        ) implies depth(files[i].0@) <= depth(files[j].0@) by {
                        assert(is_named(names[j], base_name(p.1)));
                    }
                    assert(deployed_from(x, store, p, files));
                    assert(v[b.len() as int] == x);
                    assert(fetched(v, store, p, files));
                    assert forall|k: int|
                        0 <= k < payload.len() && archive_has(
                            #[trigger] payload[k],
                            files,
                        ) implies fetched(v, store, payload[k], files) by {
                        if k < l {
                            assert(t[k] == payload[k]);
                            let n = choose|n: int|
                                0 <= n < b.len() && deployed_from(
                                    #[trigger] b[n],
                                    store,
                                    t[k],
                                    files,
                                );
                            assert(v[n] == b[n]);
                        }
                    }
                    assert forall|n: int| 0 <= n < v.len() implies wanted_by(
                        #[trigger] v[n],
                        store,
                        payload,
                        files,
                    ) by {
                        if n < b.len() {
                            assert(wanted_by(b[n], store, t, files));
                            let k = choose|k: int|
                                0 <= k < t.len() && deployed_from(
                                    b[n],
                                    store,
                                    #[trigger] t[k],
                                    files,
                                );
                            assert(payload[k] == t[k]);
                        } else {
                            assert(deployed_from(v[n], store, payload[l], files));
                        }
                    }
                },
                None => {
                    if archive_has(p, files) {
                        let j = choose|j: int|
                            0 <= j < files.len() && is_named(
                                (#[trigger] files[j]).0@,
                                base_name(p.1),
                            );
                        assert(is_named(names[j], base_name(p.1)));
                    }
                    assert forall|k: int|
                        0 <= k < payload.len() && archive_has(
                            #[trigger] payload[k],
                            files,
                        ) implies fetched(b, store, payload[k], files) by {
                        assert(k < l);
                        assert(t[k] == payload[k]);
                    }
                    assert forall|n: int| 0 <= n < b.len() implies wanted_by(
                        #[trigger] b[n],
                        store,
                        payload,
                        files,
                    ) by {
                        assert(wanted_by(b[n], store, t, files));
                        let k = choose|k: int|
                            0 <= k < t.len() && deployed_from(b[n], store, #[trigger] t[k], files);
                        assert(payload[k] == t[k]);
                    }
                },
            }
        },
    }
}

/// Among the files to deploy is one for the wanted file.
pub open spec fn fetched(
    v: Seq<Placed>,
    store: Seq<char>,
    want: (Seq<char>, Seq<char>),
    files: Seq<(String, String)>,
) -> bool {
    exists|n: int| 0 <= n < v.len() && deployed_from(#[trigger] v[n], store, want, files)
}

/// The file to deploy is for one of the files of the release.
pub open spec fn wanted_by(
    x: Placed,
    store: Seq<char>,
    payload: Seq<(Seq<char>, Seq<char>)>,
    files: Seq<(String, String)>,
) -> bool {
    exists|k: int| 0 <= k < payload.len() && deployed_from(x, store, #[trigger] payload[k], files)
}

/// An install is taken for complete only where it is of the same version and none
/// of its files is gone or changed; and where that is so, it is.
pub proof fn law_only_complete_installs_are_skipped(
    id: Seq<char>,
    version: Seq<char>,
    installs: Map<Seq<char>, Install>,
    seen: Map<Seq<char>, Found>,
)
    ensures
        !installs.dom().contains(id) ==> !installed_already(id, version, installs, seen),
        installs.dom().contains(id) && installs[id].version@ != version ==> !installed_already(
            id,
            version,
            installs,
            seen,
        ),
        forall|j: int|
            installs.dom().contains(id) && 0 <= j < installs[id].files@.len() && look(
                seen,
                (#[trigger] installs[id].files@[j]).path@,
            ) != FoundView::Content(installs[id].files@[j].sha256@) ==> !installed_already(
                id,
                version,
                installs,
                seen,
            ),
        installs.dom().contains(id) && installs[id].version@ == version && (forall|j: int|
            0 <= j < installs[id].files@.len() ==> look(
                seen,
                (#[trigger] installs[id].files@[j]).path@,
            ) == FoundView::Content(installs[id].files@[j].sha256@)) ==> installed_already(
            id,
            version,
            installs,
            seen,
        ),
{
    let v = installs[id]@.files;
    assert forall|j: int| 0 <= j < v.len() implies v[j].path == (#[trigger] installs[id].files@[j]).path@
        && v[j].sha256 == installs[id].files@[j].sha256@ by {}
    if installed_already(id, version, installs, seen) {
        assert forall|j: int| 0 <= j < installs[id].files@.len() implies look(
            seen,
            (#[trigger] installs[id].files@[j]).path@,
        ) == FoundView::Content(installs[id].files@[j].sha256@) by {
            assert(v[j].path == installs[id].files@[j].path@);
        }
    }
}

/// Nothing is asked about a dependency that is there or was dealt with; a dry run
/// only mentions any other; else one option is offered for each package of its
/// slot, and the answer picks the package of that number.
pub proof fn law_offers_go_by_number(
    title: &str,
    dep: &str,
    handled: &Vec<String>,
    present: bool,
    dry_run: bool,
    pkgs: &PackagesFile,
    step: Dependency,
    options: &Vec<String>,
    slot: &Vec<String>,
    n: nat,
    line: String,
    taken: Offered,
    silent: Offered,
)
    requires
        call_ensures(dependency_step, (title, dep, handled, present, dry_run, pkgs), step),
        call_ensures(answer_offer, (title, options, slot, &Answer::Said(Some(line))), taken),
        call_ensures(answer_offer, (title, options, slot, &Answer::Silent), silent),
        trimmed(line@) == decimal(n),
        slot@.len() <= usize::MAX,
    ensures
        step is Met <==> present || lists(handled@, dep@),
        !(step is Met) ==> (step is Note <==> dry_run),
        step matches Dependency::Offer { options: o, slot: s, .. } ==> texts(s@) == known_slot(
            pkgs.packages@,
            dep@,
        ) && o@.len() == s@.len(),
        1 <= n <= slot@.len() ==> (taken matches Offered::Take(id) && id@ == slot@[n - 1]@),
        !(1 <= n <= slot@.len()) ==> taken is Warn,
        silent is Warn,
{
    law_numbers_pick(line@, n, slot@.len());
    if let Dependency::Offer { options: o, slot: s, .. } = step {
        assert(texts(o@).len() == o@.len());
        assert(texts(s@).len() == s@.len());
    }
}

/// A package that was looked after is told with its id, its name, its version and
/// what became of it.
pub proof fn law_installs_are_told_in_full(
    id: Seq<char>,
    name: Seq<char>,
    version: Seq<char>,
    status: Status,
    plan: Seq<StepView>,
)
    ensures
        shows(row_document(id, name, version, status, plan), "id"@, Json::Text(id)),
        shows(row_document(id, name, version, status, plan), "name"@, Json::Text(name)),
        shows(row_document(id, name, version, status, plan), "version"@, Json::Text(version)),
        shows(row_document(id, name, version, status, plan), "status"@, Json::Text(status.word_of())),
{
    reveal_strlit("id");
    reveal_strlit("name");
    reveal_strlit("version");
    reveal_strlit("status");
    reveal_strlit("plan");
    assert("id"@.len() == 2);
    assert("name"@.len() == 4);
    assert("version"@.len() == 7);
    assert("status"@.len() == 6);
    assert("plan"@.len() == 4);
    assert("name"@[0] == 'n');
    assert("plan"@[0] == 'p');
    let f = seq![
        ("id"@, Json::Text(id)),
        ("name"@, Json::Text(name)),
        ("version"@, Json::Text(version)),
        ("status"@, Json::Text(status.word_of())),
    ];
    let g = f.push(("plan"@, Json::List(plan.map_values(|s: StepView| step_document(s)))));
    if plan.len() == 0 {
        lemma_shows(f, 0);
        lemma_shows(f, 1);
        lemma_shows(f, 2);
        lemma_shows(f, 3);
    } else {
        lemma_shows(g, 0);
        lemma_shows(g, 1);
        lemma_shows(g, 2);
        lemma_shows(g, 3);
    }
}

/// Each outcome has a word of its own.
pub proof fn law_outcomes_have_words(a: &Status, w: &'static str)
    requires
        call_ensures(Status::word, (a,), w),
    ensures
        *a == Status::Already <==> w@ == "already"@,
        *a == Status::WouldInstall <==> w@ == "would-install"@,
        *a == Status::Installed <==> w@ == "installed"@,
{
    reveal_strlit("already");
    reveal_strlit("would-install");
    reveal_strlit("installed");
    assert("already"@.len() == 7);
    assert("would-install"@.len() == 13);
    assert("installed"@.len() == 9);
}

/// A run of installs is told package by package, in order.
pub proof fn law_every_install_is_told(rows: Seq<AddRow>, i: int) -> (told: Seq<Json>)
    requires
        0 <= i < rows.len(),
    ensures
        shows(add_document(rows), "add"@, Json::List(told)),
        told.len() == rows.len(),
        told[i] == row_document(
            rows[i].id@,
            rows[i].name@,
            rows[i].version@,
            rows[i].status,
            step_views(rows[i].plan@),
        ),
{
    let v = rows.map_values(
        |r: AddRow| row_document(r.id@, r.name@, r.version@, r.status, step_views(r.plan@)),
    );
    let f = seq![("add"@, Json::List(v))];
    lemma_shows(f, 0);
    v
}

/// In messages a version stands behind a space, and a release without one has
/// nothing there.
pub proof fn law_versions_stand_apart(v: Seq<char>)
    ensures
        word_for("0.0.0"@).len() == 0,
        v.len() > 0 && v != "0.0.0"@ ==> word_for(v) == seq![' '] + v,
{
    reveal_strlit("");
    reveal_strlit(" ");
    assert(" "@ =~= seq![' ']);
}

} // verus!
