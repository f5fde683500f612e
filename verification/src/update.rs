//! Bringing installed packages to their newest stable release.

use vstd::prelude::*;
use crate::catalog::PackagesFile;
use crate::deploy::dir_map;
use crate::error::{fails, other, ChefError, Result};
use crate::json::{
    array, boolean, held, held_all, held_fields, lemma_shows, object, put, record, shows, string,
    Json,
};
use crate::names::{id_meant, resolve_id, Answer};
use crate::order::lt;
use crate::plan::{step_document, step_value, step_views, PlanStep, StepView};
use crate::remove::title_or_id;
use crate::resolution::opt_text;
use crate::state::{GameDirState, Install};
use crate::target::keys_in_order;
use crate::text::{cat, cat3, same, texts};
use crate::version::{
    loose, numbers_order, opt_version, order_of, parse_version_loose, semver_order, Order,
    Version, VersionView,
};

verus! {

// ---------------------------------------------------------------------------
// What is updated
// ---------------------------------------------------------------------------

/// The target that a name comes to: it must be installed.
pub open spec fn named_target(
    r: Result<Vec<String>>,
    id: Result<String>,
    pkgs: Seq<crate::catalog::PackageEntry>,
    installs: Map<Seq<char>, Install>,
) -> bool {
    match id {
        Err(e) => r == Err::<Vec<String>, ChefError>(e),
        Ok(i) => if installs.dom().contains(i@) {
            r is Ok && texts(r->Ok_0@) == seq![i@]
        } else {
            fails(r, title_or_id(pkgs, i@) + " is not installed here"@)
        },
    }
}

/// What the targets of an update are: the package that is named, which must be
/// installed, or everything that is installed, in the order of the ids.
pub open spec fn targets_meant(
    r: Result<Vec<String>>,
    pkgs: Seq<crate::catalog::PackageEntry>,
    name: Option<Seq<char>>,
    game: Option<Seq<char>>,
    installs: Map<Seq<char>, Install>,
    answer: Answer,
) -> bool {
    match name {
        None => r is Ok && keys_in_order(installs, texts(r->Ok_0@)),
        Some(n) => exists|id: Result<String>|
            id_meant(id, pkgs, n, game, answer) && #[trigger] named_target(r, id, pkgs, installs),
    }
}

/// The target that a name comes to, where the name was resolved to `id`.
pub fn target_from(
    pkgs: &PackagesFile,
    id: Result<String>,
    dir: Option<&GameDirState>,
) -> (r: Result<Vec<String>>)
    ensures
        named_target(r, id, pkgs.packages@, dir_map(dir)),
{
    match id {
        Err(e) => Err(e),
        Ok(i) => {
            let here: bool = match dir {
                Some(d) => d.installs.contains_key(i.as_str()),
                None => false,
            };
            if here {
                let mut out: Vec<String> = Vec::new();
                let ghost iv = i@;
                out.push(i);
                proof {
                    assert(texts(out@) =~= seq![iv]);
                }
                Ok(out)
            } else {
                let title = match pkgs.pkg(i.as_str()) {
                    Some(p) => p.name.clone(),
                    None => i.clone(),
                };
                other(cat(title.as_str(), " is not installed here"))
            }
        },
    }
}

/// The ids of the packages that an update is about.
pub fn update_targets(
    pkgs: &PackagesFile,
    name: Option<&str>,
    game: Option<&str>,
    dir: Option<&GameDirState>,
    answer: &Answer,
) -> (r: Result<Vec<String>>)
    ensures
        targets_meant(
            r,
            pkgs.packages@,
            opt_text(name),
            opt_text(game),
            dir_map(dir),
            *answer,
        ),
{
    match name {
        Some(n) => {
            let id = resolve_id(pkgs, n, game, answer);
            let ghost id0 = id;
            let r = target_from(pkgs, id, dir);
            proof {
                assert(opt_text(name) == Some(n@));
                assert(id_meant(id0, pkgs.packages@, n@, opt_text(game), *answer)
                    && named_target(r, id0, pkgs.packages@, dir_map(dir)));
            }
            r
        },
        None => {
            let mut out: Vec<String> = Vec::new();
            match dir {
                None => {
                    proof {
                        assert(keys_in_order(dir_map(dir), texts(out@)));
                    }
                },
                Some(d) => {
                    let n: usize = d.installs.len();
                    let ghost keys = d.installs.keys();
                    let mut i: usize = 0;
                    while i < n
                        invariant
                            i <= n,
                            n == keys.len(),
                            keys == d.installs.keys(),
                            texts(out@) =~= keys.take(i as int),
                        decreases n - i,
                    {
                        let ghost before = out@;
                        out.push(d.installs.key_at(i).clone());
                        proof {
                            assert(texts(out@) =~= texts(before).push(keys[i as int]));
                            assert(keys.take(i + 1) =~= keys.take(i as int).push(keys[i as int]));
                        }
                        i = i + 1;
                    }
                    proof {
                        assert(keys.take(i as int) =~= keys);
                        assert(keys_in_order(dir_map(dir), texts(out@)));
                    }
                },
            }
            Ok(out)
        },
    }
}

/// The newest release is newer than the installed one: by version where both
/// texts spell one, else where the texts differ.
pub open spec fn outdated(
    installed: Seq<char>,
    newest: Seq<char>,
    i: Option<VersionView>,
    n: Option<VersionView>,
) -> bool {
    match (i, n) {
        (Some(a), Some(b)) => semver_order(b, a) == Order::Greater,
        _ => installed != newest,
    }
}

/// Is the newest release newer than the installed one, where their texts were
/// read as `i` and `n`?
pub fn is_outdated(
    installed: &str,
    newest: &str,
    i: &Option<Version>,
    n: &Option<Version>,
) -> (b: bool)
    ensures
        b == outdated(installed@, newest@, opt_version(*i), opt_version(*n)),
        (i matches Some(a) && n matches Some(c) && numbers_order(c@, a@) == Order::Greater) ==> b,
        (i matches Some(a) && n matches Some(c) && numbers_order(c@, a@) == Order::Less) ==> !b,
        installed@ == newest@ && opt_version(*i) == opt_version(*n) ==> !b,
{
    match (i, n) {
        (Some(a), Some(c)) => order_of(c, a) == Order::Greater,
        _ => !same(installed, newest),
    }
}

/// Is the newest release newer than the installed one? A release is never newer
/// than itself.
pub fn update_needed(installed: &str, newest: &str) -> (b: bool)
    ensures
        b == outdated(installed@, newest@, loose(installed@), loose(newest@)),
        installed@ == newest@ ==> !b,
{
    let i = parse_version_loose(installed);
    let n = parse_version_loose(newest);
    is_outdated(installed, newest, &i, &n)
}

/// What the hint at a newer release says.
pub open spec fn update_text_of(installed: Seq<char>, newest: Seq<char>, id: Seq<char>) -> Seq<
    char,
> {
    "update available: "@ + installed + " -> "@ + newest + " - run 'chef update "@ + id + "'"@
}

/// The hint at a newer release, if there is one.
pub fn update_hint(installed: &str, newest: &str, id: &str) -> (r: Option<String>)
    ensures
        match r {
            Some(m) => outdated(installed@, newest@, loose(installed@), loose(newest@)) && m@
                == update_text_of(installed@, newest@, id@),
            None => !outdated(installed@, newest@, loose(installed@), loose(newest@)),
        },
{
    if !update_needed(installed, newest) {
        return None;
    }
    let mut m = cat3("update available: ", installed, " -> ");
    m.append(newest);
    m.append(" - run 'chef update ");
    m.append(id);
    m.append("'");
    Some(m)
}

// ---------------------------------------------------------------------------
// What is said
// ---------------------------------------------------------------------------

/// What became of a package.
#[derive(Debug, Clone, Copy, PartialEq, Eq, Structural)]
pub enum UpdateStatus {
    UpToDate,
    WouldUpdate,
    Updated,
}

impl UpdateStatus {
    /// The word for it.
    pub open spec fn word_of(self) -> Seq<char> {
        match self {
            UpdateStatus::UpToDate => "up-to-date"@,
            UpdateStatus::WouldUpdate => "would-update"@,
            UpdateStatus::Updated => "updated"@,
        }
    }

    /// The word for it.
    pub fn word(&self) -> (w: &'static str)
        ensures
            w@ == self.word_of(),
    {
        match self {
            UpdateStatus::UpToDate => "up-to-date",
            UpdateStatus::WouldUpdate => "would-update",
            UpdateStatus::Updated => "updated",
        }
    }
}

/// What is done about one package: nothing where it is up to date, and in a dry
/// run only the plan is told.
pub fn update_status(needed: bool, dry_run: bool) -> (s: UpdateStatus)
    ensures
        s == if !needed {
            UpdateStatus::UpToDate
        } else if dry_run {
            UpdateStatus::WouldUpdate
        } else {
            UpdateStatus::Updated
        },
{
    if !needed {
        UpdateStatus::UpToDate
    } else if dry_run {
        UpdateStatus::WouldUpdate
    } else {
        UpdateStatus::Updated
    }
}

/// What became of one package, with the plan of a dry run.
#[derive(Debug)]
pub struct UpdateRow {
    pub id: String,
    pub name: String,
    pub from: String,
    pub to: String,
    pub status: UpdateStatus,
    pub plan: Vec<PlanStep>,
}

/// A row as a document; an empty plan is left out.
pub open spec fn update_row_document(r: UpdateRow) -> Json {
    let base = seq![
        ("id"@, Json::Text(r.id@)),
        ("name"@, Json::Text(r.name@)),
        ("from"@, Json::Text(r.from@)),
        ("to"@, Json::Text(r.to@)),
        ("status"@, Json::Text(r.status.word_of())),
    ];
    if r.plan@.len() == 0 {
        record(base)
    } else {
        record(
            base.push(
                (
                    "plan"@,
                    Json::List(step_views(r.plan@).map_values(|s: StepView| step_document(s))),
                ),
            ),
        )
    }
}

fn update_row_value(r: &UpdateRow) -> (v: serde_json::Value)
    ensures
        held(v) == update_row_document(*r),
{
    let mut f: Vec<(String, serde_json::Value)> = Vec::new();
    put(&mut f, "id", string(r.id.as_str()));
    put(&mut f, "name", string(r.name.as_str()));
    put(&mut f, "from", string(r.from.as_str()));
    put(&mut f, "to", string(r.to.as_str()));
    put(&mut f, "status", string(r.status.word()));
    proof {
        assert(held_fields(f@) =~= seq![
            ("id"@, Json::Text(r.id@)),
            ("name"@, Json::Text(r.name@)),
            ("from"@, Json::Text(r.from@)),
            ("to"@, Json::Text(r.to@)),
            ("status"@, Json::Text(r.status.word_of())),
        ]);
    }
    if r.plan.len() > 0 {
        let ghost want = step_views(r.plan@).map_values(|s: StepView| step_document(s));
        let mut steps: Vec<serde_json::Value> = Vec::new();
        let mut i: usize = 0;
        while i < r.plan.len()
            invariant
                i <= r.plan@.len(),
                want == step_views(r.plan@).map_values(|s: StepView| step_document(s)),
                held_all(steps@) =~= want.take(i as int),
            decreases r.plan.len() - i,
        {
            let ghost before = steps@;
            steps.push(step_value(&r.plan[i]));
            proof {
                assert(held_all(steps@) =~= held_all(before).push(want[i as int]));
                assert(want.take(i + 1) =~= want.take(i as int).push(want[i as int]));
            }
            i = i + 1;
        }
        proof {
            assert(want.take(i as int) =~= want);
        }
        put(&mut f, "plan", array(steps));
    }
    object(f)
}

/// The document about a run.
pub open spec fn update_document(rows: Seq<UpdateRow>, dry_run: bool) -> Json {
    record(
        seq![
            ("dryRun"@, Json::Bool(dry_run)),
            ("update"@, Json::List(rows.map_values(|r: UpdateRow| update_row_document(r)))),
        ],
    )
}

/// The document about a run.
pub fn update_value(rows: &Vec<UpdateRow>, dry_run: bool) -> (v: serde_json::Value)
    ensures
        held(v) == update_document(rows@, dry_run),
{
    let ghost want = rows@.map_values(|r: UpdateRow| update_row_document(r));
    let mut items: Vec<serde_json::Value> = Vec::new();
    let mut i: usize = 0;
    while i < rows.len()
        invariant
            i <= rows@.len(),
            want == rows@.map_values(|r: UpdateRow| update_row_document(r)),
            held_all(items@) =~= want.take(i as int),
        decreases rows.len() - i,
    {
        let ghost before = items@;
        items.push(update_row_value(&rows[i]));
        proof {
            assert(held_all(items@) =~= held_all(before).push(want[i as int]));
            assert(want.take(i + 1) =~= want.take(i as int).push(want[i as int]));
        }
        i = i + 1;
    }
    proof {
        assert(want.take(i as int) =~= want);
    }
    let mut f: Vec<(String, serde_json::Value)> = Vec::new();
    put(&mut f, "dryRun", boolean(dry_run));
    put(&mut f, "update", array(items));
    proof {
        assert(held_fields(f@) =~= seq![
            ("dryRun"@, Json::Bool(dry_run)),
            ("update"@, Json::List(want)),
        ]);
    }
    object(f)
}

/// What is said of one package.
pub fn update_text(r: &UpdateRow) -> (out: String)
    ensures
        out@ == match r.status {
            UpdateStatus::UpToDate => r.name@ + " "@ + r.from@ + " is up to date"@,
            UpdateStatus::WouldUpdate => r.name@ + ": "@ + r.from@ + " -> "@ + r.to@
                + " (would update)"@,
            UpdateStatus::Updated => r.name@ + ": "@ + r.from@ + " -> "@ + r.to@,
        },
{
    match r.status {
        UpdateStatus::UpToDate => {
            let mut m = cat3(r.name.as_str(), " ", r.from.as_str());
            m.append(" is up to date");
            m
        },
        UpdateStatus::WouldUpdate => {
            let mut m = cat3(r.name.as_str(), ": ", r.from.as_str());
            m.append(" -> ");
            m.append(r.to.as_str());
            m.append(" (would update)");
            m
        },
        UpdateStatus::Updated => {
            let mut m = cat3(r.name.as_str(), ": ", r.from.as_str());
            m.append(" -> ");
            m.append(r.to.as_str());
            m
        },
    }
}

/// Without a name everything that is installed is updated, in the order of the
/// ids and nothing twice; with a name only a package that is installed.
pub proof fn law_what_is_updated(
    r: Result<Vec<String>>,
    pkgs: Seq<crate::catalog::PackageEntry>,
    name: Option<Seq<char>>,
    game: Option<Seq<char>>,
    installs: Map<Seq<char>, Install>,
    answer: Answer,
)
    requires
        targets_meant(r, pkgs, name, game, installs, answer),
    ensures
        name is None ==> r is Ok,
        name is None ==> forall|id: Seq<char>| #[trigger]
            installs.dom().contains(id) <==> texts(r->Ok_0@).contains(id),
        r is Ok ==> forall|i: int|
            0 <= i < r->Ok_0@.len() ==> installs.dom().contains((#[trigger] r->Ok_0@[i])@),
        r is Ok ==> forall|i: int, j: int|
            0 <= i < j < r->Ok_0@.len() ==> lt(
                (#[trigger] r->Ok_0@[i])@,
                (#[trigger] r->Ok_0@[j])@,
            ),
        name is Some && r is Ok ==> r->Ok_0@.len() == 1,
{
    if r is Ok {
        let v = r->Ok_0@;
        let w = texts(v);
        assert forall|i: int| 0 <= i < v.len() implies w[i] == (#[trigger] v[i])@ by {}
        if name is Some {
            let id = choose|id: Result<String>|
                id_meant(id, pkgs, name->0, game, answer) && #[trigger] named_target(
                    r,
                    id,
                    pkgs,
                    installs,
                );
            assert(w == seq![id->Ok_0@]);
            assert(w.len() == v.len());
            assert(w[0] == id->Ok_0@);
        } else {
            assert forall|i: int| 0 <= i < v.len() implies installs.dom().contains(
                (#[trigger] v[i])@,
            ) by {
                assert(w.contains(w[i]));
            }
            assert forall|id: Seq<char>| #[trigger] installs.dom().contains(id) <==> w.contains(
                id,
            ) by {}
        }
    }
}

/// A release is not newer than itself, and of releases whose texts spell no
/// version every other is taken for newer.
pub proof fn law_other_texts_are_newer(
    installed: Seq<char>,
    newest: Seq<char>,
    i: Option<VersionView>,
    n: Option<VersionView>,
)
    requires
        i is None || n is None,
    ensures
        outdated(installed, newest, i, n) <==> installed != newest,
{
}

/// A newer release is hinted at exactly where an update would bring it, and a
/// release is never newer than itself.
pub proof fn law_hints_agree_with_updates(
    installed: &str,
    newest: &str,
    id: &str,
    needed: bool,
    hint: Option<String>,
)
    requires
        call_ensures(update_needed, (installed, newest), needed),
        call_ensures(update_hint, (installed, newest, id), hint),
    ensures
        hint is Some <==> needed,
        installed@ == newest@ ==> !needed,
{
}

/// A dry run updates nothing, and a package that is up to date is left alone.
pub proof fn law_dry_runs_update_nothing(needed: bool, dry: UpdateStatus, done: UpdateStatus)
    requires
        call_ensures(update_status, (needed, true), dry),
        call_ensures(update_status, (needed, false), done),
    ensures
        dry != UpdateStatus::Updated,
        done == UpdateStatus::Updated <==> needed,
        dry == UpdateStatus::WouldUpdate <==> needed,
        !needed ==> dry == UpdateStatus::UpToDate && done == UpdateStatus::UpToDate,
{
}

/// Where both texts spell a version, greater numbers decide that an update is
/// needed, and smaller ones that it is not.
pub proof fn law_greater_numbers_are_updates(
    installed: &str,
    newest: &str,
    i: &Option<Version>,
    n: &Option<Version>,
    b: bool,
)
    requires
        call_ensures(is_outdated, (installed, newest, i, n), b),
        i is Some,
        n is Some,
    ensures
        n->0@.major > i->0@.major ==> b,
        n->0@.major == i->0@.major && n->0@.minor > i->0@.minor ==> b,
        n->0@.major == i->0@.major && n->0@.minor == i->0@.minor && n->0@.patch > i->0@.patch ==> b,
        n->0@.major < i->0@.major ==> !b,
        n->0@.major == i->0@.major && n->0@.minor < i->0@.minor ==> !b,
{
}

/// A package that was updated is told with its id and its name, the version that it
/// had, the one that it got, and what became of it.
pub proof fn law_updates_are_told_in_full(r: UpdateRow)
    ensures
        shows(update_row_document(r), "id"@, Json::Text(r.id@)),
        shows(update_row_document(r), "name"@, Json::Text(r.name@)),
        shows(update_row_document(r), "from"@, Json::Text(r.from@)),
        shows(update_row_document(r), "to"@, Json::Text(r.to@)),
        shows(update_row_document(r), "status"@, Json::Text(r.status.word_of())),
{
    reveal_strlit("id");
    reveal_strlit("name");
    reveal_strlit("from");
    reveal_strlit("to");
    reveal_strlit("status");
    reveal_strlit("plan");
    assert("id"@.len() == 2);
    assert("name"@.len() == 4);
    assert("from"@.len() == 4);
    assert("to"@.len() == 2);
    assert("status"@.len() == 6);
    assert("plan"@.len() == 4);
    assert("id"@[0] == 'i');
    assert("to"@[0] == 't');
    assert("name"@[0] == 'n');
    assert("from"@[0] == 'f');
    assert("plan"@[0] == 'p');
    let f = seq![
        ("id"@, Json::Text(r.id@)),
        ("name"@, Json::Text(r.name@)),
        ("from"@, Json::Text(r.from@)),
        ("to"@, Json::Text(r.to@)),
        ("status"@, Json::Text(r.status.word_of())),
    ];
    let g = f.push(
        ("plan"@, Json::List(step_views(r.plan@).map_values(|s: StepView| step_document(s)))),
    );
    if r.plan@.len() == 0 {
        lemma_shows(f, 0);
        lemma_shows(f, 1);
        lemma_shows(f, 2);
        lemma_shows(f, 3);
        lemma_shows(f, 4);
    } else {
        lemma_shows(g, 0);
        lemma_shows(g, 1);
        lemma_shows(g, 2);
        lemma_shows(g, 3);
        lemma_shows(g, 4);
    }
}

/// Each outcome has a word of its own.
pub proof fn law_outcomes_have_words(a: &UpdateStatus, w: &'static str)
    requires
        call_ensures(UpdateStatus::word, (a,), w),
    ensures
        *a == UpdateStatus::UpToDate <==> w@ == "up-to-date"@,
        *a == UpdateStatus::WouldUpdate <==> w@ == "would-update"@,
        *a == UpdateStatus::Updated <==> w@ == "updated"@,
{
    reveal_strlit("up-to-date");
    reveal_strlit("would-update");
    reveal_strlit("updated");
    assert("up-to-date"@.len() == 10);
    assert("would-update"@.len() == 12);
    assert("updated"@.len() == 7);
}

/// A run of updates is told package by package, in order, and whether it was a dry
/// one.
pub proof fn law_every_update_is_told(rows: Seq<UpdateRow>, dry_run: bool, i: int) -> (told: Seq<
    Json,
>)
    requires
        0 <= i < rows.len(),
    ensures
        shows(update_document(rows, dry_run), "dryRun"@, Json::Bool(dry_run)),
        shows(update_document(rows, dry_run), "update"@, Json::List(told)),
        told.len() == rows.len(),
        told[i] == update_row_document(rows[i]),
{
    reveal_strlit("dryRun");
    reveal_strlit("update");
    assert("dryRun"@[0] == 'd');
    assert("update"@[0] == 'u');
    let v = rows.map_values(|r: UpdateRow| update_row_document(r));
    let f = seq![("dryRun"@, Json::Bool(dry_run)), ("update"@, Json::List(v))];
    lemma_shows(f, 0);
    lemma_shows(f, 1);
    v
}

} // verus!
