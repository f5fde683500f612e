//! The course of an installation: the questions about what the packages need,
//! then one package after the other.

use vstd::prelude::*;
use crate::add::{
    dep_present, first_text, installed_already, lemma_met, met, slot_names, AddRow, Dependency,
    Status,
};
use crate::add::{already_installed, dependency_step};
use crate::catalog::{existent_slot, known_slot, LockFile, LockedAsset, PackageEntry, PackagesFile};
use crate::deploy::{dir_map, lemma_lists, placements, DeployFile};
use crate::error::{ChefError, Failure};
use crate::identify::in_archive_of;
use crate::plan::{is_plan, plan_deploy, step_views, PlanStep, StepView};
use crate::resolution::{opt_text, pairs, ResolvedVersion};
use crate::state::{opt, GameDirState, Install};
use crate::strmap::StrMap;
use crate::text::{cat3, list_has, lists, lowercase, own, texts};
use crate::undo::Found;

verus! {

// ---------------------------------------------------------------------------
// What the packages need
// ---------------------------------------------------------------------------

/// The ids of the releases.
pub open spec fn ids_of(plan: Seq<ResolvedVersion>) -> Seq<Seq<char>> {
    plan.map_values(|p: ResolvedVersion| p.id@)
}

/// The dependencies of one package, each with the name of the package.
pub open spec fn needs_of(p: ResolvedVersion) -> Seq<(Seq<char>, Seq<char>)> {
    texts(p.dependencies@).map_values(|d: Seq<char>| (p.name@, d))
}

/// The dependencies of all packages, in order.
pub open spec fn needs(plan: Seq<ResolvedVersion>) -> Seq<(Seq<char>, Seq<char>)>
    decreases plan.len(),
{
    if plan.len() == 0 {
        Seq::empty()
    } else {
        needs(plan.drop_last()) + needs_of(plan.last())
    }
}

/// The dependencies that are in a list.
pub open spec fn deps_in(v: Seq<(Seq<char>, Seq<char>)>) -> Seq<Seq<char>> {
    v.map_values(|n: (Seq<char>, Seq<char>)| n.1)
}

/// The dependencies that are not met, each once, with the name of the first
/// package that needs it.
pub open spec fn unmet(
    all: Seq<(Seq<char>, Seq<char>)>,
    planned: Seq<Seq<char>>,
    pkgs: Seq<PackageEntry>,
    lock: Map<Seq<char>, LockedAsset>,
    game: Option<Seq<char>>,
    installs: Map<Seq<char>, Install>,
    names: Seq<Seq<char>>,
) -> Seq<(Seq<char>, Seq<char>)>
    decreases all.len(),
{
    if all.len() == 0 {
        Seq::empty()
    } else {
        let before = unmet(all.drop_last(), planned, pkgs, lock, game, installs, names);
        let n = all.last();
        if deps_in(before).contains(n.1) || met(n.1, planned, pkgs, lock, game, installs, names) {
            before
        } else {
            before.push(n)
        }
    }
}

fn list_needs(plan: &Vec<ResolvedVersion>) -> (out: Vec<(String, String)>)
    ensures
        pairs(out@) == needs(plan@),
{
    let mut out: Vec<(String, String)> = Vec::new();
    let mut i: usize = 0;
    proof {
        assert(plan@.take(0) =~= Seq::<ResolvedVersion>::empty());
        assert(pairs(out@) =~= Seq::<(Seq<char>, Seq<char>)>::empty());
    }
    while i < plan.len()
        invariant
            i <= plan@.len(),
            pairs(out@) == needs(plan@.take(i as int)),
        decreases plan.len() - i,
    {
        let p = &plan[i];
        let ghost start = pairs(out@);
        let ghost want = needs_of(*p);
        proof {
            assert(plan@.take(i + 1).drop_last() =~= plan@.take(i as int));
            assert(plan@.take(i + 1).last() == *p);
            assert(start + want.take(0) =~= start);
        }
        let mut j: usize = 0;
        while j < p.dependencies.len()
            invariant
                j <= p.dependencies@.len(),
                want == needs_of(*p),
                pairs(out@) == start + want.take(j as int),
            decreases p.dependencies.len() - j,
        {
            let ghost before = out@;
            out.push((p.name.clone(), p.dependencies[j].clone()));
            proof {
                assert(pairs(out@) =~= pairs(before).push(want[j as int]));
                assert(start + want.take(j + 1) =~= (start + want.take(j as int)).push(
                    want[j as int],
                ));
            }
            j = j + 1;
        }
        proof {
            assert(want.take(j as int) =~= want);
        }
        i = i + 1;
    }
    proof {
        assert(plan@.take(i as int) =~= plan@);
    }
    out
}

fn list_ids(plan: &Vec<ResolvedVersion>) -> (out: Vec<String>)
    ensures
        texts(out@) == ids_of(plan@),
{
    let mut out: Vec<String> = Vec::new();
    let mut i: usize = 0;
    while i < plan.len()
        invariant
            i <= plan@.len(),
            texts(out@) =~= ids_of(plan@).take(i as int),
        decreases plan.len() - i,
    {
        let ghost before = out@;
        out.push(plan[i].id.clone());
        proof {
            assert(texts(out@) =~= texts(before).push(plan@[i as int].id@));
            assert(ids_of(plan@).take(i + 1) =~= ids_of(plan@).take(i as int).push(
                plan@[i as int].id@,
            ));
        }
        i = i + 1;
    }
    proof {
        assert(ids_of(plan@).take(i as int) =~= ids_of(plan@));
    }
    out
}

/// The dependencies of the planned packages that are not met, each once, with the
/// name of the first package that needs it. `names` are the files directly in the
/// game directory.
pub fn missing_dependencies(
    plan: &Vec<ResolvedVersion>,
    pkgs: &PackagesFile,
    lock: &LockFile,
    game: Option<&str>,
    dir: Option<&GameDirState>,
    names: &Vec<String>,
) -> (out: Vec<(String, String)>)
    ensures
        pairs(out@) == unmet(
            needs(plan@),
            ids_of(plan@),
            pkgs.packages@,
            lock.assets@,
            opt_text(game),
            dir_map(dir),
            texts(names@),
        ),
{
    let all = list_needs(plan);
    let planned = list_ids(plan);
    let ghost av = pairs(all@);
    let mut out: Vec<(String, String)> = Vec::new();
    let mut handled: Vec<String> = Vec::new();
    let mut i: usize = 0;
    proof {
        assert(av.take(0) =~= Seq::<(Seq<char>, Seq<char>)>::empty());
        assert(pairs(out@) =~= Seq::<(Seq<char>, Seq<char>)>::empty());
        assert(texts(handled@) =~= deps_in(pairs(out@)));
    }
    while i < all.len()
        invariant
            i <= all@.len(),
            av == pairs(all@),
            texts(planned@) == ids_of(plan@),
            texts(handled@) =~= deps_in(pairs(out@)),
            pairs(out@) == unmet(
                av.take(i as int),
                ids_of(plan@),
                pkgs.packages@,
                lock.assets@,
                opt_text(game),
                dir_map(dir),
                texts(names@),
            ),
        decreases all.len() - i,
    {
        let dep: &str = all[i].1.as_str();
        proof {
            assert(av.take(i + 1).drop_last() =~= av.take(i as int));
            assert(av.take(i + 1).last() == (all@[i as int].0@, all@[i as int].1@));
            lemma_lists(handled@, dep@);
        }
        if !list_has(&handled, dep) && !dep_present(dep, &planned, pkgs, lock, game, dir, names) {
            let ghost was = handled@;
            let ghost before = out@;
            handled.push(own(dep));
            out.push((all[i].0.clone(), all[i].1.clone()));
            proof {
                assert(pairs(out@) =~= pairs(before).push((all@[i as int].0@, all@[i as int].1@)));
                assert(texts(handled@) =~= texts(was).push(dep@));
                assert(deps_in(pairs(out@)) =~= deps_in(pairs(before)).push(dep@));
            }
        }
        i = i + 1;
    }
    proof {
        assert(av.take(i as int) =~= av);
    }
    out
}

spec fn needed_by(plan: Seq<ResolvedVersion>, x: (Seq<char>, Seq<char>)) -> bool {
    exists|i: int, j: int|
        #![trigger plan[i].dependencies@[j]]
        0 <= i < plan.len() && 0 <= j < plan[i].dependencies@.len() && x == (
            plan[i].name@,
            plan[i].dependencies@[j]@,
        )
}

proof fn lemma_needs(plan: Seq<ResolvedVersion>)
    ensures
        forall|i: int, j: int|
            #![trigger plan[i].dependencies@[j]]
            0 <= i < plan.len() && 0 <= j < plan[i].dependencies@.len() ==> needs(plan).contains(
                (plan[i].name@, plan[i].dependencies@[j]@),
            ),
        forall|k: int| 0 <= k < needs(plan).len() ==> needed_by(plan, #[trigger] needs(plan)[k]),
    decreases plan.len(),
{
    if plan.len() > 0 {
        let t = plan.drop_last();
        let l = plan.len() - 1;
        let b = needs(t);
        let w = needs_of(plan[l]);
        let n = needs(plan);
        lemma_needs(t);
        assert(n == b + w);
        assert forall|i: int, j: int|
            #![trigger plan[i].dependencies@[j]]
            0 <= i < plan.len() && 0 <= j < plan[i].dependencies@.len() implies n.contains(
            (plan[i].name@, plan[i].dependencies@[j]@),
        ) by {
            let x = (plan[i].name@, plan[i].dependencies@[j]@);
            if i < l {
                assert(t[i].dependencies@[j] == plan[i].dependencies@[j]);
                assert(t[i].name@ == plan[i].name@);
                assert(b.contains(x));
                let k = b.index_of(x);
                assert(n[k] == x);
            } else {
                assert(w[j] == x);
                assert(n[b.len() + j] == x);
            }
        }
        assert forall|k: int| 0 <= k < n.len() implies needed_by(plan, #[trigger] n[k]) by {
            if k < b.len() {
                assert(n[k] == b[k]);
                assert(needed_by(t, b[k]));
                let (i, j) = choose|i: int, j: int|
                    #![trigger t[i].dependencies@[j]]
                    0 <= i < t.len() && 0 <= j < t[i].dependencies@.len() && b[k] == (
                        t[i].name@,
                        t[i].dependencies@[j]@,
                    );
                assert(plan[i].dependencies@[j] == t[i].dependencies@[j]);
            } else {
                let j = k - b.len();
                assert(n[k] == w[j]);
                assert(plan[l].dependencies@[j]@ == w[j].1);
            }
        }
    }
}

proof fn lemma_unmet(
    all: Seq<(Seq<char>, Seq<char>)>,
    planned: Seq<Seq<char>>,
    pkgs: Seq<PackageEntry>,
    lock: Map<Seq<char>, LockedAsset>,
    game: Option<Seq<char>>,
    installs: Map<Seq<char>, Install>,
    names: Seq<Seq<char>>,
)
    ensures
        ({
            let u = unmet(all, planned, pkgs, lock, game, installs, names);
            &&& forall|k: int|
                0 <= k < all.len() && !met(
                    (#[trigger] all[k]).1,
                    planned,
                    pkgs,
                    lock,
                    game,
                    installs,
                    names,
                ) ==> deps_in(u).contains(all[k].1)
            &&& forall|k: int|
                0 <= k < u.len() ==> all.contains(#[trigger] u[k]) && !met(
                    u[k].1,
                    planned,
                    pkgs,
                    lock,
                    game,
                    installs,
                    names,
                )
            &&& forall|k: int, l: int|
                0 <= k < l < u.len() ==> (#[trigger] u[k]).1 != (#[trigger] u[l]).1
        }),
    decreases all.len(),
{
    if all.len() > 0 {
        let t = all.drop_last();
        let e = all.len() - 1;
        lemma_unmet(t, planned, pkgs, lock, game, installs, names);
        let b = unmet(t, planned, pkgs, lock, game, installs, names);
        let u = unmet(all, planned, pkgs, lock, game, installs, names);
        assert(all.last() == all[e]);
        assert forall|k: int|
            0 <= k < all.len() && !met(
                (#[trigger] all[k]).1,
                planned,
                pkgs,
                lock,
                game,
                installs,
                names,
            ) implies deps_in(u).contains(all[k].1) by {
            if k < e {
                assert(t[k] == all[k]);
                let at = deps_in(b).index_of(all[k].1);
                assert(deps_in(u)[at] == all[k].1);
            } else if deps_in(b).contains(all[e].1) {
                assert(u == b);
            } else {
                assert(deps_in(u)[b.len() as int] == all[e].1);
            }
        }
        assert forall|k: int| 0 <= k < u.len() implies all.contains(#[trigger] u[k]) && !met(
            u[k].1,
            planned,
            pkgs,
            lock,
            game,
            installs,
            names,
        ) by {
            if k < b.len() {
                assert(u[k] == b[k]);
                assert(t.contains(b[k]));
                assert(all[t.index_of(b[k])] == u[k]);
            } else {
                assert(all[e] == u[k]);
            }
        }
        assert forall|k: int, l: int| 0 <= k < l < u.len() implies (#[trigger] u[k]).1 != (
        #[trigger] u[l]).1 by {
            assert(u[k] == b[k]);
            if l < b.len() {
                assert(u[l] == b[l]);
            } else {
                assert(deps_in(b)[k] == u[k].1);
            }
        }
    }
}

/// Nothing that a planned package needs is passed over: each of its dependencies
/// is met, or it is among the missing ones, each of which is a dependency of a
/// planned package that is not met, and told once. A dependency is met where a
/// package of its slot is planned too, is installed, or ships a file whose name a
/// file in the game directory has.
pub proof fn law_no_dependency_is_passed_over(
    plan: Seq<ResolvedVersion>,
    pkgs: Seq<PackageEntry>,
    lock: Map<Seq<char>, LockedAsset>,
    game: Option<Seq<char>>,
    installs: Map<Seq<char>, Install>,
    names: Seq<Seq<char>>,
    missing: Seq<(Seq<char>, Seq<char>)>,
)
    requires
        missing == unmet(needs(plan), ids_of(plan), pkgs, lock, game, installs, names),
    ensures
        forall|i: int, j: int|
            #![trigger plan[i].dependencies@[j]]
            0 <= i < plan.len() && 0 <= j < plan[i].dependencies@.len() ==> {
                let dep = plan[i].dependencies@[j]@;
                ||| exists|k: int| 0 <= k < missing.len() && (#[trigger] missing[k]).1 == dep
                ||| exists|k: int|
                    0 <= k < plan.len() && known_slot(pkgs, dep).contains((#[trigger] plan[k]).id@)
                ||| exists|id: Seq<char>| #[trigger]
                    installs.dom().contains(id) && known_slot(pkgs, dep).contains(id)
                ||| exists|n: int, id: Seq<char>|
                    0 <= n < names.len() && known_slot(pkgs, dep).contains(id)
                        && #[trigger] in_archive_of(pkgs, lock, game, id, lowercase(names[n]))
            },
        forall|k: int|
            0 <= k < missing.len() ==> {
                let dep = (#[trigger] missing[k]).1;
                &&& exists|i: int, j: int|
                    #![trigger plan[i].dependencies@[j]]
                    0 <= i < plan.len() && 0 <= j < plan[i].dependencies@.len() && missing[k] == (
                        plan[i].name@,
                        plan[i].dependencies@[j]@,
                    )
                &&& forall|l: int|
                    0 <= l < plan.len() ==> !known_slot(pkgs, dep).contains((#[trigger] plan[l]).id@)
                &&& forall|id: Seq<char>| #[trigger]
                    installs.dom().contains(id) ==> !known_slot(pkgs, dep).contains(id)
                &&& forall|n: int, id: Seq<char>|
                    0 <= n < names.len() && known_slot(pkgs, dep).contains(id)
                        ==> !#[trigger] in_archive_of(pkgs, lock, game, id, lowercase(names[n]))
            },
        forall|k: int, l: int|
            0 <= k < l < missing.len() ==> (#[trigger] missing[k]).1 != (#[trigger] missing[l]).1,
{
    let planned = ids_of(plan);
    lemma_needs(plan);
    lemma_unmet(needs(plan), planned, pkgs, lock, game, installs, names);
    assert forall|i: int, j: int|
        #![trigger plan[i].dependencies@[j]]
        0 <= i < plan.len() && 0 <= j < plan[i].dependencies@.len() implies {
        let dep = plan[i].dependencies@[j]@;
        ||| exists|k: int| 0 <= k < missing.len() && (#[trigger] missing[k]).1 == dep
        ||| exists|k: int|
            0 <= k < plan.len() && known_slot(pkgs, dep).contains((#[trigger] plan[k]).id@)
        ||| exists|id: Seq<char>| #[trigger]
            installs.dom().contains(id) && known_slot(pkgs, dep).contains(id)
        ||| exists|n: int, id: Seq<char>|
            0 <= n < names.len() && known_slot(pkgs, dep).contains(id) && #[trigger] in_archive_of(
                pkgs,
                lock,
                game,
                id,
                lowercase(names[n]),
            )
    } by {
        let dep = plan[i].dependencies@[j]@;
        let x = (plan[i].name@, dep);
        let k = needs(plan).index_of(x);
        assert(needs(plan)[k].1 == dep);
        if met(dep, planned, pkgs, lock, game, installs, names) {
            lemma_met(dep, planned, pkgs, lock, game, installs, names);
            if exists|k: int|
                0 <= k < planned.len() && known_slot(pkgs, dep).contains(#[trigger] planned[k]) {
                let k = choose|k: int|
                    0 <= k < planned.len() && known_slot(pkgs, dep).contains(#[trigger] planned[k]);
                assert(plan[k].id@ == planned[k]);
            }
        } else {
            let at = deps_in(missing).index_of(dep);
            assert(missing[at].1 == dep);
        }
    }
    assert forall|k: int| 0 <= k < missing.len() implies {
        let dep = (#[trigger] missing[k]).1;
        &&& exists|i: int, j: int|
            #![trigger plan[i].dependencies@[j]]
            0 <= i < plan.len() && 0 <= j < plan[i].dependencies@.len() && missing[k] == (
                plan[i].name@,
                plan[i].dependencies@[j]@,
            )
        &&& forall|l: int|
            0 <= l < plan.len() ==> !known_slot(pkgs, dep).contains((#[trigger] plan[l]).id@)
        &&& forall|id: Seq<char>| #[trigger]
            installs.dom().contains(id) ==> !known_slot(pkgs, dep).contains(id)
        &&& forall|n: int, id: Seq<char>|
            0 <= n < names.len() && known_slot(pkgs, dep).contains(id) ==> !#[trigger] in_archive_of(
                pkgs,
                lock,
                game,
                id,
                lowercase(names[n]),
            )
    } by {
        let dep = missing[k].1;
        assert(needs(plan).contains(missing[k]));
        let at = needs(plan).index_of(missing[k]);
        assert(needed_by(plan, needs(plan)[at]));
        lemma_met(dep, planned, pkgs, lock, game, installs, names);
        assert forall|l: int| 0 <= l < plan.len() implies !known_slot(pkgs, dep).contains(
            (#[trigger] plan[l]).id@,
        ) by {
            assert(planned[l] == plan[l].id@);
        }
    }
}

proof fn lemma_needs_in_order(plan: Seq<ResolvedVersion>, a: int) -> (i: int)
    requires
        0 <= a < needs(plan).len(),
    ensures
        0 <= i < plan.len(),
        needs(plan)[a].0 == plan[i].name@,
        lists(plan[i].dependencies@, needs(plan)[a].1),
        forall|e: int|
            0 <= e < i && lists((#[trigger] plan[e]).dependencies@, needs(plan)[a].1) ==> exists|
                b: int,
            |
                0 <= b < a && (#[trigger] needs(plan)[b]).1 == needs(plan)[a].1,
    decreases plan.len(),
{
    let t = plan.drop_last();
    let l = plan.len() - 1;
    let before = needs(t);
    let n = needs(plan);
    let dep = n[a].1;
    if a < before.len() {
        assert(n[a] == before[a]);
        let i = lemma_needs_in_order(t, a);
        assert(plan[i] == t[i]);
        assert forall|e: int| 0 <= e < i && lists((#[trigger] plan[e]).dependencies@, dep) implies exists|
            b: int,
        |
            0 <= b < a && (#[trigger] n[b]).1 == dep by {
            assert(t[e] == plan[e]);
            let b = choose|b: int| 0 <= b < a && (#[trigger] before[b]).1 == before[a].1;
            assert(n[b] == before[b]);
        }
        i
    } else {
        let j = a - before.len();
        assert(n[a] == needs_of(plan[l])[j]);
        assert(texts(plan[l].dependencies@)[j] == dep);
        assert(plan[l].dependencies@[j]@ == dep);
        lemma_needs(t);
        assert forall|e: int| 0 <= e < l && lists((#[trigger] plan[e]).dependencies@, dep) implies exists|
            b: int,
        |
            0 <= b < a && (#[trigger] n[b]).1 == dep by {
            assert(t[e] == plan[e]);
            let k = choose|k: int|
                0 <= k < plan[e].dependencies@.len() && (#[trigger] plan[e].dependencies@[k])@ == dep;
            assert(t[e].dependencies@[k]@ == dep);
            let x = (t[e].name@, dep);
            assert(before.contains(x));
            let b = before.index_of(x);
            assert(n[b] == x);
        }
        l
    }
}

proof fn lemma_unmet_first(
    all: Seq<(Seq<char>, Seq<char>)>,
    planned: Seq<Seq<char>>,
    pkgs: Seq<PackageEntry>,
    lock: Map<Seq<char>, LockedAsset>,
    game: Option<Seq<char>>,
    installs: Map<Seq<char>, Install>,
    names: Seq<Seq<char>>,
    k: int,
) -> (a: int)
    requires
        0 <= k < unmet(all, planned, pkgs, lock, game, installs, names).len(),
    ensures
        0 <= a < all.len(),
        unmet(all, planned, pkgs, lock, game, installs, names)[k] == all[a],
        forall|b: int| 0 <= b < a ==> (#[trigger] all[b]).1 != all[a].1,
    decreases all.len(),
{
    let t = all.drop_last();
    let e = all.len() - 1;
    let u = unmet(t, planned, pkgs, lock, game, installs, names);
    let w = unmet(all, planned, pkgs, lock, game, installs, names);
    if k < u.len() {
        assert(w[k] == u[k]);
        let a = lemma_unmet_first(t, planned, pkgs, lock, game, installs, names, k);
        assert(all[a] == t[a]);
        assert forall|b: int| 0 <= b < a implies (#[trigger] all[b]).1 != all[a].1 by {
            assert(t[b] == all[b]);
        }
        a
    } else {
        assert(w[k] == all[e]);
        lemma_unmet(t, planned, pkgs, lock, game, installs, names);
        assert forall|b: int| 0 <= b < e implies (#[trigger] all[b]).1 != all[e].1 by {
            assert(t[b] == all[b]);
            if all[b].1 == all[e].1 {
                assert(deps_in(u).contains(t[b].1));
            }
        }
        e
    }
}

/// A missing dependency is told with the name of the first package of the plan
/// that needs it.
pub proof fn law_the_first_package_asks(
    plan: Seq<ResolvedVersion>,
    pkgs: Seq<PackageEntry>,
    lock: Map<Seq<char>, LockedAsset>,
    game: Option<Seq<char>>,
    installs: Map<Seq<char>, Install>,
    names: Seq<Seq<char>>,
    missing: Seq<(Seq<char>, Seq<char>)>,
    k: int,
)
    requires
        missing == unmet(needs(plan), ids_of(plan), pkgs, lock, game, installs, names),
        0 <= k < missing.len(),
    ensures
        exists|i: int|
            0 <= i < plan.len() && (#[trigger] plan[i]).name@ == missing[k].0 && lists(
                plan[i].dependencies@,
                missing[k].1,
            ) && forall|e: int|
                0 <= e < i ==> !lists((#[trigger] plan[e]).dependencies@, missing[k].1),
{
    let a = lemma_unmet_first(needs(plan), ids_of(plan), pkgs, lock, game, installs, names, k);
    let i = lemma_needs_in_order(plan, a);
    assert(plan[i].name@ == missing[k].0);
}

// ---------------------------------------------------------------------------
// Step by step
// ---------------------------------------------------------------------------

/// What is done next.
#[derive(Debug)]
pub enum Action {
    /// This is said.
    Say(String),
    /// This is asked, with these options; `slot` are the ids behind them.
    Ask { title: String, question: String, options: Vec<String>, slot: Vec<String> },
    /// The package at this place of the plan is looked after.
    Install(usize),
    /// Nothing is left to do.
    Finish,
}

/// What has happened.
#[derive(Debug)]
pub enum Event {
    /// It was said.
    Said,
    /// The offer was taken: this release is installed too.
    Took(ResolvedVersion),
    /// The offer was turned down.
    Declined,
    /// The package is installed in this version already.
    Already,
    /// The package was installed.
    Installed,
    /// A dry run came to these steps.
    Planned(Vec<PlanStep>),
}

/// The course of an installation.
#[derive(Debug)]
pub struct AddRun {
    pub dry_run: bool,
    /// The releases, in the order in which they are installed.
    pub plan: Vec<ResolvedVersion>,
    /// The dependencies that are not met, with the names of the packages.
    pub missing: Vec<(String, String)>,
    /// How many of them were dealt with.
    pub asked: usize,
    /// What became of the packages that were looked after.
    pub rows: Vec<AddRow>,
}

/// The row tells of the release.
pub open spec fn tells_of(r: AddRow, p: ResolvedVersion) -> bool {
    r.id@ == p.id@ && r.name@ == p.name@ && r.version@ == p.version@
}

impl AddRun {
    /// The rows tell of the first releases of the plan, and no package was looked
    /// after before all questions were dealt with.
    pub open spec fn wf(&self) -> bool {
        &&& self.asked <= self.missing@.len()
        &&& self.rows@.len() <= self.plan@.len()
        &&& self.rows@.len() > 0 ==> self.asked == self.missing@.len()
        &&& forall|i: int|
            0 <= i < self.rows@.len() ==> tells_of(#[trigger] self.rows@[i], self.plan@[i])
    }

    /// What is left to do: the greater, the more.
    pub open spec fn left(&self) -> nat {
        (2 * (self.missing@.len() - self.asked) + (self.plan@.len() - self.rows@.len())) as nat
    }

    /// The run before its first step.
    pub fn new(
        plan: Vec<ResolvedVersion>,
        missing: Vec<(String, String)>,
        dry_run: bool,
    ) -> (run: AddRun)
        ensures
            run.wf(),
            run.plan == plan,
            run.missing == missing,
            run.dry_run == dry_run,
            run.asked == 0,
            run.rows@.len() == 0,
    {
        AddRun { dry_run, plan, missing, asked: 0, rows: Vec::new() }
    }

    /// What is done next: first the dependencies, which a dry run only mentions,
    /// then the packages, in order.
    pub fn next(&self, pkgs: &PackagesFile) -> (a: Action)
        requires
            self.wf(),
        ensures
            ({
                let n = pairs(self.missing@)[self.asked as int];
                let slot = known_slot(pkgs.packages@, n.1);
                let names = slot_names(pkgs.packages@, slot);
                if self.asked < self.missing@.len() && self.dry_run {
                    a matches Action::Say(m) && m@ == "note: "@ + n.0 + " needs "@ + first_text(
                        slot,
                    ) + " - none found (would offer to install)"@
                } else if self.asked < self.missing@.len() {
                    a matches Action::Ask { title, question, options, slot: s } && title@ == n.0
                        && question@ == n.0 + " needs "@ + first_text(names) + " - set up one?"@
                        && texts(options@) == names && texts(s@) == slot
                } else if self.rows@.len() < self.plan@.len() {
                    a == Action::Install(self.rows.len())
                } else {
                    a is Finish
                }
            }),
    {
        if self.asked < self.missing.len() {
            let n = &self.missing[self.asked];
            proof {
                assert(pairs(self.missing@)[self.asked as int] == (n.0@, n.1@));
            }
            let none: Vec<String> = Vec::new();
            let step = dependency_step(
                n.0.as_str(),
                n.1.as_str(),
                &none,
                false,
                self.dry_run,
                pkgs,
            );
            assert(!lists(none@, n.1@));
            match step {
                Dependency::Met => Action::Finish,
                Dependency::Note(m) => Action::Say(m),
                Dependency::Offer { question, options, slot } => Action::Ask {
                    title: n.0.clone(),
                    question,
                    options,
                    slot,
                },
            }
        } else if self.rows.len() < self.plan.len() {
            Action::Install(self.rows.len())
        } else {
            Action::Finish
        }
    }

    /// The event is one that can follow here.
    pub open spec fn expects(&self, e: Event) -> bool {
        match e {
            Event::Said => self.dry_run && self.asked < self.missing@.len(),
            Event::Took(_) | Event::Declined => !self.dry_run && self.asked < self.missing@.len(),
            Event::Already => self.asked == self.missing@.len() && self.rows@.len()
                < self.plan@.len(),
            Event::Installed => !self.dry_run && self.asked == self.missing@.len()
                && self.rows@.len() < self.plan@.len(),
            Event::Planned(_) => self.dry_run && self.asked == self.missing@.len()
                && self.rows@.len() < self.plan@.len(),
        }
    }

    /// Takes note of what has happened. A release that was taken comes last in the
    /// plan, and dependencies that it meets are no longer missing; of a package
    /// that was looked after a row tells.
    pub fn advance(&mut self, e: Event, pkgs: &PackagesFile)
        requires
            old(self).wf(),
            old(self).expects(e),
        ensures
            final(self).wf(),
            final(self).left() < old(self).left(),
            advanced(*old(self), e, pkgs.packages@, *final(self)),
    {
        let total: usize = self.missing.len();
        assert(self.asked <= total);
        match e {
            Event::Said | Event::Declined => {
                self.asked = self.asked + 1;
            },
            Event::Took(p) => {
                self.asked = self.asked + 1;
                let rest = missing_after(&self.missing, self.asked, p.id.as_str(), pkgs);
                self.missing = rest;
                self.plan.push(p);
            },
            Event::Already => {
                let row = row_for(&self.plan[self.rows.len()], Status::Already, Vec::new());
                self.rows.push(row);
                assert(self.rows@.drop_last() =~= old(self).rows@);
            },
            Event::Installed => {
                let row = row_for(&self.plan[self.rows.len()], Status::Installed, Vec::new());
                self.rows.push(row);
                assert(self.rows@.drop_last() =~= old(self).rows@);
            },
            Event::Planned(steps) => {
                let row = row_for(&self.plan[self.rows.len()], Status::WouldInstall, steps);
                self.rows.push(row);
                assert(self.rows@.drop_last() =~= old(self).rows@);
            },
        }
    }
}

/// What has happened led from one state of the run to the next.
pub open spec fn advanced(
    before: AddRun,
    e: Event,
    pkgs: Seq<PackageEntry>,
    after: AddRun,
) -> bool {
    &&& after.dry_run == before.dry_run
    &&& !(e is Took) ==> after.missing == before.missing
    &&& match e {
        Event::Said | Event::Declined => after.asked == before.asked + 1 && after.plan
            == before.plan && after.rows == before.rows,
        Event::Took(p) => {
            &&& after.asked == before.asked + 1
            &&& after.plan@ == before.plan@.push(p)
            &&& after.rows == before.rows
            &&& pairs(after.missing@) == pairs(before.missing@).take(before.asked + 1)
                + still_missing(pairs(before.missing@).skip(before.asked + 1), p.id@, pkgs)
        },
        _ => {
            &&& after.asked == before.asked
            &&& after.plan == before.plan
            &&& after.rows@.len() == before.rows@.len() + 1
            &&& after.rows@.drop_last() == before.rows@
            &&& tells_of(after.rows@.last(), before.plan@[before.rows@.len() as int])
            &&& after.rows@.last().status == row_status(e)
            &&& step_views(after.rows@.last().plan@) == row_steps(e)
        },
    }
}

/// The dependencies that the package with this id does not meet: its id is not in
/// their slots.
pub open spec fn still_missing(
    v: Seq<(Seq<char>, Seq<char>)>,
    id: Seq<char>,
    pkgs: Seq<PackageEntry>,
) -> Seq<(Seq<char>, Seq<char>)>
    decreases v.len(),
{
    if v.len() == 0 {
        Seq::empty()
    } else {
        let before = still_missing(v.drop_last(), id, pkgs);
        if known_slot(pkgs, v.last().1).contains(id) {
            before
        } else {
            before.push(v.last())
        }
    }
}

/// Once an offer is taken, nothing is asked about a dependency whose slot holds
/// the package that was taken.
pub proof fn law_taken_packages_meet_dependencies(
    v: Seq<(Seq<char>, Seq<char>)>,
    id: Seq<char>,
    pkgs: Seq<PackageEntry>,
)
    ensures
        forall|k: int|
            0 <= k < still_missing(v, id, pkgs).len() ==> !known_slot(
                pkgs,
                (#[trigger] still_missing(v, id, pkgs)[k]).1,
            ).contains(id),
        forall|k: int|
            0 <= k < v.len() && !known_slot(pkgs, (#[trigger] v[k]).1).contains(id)
                ==> still_missing(v, id, pkgs).contains(v[k]),
    decreases v.len(),
{
    if v.len() > 0 {
        let t = v.drop_last();
        law_taken_packages_meet_dependencies(t, id, pkgs);
        let b = still_missing(t, id, pkgs);
        let n = still_missing(v, id, pkgs);
        assert forall|k: int| 0 <= k < n.len() implies !known_slot(pkgs, (#[trigger] n[k]).1)
            .contains(id) by {
            if k < b.len() {
                assert(n[k] == b[k]);
            }
        }
        assert forall|k: int|
            0 <= k < v.len() && !known_slot(pkgs, (#[trigger] v[k]).1).contains(
                id,
            ) implies n.contains(v[k]) by {
            if k < t.len() {
                assert(t[k] == v[k]);
                let m = b.index_of(t[k]);
                assert(n[m] == v[k]);
            } else {
                assert(n[b.len() as int] == v[k]);
            }
        }
    }
}

fn missing_after(
    missing: &Vec<(String, String)>,
    asked: usize,
    id: &str,
    pkgs: &PackagesFile,
) -> (out: Vec<(String, String)>)
    requires
        asked <= missing@.len(),
    ensures
        pairs(out@) == pairs(missing@).take(asked as int) + still_missing(
            pairs(missing@).skip(asked as int),
            id@,
            pkgs.packages@,
        ),
        asked <= out@.len() <= missing@.len(),
{
    let ghost all = pairs(missing@);
    let ghost rest = all.skip(asked as int);
    let mut out: Vec<(String, String)> = Vec::new();
    let mut i: usize = 0;
    while i < asked
        invariant
            i <= asked <= missing@.len(),
            all == pairs(missing@),
            pairs(out@) =~= all.take(i as int),
        decreases asked - i,
    {
        let ghost before = out@;
        out.push((missing[i].0.clone(), missing[i].1.clone()));
        proof {
            assert(pairs(out@) =~= pairs(before).push(all[i as int]));
            assert(all.take(i + 1) =~= all.take(i as int).push(all[i as int]));
        }
        i = i + 1;
    }
    proof {
        assert(pairs(out@).len() == asked);
        assert(rest.take(0) =~= Seq::<(Seq<char>, Seq<char>)>::empty());
        assert(pairs(out@) =~= all.take(asked as int) + still_missing(
            rest.take(0),
            id@,
            pkgs.packages@,
        ));
    }
    while i < missing.len()
        invariant
            asked <= i <= missing@.len(),
            all == pairs(missing@),
            rest == all.skip(asked as int),
            asked <= out@.len() <= i,
            pairs(out@) == all.take(asked as int) + still_missing(
                rest.take(i - asked),
                id@,
                pkgs.packages@,
            ),
        decreases missing.len() - i,
    {
        let n = &missing[i];
        let slot = existent_slot(pkgs, n.1.as_str());
        proof {
            assert(rest.take(i - asked + 1).drop_last() =~= rest.take(i - asked));
            assert(rest.take(i - asked + 1).last() == all[i as int]);
            assert(all[i as int] == (n.0@, n.1@));
            lemma_lists(slot@, id@);
        }
        if !list_has(&slot, id) {
            let ghost before = out@;
            out.push((n.0.clone(), n.1.clone()));
            proof {
                assert(pairs(out@) =~= pairs(before).push(all[i as int]));
                assert(pairs(out@) =~= all.take(asked as int) + still_missing(
                    rest.take(i - asked + 1),
                    id@,
                    pkgs.packages@,
                ));
            }
        }
        i = i + 1;
    }
    proof {
        assert(rest.take(i - asked) =~= rest);
    }
    out
}

/// What became of a package.
pub open spec fn row_status(e: Event) -> Status {
    match e {
        Event::Already => Status::Already,
        Event::Planned(_) => Status::WouldInstall,
        _ => Status::Installed,
    }
}

/// The steps that are told of a package.
pub open spec fn row_steps(e: Event) -> Seq<StepView> {
    match e {
        Event::Planned(steps) => step_views(steps@),
        _ => Seq::empty(),
    }
}

fn row_for(p: &ResolvedVersion, status: Status, plan: Vec<PlanStep>) -> (r: AddRow)
    ensures
        tells_of(r, *p),
        r.status == status,
        step_views(r.plan@) == step_views(plan@),
        plan@.len() == 0 ==> step_views(r.plan@) == Seq::<StepView>::empty(),
{
    let r = AddRow {
        id: p.id.clone(),
        name: p.name.clone(),
        version: p.version.clone(),
        status,
        plan,
    };
    proof {
        if r.plan@.len() == 0 {
            assert(step_views(r.plan@) =~= Seq::<StepView>::empty());
        }
    }
    r
}

/// A run forgets nothing: what was planned at the start and what was taken later
/// is in the plan at the end, in that order, what became of each package stays
/// told, and a run that is done has told of every package of the plan.
pub proof fn law_a_run_looks_after_all(
    course: Seq<AddRun>,
    events: Seq<Event>,
    pkgs: Seq<PackageEntry>,
    k: int,
)
    requires
        course.len() == events.len() + 1,
        forall|i: int| 0 <= i < course.len() ==> (#[trigger] course[i]).wf(),
        forall|i: int|
            0 <= i < events.len() ==> course[i].expects(#[trigger] events[i]) && advanced(
                course[i],
                events[i],
                pkgs,
                course[i + 1],
            ),
        0 <= k < events.len(),
    ensures
        ({
            let last = course.last();
            let n = course[k].rows@.len() as int;
            &&& last.dry_run == course[k].dry_run
            &&& course[k].plan@.len() <= last.plan@.len()
            &&& forall|i: int|
                0 <= i < course[k].plan@.len() ==> #[trigger] last.plan@[i] == course[k].plan@[i]
            &&& events[k] matches Event::Took(p) ==> course[k].plan@.len() < last.plan@.len()
                && last.plan@[course[k].plan@.len() as int] == p
            &&& events[k] is Already ==> n < last.rows@.len() && last.rows@[n].status
                == Status::Already && last.rows@[n].id@ == course[k].plan@[n].id@
            &&& events[k] is Installed ==> n < last.rows@.len() && last.rows@[n].status
                == Status::Installed && last.rows@[n].id@ == course[k].plan@[n].id@
            &&& events[k] matches Event::Planned(steps) ==> n < last.rows@.len()
                && last.rows@[n].status == Status::WouldInstall && last.rows@[n].id@
                == course[k].plan@[n].id@ && step_views(last.rows@[n].plan@) == step_views(steps@)
            &&& last.rows@.len() == last.plan@.len() ==> forall|i: int|
                0 <= i < last.plan@.len() ==> last.rows@[i].id@ == (
                #[trigger] last.plan@[i]).id@ && last.rows@[i].version@ == last.plan@[i].version@
        }),
    decreases events.len(),
{
    let l = events.len() - 1;
    let n = course[k].rows@.len() as int;
    assert(course.last() == course[l + 1]);
    assert(course[l].expects(events[l]) && advanced(course[l], events[l], pkgs, course[l + 1]));
    assert(course[l].wf());
    assert(course[l + 1].wf());
    if k < l {
        let c = course.drop_last();
        let e = events.drop_last();
        assert forall|i: int| 0 <= i < c.len() implies (#[trigger] c[i]).wf() by {
            assert(c[i] == course[i]);
        }
        assert forall|i: int| 0 <= i < e.len() implies c[i].expects(#[trigger] e[i]) && advanced(
            c[i],
            e[i],
            pkgs,
            c[i + 1],
        ) by {
            assert(e[i] == events[i]);
        }
        law_a_run_looks_after_all(c, e, pkgs, k);
        assert(c.last() == course[l]);
        assert(e[k] == events[k]);
        assert(forall|i: int|
            0 <= i < course[l].plan@.len() ==> #[trigger] course[l + 1].plan@[i]
                == course[l].plan@[i]);
        if course[l + 1].rows@ != course[l].rows@ {
            assert forall|i: int| 0 <= i < course[l].rows@.len() implies #[trigger] course[l
                + 1].rows@[i] == course[l].rows@[i] by {
                assert(course[l + 1].rows@.drop_last()[i] == course[l].rows@[i]);
            }
        }
    }
    let last = course.last();
    if last.rows@.len() == last.plan@.len() {
        assert forall|i: int| 0 <= i < last.plan@.len() implies last.rows@[i].id@ == (
        #[trigger] last.plan@[i]).id@ && last.rows@[i].version@ == last.plan@[i].version@ by {
            assert(tells_of(last.rows@[i], last.plan@[i]));
        }
    }
}

// ---------------------------------------------------------------------------
// One package
// ---------------------------------------------------------------------------

/// What is told of a package that is installed in this version already, with all
/// its files unchanged; nothing of any other.
pub fn found_installed(
    product: &ResolvedVersion,
    dir: Option<&GameDirState>,
    seen: &StrMap<Found>,
) -> (r: Option<Event>)
    ensures
        r == if installed_already(product.id@, product.version@, dir_map(dir), seen@) {
            Some(Event::Already)
        } else {
            None
        },
{
    if already_installed(product, dir, seen) {
        Some(Event::Already)
    } else {
        None
    }
}

/// Where the files of a package come from.
#[derive(Debug, Clone, Copy, PartialEq, Eq, Structural)]
pub enum Payload {
    /// From the store, where they lie already.
    Store,
    /// From nowhere: nothing is fetched for a dry run.
    Unknown,
    /// From the store, into which they are fetched where they do not lie there.
    Fetch,
}

/// Where the files of a package come from; `complete` tells whether they lie in
/// the store. A dry run fetches nothing.
pub fn payload_for(dry_run: bool, complete: bool) -> (p: Payload)
    ensures
        p == if !dry_run {
            Payload::Fetch
        } else if complete {
            Payload::Store
        } else {
            Payload::Unknown
        },
        dry_run ==> p != Payload::Fetch,
{
    if !dry_run {
        Payload::Fetch
    } else if complete {
        Payload::Store
    } else {
        Payload::Unknown
    }
}

/// How a package is installed.
#[derive(Debug)]
pub enum InstallStep {
    /// It is not: these steps are told.
    Planned(Vec<PlanStep>),
    /// Its files are deployed.
    Deploy,
}

/// Installs a package, or plans it in a dry run, which never deploys. `files` are
/// its files in the store; of a package that is not complete there, a dry run
/// knows none.
pub fn install_one(
    product: &ResolvedVersion,
    dir: Option<&GameDirState>,
    seen: &StrMap<Found>,
    files: &Vec<DeployFile>,
    complete: bool,
    dry_run: bool,
) -> (s: InstallStep)
    ensures
        if dry_run {
            s matches InstallStep::Planned(steps) && is_plan(
                step_views(steps@),
                *product,
                dir_map(dir),
                seen@,
                if complete {
                    placements(files@)
                } else {
                    Seq::empty()
                },
            )
        } else {
            s is Deploy
        },
{
    if !dry_run {
        return InstallStep::Deploy;
    }
    if complete {
        return InstallStep::Planned(plan_deploy(product, dir, seen, files));
    }
    let none: Vec<DeployFile> = Vec::new();
    assert(placements(none@) =~= Seq::empty());
    InstallStep::Planned(plan_deploy(product, dir, seen, &none))
}

/// The error where the files of a package could not be had.
pub fn payload_failure(product: &ResolvedVersion, dry_run: bool, why: &Failure) -> (e: ChefError)
    ensures
        e matches ChefError::Other(f) && f.message@ == (if dry_run {
            "preparing payload"@
        } else {
            "preparing payload for "@ + product.name@ + " "@ + product.version@
        }) && opt(f.cause) == Some(why.whole()),
{
    let message = if dry_run {
        own("preparing payload")
    } else {
        let mut m = cat3("preparing payload for ", product.name.as_str(), " ");
        m.append(product.version.as_str());
        m
    };
    ChefError::Other(Failure { message, cause: Some(why.text()) })
}

/// A dry run fetches and deploys nothing; a real run has no other way to install a
/// package than to deploy it; and a package that is found installed is skipped in
/// both.
pub proof fn law_dry_runs_touch_nothing(
    product: &ResolvedVersion,
    dir: Option<&GameDirState>,
    seen: &StrMap<Found>,
    files: &Vec<DeployFile>,
    complete: bool,
    dry: InstallStep,
    done: InstallStep,
    source: Payload,
    found: Option<Event>,
)
    requires
        call_ensures(install_one, (product, dir, seen, files, complete, true), dry),
        call_ensures(install_one, (product, dir, seen, files, complete, false), done),
        call_ensures(payload_for, (true, complete), source),
        call_ensures(found_installed, (product, dir, seen), found),
    ensures
        dry is Planned,
        done is Deploy,
        source != Payload::Fetch,
        source == Payload::Store <==> complete,
        found is Some ==> found->0 is Already,
        found is Some ==> dir is Some && dir->0.installs@.dom().contains(product.id@)
            && dir->0.installs@[product.id@].version@ == product.version@,
{
}

/// All questions come before the first package is looked after; a dry run asks
/// none of them; an offer is about the slot of the dependency that is asked about;
/// the packages are looked after in order; and the run ends only after the last.
pub proof fn law_questions_come_first(run: &AddRun, pkgs: &PackagesFile, a: Action)
    requires
        run.wf(),
        call_ensures(AddRun::next, (run, pkgs), a),
    ensures
        run.asked < run.missing@.len() ==> a is Say || a is Ask,
        a is Say ==> run.dry_run,
        a is Ask ==> !run.dry_run,
        a matches Action::Ask { title, slot, options, .. } ==> title@
            == run.missing@[run.asked as int].0@ && texts(slot@) == known_slot(
            pkgs.packages@,
            run.missing@[run.asked as int].1@,
        ) && options@.len() == slot@.len(),
        a matches Action::Install(i) ==> run.asked == run.missing@.len() && i == run.rows@.len()
            && i < run.plan@.len(),
        a is Finish ==> run.asked == run.missing@.len() && run.rows@.len() == run.plan@.len(),
{
    if run.asked < run.missing@.len() {
        let n = pairs(run.missing@)[run.asked as int];
        assert(n.0 == run.missing@[run.asked as int].0@);
        assert(n.1 == run.missing@[run.asked as int].1@);
        if let Action::Ask { slot, options, .. } = a {
            assert(texts(options@).len() == options@.len());
            assert(texts(slot@).len() == slot@.len());
        }
    }
}

} // verus!
