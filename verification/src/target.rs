//! The game directory: which directory is meant, whether it may be touched, and
//! which game is in it.

use vstd::prelude::*;
use crate::catalog::PackagesFile;
use crate::error::{fails, other, Result};
use crate::order::increasing;
use crate::resolution::opt_text;
use crate::strmap::StrMap;
use crate::text::{cat3, join, joined, lowercase, own, same, texts, to_lower};

verus! {

/// The paths are equal, by their canonical forms where both have one.
pub open spec fn same_place(
    a: Seq<char>,
    b: Seq<char>,
    canon_a: Option<Seq<char>>,
    canon_b: Option<Seq<char>>,
) -> bool {
    match (canon_a, canon_b) {
        (Some(x), Some(y)) => x == y,
        _ => a == b,
    }
}

/// Are the paths equal, by their canonical forms where both have one?
pub fn paths_equal(a: &str, b: &str, canon_a: Option<&str>, canon_b: Option<&str>) -> (r: bool)
    ensures
        r == same_place(a@, b@, opt_text(canon_a), opt_text(canon_b)),
{
    match (canon_a, canon_b) {
        (Some(x), Some(y)) => same(x, y),
        _ => same(a, b),
    }
}

/// A directory that is never a game directory: its path, and whether it is the
/// one that is meant.
#[derive(Debug)]
pub struct Guarded {
    pub path: String,
    pub here: bool,
}

/// The message about a directory that may not be touched.
pub open spec fn refusal(label: Seq<char>, path: Seq<char>) -> Seq<char> {
    "refusing to operate on "@ + label + " ("@ + path + ") as a game directory"@
}

fn refuse(label: &str, path: &str) -> (m: String)
    ensures
        m@ == refusal(label@, path@),
{
    let mut m = cat3("refusing to operate on ", label, " (");
    m.append(path);
    m.append(") as a game directory");
    m
}

/// Refuses the data home, the user's home and the root of the file system.
pub fn safety_guard(data: &Guarded, user: &Option<Guarded>, root: &Guarded) -> (r: Result<()>)
    ensures
        if data.here {
            fails(r, refusal("the data home"@, data.path@))
        } else if user matches Some(u) && u.here {
            fails(r, refusal("the user home"@, user->0.path@))
        } else if root.here {
            fails(r, refusal("the filesystem root"@, root.path@))
        } else {
            r is Ok
        },
{
    if data.here {
        return other(refuse("the data home", data.path.as_str()));
    }
    if let Some(u) = user {
        if u.here {
            return other(refuse("the user home", u.path.as_str()));
        }
    }
    if root.here {
        return other(refuse("the filesystem root", root.path.as_str()));
    }
    Ok(())
}

/// The game directory, by its canonical path: an error where the directory that
/// was asked for does not exist, and where it may not be touched.
pub fn resolve_game_dir(
    chosen: &str,
    canonical: Option<&str>,
    data: &Guarded,
    user: &Option<Guarded>,
    root: &Guarded,
) -> (r: Result<String>)
    ensures
        match canonical {
            None => fails(r, "game directory "@ + chosen@ + " does not exist"@),
            Some(c) => if data.here {
                fails(r, refusal("the data home"@, data.path@))
            } else if user matches Some(u) && u.here {
                fails(r, refusal("the user home"@, user->0.path@))
            } else if root.here {
                fails(r, refusal("the filesystem root"@, root.path@))
            } else {
                r matches Ok(d) && d@ == c@
            },
        },
{
    match canonical {
        None => other(cat3("game directory ", chosen, " does not exist")),
        Some(c) => match safety_guard(data, user, root) {
            Ok(_) => Ok(own(c)),
            Err(e) => Err(e),
        },
    }
}

// ---------------------------------------------------------------------------
// Which game it is
// ---------------------------------------------------------------------------

/// The game in a directory: its program, in small letters, and its id.
#[derive(Debug)]
pub struct DetectedGame {
    pub exe: String,
    pub family: String,
}

/// The title of a game.
pub open spec fn title_of(family: Seq<char>) -> Seq<char> {
    if family == "gta-sa"@ {
        "GTA San Andreas"@
    } else if family == "gta-3"@ {
        "GTA III"@
    } else if family == "gta-vc"@ {
        "GTA Vice City"@
    } else {
        "unknown game"@
    }
}

/// The title of a game.
pub fn family_title(family: &str) -> (t: &'static str)
    ensures
        t@ == title_of(family@),
{
    if same(family, "gta-sa") {
        "GTA San Andreas"
    } else if same(family, "gta-3") {
        "GTA III"
    } else if same(family, "gta-vc") {
        "GTA Vice City"
    } else {
        "unknown game"
    }
}

/// The games whose programs are among the names, each with the first such
/// program, in small letters.
pub open spec fn games_among(names: Seq<Seq<char>>, games: Map<Seq<char>, String>) -> Map<
    Seq<char>,
    Seq<char>,
>
    decreases names.len(),
{
    if names.len() == 0 {
        Map::empty()
    } else {
        let before = games_among(names.drop_last(), games);
        let low = lowercase(names.last());
        if games.dom().contains(low) && !before.dom().contains(games[low]@) {
            before.insert(games[low]@, low)
        } else {
            before
        }
    }
}

/// The keys of the map in increasing order.
pub open spec fn keys_in_order<V>(m: Map<Seq<char>, V>, keys: Seq<Seq<char>>) -> bool {
    increasing(keys) && forall|k: Seq<char>| m.dom().contains(k) <==> #[trigger] keys.contains(k)
}

/// The programs and the titles of the games.
pub open spec fn game_list(m: Map<Seq<char>, Seq<char>>, keys: Seq<Seq<char>>) -> Seq<Seq<char>> {
    keys.map_values(|g: Seq<char>| m[g] + " -> "@ + title_of(g))
}

/// The message about a directory with the programs of several games.
pub open spec fn ambiguous_game(
    dir: Seq<char>,
    m: Map<Seq<char>, Seq<char>>,
    keys: Seq<Seq<char>>,
) -> Seq<char> {
    "ambiguous game detection in "@ + dir + ": multiple game executables found ("@ + joined(
        game_list(m, keys),
        ", "@,
    ) + ")"@
}

/// What detection comes to where these games were found.
pub open spec fn detection(
    r: Result<Option<DetectedGame>>,
    dir: Seq<char>,
    m: Map<Seq<char>, Seq<char>>,
    keys: Seq<Seq<char>>,
) -> bool {
    &&& keys_in_order(m, keys)
    &&& if keys.len() == 0 {
        r matches Ok(None)
    } else if keys.len() == 1 {
        r matches Ok(Some(g)) && g.family@ == keys[0] && g.exe@ == m[keys[0]]
    } else {
        fails(r, ambiguous_game(dir, m, keys))
    }
}

/// The views of the texts in a map.
pub open spec fn text_map(m: Map<Seq<char>, String>) -> Map<Seq<char>, Seq<char>> {
    m.map_values(|s: String| s@)
}

/// Tells which game is in a directory from the names of the files in it: none
/// where no program of a game is among them, an error where those of several
/// games are. Case does not matter.
pub fn detect_game(pkgs: &PackagesFile, dir: &str, names: &Vec<String>) -> (r: Result<
    Option<DetectedGame>,
>)
    ensures
        exists|keys: Seq<Seq<char>>|
            detection(r, dir@, games_among(texts(names@), pkgs.games@), keys),
{
    let ghost ns = texts(names@);
    let mut found: StrMap<String> = StrMap::new();
    let mut i: usize = 0;
    proof {
        assert(ns.take(0) =~= Seq::<Seq<char>>::empty());
        assert(text_map(found@) =~= Map::<Seq<char>, Seq<char>>::empty());
    }
    while i < names.len()
        invariant
            i <= names@.len(),
            ns == texts(names@),
            text_map(found@) == games_among(ns.take(i as int), pkgs.games@),
        decreases names.len() - i,
    {
        proof {
            assert(ns.take(i + 1).drop_last() =~= ns.take(i as int));
            assert(ns.take(i + 1).last() == names@[i as int]@);
        }
        let low = to_lower(names[i].as_str());
        if let Some(game) = pkgs.games.get(low.as_str()) {
            if !found.contains_key(game.as_str()) {
                let ghost before = found@;
                let ghost lv = low@;
                found.insert(game.clone(), low);
                proof {
                    assert(text_map(found@) =~= text_map(before).insert(game@, lv));
                }
            }
        }
        i = i + 1;
    }
    let ghost m = games_among(ns, pkgs.games@);
    proof {
        assert(ns.take(i as int) =~= ns);
    }
    let n: usize = found.len();
    let ghost keys = found.keys();
    proof {
        assert(keys_in_order(m, keys)) by {
            assert forall|k: Seq<char>| m.dom().contains(k) <==> #[trigger] keys.contains(k) by {
                assert(found@.dom().contains(k) <==> m.dom().contains(k));
            }
        }
    }
    let r: Result<Option<DetectedGame>> = if n == 0 {
        Ok(None)
    } else if n == 1 {
        let family = found.key_at(0).clone();
        let exe = found.value_at(0).clone();
        Ok(Some(DetectedGame { exe, family }))
    } else {
        let mut list: Vec<String> = Vec::new();
        let mut j: usize = 0;
        let ghost want = game_list(m, keys);
        while j < n
            invariant
                j <= n,
                n == keys.len(),
                keys == found.keys(),
                m == text_map(found@),
                want == game_list(m, keys),
                texts(list@) =~= want.take(j as int),
            decreases n - j,
        {
            let exe = found.value_at(j);
            let title = family_title(found.key_at(j).as_str());
            let ghost before = list@;
            list.push(cat3(exe.as_str(), " -> ", title));
            proof {
                assert(texts(list@) =~= texts(before).push(want[j as int]));
                assert(want.take(j + 1) =~= want.take(j as int).push(want[j as int]));
            }
            j = j + 1;
        }
        proof {
            assert(want.take(j as int) =~= want);
        }
        let names_text = join(&list, ", ");
        let mut msg = cat3(
            "ambiguous game detection in ",
            dir,
            ": multiple game executables found (",
        );
        msg.append(names_text.as_str());
        msg.append(")");
        other(msg)
    };
    proof {
        assert(detection(r, dir@, m, keys));
    }
    r
}

/// The name is that of the program of this game, up to case.
pub open spec fn runs(games: Map<Seq<char>, String>, name: Seq<char>, family: Seq<char>) -> bool {
    games.dom().contains(lowercase(name)) && games[lowercase(name)]@ == family
}

proof fn lemma_games_among(names: Seq<Seq<char>>, games: Map<Seq<char>, String>, f: Seq<char>)
    ensures
        games_among(names, games).dom().contains(f) <==> exists|i: int|
            0 <= i < names.len() && runs(games, #[trigger] names[i], f),
        games_among(names, games).dom().contains(f) ==> exists|i: int|
            0 <= i < names.len() && runs(games, #[trigger] names[i], f) && games_among(
                names,
                games,
            )[f] == lowercase(names[i]) && forall|j: int|
                0 <= j < i ==> !runs(games, #[trigger] names[j], f),
    decreases names.len(),
{
    if names.len() > 0 {
        let t = names.drop_last();
        let l = names.len() - 1;
        let b = games_among(t, games);
        let m = games_among(names, games);
        lemma_games_among(t, games, f);
        assert(names[l] == names.last());
        assert forall|i: int| 0 <= i < l implies #[trigger] names[i] == t[i] by {}
        if b.dom().contains(f) {
            let i = choose|i: int|
                0 <= i < t.len() && runs(games, #[trigger] t[i], f) && b[f] == lowercase(t[i])
                    && forall|j: int| 0 <= j < i ==> !runs(games, #[trigger] t[j], f);
            assert(names[i] == t[i]);
            assert(runs(games, names[i], f));
            assert(m[f] == b[f]);
            assert forall|j: int| 0 <= j < i implies !runs(games, #[trigger] names[j], f) by {
                assert(t[j] == names[j]);
            }
        } else {
            assert forall|j: int| 0 <= j < l implies !runs(games, #[trigger] names[j], f) by {
                assert(t[j] == names[j]);
            }
            if m.dom().contains(f) {
                assert(runs(games, names[l], f));
            }
        }
    }
}

/// The game in a directory goes by the programs in it, up to case: none where
/// there is no program of a game, the game where there is one or there are several
/// programs of the same game, of which the first is told, and an error exactly
/// where two of them are of different games.
pub proof fn law_the_game_goes_by_its_program(
    r: Result<Option<DetectedGame>>,
    dir: Seq<char>,
    names: Seq<Seq<char>>,
    games: Map<Seq<char>, String>,
    keys: Seq<Seq<char>>,
)
    requires
        detection(r, dir, games_among(names, games), keys),
    ensures
        match r {
            Ok(None) => forall|i: int|
                0 <= i < names.len() ==> !games.dom().contains(lowercase(#[trigger] names[i])),
            Ok(Some(g)) => {
                &&& forall|i: int|
                    0 <= i < names.len() && games.dom().contains(lowercase(#[trigger] names[i]))
                        ==> games[lowercase(names[i])]@ == g.family@
                &&& exists|i: int|
                    0 <= i < names.len() && runs(games, #[trigger] names[i], g.family@) && g.exe@
                        == lowercase(names[i]) && forall|j: int|
                        0 <= j < i ==> !games.dom().contains(lowercase(#[trigger] names[j]))
            },
            Err(_) => exists|i: int, j: int|
                0 <= i < names.len() && 0 <= j < names.len() && games.dom().contains(
                    lowercase(#[trigger] names[i]),
                ) && games.dom().contains(lowercase(#[trigger] names[j]))
                    && games[lowercase(names[i])]@ != games[lowercase(names[j])]@,
        },
{
    let m = games_among(names, games);
    assert forall|i: int|
        0 <= i < names.len() && games.dom().contains(
            lowercase(#[trigger] names[i]),
        ) implies keys.contains(games[lowercase(names[i])]@) by {
        let f = games[lowercase(names[i])]@;
        assert(runs(games, names[i], f));
        lemma_games_among(names, games, f);
    }
    if keys.len() == 1 {
        let f = keys[0];
        assert(keys.contains(f));
        lemma_games_among(names, games, f);
        let i = choose|i: int|
            0 <= i < names.len() && runs(games, #[trigger] names[i], f) && m[f] == lowercase(
                names[i],
            ) && forall|j: int| 0 <= j < i ==> !runs(games, #[trigger] names[j], f);
        assert forall|j: int| 0 <= j < i implies !games.dom().contains(
            lowercase(#[trigger] names[j]),
        ) by {
            if games.dom().contains(lowercase(names[j])) {
                let k = keys.index_of(games[lowercase(names[j])]@);
                assert(keys[k] == f);
                assert(runs(games, names[j], f));
            }
        }
        assert forall|j: int|
            0 <= j < names.len() && games.dom().contains(
                lowercase(#[trigger] names[j]),
            ) implies games[lowercase(names[j])]@ == f by {
            let k = keys.index_of(games[lowercase(names[j])]@);
            assert(keys[k] == f);
        }
    } else if keys.len() > 1 {
        let f = keys[0];
        let g = keys[1];
        assert(keys.contains(f));
        assert(keys.contains(g));
        lemma_games_among(names, games, f);
        lemma_games_among(names, games, g);
        crate::order::lemma_lt_irreflexive(f);
        assert(crate::order::lt(keys[0], keys[1]));
        let i = choose|i: int| 0 <= i < names.len() && runs(games, #[trigger] names[i], f);
        let j = choose|j: int| 0 <= j < names.len() && runs(games, #[trigger] names[j], g);
        assert(games[lowercase(names[i])]@ != games[lowercase(names[j])]@);
    }
}

/// Whether two paths are the same place does not hang on their order, and of paths
/// that both have a canonical form only on these.
pub proof fn law_same_place(
    a: Seq<char>,
    b: Seq<char>,
    c: Option<Seq<char>>,
    d: Option<Seq<char>>,
)
    ensures
        same_place(a, b, c, d) == same_place(b, a, d, c),
        same_place(a, a, c, c),
        c is Some && d is Some ==> (same_place(a, b, c, d) <==> c == d),
        c is None && d is None ==> (same_place(a, b, c, d) <==> a == b),
{
}

/// A game directory is one that exists and is neither the data home nor the user's
/// home nor the root of the file system, and it is told by its canonical path.
pub proof fn law_some_directories_are_never_touched(
    chosen: &str,
    canonical: Option<&str>,
    data: &Guarded,
    user: &Option<Guarded>,
    root: &Guarded,
    r: Result<String>,
    g: Result<()>,
)
    requires
        call_ensures(resolve_game_dir, (chosen, canonical, data, user, root), r),
        call_ensures(safety_guard, (data, user, root), g),
    ensures
        r is Ok <==> canonical is Some && !data.here && !(user is Some && user->0.here)
            && !root.here,
        r is Ok ==> r->Ok_0@ == canonical->0@,
        g is Ok <==> !data.here && !(user is Some && user->0.here) && !root.here,
{
}

} // verus!
