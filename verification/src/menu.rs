//! What can be installed: the menu.

use vstd::prelude::*;
use crate::catalog::{
    ids_differ, lemma_lookup_own, lookup, LockFile, LockedAsset, PackageEntry, PackagesFile,
};
use crate::error::{fails, ChefError, Result};
use crate::json::{
    array, held, held_all, held_fields, lemma_shows, object, put, record, shows, string,
    string_or_null, strings, text_list, text_or_null, Json,
};
use crate::names::{
    candidate_names, display_names, hits, matched, narrowed, normalize, normalized, picked,
    resolve_for_game, usable,
};
use crate::offers::{available_versions, label_views, offered_labels};
use crate::plan::{pad, padded};
use crate::resolution::opt_text;
use crate::text::{
    cat, cat3, char_is_white, chars_of, is_white, join, joined, own, same, texts,
};
use crate::version::{list_version, table_version};

verus! {

// ---------------------------------------------------------------------------
// Names for the command line
// ---------------------------------------------------------------------------

/// A text that can be typed as it stands: not empty, without white space and
/// quotes.
pub open spec fn typable(s: Seq<char>) -> bool {
    s.len() > 0 && forall|i: int|
        0 <= i < s.len() ==> !is_white(#[trigger] s[i]) && s[i] != '\'' && s[i] != '"'
}

/// The first text from position `from` on that can be typed.
pub open spec fn first_typable(v: Seq<String>, from: int) -> Option<Seq<char>>
    decreases v.len() - from,
{
    if from >= v.len() {
        None
    } else if typable(v[from]@) {
        Some(v[from]@)
    } else {
        first_typable(v, from + 1)
    }
}

/// The name under which a package is typed: its first alias that can be typed,
/// else its name where that can, else its id.
pub open spec fn typed_name(s: Seq<PackageEntry>, id: Seq<char>) -> Seq<char> {
    match lookup(s, id) {
        None => id,
        Some(p) => match first_typable(p.aliases@, 0) {
            Some(a) => a,
            None => if typable(p.name@) {
                p.name@
            } else {
                id
            },
        },
    }
}

fn is_typable(s: &str) -> (b: bool)
    ensures
        b == typable(s@),
{
    let v = chars_of(s);
    if v.len() == 0 {
        return false;
    }
    let mut i: usize = 0;
    while i < v.len()
        invariant
            i <= v@.len(),
            v@ == s@,
            v@.len() > 0,
            forall|k: int|
                0 <= k < i ==> !is_white(#[trigger] v@[k]) && v@[k] != '\'' && v@[k] != '"',
        decreases v.len() - i,
    {
        if char_is_white(v[i]) || v[i] == '\'' || v[i] == '"' {
            proof {
                assert(!(!is_white(s@[i as int]) && s@[i as int] != '\'' && s@[i as int] != '"'));
            }
            return false;
        }
        i = i + 1;
    }
    true
}

/// The name under which a package is typed in commands.
pub fn command_ref(pkgs: &PackagesFile, id: &str) -> (out: String)
    ensures
        out@ == typed_name(pkgs.packages@, id@),
{
    match pkgs.pkg(id) {
        None => own(id),
        Some(p) => {
            let mut i: usize = 0;
            while i < p.aliases.len()
                invariant
                    i <= p.aliases@.len(),
                    lookup(pkgs.packages@, id@) == Some(*p),
                    first_typable(p.aliases@, 0) == first_typable(p.aliases@, i as int),
                decreases p.aliases.len() - i,
            {
                if is_typable(p.aliases[i].as_str()) {
                    return p.aliases[i].clone();
                }
                i = i + 1;
            }
            if is_typable(p.name.as_str()) {
                p.name.clone()
            } else {
                own(id)
            }
        },
    }
}

// ---------------------------------------------------------------------------
// Rows
// ---------------------------------------------------------------------------

/// One line of the menu: a package.
#[derive(Debug)]
pub struct Row {
    pub id: String,
    pub name: String,
}

/// What the lines are, by id and name.
pub open spec fn row_views(v: Seq<Row>) -> Seq<(Seq<char>, Seq<char>)> {
    v.map_values(|r: Row| (r.id@, r.name@))
}

/// All packages.
pub open spec fn all_rows(s: Seq<PackageEntry>) -> Seq<(Seq<char>, Seq<char>)> {
    s.map_values(|p: PackageEntry| (p.id@, p.name@))
}

/// The lines with this id.
pub open spec fn rows_with(rows: Seq<(Seq<char>, Seq<char>)>, id: Seq<char>) -> Seq<
    (Seq<char>, Seq<char>),
>
    decreases rows.len(),
{
    if rows.len() == 0 {
        Seq::empty()
    } else if rows.last().0 == id {
        rows_with(rows.drop_last(), id).push(rows.last())
    } else {
        rows_with(rows.drop_last(), id)
    }
}

/// The first package whose id has this normal form, from position `from` on.
pub open spec fn by_exact_id(s: Seq<PackageEntry>, norm: Seq<char>, from: int) -> Option<
    PackageEntry,
>
    decreases s.len() - from,
{
    if from >= s.len() {
        None
    } else if normalized(s[from].id@) == norm {
        Some(s[from])
    } else {
        by_exact_id(s, norm, from + 1)
    }
}

/// What the menu of one package comes to: the package with that very id, else
/// the one that the name means in the game; several are an error that names
/// them.
pub open spec fn rows_meant(
    r: Result<Vec<Row>>,
    s: Seq<PackageEntry>,
    name: Seq<char>,
    game: Option<Seq<char>>,
) -> bool {
    match by_exact_id(s, normalized(name), 0) {
        Some(p) => r matches Ok(v) && row_views(v@) == seq![(p.id@, p.name@)],
        None => {
            let c = picked(s, hits(s, normalized(name)));
            let few = narrowed(s, c, game);
            if normalized(name).len() == 0 {
                fails(r, "empty package name"@)
            } else if c.len() == 0 || (game matches Some(g) && usable(s, c, g).len() == 0) {
                fails(r, "unknown package '"@ + name + "'"@)
            } else if few.len() == 1 {
                r matches Ok(v) && row_views(v@) == rows_with(all_rows(s), few[0].id@)
            } else {
                r matches Err(ChefError::Ambiguous(names)) && texts(names@) == display_names(few)
            }
        },
    }
}

/// All packages.
pub fn rows_for_all(pkgs: &PackagesFile) -> (out: Vec<Row>)
    ensures
        row_views(out@) == all_rows(pkgs.packages@),
{
    let ghost want = all_rows(pkgs.packages@);
    let mut out: Vec<Row> = Vec::new();
    let mut i: usize = 0;
    while i < pkgs.packages.len()
        invariant
            i <= pkgs.packages@.len(),
            want == all_rows(pkgs.packages@),
            row_views(out@) =~= want.take(i as int),
        decreases pkgs.packages.len() - i,
    {
        let p = &pkgs.packages[i];
        let ghost before = out@;
        out.push(Row { id: p.id.clone(), name: p.name.clone() });
        proof {
            assert(row_views(out@) =~= row_views(before).push(want[i as int]));
            assert(want.take(i + 1) =~= want.take(i as int).push(want[i as int]));
        }
        i = i + 1;
    }
    proof {
        assert(want.take(i as int) =~= want);
    }
    out
}

fn rows_of(pkgs: &PackagesFile, id: &str) -> (out: Vec<Row>)
    ensures
        row_views(out@) == rows_with(all_rows(pkgs.packages@), id@),
{
    let all = rows_for_all(pkgs);
    let ghost rs = all_rows(pkgs.packages@);
    let mut out: Vec<Row> = Vec::new();
    let mut i: usize = 0;
    proof {
        assert(rs.take(0) =~= Seq::<(Seq<char>, Seq<char>)>::empty());
        assert(row_views(out@) =~= Seq::<(Seq<char>, Seq<char>)>::empty());
        assert(row_views(all@).len() == all@.len());
    }
    while i < all.len()
        invariant
            i <= all@.len(),
            rs == row_views(all@),
            row_views(out@) == rows_with(rs.take(i as int), id@),
        decreases all.len() - i,
    {
        let r = &all[i];
        proof {
            assert(rs.take(i + 1).drop_last() =~= rs.take(i as int));
            assert(rs.take(i + 1).last() == (r.id@, r.name@));
        }
        if same(r.id.as_str(), id) {
            let ghost before = out@;
            out.push(Row { id: r.id.clone(), name: r.name.clone() });
            proof {
                assert(row_views(out@) =~= row_views(before).push((r.id@, r.name@)));
            }
        }
        i = i + 1;
    }
    proof {
        assert(rs.take(i as int) =~= rs);
    }
    out
}

/// The menu of one package. Nobody is asked: a name that means several packages
/// is an error.
pub fn narrow_rows(pkgs: &PackagesFile, name: &str, game: Option<&str>) -> (r: Result<Vec<Row>>)
    ensures
        rows_meant(r, pkgs.packages@, name@, opt_text(game)),
{
    let norm = normalize(name);
    let mut i: usize = 0;
    while i < pkgs.packages.len()
        invariant
            i <= pkgs.packages@.len(),
            norm@ == normalized(name@),
            by_exact_id(pkgs.packages@, norm@, 0) == by_exact_id(
                pkgs.packages@,
                norm@,
                i as int,
            ),
        decreases pkgs.packages.len() - i,
    {
        let p = &pkgs.packages[i];
        let n = normalize(p.id.as_str());
        if n == norm {
            let mut out: Vec<Row> = Vec::new();
            out.push(Row { id: p.id.clone(), name: p.name.clone() });
            proof {
                assert(row_views(out@) =~= seq![(p.id@, p.name@)]);
            }
            return Ok(out);
        }
        i = i + 1;
    }
    match resolve_for_game(pkgs, name, game) {
        Err(e) => Err(e),
        Ok(few) => {
            proof {
                assert(matched(few@).len() == few@.len());
            }
            if few.len() == 1 {
                proof {
                    assert(matched(few@)[0] == *few@[0].pkg);
                }
                Ok(rows_of(pkgs, few[0].pkg.id.as_str()))
            } else {
                Err(ChefError::Ambiguous(candidate_names(&few)))
            }
        },
    }
}

/// One of the lines has this name.
pub open spec fn has_name(rows: Seq<(Seq<char>, Seq<char>)>, name: Seq<char>) -> bool {
    exists|i: int| 0 <= i < rows.len() && (#[trigger] rows[i]).1 == name
}

/// The lines that are shown: in a game those of packages with something to
/// offer for it, and of those with the same name the first.
pub open spec fn shown_rows(
    rows: Seq<(Seq<char>, Seq<char>)>,
    s: Seq<PackageEntry>,
    lock: Map<Seq<char>, LockedAsset>,
    game: Option<Seq<char>>,
) -> Seq<(Seq<char>, Seq<char>)>
    decreases rows.len(),
{
    if rows.len() == 0 {
        Seq::empty()
    } else {
        let before = shown_rows(rows.drop_last(), s, lock, game);
        let r = rows.last();
        if (game is Some && offered_labels(s, lock, r.0, game).len() == 0) || has_name(
            before,
            r.1,
        ) {
            before
        } else {
            before.push(r)
        }
    }
}

fn knows_name(rows: &Vec<Row>, name: &str) -> (b: bool)
    ensures
        b == has_name(row_views(rows@), name@),
{
    let mut i: usize = 0;
    while i < rows.len()
        invariant
            i <= rows@.len(),
            forall|k: int| 0 <= k < i ==> (#[trigger] row_views(rows@)[k]).1 != name@,
        decreases rows.len() - i,
    {
        if same(rows[i].name.as_str(), name) {
            proof {
                assert(row_views(rows@)[i as int].1 == name@);
            }
            return true;
        }
        i = i + 1;
    }
    false
}

/// The lines that are shown.
pub fn visible_rows(rows: &Vec<Row>, pkgs: &PackagesFile, lock: &LockFile, game: Option<&str>) -> (
    out: Vec<Row>)
    ensures
        row_views(out@) == shown_rows(
            row_views(rows@),
            pkgs.packages@,
            lock.assets@,
            opt_text(game),
        ),
{
    let ghost rs = row_views(rows@);
    let mut out: Vec<Row> = Vec::new();
    let mut i: usize = 0;
    proof {
        assert(rs.take(0) =~= Seq::<(Seq<char>, Seq<char>)>::empty());
        assert(row_views(out@) =~= Seq::<(Seq<char>, Seq<char>)>::empty());
    }
    while i < rows.len()
        invariant
            i <= rows@.len(),
            rs == row_views(rows@),
            row_views(out@) == shown_rows(
                rs.take(i as int),
                pkgs.packages@,
                lock.assets@,
                opt_text(game),
            ),
        decreases rows.len() - i,
    {
        let r = &rows[i];
        proof {
            assert(rs.take(i + 1).drop_last() =~= rs.take(i as int));
            assert(rs.take(i + 1).last() == (r.id@, r.name@));
        }
        let mut wanted: bool = !knows_name(&out, r.name.as_str());
        if game.is_some() {
            let a = available_versions(pkgs, lock, r.id.as_str(), game);
            proof {
                assert(label_views(a@).len() == a@.len());
            }
            if a.len() == 0 {
                wanted = false;
            }
        }
        if wanted {
            let ghost before = out@;
            out.push(Row { id: r.id.clone(), name: r.name.clone() });
            proof {
                assert(row_views(out@) =~= row_views(before).push((r.id@, r.name@)));
            }
        }
        i = i + 1;
    }
    proof {
        assert(rs.take(i as int) =~= rs);
    }
    out
}

// ---------------------------------------------------------------------------
// As a document
// ---------------------------------------------------------------------------

/// The first label from position `from` on that is, or is not, a preview.
pub open spec fn first_label(l: Seq<(Seq<char>, bool)>, preview: bool, from: int) -> Option<
    Seq<char>,
>
    decreases l.len() - from,
{
    if from >= l.len() {
        None
    } else if l[from].1 == preview {
        Some(l[from].0)
    } else {
        first_label(l, preview, from + 1)
    }
}

/// A line as a document.
pub open spec fn menu_row_document(
    id: Seq<char>,
    name: Seq<char>,
    l: Seq<(Seq<char>, bool)>,
) -> Json {
    record(
        seq![
            ("package"@, Json::Text(id)),
            ("title"@, Json::Text(name)),
            ("versions"@, text_list(l.map_values(|x: (Seq<char>, bool)| x.0))),
            ("latest"@, text_or_null(first_label(l, false, 0))),
            ("preview"@, text_or_null(first_label(l, true, 0))),
        ],
    )
}

/// The menu as a document.
pub open spec fn menu_document(
    dir: Option<Seq<char>>,
    rows: Seq<(Seq<char>, Seq<char>)>,
    s: Seq<PackageEntry>,
    lock: Map<Seq<char>, LockedAsset>,
    game: Option<Seq<char>>,
) -> Json {
    record(
        seq![
            ("dir"@, text_or_null(dir)),
            (
                "packages"@,
                Json::List(
                    rows.map_values(
                        |r: (Seq<char>, Seq<char>)|
                            menu_row_document(r.0, r.1, offered_labels(s, lock, r.0, game)),
                    ),
                ),
            ),
        ],
    )
}

fn find_label(l: &Vec<(String, bool)>, preview: bool) -> (r: Option<&str>)
    ensures
        opt_text(r) == first_label(label_views(l@), preview, 0),
{
    let ghost lv = label_views(l@);
    let mut i: usize = 0;
    while i < l.len()
        invariant
            i <= l@.len(),
            lv == label_views(l@),
            first_label(lv, preview, 0) == first_label(lv, preview, i as int),
        decreases l.len() - i,
    {
        proof {
            assert(lv[i as int] == (l@[i as int].0@, l@[i as int].1));
        }
        if l[i].1 == preview {
            return Some(l[i].0.as_str());
        }
        i = i + 1;
    }
    None
}

fn menu_row_value(id: &str, name: &str, l: &Vec<(String, bool)>) -> (v: serde_json::Value)
    ensures
        held(v) == menu_row_document(id@, name@, label_views(l@)),
{
    let ghost want = label_views(l@).map_values(|x: (Seq<char>, bool)| x.0);
    let mut versions: Vec<String> = Vec::new();
    let mut i: usize = 0;
    while i < l.len()
        invariant
            i <= l@.len(),
            want == label_views(l@).map_values(|x: (Seq<char>, bool)| x.0),
            texts(versions@) =~= want.take(i as int),
        decreases l.len() - i,
    {
        let ghost before = versions@;
        versions.push(l[i].0.clone());
        proof {
            assert(texts(versions@) =~= texts(before).push(want[i as int]));
            assert(want.take(i + 1) =~= want.take(i as int).push(want[i as int]));
        }
        i = i + 1;
    }
    proof {
        assert(want.take(i as int) =~= want);
    }
    let mut f: Vec<(String, serde_json::Value)> = Vec::new();
    put(&mut f, "package", string(id));
    put(&mut f, "title", string(name));
    put(&mut f, "versions", strings(&versions));
    put(&mut f, "latest", string_or_null(find_label(l, false)));
    put(&mut f, "preview", string_or_null(find_label(l, true)));
    proof {
        assert(held_fields(f@) =~= seq![
            ("package"@, Json::Text(id@)),
            ("title"@, Json::Text(name@)),
            ("versions"@, text_list(want)),
            ("latest"@, text_or_null(first_label(label_views(l@), false, 0))),
            ("preview"@, text_or_null(first_label(label_views(l@), true, 0))),
        ]);
    }
    object(f)
}

/// The menu as a document.
pub fn menu_value(
    dir: Option<&str>,
    rows: &Vec<Row>,
    pkgs: &PackagesFile,
    lock: &LockFile,
    game: Option<&str>,
) -> (v: serde_json::Value)
    ensures
        held(v) == menu_document(
            opt_text(dir),
            row_views(rows@),
            pkgs.packages@,
            lock.assets@,
            opt_text(game),
        ),
{
    let ghost s = pkgs.packages@;
    let ghost lm = lock.assets@;
    let ghost g = opt_text(game);
    let ghost want = row_views(rows@).map_values(
        |r: (Seq<char>, Seq<char>)| menu_row_document(r.0, r.1, offered_labels(s, lm, r.0, g)),
    );
    let mut items: Vec<serde_json::Value> = Vec::new();
    let mut i: usize = 0;
    while i < rows.len()
        invariant
            i <= rows@.len(),
            s == pkgs.packages@,
            lm == lock.assets@,
            g == opt_text(game),
            want == row_views(rows@).map_values(
                |r: (Seq<char>, Seq<char>)|
                    menu_row_document(r.0, r.1, offered_labels(s, lm, r.0, g)),
            ),
            held_all(items@) =~= want.take(i as int),
        decreases rows.len() - i,
    {
        let a = available_versions(pkgs, lock, rows[i].id.as_str(), game);
        let ghost before = items@;
        items.push(menu_row_value(rows[i].id.as_str(), rows[i].name.as_str(), &a));
        proof {
            assert(held_all(items@) =~= held_all(before).push(want[i as int]));
            assert(want.take(i + 1) =~= want.take(i as int).push(want[i as int]));
        }
        i = i + 1;
    }
    proof {
        assert(want.take(i as int) =~= want);
    }
    let mut f: Vec<(String, serde_json::Value)> = Vec::new();
    put(&mut f, "dir", string_or_null(dir));
    put(&mut f, "packages", array(items));
    proof {
        assert(held_fields(f@) =~= seq![
            ("dir"@, text_or_null(opt_text(dir))),
            ("packages"@, Json::List(want)),
        ]);
    }
    object(f)
}

// ---------------------------------------------------------------------------
// In words
// ---------------------------------------------------------------------------

/// The labels as the table shows them.
pub open spec fn label_texts(l: Seq<(Seq<char>, bool)>) -> Seq<Seq<char>> {
    l.map_values(
        |x: (Seq<char>, bool)|
            if x.1 {
                table_version(x.0) + " (preview)"@
            } else {
                table_version(x.0)
            },
    )
}

/// The labels as the table shows them.
pub fn avail_texts(l: &Vec<(String, bool)>) -> (out: Vec<String>)
    ensures
        texts(out@) == label_texts(label_views(l@)),
{
    let ghost want = label_texts(label_views(l@));
    let mut out: Vec<String> = Vec::new();
    let mut i: usize = 0;
    while i < l.len()
        invariant
            i <= l@.len(),
            want == label_texts(label_views(l@)),
            texts(out@) =~= want.take(i as int),
        decreases l.len() - i,
    {
        let v = list_version(l[i].0.as_str());
        let ghost before = out@;
        if l[i].1 {
            out.push(cat(v, " (preview)"));
        } else {
            out.push(own(v));
        }
        proof {
            assert(texts(out@) =~= texts(before).push(want[i as int]));
            assert(want.take(i + 1) =~= want.take(i as int).push(want[i as int]));
        }
        i = i + 1;
    }
    proof {
        assert(want.take(i as int) =~= want);
    }
    out
}

/// A column is at least so wide, and as wide as the widest entry.
pub open spec fn at_least(a: nat, b: nat) -> nat {
    if a > b {
        a
    } else {
        b
    }
}

/// The length of all texts together, as far as it can be counted.
pub open spec fn total_len(v: Seq<Seq<char>>) -> nat
    decreases v.len(),
{
    if v.len() == 0 {
        0
    } else {
        let t = total_len(v.drop_last()) + v.last().len();
        if t > usize::MAX {
            usize::MAX as nat
        } else {
            t
        }
    }
}

/// One line of the table.
#[verifier::ext_equal]
pub struct Line {
    pub title: Seq<char>,
    pub available: Seq<Seq<char>>,
    pub command: Seq<char>,
}

/// The lines of the table.
pub open spec fn table_lines(
    rows: Seq<(Seq<char>, Seq<char>)>,
    s: Seq<PackageEntry>,
    lock: Map<Seq<char>, LockedAsset>,
    game: Option<Seq<char>>,
) -> Seq<Line> {
    rows.map_values(
        |r: (Seq<char>, Seq<char>)|
            Line {
                title: r.1,
                available: label_texts(offered_labels(s, lock, r.0, game)),
                command: "chef add "@ + typed_name(s, r.0),
            },
    )
}

/// The width of the column of titles.
pub open spec fn title_width(lines: Seq<Line>) -> nat
    decreases lines.len(),
{
    if lines.len() == 0 {
        5
    } else {
        at_least(title_width(lines.drop_last()), lines.last().title.len())
    }
}

/// The width of the column of versions.
pub open spec fn versions_width(lines: Seq<Line>) -> nat
    decreases lines.len(),
{
    if lines.len() == 0 {
        9
    } else {
        at_least(versions_width(lines.drop_last()), total_len(lines.last().available))
    }
}

/// One line, in columns.
pub open spec fn in_columns(
    title: Seq<char>,
    available: Seq<char>,
    command: Seq<char>,
    w1: nat,
    w2: nat,
) -> Seq<char> {
    padded(title, w1) + " "@ + padded(available, w2) + " "@ + command + "\n"@
}

/// The lines, in columns.
pub open spec fn lines_text(lines: Seq<Line>, w1: nat, w2: nat) -> Seq<char>
    decreases lines.len(),
{
    if lines.len() == 0 {
        Seq::empty()
    } else {
        lines_text(lines.drop_last(), w1, w2) + in_columns(
            lines.last().title,
            joined(lines.last().available, ", "@),
            lines.last().command,
            w1,
            w2,
        )
    }
}

/// The table: a heading, and the lines under it.
pub open spec fn table_text(lines: Seq<Line>) -> Seq<char> {
    let w1 = title_width(lines);
    let w2 = versions_width(lines);
    in_columns("TITLE"@, "AVAILABLE"@, "COMMAND"@, w1, w2) + lines_text(lines, w1, w2)
}

fn columns(title: &str, available: &str, command: &str, w1: usize, w2: usize) -> (out: String)
    ensures
        out@ == in_columns(title@, available@, command@, w1 as nat, w2 as nat),
{
    let t = pad(title, w1);
    let a = pad(available, w2);
    let mut out = cat3(t.as_str(), " ", a.as_str());
    out.append(" ");
    out.append(command);
    out.append("\n");
    out
}

fn length_of(v: &Vec<String>) -> (n: usize)
    ensures
        n == total_len(texts(v@)),
{
    let ghost ts = texts(v@);
    let mut n: usize = 0;
    let mut i: usize = 0;
    proof {
        assert(ts.take(0) =~= Seq::<Seq<char>>::empty());
    }
    while i < v.len()
        invariant
            i <= v@.len(),
            ts == texts(v@),
            n == total_len(ts.take(i as int)),
        decreases v.len() - i,
    {
        proof {
            assert(ts.take(i + 1).drop_last() =~= ts.take(i as int));
            assert(ts.take(i + 1).last() == v@[i as int]@);
        }
        n = n.saturating_add(chars_of(v[i].as_str()).len());
        i = i + 1;
    }
    proof {
        assert(ts.take(i as int) =~= ts);
    }
    n
}

/// The menu as a table.
pub fn menu_table(
    rows: &Vec<Row>,
    pkgs: &PackagesFile,
    lock: &LockFile,
    game: Option<&str>,
) -> (out: String)
    ensures
        out@ == table_text(
            table_lines(row_views(rows@), pkgs.packages@, lock.assets@, opt_text(game)),
        ),
{
    let ghost lines = table_lines(
        row_views(rows@),
        pkgs.packages@,
        lock.assets@,
        opt_text(game),
    );
    let mut w1: usize = 5;
    let mut w2: usize = 9;
    let mut i: usize = 0;
    proof {
        assert(lines.take(0) =~= Seq::<Line>::empty());
    }
    while i < rows.len()
        invariant
            i <= rows@.len(),
            lines == table_lines(
                row_views(rows@),
                pkgs.packages@,
                lock.assets@,
                opt_text(game),
            ),
            w1 == title_width(lines.take(i as int)),
            w2 == versions_width(lines.take(i as int)),
        decreases rows.len() - i,
    {
        proof {
            assert(lines.take(i + 1).drop_last() =~= lines.take(i as int));
            assert(lines.take(i + 1).last() == lines[i as int]);
            assert(lines[i as int].title == rows@[i as int].name@);
        }
        let n: usize = chars_of(rows[i].name.as_str()).len();
        if n > w1 {
            w1 = n;
        }
        let a = available_versions(pkgs, lock, rows[i].id.as_str(), game);
        let l = avail_texts(&a);
        let m: usize = length_of(&l);
        if m > w2 {
            w2 = m;
        }
        i = i + 1;
    }
    proof {
        assert(lines.take(i as int) =~= lines);
    }
    let mut out = columns("TITLE", "AVAILABLE", "COMMAND", w1, w2);
    let ghost head = out@;
    let mut j: usize = 0;
    proof {
        assert(head + lines_text(lines.take(0), w1 as nat, w2 as nat) =~= head);
    }
    while j < rows.len()
        invariant
            j <= rows@.len(),
            lines == table_lines(
                row_views(rows@),
                pkgs.packages@,
                lock.assets@,
                opt_text(game),
            ),
            out@ == head + lines_text(lines.take(j as int), w1 as nat, w2 as nat),
        decreases rows.len() - j,
    {
        let a = available_versions(pkgs, lock, rows[j].id.as_str(), game);
        let l = avail_texts(&a);
        let avail = join(&l, ", ");
        let name = command_ref(pkgs, rows[j].id.as_str());
        let command = cat("chef add ", name.as_str());
        let line = columns(rows[j].name.as_str(), avail.as_str(), command.as_str(), w1, w2);
        proof {
            assert(lines.take(j + 1).drop_last() =~= lines.take(j as int));
            assert(lines.take(j + 1).last() == lines[j as int]);
            assert((head + lines_text(lines.take(j as int), w1 as nat, w2 as nat)) + line@ =~= head
                + (lines_text(lines.take(j as int), w1 as nat, w2 as nat) + line@));
        }
        out.append(line.as_str());
        j = j + 1;
    }
    proof {
        assert(lines.take(j as int) =~= lines);
    }
    out
}

// ---------------------------------------------------------------------------
// What holds of it
// ---------------------------------------------------------------------------

/// The menu shows each package once by its name: of those with the same name that
/// can be shown, one is. In a game a package can be shown where it has something
/// to offer for it, else every package can.
pub proof fn law_the_menu_shows_each_name_once(
    rows: Seq<(Seq<char>, Seq<char>)>,
    s: Seq<PackageEntry>,
    lock: Map<Seq<char>, LockedAsset>,
    game: Option<Seq<char>>,
)
    ensures
        forall|i: int|
            0 <= i < rows.len() && (game is None || offered_labels(
                s,
                lock,
                (#[trigger] rows[i]).0,
                game,
            ).len() > 0) ==> has_name(shown_rows(rows, s, lock, game), rows[i].1),
        forall|n: int|
            0 <= n < shown_rows(rows, s, lock, game).len() ==> rows.contains(
                #[trigger] shown_rows(rows, s, lock, game)[n],
            ) && (game is None || offered_labels(
                s,
                lock,
                shown_rows(rows, s, lock, game)[n].0,
                game,
            ).len() > 0),
        forall|n: int, m: int|
            0 <= n < m < shown_rows(rows, s, lock, game).len() ==> (#[trigger] shown_rows(
                rows,
                s,
                lock,
                game,
            )[n]).1 != (#[trigger] shown_rows(rows, s, lock, game)[m]).1,
    decreases rows.len(),
{
    if rows.len() > 0 {
        let t = rows.drop_last();
        let l = rows.len() - 1;
        let b = shown_rows(t, s, lock, game);
        let w = shown_rows(rows, s, lock, game);
        law_the_menu_shows_each_name_once(t, s, lock, game);
        assert(rows[l] == rows.last());
        assert forall|i: int|
            0 <= i < rows.len() && (game is None || offered_labels(
                s,
                lock,
                (#[trigger] rows[i]).0,
                game,
            ).len() > 0) implies has_name(w, rows[i].1) by {
            if i < l {
                assert(t[i] == rows[i]);
            }
            if has_name(b, rows[i].1) {
                let n = choose|n: int| 0 <= n < b.len() && (#[trigger] b[n]).1 == rows[i].1;
                assert(w[n] == b[n]);
            } else {
                assert(w[b.len() as int] == rows[l]);
            }
        }
        assert forall|n: int| 0 <= n < w.len() implies rows.contains(#[trigger] w[n]) && (game
            is None || offered_labels(s, lock, w[n].0, game).len() > 0) by {
            if n < b.len() {
                assert(w[n] == b[n]);
                let i = t.index_of(b[n]);
                assert(rows[i] == w[n]);
            }
        }
        assert forall|n: int, m: int| 0 <= n < m < w.len() implies (#[trigger] w[n]).1 != (
        #[trigger] w[m]).1 by {
            assert(w[n] == b[n]);
            if m < b.len() {
                assert(w[m] == b[m]);
            }
        }
    }
}

proof fn lemma_first_typable(v: Seq<String>, from: int)
    requires
        0 <= from <= v.len(),
    ensures
        match first_typable(v, from) {
            Some(a) => exists|i: int|
                from <= i < v.len() && (#[trigger] v[i])@ == a && typable(a) && forall|j: int|
                    from <= j < i ==> !typable((#[trigger] v[j])@),
            None => forall|i: int| from <= i < v.len() ==> !typable((#[trigger] v[i])@),
        },
    decreases v.len() - from,
{
    if from < v.len() {
        if typable(v[from]@) {
            assert(v[from]@ == first_typable(v, from)->0);
        } else {
            lemma_first_typable(v, from + 1);
        }
    }
}

/// The name for the command line is one of the names of the package: its first
/// alias without white space and quotes, else its name where that has none, else
/// its id.
pub proof fn law_commands_are_typed_by_alias(s: Seq<PackageEntry>, i: int)
    requires
        ids_differ(s),
        0 <= i < s.len(),
    ensures
        ({
            let name = typed_name(s, s[i].id@);
            let some = exists|k: int|
                0 <= k < s[i].aliases@.len() && typable((#[trigger] s[i].aliases@[k])@);
            &&& some ==> exists|k: int|
                0 <= k < s[i].aliases@.len() && (#[trigger] s[i].aliases@[k])@ == name && typable(
                    name,
                ) && forall|j: int| 0 <= j < k ==> !typable((#[trigger] s[i].aliases@[j])@)
            &&& !some && typable(s[i].name@) ==> name == s[i].name@
            &&& !some && !typable(s[i].name@) ==> name == s[i].id@
        }),
{
    lemma_lookup_own(s, i);
    lemma_first_typable(s[i].aliases@, 0);
    match first_typable(s[i].aliases@, 0) {
        Some(a) => {
            let k = choose|k: int|
                0 <= k < s[i].aliases@.len() && (#[trigger] s[i].aliases@[k])@ == a && typable(a)
                    && forall|j: int| 0 <= j < k ==> !typable((#[trigger] s[i].aliases@[j])@);
            assert(typable(s[i].aliases@[k]@));
        },
        None => {},
    }
}

proof fn lemma_first_label(l: Seq<(Seq<char>, bool)>, preview: bool, from: int)
    requires
        0 <= from <= l.len(),
    ensures
        match first_label(l, preview, from) {
            Some(x) => exists|i: int|
                from <= i < l.len() && #[trigger] l[i] == (x, preview) && forall|j: int|
                    from <= j < i ==> (#[trigger] l[j]).1 != preview,
            None => forall|i: int| from <= i < l.len() ==> (#[trigger] l[i]).1 != preview,
        },
    decreases l.len() - from,
{
    if from < l.len() {
        if l[from].1 == preview {
            assert(l[from] == (first_label(l, preview, from)->0, preview));
        } else {
            lemma_first_label(l, preview, from + 1);
        }
    }
}

/// The latest release of the menu is the first that is no preview, its preview
/// the first that is one.
pub proof fn law_the_latest_is_no_preview(l: Seq<(Seq<char>, bool)>, preview: bool)
    ensures
        match first_label(l, preview, 0) {
            Some(x) => exists|i: int|
                0 <= i < l.len() && #[trigger] l[i] == (x, preview) && forall|j: int|
                    0 <= j < i ==> (#[trigger] l[j]).1 != preview,
            None => forall|i: int| 0 <= i < l.len() ==> (#[trigger] l[i]).1 != preview,
        },
{
    lemma_first_label(l, preview, 0);
}

proof fn lemma_by_exact_id(s: Seq<PackageEntry>, norm: Seq<char>, from: int)
    requires
        0 <= from <= s.len(),
    ensures
        match by_exact_id(s, norm, from) {
            Some(p) => exists|i: int|
                from <= i < s.len() && #[trigger] s[i] == p && normalized(p.id@) == norm
                    && forall|j: int|
                    from <= j < i ==> normalized((#[trigger] s[j]).id@) != norm,
            None => forall|i: int|
                from <= i < s.len() ==> normalized((#[trigger] s[i]).id@) != norm,
        },
    decreases s.len() - from,
{
    if from < s.len() {
        if normalized(s[from].id@) == norm {
            assert(s[from] == by_exact_id(s, norm, from)->0);
        } else {
            lemma_by_exact_id(s, norm, from + 1);
        }
    }
}

/// The menu of one package goes by its id before anything else: where the name is
/// the id of a package, in normal form, that package is shown and nothing else.
pub proof fn law_an_id_means_its_package(
    r: Result<Vec<Row>>,
    s: Seq<PackageEntry>,
    name: Seq<char>,
    game: Option<Seq<char>>,
    i: int,
)
    requires
        rows_meant(r, s, name, game),
        0 <= i < s.len(),
        normalized(s[i].id@) == normalized(name),
        forall|j: int| 0 <= j < i ==> normalized((#[trigger] s[j]).id@) != normalized(name),
    ensures
        r matches Ok(v) && v@.len() == 1 && v@[0].id@ == s[i].id@ && v@[0].name@ == s[i].name@,
{
    lemma_by_exact_id(s, normalized(name), 0);
    let p = by_exact_id(s, normalized(name), 0)->0;
    assert(s[i] == p);
    let v = r->Ok_0;
    assert(row_views(v@)[0] == (p.id@, p.name@));
    assert(v@.len() == row_views(v@).len());
}

/// The column of titles is as wide as its heading and as every title, and no
/// wider than it has to be.
pub proof fn law_titles_fit(lines: Seq<Line>)
    ensures
        title_width(lines) >= "TITLE"@.len(),
        forall|i: int| 0 <= i < lines.len() ==> (#[trigger] lines[i]).title.len() <= title_width(lines),
        title_width(lines) == "TITLE"@.len() || exists|i: int|
            0 <= i < lines.len() && (#[trigger] lines[i]).title.len() == title_width(lines),
    decreases lines.len(),
{
    reveal_strlit("TITLE");
    if lines.len() > 0 {
        let t = lines.drop_last();
        law_titles_fit(t);
        assert(lines[lines.len() - 1] == lines.last());
        assert forall|i: int| 0 <= i < t.len() implies #[trigger] lines[i] == t[i] by {}
        if exists|i: int| 0 <= i < t.len() && (#[trigger] t[i]).title.len() == title_width(t) {
            let i = choose|i: int| 0 <= i < t.len() && (#[trigger] t[i]).title.len() == title_width(t);
            assert(lines[i] == t[i]);
        }
    }
}

/// Every line of the menu is in its table, with its title, its versions and its
/// command.
pub proof fn law_every_line_is_in_the_table(lines: Seq<Line>, w1: nat, w2: nat, i: int)
    requires
        0 <= i < lines.len(),
    ensures
        exists|front: Seq<char>, back: Seq<char>|
            lines_text(lines, w1, w2) == #[trigger] (front + (padded(lines[i].title, w1) + " "@
                + padded(joined(lines[i].available, ", "@), w2) + " "@ + lines[i].command
                + "\n"@) + back),
    decreases lines.len(),
{
    let t = lines.drop_last();
    let l = lines.last();
    let last = in_columns(l.title, joined(l.available, ", "@), l.command, w1, w2);
    let x = padded(lines[i].title, w1) + " "@ + padded(joined(lines[i].available, ", "@), w2) + " "@
        + lines[i].command + "\n"@;
    if i < t.len() {
        assert(t[i] == lines[i]);
        law_every_line_is_in_the_table(t, w1, w2, i);
        let (f, b) = choose|f: Seq<char>, b: Seq<char>|
            lines_text(t, w1, w2) == #[trigger] (f + (padded(t[i].title, w1) + " "@ + padded(
                joined(t[i].available, ", "@),
                w2,
            ) + " "@ + t[i].command + "\n"@) + b);
        assert(lines_text(lines, w1, w2) =~= f + x + (b + last));
    } else {
        assert(last == x);
        assert(lines_text(lines, w1, w2) =~= lines_text(t, w1, w2) + x + Seq::<char>::empty());
    }
}

/// The lines of the menu tell of its rows, one by one: the title, the versions that
/// are offered, previews marked as such, and the command that adds the package.
pub proof fn law_lines_tell_of_their_rows(
    rows: Seq<(Seq<char>, Seq<char>)>,
    s: Seq<PackageEntry>,
    lock: Map<Seq<char>, LockedAsset>,
    game: Option<Seq<char>>,
    i: int,
)
    requires
        0 <= i < rows.len(),
    ensures
        table_lines(rows, s, lock, game).len() == rows.len(),
        ({
            let line = table_lines(rows, s, lock, game)[i];
            let offers = offered_labels(s, lock, rows[i].0, game);
            &&& line.title == rows[i].1
            &&& line.command == "chef add "@ + typed_name(s, rows[i].0)
            &&& line.available.len() == offers.len()
            &&& forall|k: int|
                0 <= k < offers.len() ==> (#[trigger] line.available[k]) == if offers[k].1 {
                    table_version(offers[k].0) + " (preview)"@
                } else {
                    table_version(offers[k].0)
                }
        }),
{
}

/// A package of the menu is told with its id and its title, the first release that
/// is no preview as its latest, and the first that is one as its preview.
pub proof fn law_offers_are_told_in_full(id: Seq<char>, name: Seq<char>, l: Seq<(Seq<char>, bool)>)
    ensures
        shows(menu_row_document(id, name, l), "package"@, Json::Text(id)),
        shows(menu_row_document(id, name, l), "title"@, Json::Text(name)),
        shows(menu_row_document(id, name, l), "latest"@, text_or_null(first_label(l, false, 0))),
        shows(menu_row_document(id, name, l), "preview"@, text_or_null(first_label(l, true, 0))),
{
    reveal_strlit("package");
    reveal_strlit("title");
    reveal_strlit("versions");
    reveal_strlit("latest");
    reveal_strlit("preview");
    assert("package"@.len() == 7);
    assert("title"@.len() == 5);
    assert("versions"@.len() == 8);
    assert("latest"@.len() == 6);
    assert("preview"@.len() == 7);
    assert("package"@[1] == 'a');
    assert("preview"@[1] == 'r');
    let f = seq![
        ("package"@, Json::Text(id)),
        ("title"@, Json::Text(name)),
        ("versions"@, text_list(l.map_values(|x: (Seq<char>, bool)| x.0))),
        ("latest"@, text_or_null(first_label(l, false, 0))),
        ("preview"@, text_or_null(first_label(l, true, 0))),
    ];
    lemma_shows(f, 0);
    lemma_shows(f, 1);
    lemma_shows(f, 2);
    lemma_shows(f, 3);
    lemma_shows(f, 4);
}

/// The menu as a document tells every line, in order, with what is offered of it.
pub proof fn law_every_offer_is_told(
    dir: Option<Seq<char>>,
    rows: Seq<(Seq<char>, Seq<char>)>,
    s: Seq<PackageEntry>,
    lock: Map<Seq<char>, LockedAsset>,
    game: Option<Seq<char>>,
    i: int,
) -> (told: Seq<Json>)
    requires
        0 <= i < rows.len(),
    ensures
        shows(menu_document(dir, rows, s, lock, game), "packages"@, Json::List(told)),
        told.len() == rows.len(),
        told[i] == menu_row_document(
            rows[i].0,
            rows[i].1,
            offered_labels(s, lock, rows[i].0, game),
        ),
{
    reveal_strlit("dir");
    reveal_strlit("packages");
    assert("dir"@.len() == 3 && "packages"@.len() == 8);
    let v = rows.map_values(
        |r: (Seq<char>, Seq<char>)|
            menu_row_document(r.0, r.1, offered_labels(s, lock, r.0, game)),
    );
    let f = seq![("dir"@, text_or_null(dir)), ("packages"@, Json::List(v))];
    lemma_shows(f, 1);
    v
}

/// The column of versions is as wide as its heading, and as the versions of every
/// line together.
pub proof fn law_versions_fit(lines: Seq<Line>)
    ensures
        versions_width(lines) >= "AVAILABLE"@.len(),
        forall|i: int|
            0 <= i < lines.len() ==> total_len((#[trigger] lines[i]).available) <= versions_width(
                lines,
            ),
    decreases lines.len(),
{
    reveal_strlit("AVAILABLE");
    if lines.len() > 0 {
        let t = lines.drop_last();
        law_versions_fit(t);
        assert(lines[lines.len() - 1] == lines.last());
        assert forall|i: int| 0 <= i < t.len() implies #[trigger] lines[i] == t[i] by {}
    }
}

/// The table has its heading above its lines.
pub proof fn law_the_heading_is_on_top(lines: Seq<Line>)
    ensures
        exists|rest: Seq<char>|
            table_text(lines) == #[trigger] (padded("TITLE"@, title_width(lines)) + " "@ + padded(
                "AVAILABLE"@,
                versions_width(lines),
            ) + " "@ + "COMMAND"@ + "\n"@ + rest) && rest == lines_text(
                lines,
                title_width(lines),
                versions_width(lines),
            ),
{
    let rest = lines_text(lines, title_width(lines), versions_width(lines));
    assert(table_text(lines) == padded("TITLE"@, title_width(lines)) + " "@ + padded(
        "AVAILABLE"@,
        versions_width(lines),
    ) + " "@ + "COMMAND"@ + "\n"@ + rest);
}

/// The whole menu has a line for each package of the catalog, in its order.
pub proof fn law_the_menu_has_every_package(pkgs: &PackagesFile, out: Vec<Row>, i: int)
    requires
        call_ensures(rows_for_all, (pkgs,), out),
        0 <= i < pkgs.packages@.len(),
    ensures
        out@.len() == pkgs.packages@.len(),
        out@[i].id@ == pkgs.packages@[i].id@,
        out@[i].name@ == pkgs.packages@[i].name@,
{
    assert(row_views(out@).len() == all_rows(pkgs.packages@).len());
    assert(row_views(out@)[i] == (out@[i].id@, out@[i].name@));
    assert(all_rows(pkgs.packages@)[i] == (pkgs.packages@[i].id@, pkgs.packages@[i].name@));
}

proof fn lemma_rows_with(rows: Seq<(Seq<char>, Seq<char>)>, id: Seq<char>, x: (Seq<char>, Seq<char>))
    ensures
        rows_with(rows, id).contains(x) <==> rows.contains(x) && x.0 == id,
    decreases rows.len(),
{
    if rows.len() > 0 {
        let t = rows.drop_last();
        let b = rows_with(t, id);
        let w = rows_with(rows, id);
        lemma_rows_with(t, id, x);
        assert(rows[rows.len() - 1] == rows.last());
        if t.contains(x) {
            let i = t.index_of(x);
            assert(rows[i] == x);
        }
        if rows.contains(x) && x != rows.last() {
            let i = rows.index_of(x);
            assert(t[i] == x);
        }
        if rows.last().0 == id {
            assert(w[b.len() as int] == rows.last());
            if b.contains(x) {
                let i = b.index_of(x);
                assert(w[i] == x);
            }
            if w.contains(x) && x != rows.last() {
                let i = w.index_of(x);
                assert(b[i] == x);
            }
        }
    }
}

/// The menu of one package, where it is found by its name, shows packages of the
/// catalog with one and the same id, and in a game one that can be used in it.
pub proof fn law_one_package_is_shown(
    r: Result<Vec<Row>>,
    s: Seq<PackageEntry>,
    name: Seq<char>,
    game: Option<Seq<char>>,
    i: int,
)
    requires
        rows_meant(r, s, name, game),
        r is Ok,
        0 <= i < r->Ok_0@.len(),
    ensures
        exists|k: int|
            0 <= k < s.len() && (#[trigger] s[k]).id@ == r->Ok_0@[i].id@ && s[k].name@
                == r->Ok_0@[i].name@,
        r->Ok_0@[i].id@ == r->Ok_0@[0].id@,
{
    let v = r->Ok_0;
    let w = row_views(v@);
    assert(w.len() == v@.len());
    assert(w[i] == (v@[i].id@, v@[i].name@));
    assert(w[0] == (v@[0].id@, v@[0].name@));
    match by_exact_id(s, normalized(name), 0) {
        Some(p) => {
            lemma_by_exact_id(s, normalized(name), 0);
            let k = choose|k: int| 0 <= k < s.len() && #[trigger] s[k] == p;
            assert(s[k].id@ == v@[i].id@);
        },
        None => {
            let id = narrowed(s, picked(s, hits(s, normalized(name))), game)[0].id@;
            assert(w.contains(w[i]));
            assert(w.contains(w[0]));
            lemma_rows_with(all_rows(s), id, w[i]);
            lemma_rows_with(all_rows(s), id, w[0]);
            let k = all_rows(s).index_of(w[i]);
            assert(all_rows(s)[k] == (s[k].id@, s[k].name@));
        },
    }
}

} // verus!
