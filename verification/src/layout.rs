//! Where things are kept: paths below the data home.

use vstd::prelude::*;
use crate::text::{begins, cat, cat3, ends, ends_with, own, starts_with};

verus! {

/// `rel` below `base`: `rel` itself where it starts at the root, and never two
/// separators in a row.
pub open spec fn below(base: Seq<char>, rel: Seq<char>) -> Seq<char> {
    if begins(rel, "/"@) || base.len() == 0 {
        rel
    } else if ends(base, "/"@) {
        base + rel
    } else {
        base + "/"@ + rel
    }
}

/// `rel` below `base`.
pub fn join_path(base: &str, rel: &str) -> (out: String)
    ensures
        out@ == below(base@, rel@),
{
    if starts_with(rel, "/") || base.is_empty() {
        own(rel)
    } else if ends_with(base, "/") {
        cat(base, rel)
    } else {
        cat3(base, "/", rel)
    }
}

/// Points the data home somewhere else.
pub fn set_home_override(place: &mut Option<String>, p: String)
    ensures
        *final(place) == Some(p),
{
    *place = Some(p);
}

/// Puts the data home back to where it belongs.
pub fn clear_home_override(place: &mut Option<String>)
    ensures
        *final(place) is None,
{
    *place = None;
}

/// The name of the data home folder.
pub open spec fn app_dir_name(unix: bool) -> Seq<char> {
    if unix {
        "chef"@
    } else {
        "Chef"@
    }
}

/// The data home: where it was pointed to, else the folder of the program in the
/// local data directory, else in `.local/share` of the user's home or of the
/// current directory.
pub open spec fn home_of(
    place: Option<Seq<char>>,
    local: Option<Seq<char>>,
    user: Option<Seq<char>>,
    unix: bool,
) -> Seq<char> {
    match place {
        Some(p) => p,
        None => below(
            match local {
                Some(l) => l,
                None => below(
                    match user {
                        Some(u) => u,
                        None => "."@,
                    },
                    ".local/share"@,
                ),
            },
            app_dir_name(unix),
        ),
    }
}

/// The data home.
pub fn chef_home(
    place: &Option<String>,
    local: Option<&str>,
    user: Option<&str>,
    unix: bool,
) -> (out: String)
    ensures
        out@ == home_of(
            crate::state::opt(*place),
            crate::resolution::opt_text(local),
            crate::resolution::opt_text(user),
            unix,
        ),
{
    if let Some(p) = place {
        return p.clone();
    }
    let data: String = match local {
        Some(l) => own(l),
        None => {
            let u: &str = match user {
                Some(u) => u,
                None => ".",
            };
            join_path(u, ".local/share")
        },
    };
    if unix {
        join_path(data.as_str(), "chef")
    } else {
        join_path(data.as_str(), "Chef")
    }
}

/// The recorded state.
pub fn state_path(home: &str) -> (out: String)
    ensures
        out@ == below(home@, "state.json"@),
{
    join_path(home, "state.json")
}

/// The log of past runs.
pub fn history_path(home: &str) -> (out: String)
    ensures
        out@ == below(home@, "history.log"@),
{
    join_path(home, "history.log")
}

/// The log grows to this size before it is put aside.
pub const HISTORY_MAX_BYTES: u64 = 5242880;

/// Is a log of this size put aside?
pub fn history_is_full(bytes: u64) -> (b: bool)
    ensures
        b == (bytes > HISTORY_MAX_BYTES),
{
    bytes > HISTORY_MAX_BYTES
}

/// The extracted releases.
pub fn store_root(home: &str) -> (out: String)
    ensures
        out@ == below(home@, "store"@),
{
    join_path(home, "store")
}

/// The folder of one extracted release.
pub open spec fn version_dir(home: Seq<char>, pkg: Seq<char>, version: Seq<char>) -> Seq<char> {
    below(below(below(home, "store"@), pkg), version)
}

/// The folder of one extracted release.
pub fn store_version_dir(home: &str, pkg: &str, version: &str) -> (out: String)
    ensures
        out@ == version_dir(home@, pkg@, version@),
{
    let root = store_root(home);
    let p = join_path(root.as_str(), pkg);
    join_path(p.as_str(), version)
}

/// The file that says that a release is extracted completely.
pub fn complete_marker(home: &str, pkg: &str, version: &str) -> (out: String)
    ensures
        out@ == below(version_dir(home@, pkg@, version@), ".complete"@),
{
    let d = store_version_dir(home, pkg, version);
    join_path(d.as_str(), ".complete")
}

/// The downloaded archives.
pub fn cache_dir(home: &str) -> (out: String)
    ensures
        out@ == below(home@, "cache"@),
{
    join_path(home, "cache")
}

/// The copy of the catalog.
pub fn packages_mirror(home: &str) -> (out: String)
    ensures
        out@ == below(home@, "packages.json"@),
{
    join_path(home, "packages.json")
}

/// The copy of the digests.
pub fn lock_mirror(home: &str) -> (out: String)
    ensures
        out@ == below(home@, "packages.lock"@),
{
    join_path(home, "packages.lock")
}

/// What is remembered of the search for a newer program.
pub fn check_state_path(home: &str) -> (out: String)
    ensures
        out@ == below(home@, "update_check.json"@),
{
    join_path(home, "update_check.json")
}

/// The digests of program archives that were trusted when first seen.
pub fn tofu_path(home: &str) -> (out: String)
    ensures
        out@ == below(home@, "tofu.json"@),
{
    join_path(home, "tofu.json")
}

/// The backup folders of the game directory with this key.
pub fn backup_root_for(home: &str, key: &str) -> (out: String)
    ensures
        out@ == below(below(home@, "backups"@), key@),
{
    let b = join_path(home, "backups");
    join_path(b.as_str(), key)
}

/// The lock file of the game directory with this key.
pub open spec fn lock_file(home: Seq<char>, key: Seq<char>) -> Seq<char> {
    below(below(home, "locks"@), key + ".lock"@)
}

/// Game directories with different keys have different lock files.
pub proof fn law_lock_files_differ(home: Seq<char>, a: Seq<char>, b: Seq<char>)
    requires
        a != b,
        a.len() > 0 && a[0] != '/',
        b.len() > 0 && b[0] != '/',
    ensures
        lock_file(home, a) != lock_file(home, b),
{
    reveal_strlit("/");
    let base = below(home, "locks"@);
    let x = a + ".lock"@;
    let y = b + ".lock"@;
    if begins(x, "/"@) {
        assert(x.subrange(0, 1)[0] == '/');
    }
    if begins(y, "/"@) {
        assert(y.subrange(0, 1)[0] == '/');
    }
    if lock_file(home, a) == lock_file(home, b) {
        let front = if base.len() == 0 {
            Seq::<char>::empty()
        } else if ends(base, "/"@) {
            base
        } else {
            base + "/"@
        };
        assert(lock_file(home, a) =~= front + x);
        assert(lock_file(home, b) =~= front + y);
        assert((front + x).skip(front.len() as int) =~= x);
        assert((front + y).skip(front.len() as int) =~= y);
        assert(x.len() == y.len());
        assert(x.take(a.len() as int) =~= a);
        assert(y.take(b.len() as int) =~= b);
    }
}

/// The lock file of the game directory with this key.
pub fn lock_path(home: &str, key: &str) -> (out: String)
    ensures
        out@ == lock_file(home@, key@),
{
    let l = join_path(home, "locks");
    let name = cat(key, ".lock");
    join_path(l.as_str(), name.as_str())
}

/// The name of the backup folder that is tried when `tried` names were taken:
/// the time, then the time and a count.
pub fn backup_name(now: u64, tried: u64) -> (out: String)
    ensures
        out@ == if tried == 0 {
            crate::text::decimal(now as nat)
        } else {
            crate::text::decimal(now as nat) + "-"@ + crate::text::decimal(tried as nat)
        },
{
    let t = crate::text::decimal_text(now);
    if tried == 0 {
        t
    } else {
        let n = crate::text::decimal_text(tried);
        cat3(t.as_str(), "-", n.as_str())
    }
}

/// A path below a directory begins with the directory and ends in the path, with
/// one separator between them; a path that starts at the root stays as it is.
pub proof fn law_below_keeps_both_parts(base: Seq<char>, rel: Seq<char>)
    ensures
        ends(below(base, rel), rel),
        rel.len() > 0 && rel[0] == '/' ==> below(base, rel) == rel,
        base.len() > 0 && base.last() != '/' && (rel.len() == 0 || rel[0] != '/') ==> below(
            base,
            rel,
        ) == base.push('/') + rel,
        base.len() > 0 && base.last() == '/' && (rel.len() == 0 || rel[0] != '/') ==> below(
            base,
            rel,
        ) == base + rel,
{
    reveal_strlit("/");
    assert("/"@ =~= seq!['/']);
    let w = below(base, rel);
    if rel.len() > 0 {
        assert(rel.subrange(0, 1)[0] == rel[0]);
        if rel[0] == '/' {
            assert(rel.subrange(0, 1) =~= "/"@);
        }
    }
    if base.len() > 0 {
        let tail = base.subrange(base.len() - 1, base.len() as int);
        assert(tail[0] == base.last());
        if base.last() == '/' {
            assert(tail =~= "/"@);
        }
    }
    assert(base + "/"@ + rel =~= base.push('/') + rel);
    assert(w.subrange(w.len() - rel.len(), w.len() as int) =~= rel);
}

/// Each release has a folder of its own: two versions of a package never share
/// one, and neither do two packages with the same version.
pub proof fn law_releases_have_their_own_folders(
    home: Seq<char>,
    p: Seq<char>,
    q: Seq<char>,
    v: Seq<char>,
    w: Seq<char>,
)
    requires
        p.len() > 0 && !p.contains('/'),
        q.len() > 0 && !q.contains('/'),
        v.len() > 0 && !v.contains('/'),
        w.len() > 0 && !w.contains('/'),
        home.len() > 0,
        version_dir(home, p, v) == version_dir(home, q, w),
    ensures
        p == q,
        v == w,
{
    reveal_strlit("store");
    let root = below(home, "store"@);
    assert("store"@[0] == 's');
    assert("store"@.last() == 'e');
    law_below_keeps_both_parts(home, "store"@);
    assert(root.len() >= 5 && root.last() == 'e');
    assert(p.contains(p[0]) && q.contains(q[0]) && v.contains(v[0]) && w.contains(w[0]));
    assert(p.contains(p.last()) && q.contains(q.last()));
    law_below_keeps_both_parts(root, p);
    law_below_keeps_both_parts(root, q);
    let a = root.push('/') + p;
    let b = root.push('/') + q;
    assert(a.last() == p.last());
    assert(b.last() == q.last());
    law_below_keeps_both_parts(a, v);
    law_below_keeps_both_parts(b, w);
    let x = a.push('/') + v;
    let y = b.push('/') + w;
    assert(x == y);
    assert(a.len() == b.len()) by {
        if a.len() < b.len() {
            assert(x[b.len() as int] == '/');
            assert(x[b.len() as int] == v[b.len() - a.len() - 1]);
            assert(v.contains(v[b.len() - a.len() - 1]));
        }
        if b.len() < a.len() {
            assert(y[a.len() as int] == '/');
            assert(y[a.len() as int] == w[a.len() - b.len() - 1]);
            assert(w.contains(w[a.len() - b.len() - 1]));
        }
    }
    assert(x.take(a.len() as int) =~= a);
    assert(y.take(b.len() as int) =~= b);
    assert(x.skip((a.len() + 1) as int) =~= v);
    assert(y.skip((b.len() + 1) as int) =~= w);
    assert(a.skip((root.len() + 1) as int) =~= p);
    assert(b.skip((root.len() + 1) as int) =~= q);
}

/// The names of backup folders that are tried one after the other differ, so that
/// none is tried twice.
pub proof fn law_backup_names_differ(now: u64, m: u64, n: u64, a: String, b: String)
    requires
        call_ensures(backup_name, (now, m), a),
        call_ensures(backup_name, (now, n), b),
        m != n,
    ensures
        a@ != b@,
{
    reveal_strlit("-");
    let d = crate::text::decimal(now as nat);
    crate::text::law_decimal_reads_back(m as nat);
    crate::text::law_decimal_reads_back(n as nat);
    if m != 0 && n != 0 && a@ == b@ {
        let k = (d + "-"@).len() as int;
        assert(a@.skip(k) =~= crate::text::decimal(m as nat));
        assert(b@.skip(k) =~= crate::text::decimal(n as nat));
    } else if m == 0 && n != 0 {
        assert(b@.len() > a@.len());
    } else if n == 0 && m != 0 {
        assert(a@.len() > b@.len());
    }
}

/// The files in the data home have places of their own.
pub proof fn law_files_have_their_own_places(
    home: &str,
    state: String,
    history: String,
    packages: String,
    digests: String,
    search: String,
    trusted: String,
)
    requires
        call_ensures(state_path, (home,), state),
        call_ensures(history_path, (home,), history),
        call_ensures(packages_mirror, (home,), packages),
        call_ensures(lock_mirror, (home,), digests),
        call_ensures(check_state_path, (home,), search),
        call_ensures(tofu_path, (home,), trusted),
    ensures
        state@ != history@ && state@ != packages@ && state@ != digests@ && state@ != search@
            && state@ != trusted@,
        history@ != packages@ && history@ != digests@ && history@ != search@ && history@ != trusted@,
        packages@ != digests@ && packages@ != search@ && packages@ != trusted@,
        digests@ != search@ && digests@ != trusted@ && search@ != trusted@,
{
    reveal_strlit("state.json");
    reveal_strlit("history.log");
    reveal_strlit("packages.json");
    reveal_strlit("packages.lock");
    reveal_strlit("update_check.json");
    reveal_strlit("tofu.json");
    reveal_strlit("/");
    law_below_keeps_both_parts(home@, "state.json"@);
    law_below_keeps_both_parts(home@, "history.log"@);
    law_below_keeps_both_parts(home@, "packages.json"@);
    law_below_keeps_both_parts(home@, "packages.lock"@);
    law_below_keeps_both_parts(home@, "update_check.json"@);
    law_below_keeps_both_parts(home@, "tofu.json"@);
    assert("state.json"@[0] == 's');
    assert("history.log"@[0] == 'h');
    assert("packages.json"@[0] == 'p');
    assert("packages.lock"@[0] == 'p');
    assert("update_check.json"@[0] == 'u');
    assert("tofu.json"@[0] == 't');
    let n = home@.len();
    assert(state@.len() - 10 == history@.len() - 11 == packages@.len() - 13 == search@.len() - 17
        == trusted@.len() - 9);
    assert(digests@.len() == packages@.len());
    assert(digests@.last() == "packages.lock"@.last());
    assert(packages@.last() == "packages.json"@.last());
    assert("packages.lock"@.last() == 'k');
    assert("packages.json"@.last() == 'n');
}

/// The data home is where it was pointed to; else it lies in the local data
/// directory, under the name of the program.
pub proof fn law_where_the_data_home_is(
    place: Option<Seq<char>>,
    local: Option<Seq<char>>,
    user: Option<Seq<char>>,
    unix: bool,
)
    ensures
        place is Some ==> home_of(place, local, user, unix) == place->0,
        place is None && local is Some ==> home_of(place, local, user, unix) == below(
            local->0,
            if unix {
                "chef"@
            } else {
                "Chef"@
            },
        ),
        place is None && local is None && user is Some ==> home_of(place, local, user, unix)
            == home_of(None, Some(below(user->0, ".local/share"@)), None, unix),
        place is None && local is None && user is None ==> home_of(place, local, user, unix)
            == home_of(None, None, Some("."@), unix),
{
}

} // verus!
