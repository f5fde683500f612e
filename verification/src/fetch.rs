//! Getting the catalog and the digests: from the copy while it is fresh, else
//! from the network, else from the copy after all.

use vstd::prelude::*;
use crate::catalog::{LockFile, LockedAsset, PackageEntry, PackagesFile, VersionEntry};
use crate::error::{fails, fails_for, other, other_for, ChefError, Result};
use crate::text::{cat3, decimal, decimal_text, own, texts};

verus! {

pub const DEFAULT_PACKAGES_URL: &'static str =
    "https://raw.githubusercontent.com/x87/chef/master/packages.json";

pub const DEFAULT_LOCK_URL: &'static str =
    "https://raw.githubusercontent.com/x87/chef/master/packages.lock";

/// A copy is fresh for this long, in seconds.
pub const TTL_SECS: u64 = 86400;

pub const PACKAGES_MAX_BYTES: u64 = 20971520;

pub const LOCK_MAX_BYTES: u64 = 67108864;

pub const SUPPORTED_PACKAGES_SCHEMA: u32 = 2;

pub const SUPPORTED_LOCK_SCHEMA: u32 = 2;

/// The message about a file in a layout that is not understood, if it is so.
pub open spec fn schema_trouble(actual: u32, supported: u32, what: Seq<char>) -> Option<Seq<char>> {
    if actual > supported {
        Some(
            what + " schema "@ + decimal(actual as nat) + " is newer than this chef (supports "@
                + decimal(supported as nat) + ") - please upgrade chef"@,
        )
    } else if actual < supported {
        Some(
            what + " schema "@ + decimal(actual as nat) + " is outdated (this chef needs "@
                + decimal(supported as nat) + ") - delete the cached copy and refresh"@,
        )
    } else {
        None
    }
}

/// Accepts exactly the layout that is understood.
pub fn check_schema(actual: u32, supported: u32, what: &str) -> (r: Result<()>)
    ensures
        match schema_trouble(actual, supported, what@) {
            Some(m) => fails(r, m),
            None => r is Ok,
        },
{
    if actual == supported {
        return Ok(());
    }
    let a = decimal_text(actual as u64);
    let s = decimal_text(supported as u64);
    let mut m = cat3(what, " schema ", a.as_str());
    if actual > supported {
        m.append(" is newer than this chef (supports ");
        m.append(s.as_str());
        m.append(") - please upgrade chef");
    } else {
        m.append(" is outdated (this chef needs ");
        m.append(s.as_str());
        m.append(") - delete the cached copy and refresh");
    }
    other(m)
}

/// A copy of this age, in seconds, is stale; so is one whose age cannot be told.
pub open spec fn stale(age: Option<u64>) -> bool {
    match age {
        Some(a) => a >= TTL_SECS,
        None => true,
    }
}

/// Is a copy of this age stale?
pub fn mirror_is_stale(age: Option<u64>) -> (b: bool)
    ensures
        b == stale(age),
{
    match age {
        Some(a) => a >= TTL_SECS,
        None => true,
    }
}

/// Where a file is read from.
#[derive(Debug, Clone, Copy, PartialEq, Eq, Structural)]
pub enum Source {
    /// The copy.
    Mirror,
    /// The network.
    Network,
}

/// Where a file is read from first: the copy while it is fresh, unless a new one
/// is asked for.
pub fn first_source(age: Option<u64>, force_refresh: bool) -> (s: Source)
    ensures
        s == if !force_refresh && !stale(age) {
            Source::Mirror
        } else {
            Source::Network
        },
{
    if !force_refresh && !mirror_is_stale(age) {
        Source::Mirror
    } else {
        Source::Network
    }
}

/// What follows a failed attempt to read from the network: the copy is used, or,
/// where there is none, the failure is reported.
pub fn after_failure(
    what: &str,
    url: &str,
    mirror: &str,
    mirror_exists: bool,
    why: String,
) -> (r: Result<Source>)
    ensures
        if mirror_exists {
            r == Ok::<Source, ChefError>(Source::Mirror)
        } else {
            fails_for(
                r,
                "cannot fetch "@ + what@ + " from "@ + url@ + " and no cached mirror exists at "@
                    + mirror@,
                why@,
            )
        },
{
    if mirror_exists {
        return Ok(Source::Mirror);
    }
    let mut m = cat3("cannot fetch ", what, " from ");
    m.append(url);
    m.append(" and no cached mirror exists at ");
    m.append(mirror);
    other_for(m, why)
}

/// A reply of this size is accepted, where at most `max_bytes` are.
pub fn check_size(size: u64, max_bytes: u64) -> (r: Result<()>)
    ensures
        if size > max_bytes {
            fails(r, "response exceeds "@ + decimal(max_bytes as nat) + " byte limit"@)
        } else {
            r is Ok
        },
{
    if size > max_bytes {
        let n = decimal_text(max_bytes);
        other(cat3("response exceeds ", n.as_str(), " byte limit"))
    } else {
        Ok(())
    }
}

/// What is said where the network failed and the copy is used.
pub fn refresh_warning(what: &str, why: &str, mirror: &str) -> (out: String)
    ensures
        out@ == what@ + " refresh failed ("@ + why@ + "); using cached mirror from "@ + mirror@,
{
    let mut m = cat3(what, " refresh failed (", why);
    m.append("); using cached mirror from ");
    m.append(mirror);
    m
}

/// What reading the catalog comes to: it must be understood, and so must its
/// layout.
pub open spec fn packages_read(
    r: Result<PackagesFile>,
    read: core::result::Result<PackagesFile, String>,
) -> bool {
    match read {
        Err(why) => fails_for(r, "packages.json is not valid JSON"@, why@),
        Ok(p) => match schema_trouble(p.schema, SUPPORTED_PACKAGES_SCHEMA, "package catalog"@) {
            Some(m) => fails(r, m),
            None => r == Ok::<PackagesFile, ChefError>(p),
        },
    }
}

/// What reading the digests comes to: they must be understood, and so must their
/// layout.
pub open spec fn lock_read(
    r: Result<LockFile>,
    read: core::result::Result<LockFile, String>,
) -> bool {
    match read {
        Err(why) => fails_for(r, "packages.lock is not valid JSON"@, why@),
        Ok(l) => match schema_trouble(l.schema, SUPPORTED_LOCK_SCHEMA, "package lock"@) {
            Some(m) => fails(r, m),
            None => r == Ok::<LockFile, ChefError>(l),
        },
    }
}

/// The catalog that was read, where it and its layout are understood.
pub fn get_packages(read: core::result::Result<PackagesFile, String>) -> (r: Result<PackagesFile>)
    ensures
        packages_read(r, read),
{
    match read {
        Err(why) => other_for(own("packages.json is not valid JSON"), why),
        Ok(p) => match check_schema(p.schema, SUPPORTED_PACKAGES_SCHEMA, "package catalog") {
            Ok(_) => Ok(p),
            Err(e) => Err(e),
        },
    }
}

/// The digests that were read, where they and their layout are understood.
pub fn get_lock(read: core::result::Result<LockFile, String>) -> (r: Result<LockFile>)
    ensures
        lock_read(r, read),
{
    match read {
        Err(why) => other_for(own("packages.lock is not valid JSON"), why),
        Ok(l) => match check_schema(l.schema, SUPPORTED_LOCK_SCHEMA, "package lock") {
            Ok(_) => Ok(l),
            Err(e) => Err(e),
        },
    }
}

/// The warning about an archive without a recorded digest.
pub open spec fn digest_warning(url: Seq<char>, id: Seq<char>, version: Seq<char>) -> Seq<char> {
    "no digest for "@ + url + " ("@ + id + " "@ + version
        + ") - run 'cargo run -p gen_hashes' to regenerate packages.lock"@
}

/// The warnings about archives, behind `start`.
pub open spec fn warn_assets(
    start: Seq<Seq<char>>,
    assets: Seq<String>,
    lock: Map<Seq<char>, LockedAsset>,
    id: Seq<char>,
    version: Seq<char>,
) -> Seq<Seq<char>>
    decreases assets.len(),
{
    if assets.len() == 0 {
        start
    } else {
        let before = warn_assets(start, assets.drop_last(), lock, id, version);
        if lock.dom().contains(assets.last()@) {
            before
        } else {
            before.push(digest_warning(assets.last()@, id, version))
        }
    }
}

/// The warnings about releases, behind `start`.
pub open spec fn warn_releases(
    start: Seq<Seq<char>>,
    recs: Seq<VersionEntry>,
    lock: Map<Seq<char>, LockedAsset>,
    id: Seq<char>,
) -> Seq<Seq<char>>
    decreases recs.len(),
{
    if recs.len() == 0 {
        start
    } else {
        warn_assets(
            warn_releases(start, recs.drop_last(), lock, id),
            recs.last().assets@,
            lock,
            id,
            recs.last().version@,
        )
    }
}

/// The warnings about the whole catalog.
pub open spec fn warn_packages(
    pkgs: Seq<PackageEntry>,
    lock: Map<Seq<char>, LockedAsset>,
) -> Seq<Seq<char>>
    decreases pkgs.len(),
{
    if pkgs.len() == 0 {
        Seq::empty()
    } else {
        warn_releases(
            warn_packages(pkgs.drop_last(), lock),
            pkgs.last().versions@,
            lock,
            pkgs.last().id@,
        )
    }
}

fn add_warnings(
    out: &mut Vec<String>,
    assets: &Vec<String>,
    lock: &LockFile,
    id: &str,
    version: &str,
)
    ensures
        texts(final(out)@) == warn_assets(texts(old(out)@), assets@, lock.assets@, id@, version@),
{
    let ghost start = texts(out@);
    let mut i: usize = 0;
    proof {
        assert(assets@.take(0) =~= Seq::<String>::empty());
    }
    while i < assets.len()
        invariant
            i <= assets@.len(),
            texts(out@) == warn_assets(start, assets@.take(i as int), lock.assets@, id@, version@),
        decreases assets.len() - i,
    {
        proof {
            assert(assets@.take(i + 1).drop_last() =~= assets@.take(i as int));
            assert(assets@.take(i + 1).last() == assets@[i as int]);
        }
        if !lock.assets.contains_key(assets[i].as_str()) {
            let mut m = cat3("no digest for ", assets[i].as_str(), " (");
            m.append(id);
            m.append(" ");
            m.append(version);
            m.append(") - run 'cargo run -p gen_hashes' to regenerate packages.lock");
            let ghost before = out@;
            let ghost mv = m@;
            out.push(m);
            proof {
                assert(texts(out@) =~= texts(before).push(mv));
            }
        }
        i = i + 1;
    }
    proof {
        assert(assets@.take(i as int) =~= assets@);
    }
}

fn warn_of_releases(out: &mut Vec<String>, recs: &Vec<VersionEntry>, lock: &LockFile, id: &str)
    ensures
        texts(final(out)@) == warn_releases(texts(old(out)@), recs@, lock.assets@, id@),
{
    let ghost start = texts(out@);
    let mut i: usize = 0;
    proof {
        assert(recs@.take(0) =~= Seq::<VersionEntry>::empty());
    }
    while i < recs.len()
        invariant
            i <= recs@.len(),
            texts(out@) == warn_releases(start, recs@.take(i as int), lock.assets@, id@),
        decreases recs.len() - i,
    {
        proof {
            assert(recs@.take(i + 1).drop_last() =~= recs@.take(i as int));
            assert(recs@.take(i + 1).last() == recs@[i as int]);
        }
        add_warnings(out, &recs[i].assets, lock, id, recs[i].version.as_str());
        i = i + 1;
    }
    proof {
        assert(recs@.take(i as int) =~= recs@);
    }
}

fn digest_warnings(pkgs: &PackagesFile, lock: &LockFile) -> (out: Vec<String>)
    ensures
        texts(out@) == warn_packages(pkgs.packages@, lock.assets@),
{
    let mut out: Vec<String> = Vec::new();
    let ghost ps = pkgs.packages@;
    let mut i: usize = 0;
    proof {
        assert(ps.take(0) =~= Seq::<PackageEntry>::empty());
        assert(texts(out@) =~= Seq::<Seq<char>>::empty());
    }
    while i < pkgs.packages.len()
        invariant
            i <= ps.len(),
            ps == pkgs.packages@,
            texts(out@) == warn_packages(ps.take(i as int), lock.assets@),
        decreases ps.len() - i,
    {
        let p = &pkgs.packages[i];
        proof {
            assert(ps.take(i + 1).drop_last() =~= ps.take(i as int));
            assert(ps.take(i + 1).last() == *p);
        }
        warn_of_releases(&mut out, &p.versions, lock, p.id.as_str());
        i = i + 1;
    }
    proof {
        assert(ps.take(i as int) =~= ps);
    }
    out
}

/// The catalog and the digests, where both are to be had, and the warnings about
/// archives without a recorded digest.
pub fn load_metadata(pkgs: Result<PackagesFile>, lock: Result<LockFile>) -> (r: Result<
    (PackagesFile, LockFile, Vec<String>),
>)
    ensures
        match (pkgs, lock) {
            (Err(e), _) => r == Err::<(PackagesFile, LockFile, Vec<String>), ChefError>(e),
            (Ok(_), Err(e)) => r == Err::<(PackagesFile, LockFile, Vec<String>), ChefError>(e),
            (Ok(p), Ok(l)) => r matches Ok(t) && t.0 == p && t.1 == l && texts(t.2@)
                == warn_packages(p.packages@, l.assets@),
        },
{
    match pkgs {
        Ok(p) => match lock {
            Ok(l) => {
                let warnings = digest_warnings(&p, &l);
                Ok((p, l, warnings))
            },
            Err(e) => Err(e),
        },
        Err(e) => Err(e),
    }
}

/// Only the layout that is understood is accepted.
pub proof fn law_only_the_known_layout(actual: u32, supported: u32, what: Seq<char>)
    ensures
        schema_trouble(actual, supported, what) is None <==> actual == supported,
{
}

/// A copy is used for one day: within it no copy is stale, and after it, or where
/// its age cannot be told, every copy is.
pub proof fn law_copies_last_a_day(age: u64)
    ensures
        stale(Some(age)) <==> age >= 24 * 60 * 60,
        stale(None),
{
}

spec fn warned(
    w: Seq<char>,
    pkgs: Seq<PackageEntry>,
    lock: Map<Seq<char>, LockedAsset>,
) -> bool {
    exists|p: int, r: int, a: int|
        #![trigger pkgs[p].versions@[r].assets@[a]]
        0 <= p < pkgs.len() && 0 <= r < pkgs[p].versions@.len() && 0 <= a
            < pkgs[p].versions@[r].assets@.len() && !lock.dom().contains(
            pkgs[p].versions@[r].assets@[a]@,
        ) && w == digest_warning(
            pkgs[p].versions@[r].assets@[a]@,
            pkgs[p].id@,
            pkgs[p].versions@[r].version@,
        )
}

proof fn lemma_warn_assets(
    start: Seq<Seq<char>>,
    assets: Seq<String>,
    lock: Map<Seq<char>, LockedAsset>,
    id: Seq<char>,
    version: Seq<char>,
    w: Seq<char>,
)
    ensures
        warn_assets(start, assets, lock, id, version).contains(w) <==> start.contains(w) || exists|
            a: int,
        |
            0 <= a < assets.len() && !lock.dom().contains((#[trigger] assets[a])@) && w
                == digest_warning(assets[a]@, id, version),
    decreases assets.len(),
{
    if assets.len() > 0 {
        let t = assets.drop_last();
        let l = assets.len() - 1;
        let b = warn_assets(start, t, lock, id, version);
        let all = warn_assets(start, assets, lock, id, version);
        lemma_warn_assets(start, t, lock, id, version, w);
        assert(assets[l] == assets.last());
        assert forall|a: int| 0 <= a < l implies #[trigger] assets[a] == t[a] by {}
        if b.contains(w) {
            let i = b.index_of(w);
            assert(all[i] == w);
            if !start.contains(w) {
                let a = choose|a: int|
                    0 <= a < t.len() && !lock.dom().contains((#[trigger] t[a])@) && w
                        == digest_warning(t[a]@, id, version);
                assert(assets[a] == t[a]);
            }
        }
        if all.len() > b.len() {
            assert(all[b.len() as int] == digest_warning(assets[l]@, id, version));
            if all.contains(w) && !b.contains(w) {
                let i = all.index_of(w);
                if i < b.len() {
                    assert(b[i] == w);
                }
            }
        }
        if exists|a: int|
            0 <= a < assets.len() && !lock.dom().contains((#[trigger] assets[a])@) && w
                == digest_warning(assets[a]@, id, version) {
            let a = choose|a: int|
                0 <= a < assets.len() && !lock.dom().contains((#[trigger] assets[a])@) && w
                    == digest_warning(assets[a]@, id, version);
            if a < l {
                assert(t[a] == assets[a]);
                assert(b.contains(w));
            }
        }
    }
}

proof fn lemma_warn_releases(
    start: Seq<Seq<char>>,
    recs: Seq<VersionEntry>,
    lock: Map<Seq<char>, LockedAsset>,
    id: Seq<char>,
    w: Seq<char>,
)
    ensures
        warn_releases(start, recs, lock, id).contains(w) <==> start.contains(w) || exists|
            r: int,
            a: int,
        |
            #![trigger recs[r].assets@[a]]
            0 <= r < recs.len() && 0 <= a < recs[r].assets@.len() && !lock.dom().contains(
                recs[r].assets@[a]@,
            ) && w == digest_warning(recs[r].assets@[a]@, id, recs[r].version@),
    decreases recs.len(),
{
    if recs.len() > 0 {
        let t = recs.drop_last();
        let l = recs.len() - 1;
        let b = warn_releases(start, t, lock, id);
        lemma_warn_releases(start, t, lock, id, w);
        lemma_warn_assets(b, recs[l].assets@, lock, id, recs[l].version@, w);
        if b.contains(w) && !start.contains(w) {
            let (r, a) = choose|r: int, a: int|
                #![trigger t[r].assets@[a]]
                0 <= r < t.len() && 0 <= a < t[r].assets@.len() && !lock.dom().contains(
                    t[r].assets@[a]@,
                ) && w == digest_warning(t[r].assets@[a]@, id, t[r].version@);
            assert(recs[r].assets@[a] == t[r].assets@[a]);
        }
        if exists|a: int|
            0 <= a < recs[l].assets@.len() && !lock.dom().contains((#[trigger] recs[l].assets@[a])@)
                && w == digest_warning(recs[l].assets@[a]@, id, recs[l].version@) {
            let a = choose|a: int|
                0 <= a < recs[l].assets@.len() && !lock.dom().contains(
                    (#[trigger] recs[l].assets@[a])@,
                ) && w == digest_warning(recs[l].assets@[a]@, id, recs[l].version@);
            assert(!lock.dom().contains(recs[l].assets@[a]@));
        }
        if exists|r: int, a: int|
            #![trigger recs[r].assets@[a]]
            0 <= r < recs.len() && 0 <= a < recs[r].assets@.len() && !lock.dom().contains(
                recs[r].assets@[a]@,
            ) && w == digest_warning(recs[r].assets@[a]@, id, recs[r].version@) {
            let (r, a) = choose|r: int, a: int|
                #![trigger recs[r].assets@[a]]
                0 <= r < recs.len() && 0 <= a < recs[r].assets@.len() && !lock.dom().contains(
                    recs[r].assets@[a]@,
                ) && w == digest_warning(recs[r].assets@[a]@, id, recs[r].version@);
            if r < l {
                assert(t[r].assets@[a] == recs[r].assets@[a]);
                assert(b.contains(w));
            }
        }
    }
}

proof fn lemma_warn_packages(
    pkgs: Seq<PackageEntry>,
    lock: Map<Seq<char>, LockedAsset>,
    w: Seq<char>,
)
    ensures
        warn_packages(pkgs, lock).contains(w) <==> warned(w, pkgs, lock),
    decreases pkgs.len(),
{
    if pkgs.len() > 0 {
        let t = pkgs.drop_last();
        let l = pkgs.len() - 1;
        let b = warn_packages(t, lock);
        let recs = pkgs[l].versions@;
        lemma_warn_packages(t, lock, w);
        lemma_warn_releases(b, recs, lock, pkgs[l].id@, w);
        if warned(w, t, lock) {
            let (p, r, a) = choose|p: int, r: int, a: int|
                #![trigger t[p].versions@[r].assets@[a]]
                0 <= p < t.len() && 0 <= r < t[p].versions@.len() && 0 <= a
                    < t[p].versions@[r].assets@.len() && !lock.dom().contains(
                    t[p].versions@[r].assets@[a]@,
                ) && w == digest_warning(
                    t[p].versions@[r].assets@[a]@,
                    t[p].id@,
                    t[p].versions@[r].version@,
                );
            assert(pkgs[p].versions@[r].assets@[a] == t[p].versions@[r].assets@[a]);
        }
        if warn_packages(pkgs, lock).contains(w) && !b.contains(w) {
            let (r, a) = choose|r: int, a: int|
                #![trigger recs[r].assets@[a]]
                0 <= r < recs.len() && 0 <= a < recs[r].assets@.len() && !lock.dom().contains(
                    recs[r].assets@[a]@,
                ) && w == digest_warning(recs[r].assets@[a]@, pkgs[l].id@, recs[r].version@);
            assert(pkgs[l].versions@[r].assets@[a] == recs[r].assets@[a]);
        }
        if warned(w, pkgs, lock) {
            let (p, r, a) = choose|p: int, r: int, a: int|
                #![trigger pkgs[p].versions@[r].assets@[a]]
                0 <= p < pkgs.len() && 0 <= r < pkgs[p].versions@.len() && 0 <= a
                    < pkgs[p].versions@[r].assets@.len() && !lock.dom().contains(
                    pkgs[p].versions@[r].assets@[a]@,
                ) && w == digest_warning(
                    pkgs[p].versions@[r].assets@[a]@,
                    pkgs[p].id@,
                    pkgs[p].versions@[r].version@,
                );
            if p < l {
                assert(t[p].versions@[r].assets@[a] == pkgs[p].versions@[r].assets@[a]);
                assert(b.contains(w));
            } else {
                assert(recs[r].assets@[a] == pkgs[p].versions@[r].assets@[a]);
            }
        }
    }
}

/// Of every archive of the catalog whose digest is not recorded a warning tells,
/// with the package and the version, and of no other.
pub proof fn law_every_archive_without_digest_is_told(
    pkgs: Seq<PackageEntry>,
    lock: Map<Seq<char>, LockedAsset>,
)
    ensures
        forall|p: int, r: int, a: int|
            #![trigger pkgs[p].versions@[r].assets@[a]]
            0 <= p < pkgs.len() && 0 <= r < pkgs[p].versions@.len() && 0 <= a
                < pkgs[p].versions@[r].assets@.len() && !lock.dom().contains(
                pkgs[p].versions@[r].assets@[a]@,
            ) ==> warn_packages(pkgs, lock).contains(
                digest_warning(
                    pkgs[p].versions@[r].assets@[a]@,
                    pkgs[p].id@,
                    pkgs[p].versions@[r].version@,
                ),
            ),
        forall|n: int|
            0 <= n < warn_packages(pkgs, lock).len() ==> exists|p: int, r: int, a: int|
                #![trigger pkgs[p].versions@[r].assets@[a]]
                0 <= p < pkgs.len() && 0 <= r < pkgs[p].versions@.len() && 0 <= a
                    < pkgs[p].versions@[r].assets@.len() && !lock.dom().contains(
                    pkgs[p].versions@[r].assets@[a]@,
                ) && #[trigger] warn_packages(pkgs, lock)[n] == digest_warning(
                    pkgs[p].versions@[r].assets@[a]@,
                    pkgs[p].id@,
                    pkgs[p].versions@[r].version@,
                ),
{
    assert forall|p: int, r: int, a: int|
        #![trigger pkgs[p].versions@[r].assets@[a]]
        0 <= p < pkgs.len() && 0 <= r < pkgs[p].versions@.len() && 0 <= a
            < pkgs[p].versions@[r].assets@.len() && !lock.dom().contains(
            pkgs[p].versions@[r].assets@[a]@,
        ) implies warn_packages(pkgs, lock).contains(
        digest_warning(
            pkgs[p].versions@[r].assets@[a]@,
            pkgs[p].id@,
            pkgs[p].versions@[r].version@,
        ),
    ) by {
        let w = digest_warning(
            pkgs[p].versions@[r].assets@[a]@,
            pkgs[p].id@,
            pkgs[p].versions@[r].version@,
        );
        lemma_warn_packages(pkgs, lock, w);
        assert(warned(w, pkgs, lock));
    }
    assert forall|n: int| 0 <= n < warn_packages(pkgs, lock).len() implies warned(
        #[trigger] warn_packages(pkgs, lock)[n],
        pkgs,
        lock,
    ) by {
        let w = warn_packages(pkgs, lock)[n];
        assert(warn_packages(pkgs, lock).contains(w));
        lemma_warn_packages(pkgs, lock, w);
    }
}

/// The copy is used while it is fresh, and the network is asked where a new one is
/// wanted or the copy is stale; where the network fails, the copy is used all the
/// same, and only without one is the failure reported.
pub proof fn law_the_copy_helps_out(
    age: Option<u64>,
    force: bool,
    first: Source,
    what: &str,
    url: &str,
    mirror: &str,
    at_hand: bool,
    why: String,
    next: Result<Source>,
)
    requires
        call_ensures(first_source, (age, force), first),
        call_ensures(after_failure, (what, url, mirror, at_hand, why), next),
    ensures
        force ==> first == Source::Network,
        age is None ==> first == Source::Network,
        age is Some && age->0 >= 24 * 60 * 60 ==> first == Source::Network,
        age is Some && age->0 < 24 * 60 * 60 && !force ==> first == Source::Mirror,
        next is Ok <==> at_hand,
        next is Ok ==> next->Ok_0 == Source::Mirror,
{
}

/// The catalog and the digests are taken only in the layout that is understood,
/// and then as they were read; both are needed.
pub proof fn law_metadata_is_taken_as_read(
    read: core::result::Result<PackagesFile, String>,
    p: Result<PackagesFile>,
    read_lock: core::result::Result<LockFile, String>,
    l: Result<LockFile>,
    r: Result<(PackagesFile, LockFile, Vec<String>)>,
)
    requires
        call_ensures(get_packages, (read,), p),
        call_ensures(get_lock, (read_lock,), l),
        call_ensures(load_metadata, (p, l), r),
    ensures
        p is Ok <==> read is Ok && read->Ok_0.schema == 2,
        p is Ok ==> p->Ok_0 == read->Ok_0,
        l is Ok <==> read_lock is Ok && read_lock->Ok_0.schema == 2,
        l is Ok ==> l->Ok_0 == read_lock->Ok_0,
        r is Ok <==> p is Ok && l is Ok,
        r is Ok ==> r->Ok_0.0 == read->Ok_0 && r->Ok_0.1 == read_lock->Ok_0,
{
}

/// A reply is accepted up to its limit.
pub proof fn law_replies_are_limited(size: u64, max_bytes: u64, r: Result<()>)
    requires
        call_ensures(check_size, (size, max_bytes), r),
    ensures
        r is Ok <==> size <= max_bytes,
{
}

} // verus!
