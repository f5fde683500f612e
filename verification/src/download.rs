//! Downloading archives and holding them to their digests.

use vstd::prelude::*;
use crate::error::{fails, other, Result};
use crate::layout::{below, cache_dir, join_path};
use crate::text::{
    base_name, basename, begins, cat, cat3, chars_of, decimal, decimal_text, ends, ends_with,
    lowercase, same, skip_text, starts_with, to_lower,
};

verus! {

/// One archive may be this large.
pub const ASSET_MAX_BYTES: u64 = 536870912;

/// The path of the unfinished file while `dest` is downloaded.
pub fn part_path(dest: &str) -> (out: String)
    ensures
        out@ == dest@ + ".part"@,
{
    cat(dest, ".part")
}

/// The path in a `file://` address, without the separator in front on Windows.
pub open spec fn local_path(url: Seq<char>, windows: bool) -> Option<Seq<char>> {
    if begins(url, "file://"@) {
        let rest = url.skip("file://"@.len() as int);
        if windows && rest.len() > 0 && rest[0] == '/' {
            Some(rest.drop_first())
        } else {
            Some(rest)
        }
    } else {
        None
    }
}

/// The path in a `file://` address.
pub fn file_url_path(url: &str, windows: bool) -> (r: Option<String>)
    ensures
        match r {
            Some(p) => local_path(url@, windows) == Some(p@),
            None => local_path(url@, windows) is None,
        },
{
    if !starts_with(url, "file://") {
        return None;
    }
    let v = chars_of(url);
    let n = chars_of("file://");
    let rest = skip_text(&v, n.len());
    if windows {
        let cs = chars_of(rest.as_str());
        if cs.len() > 0 && cs[0] == '/' {
            let t = skip_text(&cs, 1);
            proof {
                assert(cs@.skip(1) =~= cs@.drop_first());
            }
            return Some(t);
        }
    }
    Some(rest)
}

/// An archive of this size is accepted.
pub fn check_asset_size(size: u64) -> (r: Result<()>)
    ensures
        if size > ASSET_MAX_BYTES {
            fails(
                r,
                "downloaded asset exceeds "@ + decimal(ASSET_MAX_BYTES as nat) + " byte limit"@,
            )
        } else {
            r is Ok
        },
{
    if size > ASSET_MAX_BYTES {
        let n = decimal_text(ASSET_MAX_BYTES);
        other(cat3("downloaded asset exceeds ", n.as_str(), " byte limit"))
    } else {
        Ok(())
    }
}

/// The name of an archive in the cache.
pub open spec fn cache_name(url: Seq<char>, pkg: Seq<char>, version: Seq<char>) -> Seq<char> {
    pkg + "-"@ + version + "-"@ + base_name(url)
}

/// Where an archive is kept once it is downloaded.
pub fn cached_asset(home: &str, url: &str, pkg: &str, version: &str) -> (out: String)
    ensures
        out@ == below(below(home@, "cache"@), cache_name(url@, pkg@, version@)),
{
    let mut name = cat3(pkg, "-", version);
    name.append("-");
    let base = basename(url);
    name.append(base.as_str());
    let dir = cache_dir(home);
    join_path(dir.as_str(), name.as_str())
}

/// How an archive is got.
#[derive(Debug, Clone, Copy, PartialEq, Eq, Structural)]
pub enum FetchStep {
    /// The one in the cache is taken.
    UseCached,
    /// It is downloaded, in place of what is in the cache.
    Download,
}

/// How an archive is got, where `cached` is the digest of the one in the cache:
/// a cached archive with another digest is not trusted.
pub fn fetch_asset(cached: Option<&str>, sha256: &str) -> (step: FetchStep)
    ensures
        step == if cached matches Some(c) && c@ == sha256@ {
            FetchStep::UseCached
        } else {
            FetchStep::Download
        },
{
    match cached {
        Some(c) => if same(c, sha256) {
            FetchStep::UseCached
        } else {
            FetchStep::Download
        },
        None => FetchStep::Download,
    }
}

/// Accepts a downloaded archive whose digest is the recorded one.
pub fn verify_asset(url: &str, sha256: &str, got: &str) -> (r: Result<()>)
    ensures
        if got@ == sha256@ {
            r is Ok
        } else {
            fails(
                r,
                "checksum mismatch for "@ + base_name(url@) + ": expected sha256 "@ + sha256@
                    + ", got "@ + got@,
            )
        },
{
    if same(got, sha256) {
        return Ok(());
    }
    let name = basename(url);
    let mut m = cat3("checksum mismatch for ", name.as_str(), ": expected sha256 ");
    m.append(sha256);
    m.append(", got ");
    m.append(got);
    other(m)
}

/// How the store gets a release.
#[derive(Debug, Clone, Copy, PartialEq, Eq, Structural)]
pub enum Prepare {
    /// It is there already.
    Ready,
    /// The archive is unpacked.
    Unzip,
    /// The archive is itself the file, and is copied.
    Copy,
}

/// How the store gets a release: nothing is done where it is complete; an
/// archive is unpacked, any other file is copied.
pub fn ensure_payload(complete: bool, url: &str) -> (p: Prepare)
    ensures
        p == if complete {
            Prepare::Ready
        } else if ends(lowercase(base_name(url@)), ".zip"@) {
            Prepare::Unzip
        } else {
            Prepare::Copy
        },
{
    if complete {
        return Prepare::Ready;
    }
    let name = basename(url);
    let low = to_lower(name.as_str());
    if ends_with(low.as_str(), ".zip") {
        Prepare::Unzip
    } else {
        Prepare::Copy
    }
}

/// Only an archive with the recorded digest is ever used: one in the cache with
/// another digest is downloaded again, a downloaded one is accepted only with that
/// digest, and what was accepted is taken from the cache the next time.
pub proof fn law_only_the_recorded_digest_is_used(
    url: &str,
    sha256: &str,
    cached: Option<&str>,
    step: FetchStep,
    got: &str,
    accepted: Result<()>,
    again: FetchStep,
)
    requires
        call_ensures(fetch_asset, (cached, sha256), step),
        call_ensures(verify_asset, (url, sha256, got), accepted),
        call_ensures(fetch_asset, (Some(got), sha256), again),
    ensures
        step == FetchStep::UseCached ==> cached is Some && cached->0@ == sha256@,
        cached is None ==> step == FetchStep::Download,
        accepted is Ok <==> got@ == sha256@,
        accepted is Ok ==> again == FetchStep::UseCached,
        accepted is Err ==> again == FetchStep::Download,
{
}

/// A release that lies complete in the store is left alone; of any other an
/// archive whose name ends in `.zip`, in whatever case, is unpacked, and any other
/// file is copied.
pub proof fn law_archives_are_unpacked(url: &str, complete: bool, p: Prepare, stem: Seq<char>)
    requires
        call_ensures(ensure_payload, (complete, url), p),
        stem.len() > 4,
        lowercase(base_name(url@)) == stem,
    ensures
        p == Prepare::Ready <==> complete,
        !complete ==> (p == Prepare::Unzip <==> stem.subrange(stem.len() - 4, stem.len() as int)
            == seq!['.', 'z', 'i', 'p']),
{
    reveal_strlit(".zip");
    assert(".zip"@ =~= seq!['.', 'z', 'i', 'p']);
}

/// The path in a `file://` address is what stands behind it, and on Windows
/// without the separator in front.
pub proof fn law_file_addresses_name_paths(path: Seq<char>)
    ensures
        local_path("file://"@ + path, false) == Some(path),
        path.len() > 0 && path[0] != '/' ==> local_path("file://"@ + path, true) == Some(path),
        local_path("file:///"@ + path, true) == Some(path),
        !begins(path, "file://"@) ==> local_path(path, false) is None && local_path(path, true)
            is None,
{
    reveal_strlit("file://");
    reveal_strlit("file:///");
    let a = "file://"@ + path;
    let b = "file:///"@ + path;
    assert(a.subrange(0, 7) =~= "file://"@);
    assert(b.subrange(0, 7) =~= "file://"@);
    assert(a.skip(7) =~= path);
    assert(b.skip(7).drop_first() =~= path);
}

/// An archive of more than 512 MiB is not accepted.
pub proof fn law_archives_are_limited(size: u64, r: Result<()>)
    requires
        call_ensures(check_asset_size, (size,), r),
    ensures
        r is Ok <==> size <= 512 * 1024 * 1024,
{
}

/// The archive of a release is kept in the cache under a name that ends in its
/// own.
pub proof fn law_archives_keep_their_names(
    home: &str,
    url: &str,
    pkg: &str,
    version: &str,
    path: String,
)
    requires
        call_ensures(cached_asset, (home, url, pkg, version), path),
        pkg@.len() > 0 && pkg@[0] != '/',
    ensures
        ends(path@, base_name(url@)),
        ends(path@, pkg@ + "-"@ + version@ + "-"@ + base_name(url@)),
{
    let name = cache_name(url@, pkg@, version@);
    let dir = below(home@, "cache"@);
    crate::layout::law_below_keeps_both_parts(dir, name);
    let n = base_name(url@);
    assert(path@.subrange(path@.len() - name.len(), path@.len() as int) == name);
    assert(name.subrange(name.len() - n.len(), name.len() as int) =~= n);
    assert(path@.subrange(path@.len() - n.len(), path@.len() as int) =~= name.subrange(
        name.len() - n.len(),
        name.len() as int,
    ));
}

} // verus!
