//! Which archive of a release suits the machine.

use vstd::prelude::*;
use crate::error::{fails, other, Result};
use crate::text::{
    base_name, basename, chars_of, contains, find_char, first_of, lowercase, occurs, own, same,
    skip_text, slice_text, to_lower,
};

verus! {

/// The tag of the platform: "windows-aarch64" where both words say so, and
/// "windows-x86_64" everywhere else.
pub open spec fn platform_tag(os: Seq<char>, arch: Seq<char>) -> Seq<char> {
    if os == "windows"@ && arch == "aarch64"@ {
        "windows-aarch64"@
    } else {
        "windows-x86_64"@
    }
}

/// The tag of the platform with this operating system and architecture.
pub fn current_platform(os: &str, arch: &str) -> (tag: &'static str)
    ensures
        tag@ == platform_tag(os@, arch@),
{
    if same(os, "windows") && same(arch, "aarch64") {
        "windows-aarch64"
    } else {
        "windows-x86_64"
    }
}

/// What stands before the first `-` of a platform tag.
pub open spec fn tag_os(platform: Seq<char>) -> Seq<char> {
    platform.take(first_of(platform, '-'))
}

/// What stands behind the first `-` of a platform tag.
pub open spec fn tag_arch(platform: Seq<char>) -> Seq<char> {
    if first_of(platform, '-') < platform.len() {
        platform.skip(first_of(platform, '-') + 1)
    } else {
        Seq::empty()
    }
}

/// The name of the file is marked for this architecture.
pub open spec fn arch_fits(name: Seq<char>, arch: Seq<char>) -> bool {
    if occurs(name, "arm64"@) || occurs(name, "aarch64"@) {
        arch == "aarch64"@
    } else if occurs(name, "x64"@) || occurs(name, "amd64"@) || occurs(name, "x86-64"@) {
        arch == "x86_64"@
    } else if occurs(name, "x86"@) || occurs(name, "i386"@) || occurs(name, "win32"@) {
        arch == "x86_64"@ || arch == "x86"@
    } else {
        false
    }
}

/// The name of the archive, in small letters, is marked for the platform. A
/// name without a mark hints at none.
pub open spec fn hints(url: Seq<char>, platform: Seq<char>) -> bool {
    let name = lowercase(base_name(url));
    &&& occurs(name, "win32"@) || occurs(name, "windows"@)
    &&& tag_os(platform) == "windows"@
    &&& tag_arch(platform).len() == 0 || arch_fits(name, tag_arch(platform))
}

/// The first archive from position `from` on that hints at the platform.
pub open spec fn first_hint(assets: Seq<String>, platform: Seq<char>, from: int) -> Option<
    Seq<char>,
>
    decreases assets.len() - from,
{
    if from >= assets.len() {
        None
    } else if hints(assets[from]@, platform) {
        Some(assets[from]@)
    } else {
        first_hint(assets, platform, from + 1)
    }
}

/// The archive for the platform: the only one, else the first that hints at
/// the platform, else the first.
pub open spec fn chosen_asset(assets: Seq<String>, platform: Seq<char>) -> Option<Seq<char>> {
    if assets.len() == 0 {
        None
    } else if assets.len() == 1 {
        Some(assets[0]@)
    } else {
        match first_hint(assets, platform, 0) {
            Some(a) => Some(a),
            None => Some(assets[0]@),
        }
    }
}

fn asset_hints_platform(url: &str, platform: &str) -> (b: bool)
    ensures
        b == hints(url@, platform@),
{
    let base = basename(url);
    let lowered = to_lower(base.as_str());
    let name: &str = lowered.as_str();
    if !contains(name, "win32") && !contains(name, "windows") {
        return false;
    }
    let tag = chars_of(platform);
    let os: String;
    let arch: String;
    match find_char(&tag, '-') {
        Some(i) => {
            os = slice_text(&tag, 0, i);
            arch = skip_text(&tag, i + 1);
            proof {
                assert(tag@.subrange(0, i as int) =~= tag@.take(i as int));
            }
        },
        None => {
            os = own(platform);
            arch = String::new();
            proof {
                assert(tag@.take(tag@.len() as int) =~= tag@);
            }
        },
    }
    if !same(os.as_str(), "windows") {
        return false;
    }
    if arch.as_str().is_empty() {
        return true;
    }
    let a: &str = arch.as_str();
    if contains(name, "arm64") || contains(name, "aarch64") {
        same(a, "aarch64")
    } else if contains(name, "x64") || contains(name, "amd64") || contains(name, "x86-64") {
        same(a, "x86_64")
    } else if contains(name, "x86") || contains(name, "i386") || contains(name, "win32") {
        same(a, "x86_64") || same(a, "x86")
    } else {
        false
    }
}

/// The archive for the platform; an error where the release declares none.
pub fn select_asset_url(assets: &[String], platform: &str) -> (r: Result<String>)
    ensures
        match chosen_asset(assets@, platform@) {
            Some(a) => r matches Ok(t) && t@ == a,
            None => fails(r, "version declares no assets"@),
        },
{
    if assets.len() == 0 {
        return other(own("version declares no assets"));
    }
    if assets.len() == 1 {
        return Ok(assets[0].clone());
    }
    let mut i: usize = 0;
    while i < assets.len()
        invariant
            i <= assets@.len(),
            first_hint(assets@, platform@, 0) == first_hint(assets@, platform@, i as int),
            assets@.len() > 1,
        decreases assets@.len() - i,
    {
        if asset_hints_platform(assets[i].as_str(), platform) {
            return Ok(assets[i].clone());
        }
        i = i + 1;
    }
    Ok(assets[0].clone())
}

/// The archive that is chosen is one of the release's; a release with archives has
/// one chosen, and where any of them is marked for the platform a marked one is.
pub proof fn law_chosen_asset(assets: Seq<String>, platform: Seq<char>)
    ensures
        assets.len() == 0 <==> chosen_asset(assets, platform) is None,
        chosen_asset(assets, platform) matches Some(u) ==> exists|j: int|
            0 <= j < assets.len() && #[trigger] assets[j]@ == u,
        forall|j: int|
            0 <= j < assets.len() && hints(#[trigger] assets[j]@, platform) ==> hints(
                chosen_asset(assets, platform)->0,
                platform,
            ),
        assets.len() > 0 && (forall|j: int|
            0 <= j < assets.len() ==> !hints(#[trigger] assets[j]@, platform)) ==> chosen_asset(
            assets,
            platform,
        ) == Some(assets[0]@),
{
    lemma_first_hint(assets, platform, 0);
    if assets.len() > 0 {
        assert(assets[0]@ == assets[0]@);
    }
}

proof fn lemma_first_hint(assets: Seq<String>, platform: Seq<char>, from: int)
    requires
        0 <= from,
    ensures
        match first_hint(assets, platform, from) {
            Some(u) => hints(u, platform) && exists|j: int|
                0 <= j < assets.len() && #[trigger] assets[j]@ == u,
            None => forall|j: int|
                from <= j < assets.len() ==> !hints(#[trigger] assets[j]@, platform),
        },
    decreases assets.len() - from,
{
    if from < assets.len() {
        lemma_first_hint(assets, platform, from + 1);
        assert(assets[from]@ == assets[from]@);
    }
}

/// An archive that is marked for one architecture is not taken for another.
pub proof fn law_marks_of_architectures(url: Seq<char>, platform: Seq<char>)
    ensures
        ({
            let name = lowercase(base_name(url));
            let arch = tag_arch(platform);
            &&& hints(url, platform) ==> occurs(name, "win32"@) || occurs(name, "windows"@)
            &&& hints(url, platform) ==> tag_os(platform) == "windows"@
            &&& hints(url, platform) && (occurs(name, "arm64"@) || occurs(name, "aarch64"@))
                && arch.len() > 0 ==> arch == "aarch64"@
            &&& hints(url, platform) && arch == "aarch64"@ ==> occurs(name, "arm64"@) || occurs(
                name,
                "aarch64"@,
            )
            &&& (occurs(name, "windows"@) || occurs(name, "win32"@)) && tag_os(platform)
                == "windows"@ && arch == "x86_64"@ && (occurs(name, "x64"@) || occurs(
                name,
                "win32"@,
            )) && !occurs(name, "arm64"@) && !occurs(name, "aarch64"@) ==> hints(url, platform)
        }),
{
    reveal_strlit("aarch64");
    reveal_strlit("x86_64");
    reveal_strlit("x86");
    assert("aarch64"@.len() == 7 && "x86_64"@.len() == 6 && "x86"@.len() == 3);
}

/// Only Windows on an ARM processor has a tag of its own: everywhere else the
/// programs for Windows on an Intel processor are taken.
pub proof fn law_platforms_have_tags(os: &str, arch: &str, tag: &'static str)
    requires
        call_ensures(current_platform, (os, arch), tag),
    ensures
        tag@ == "windows-aarch64"@ <==> os@ == "windows"@ && arch@ == "aarch64"@,
        tag@ == "windows-aarch64"@ || tag@ == "windows-x86_64"@,
{
    reveal_strlit("windows-aarch64");
    reveal_strlit("windows-x86_64");
    assert("windows-aarch64"@.len() != "windows-x86_64"@.len());
}

} // verus!
