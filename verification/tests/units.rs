use chef::add::{
    already_text, collect_deployment, installed_text, installing_text, locate_payload_file,
    normalize_dest_name,
};
use chef::archive::{extract_entry, sanitize_entry, Unpack, MAX_TOTAL_UNCOMPRESSED};
use chef::catalog::{
    slot_ids, version_covers_game, LockFile, LockedAsset, LockedFile, PackageEntry, PackagesFile,
    VersionEntry,
};
use chef::commands::{finish_batch, removal_requests, requests, split_pkg_spec};
use chef::digest::{dir_hash_key, hex8, sha256_text};
use chef::download::{
    cached_asset, check_asset_size, ensure_payload, fetch_asset, file_url_path, part_path,
    verify_asset, FetchStep, Prepare, ASSET_MAX_BYTES,
};
use chef::emit::{json_error, message_value, write_error};
use chef::error::{other, other_for, ChefError, Failure};
use chef::fetch::{
    after_failure, check_schema, check_size, first_source, get_lock, get_packages, load_metadata,
    mirror_is_stale, refresh_warning, Source, TTL_SECS,
};
use chef::identify::{identify_digests, payload_basenames, payload_index};
use chef::layout::{
    backup_name, backup_root_for, check_state_path, chef_home, clear_home_override,
    complete_marker, history_is_full, history_path, lock_path, set_home_override, state_path,
    tofu_path, HISTORY_MAX_BYTES,
};
use chef::names::{disambiguate, levenshtein, normalize, pick, pick_prompt, resolve, Answer};
use chef::order::{drop_repeats, sort_texts};
use chef::plan::{print_plan, PlanOp, PlanStep};
use chef::prune::prune_empty_tree;
use chef::remove::{
    has_script, legacy_files, legacy_restores, remove_install, removed_lines, removed_row,
    wants_displaced, Removed,
};
use chef::resolution::{parse_ver_spec, ver_spec_from, ResolvedVersion, VerSpec};
use chef::state::{GameDirState, Install, ManagedFile, Op, StateFile};
use chef::strmap::StrMap;
use chef::target::{detect_game, family_title, paths_equal, resolve_game_dir, Guarded};
use chef::text::{parse_count, split};
use chef::undo::{revert_op, Found, Revert};
use chef::update::{is_outdated, update_needed, update_text, UpdateRow, UpdateStatus};
use chef::upgrade::{
    asset_stem, check_value, expected_digest, extract_binary, is_zip, latest_version,
    notice_is_due, parse_tag, sidecar_digest, update_notice, upgrade_asset, upgrade_step,
    upgrade_text, upgraded_value, verify_upgrade, DigestSource, ReleaseAsset, UpgradeStep,
    CHECK_INTERVAL_SECS,
};
use chef::version::{
    parse_strict, parse_version_loose, quad_version, read_release, same_version, version_before,
    Version,
};
use chef::which::attribute;

fn list(v: &[&str]) -> Vec<String> {
    v.iter().map(|s| s.to_string()).collect()
}

fn said<T: std::fmt::Debug>(r: chef::error::Result<T>) -> String {
    r.unwrap_err().message()
}

fn ver(s: &str) -> Version {
    parse_strict(s).unwrap()
}

fn package(id: &str, replaces: &[&str]) -> PackageEntry {
    PackageEntry {
        id: id.to_string(),
        name: id.to_uppercase(),
        aliases: Vec::new(),
        replaces: list(replaces),
        versions: Vec::new(),
    }
}

fn release(version: &str, url: &str, games: &[&str]) -> VersionEntry {
    VersionEntry {
        version: version.to_string(),
        preview: false,
        release: None,
        assets: list(&[url]),
        exclude: Vec::new(),
        games: list(games),
        dependencies: Vec::new(),
        postinstall: None,
    }
}

fn catalog(packages: Vec<PackageEntry>) -> PackagesFile {
    PackagesFile { schema: 2, packages, games: StrMap::new() }
}

fn empty_lock() -> LockFile {
    LockFile { schema: 2, generated_at: 0, assets: StrMap::new() }
}

// ---------------------------------------------------------------------------
// Which
// ---------------------------------------------------------------------------

#[test]
fn attribute_prefers_installed_version() {
    assert_eq!(attribute(Some("1.4.3"), &["1.5.0", "1.4.3"]), "1.4.3");
    assert_eq!(attribute(None, &["1.5.0", "1.4.3"]), "1.5.0");
    assert_eq!(attribute(Some("1.4.3"), &["1.5.0"]), "1.5.0");
    assert_eq!(attribute(Some("9.9.9"), &[]), "");
}

// ---------------------------------------------------------------------------
// Checksums
// ---------------------------------------------------------------------------

#[test]
fn digests_are_the_usual_ones() {
    assert_eq!(
        sha256_text(b"abc"),
        "ba7816bf8f01cfea414140de5dae2223b00361a396177a9cb410ff61f20015ad"
    );
    assert_eq!(
        sha256_text(b""),
        "e3b0c44298fc1c149afbf4c8996fb92427ae41e4649b934ca495991b7852b855"
    );
    assert_eq!(hex8(0), "00000000");
    assert_eq!(hex8(0xdeadbeef), "deadbeef");
}

#[test]
fn keys_of_game_directories_ignore_case() {
    assert_eq!(dir_hash_key("/games/san-andreas"), "35d3f369");
    assert_eq!(dir_hash_key("/Games/San-Andreas"), dir_hash_key("/games/san-andreas"));
    assert_eq!(dir_hash_key("ABC"), "352441c2");
    assert_eq!(dir_hash_key("/SPIELE/Ä"), dir_hash_key("/spiele/ä"));
    assert_ne!(dir_hash_key("/a"), dir_hash_key("/b"));
    assert_eq!(dir_hash_key("").len(), 8);
}

// ---------------------------------------------------------------------------
// Versions
// ---------------------------------------------------------------------------

#[test]
fn texts_tell_versions_apart() {
    let raws = ["1.2.3", "1.2.3-beta", "1.2.3_beta", "1.2.3+beta", "1.2.3.4", "1.23", "12.3.0"];
    for a in raws {
        for b in raws {
            if let (Some(x), Some(y)) = (parse_version_loose(a), parse_version_loose(b)) {
                assert_eq!(x.text() == y.text(), x.same(&y), "{a} {b}");
            }
        }
    }
    let beta = |s: &str| parse_version_loose(s).unwrap();
    assert!(beta("1.2.3-beta").same(&beta("1.2.3_beta")));
    assert!(!beta("1.2.3-beta").same(&beta("1.2.3+beta")));
}

#[test]
fn versions_are_read_loosely() {
    let text = |s: &str| parse_version_loose(s).map(|v| v.text());
    assert_eq!(text("5.4.0").unwrap(), "5.4.0");
    assert_eq!(text("1.5.0-beta.1+7").unwrap(), "1.5.0-beta.1+7");
    assert_eq!(text("2.0.0.beta").unwrap(), "2.0.0-beta");
    assert_eq!(text("2.0.0_rc").unwrap(), "2.0.0-rc");
    assert_eq!(text("2.0.0.6").unwrap(), "2.0.0+6");
    assert_eq!(text("1.2.3.4beta").unwrap(), "1.2.3-beta");
    assert!(text("05.4.0").is_none());
    assert!(text("hello").is_none());
    assert!(text("1.2").is_none());
    assert_eq!(quad_version("2.0.0.6").unwrap().text(), "2.0.0+6");
    assert_eq!(read_release("2.0.0.6").unwrap().shown, "2.0.0.6");
    assert_eq!(read_release("2.0.0.beta").unwrap().shown, "2.0.0-beta");
    assert!(same_version("2.0.0.6", "2.0.0+6"));
    assert!(!same_version("2.0.0", "2.0.1"));
    let err = said(parse_strict("x"));
    assert!(err.starts_with("invalid version 'x': "), "{err}");
}

#[test]
fn versions_are_listed_newest_first() {
    assert!(version_before("5.10.0", "5.9.0"));
    assert!(!version_before("5.9.0", "5.10.0"));
    assert!(version_before("1.0.0", "nonsense"));
    assert!(!version_before("1.0.0", "1.0.0"));
    assert!(version_before("1.5.0-beta.1", "1.4.9"));
}

#[test]
fn requests_are_read() {
    assert!(matches!(parse_ver_spec("").unwrap(), VerSpec::Stable));
    assert!(matches!(parse_ver_spec(" Stable ").unwrap(), VerSpec::Stable));
    assert!(matches!(parse_ver_spec("LATEST").unwrap(), VerSpec::Latest));
    assert!(matches!(parse_ver_spec("beta").unwrap(), VerSpec::Preview));
    assert!(matches!(parse_ver_spec("v5.3.0").unwrap(), VerSpec::Exact(v) if v.text() == "5.3.0"));
    assert!(matches!(parse_ver_spec("5.").unwrap(), VerSpec::Prefix(p) if p == "5"));
    assert!(parse_ver_spec("5.x").is_err());
    // A text that spells a version counts as it, whatever its reading.
    assert!(matches!(
        ver_spec_from("abc", Some(ver("1.2.3"))).unwrap(),
        VerSpec::Exact(v) if v.minor == 2
    ));
    assert_eq!(split_pkg_spec("cleo@5@6"), ("cleo".to_string(), Some("5@6".to_string())));
    assert_eq!(requests(&list(&["a", "b@"])), vec![
        ("a".to_string(), None),
        ("b".to_string(), Some(String::new()))
    ]);
    assert_eq!(
        said(removal_requests(&list(&["cleo@latest"]))),
        "remove requires an exact version (e.g. cleo@4.4.4)"
    );
    assert_eq!(
        removal_requests(&list(&["cleo@v4.4.4", "sal@1", "ual"])).unwrap(),
        vec![
            ("cleo".to_string(), Some("4.4.4".to_string())),
            ("sal".to_string(), Some("1".to_string())),
            ("ual".to_string(), None)
        ]
    );
    assert!(removal_requests(&list(&["cleo@4."])).is_err());
}

#[test]
fn updates_follow_the_order_of_versions() {
    assert!(update_needed("5.3.0", "5.4.0"));
    assert!(!update_needed("5.4.0", "5.4.0"));
    assert!(!update_needed("5.5.0", "5.4.0"));
    assert!(update_needed("1.5.0-beta.1", "1.5.0"));
    assert!(!update_needed("1.5.0", "1.5.0-beta.1"));
    assert!(update_needed("old", "new"));
    assert!(is_outdated("a", "b", &Some(ver("1.0.0")), &Some(ver("1.0.1"))));
    assert!(!is_outdated("a", "b", &Some(ver("1.0.1")), &Some(ver("1.0.1"))));
    let row = |status| UpdateRow {
        id: "cleo.sa".into(),
        name: "CLEO".into(),
        from: "5.3.0".into(),
        to: "5.4.0".into(),
        status,
        plan: Vec::new(),
    };
    assert_eq!(update_text(&row(UpdateStatus::UpToDate)), "CLEO 5.3.0 is up to date");
    assert_eq!(update_text(&row(UpdateStatus::Updated)), "CLEO: 5.3.0 -> 5.4.0");
    assert_eq!(
        update_text(&row(UpdateStatus::WouldUpdate)),
        "CLEO: 5.3.0 -> 5.4.0 (would update)"
    );
}

// ---------------------------------------------------------------------------
// Names
// ---------------------------------------------------------------------------

#[test]
fn distances_between_names() {
    assert_eq!(levenshtein("kitten", "sitting"), 3);
    assert_eq!(levenshtein("sitting", "kitten"), 3);
    assert_eq!(levenshtein("", "abc"), 3);
    assert_eq!(levenshtein("abc", "abc"), 0);
    let words = ["", "cleo", "clean", "sal", "asi-loader", "loader", "leo"];
    for a in words {
        for b in words {
            let d = levenshtein(a, b);
            assert!(a.len().abs_diff(b.len()) <= d && d <= a.len().max(b.len()));
            for c in words {
                assert!(levenshtein(a, c) <= d + levenshtein(b, c));
            }
        }
    }
    // One edit more or less, one step more or less.
    assert_eq!(levenshtein("cleo", "leo"), 1);
    assert_eq!(levenshtein("cleo", "clean"), 2);
    assert_eq!(normalize(&normalize("A-b C!")), normalize("A-b C!"));
    assert_eq!(normalize("ÄB1"), "b1");
}

#[test]
fn answers_pick_an_option() {
    let pkgs = catalog(vec![package("ab.one", &[]), package("ab.two", &[])]);
    assert_eq!(pick(Some(" 2 "), 2), Some(1));
    assert_eq!(pick(Some("0"), 2), None);
    assert_eq!(pick(Some("3"), 2), None);
    assert_eq!(pick(Some("n"), 2), None);
    assert_eq!(pick(None, 2), None);
    let hits = resolve(&pkgs, "ab", None).unwrap();
    assert_eq!(hits.len(), 2);
    let one = disambiguate(hits, &Answer::Said(Some("1".into()))).unwrap();
    assert_eq!(one.pkg.id, "ab.one");
    let hits = resolve(&pkgs, "ab", None).unwrap();
    assert!(matches!(disambiguate(hits, &Answer::Silent), Err(ChefError::Ambiguous(c)) if c.len() == 2));
    assert!(pick_prompt("Which?", &list(&["x", "y"])).contains("Which?"));
    assert_eq!(said(resolve(&pkgs, "!!", None).map(|v| v.len())), "empty package name");
    assert_eq!(parse_count("12"), Some(12));
    assert_eq!(parse_count("1x"), None);
}

#[test]
fn slots_are_closed_under_replacement() {
    let pkgs = catalog(vec![
        package("a", &["b"]),
        package("b", &[]),
        package("c", &["b"]),
        package("d", &[]),
    ]);
    let mut slot = slot_ids(&pkgs, "a");
    slot.sort();
    assert_eq!(slot, vec!["a", "b", "c"]);
    let mut other = slot_ids(&pkgs, "c");
    other.sort();
    assert_eq!(slot, other);
    assert_eq!(slot_ids(&pkgs, "d"), vec!["d"]);
    assert!(version_covers_game(&release("1.0.0", "u", &[]), "gta-sa"));
    assert!(!version_covers_game(&release("1.0.0", "u", &["gta-3"]), "gta-sa"));
}

// ---------------------------------------------------------------------------
// Archives
// ---------------------------------------------------------------------------

#[test]
fn zip_traversal_is_rejected() {
    assert!(sanitize_entry("../escaped.txt").is_err());
    assert!(sanitize_entry("ok/../../up.txt").is_err());
    assert!(sanitize_entry("/absolute.txt").is_err());
    assert!(sanitize_entry("C:\\evil.txt").is_err());
    assert!(sanitize_entry("./C:/evil.txt").is_err());
    assert!(sanitize_entry("a/../c:x").is_err());
    assert!(sanitize_entry("\u{212a}:/x").is_err());
    assert!(sanitize_entry("/\u{e9}").is_err());
    assert_eq!(sanitize_entry("\u{e9}:/x").unwrap().unwrap(), "\u{e9}:/x");
    assert_eq!(sanitize_entry("a/C:/b").unwrap().unwrap(), "a/C:/b");
    for name in ["a\\b", "./a//b/", "x/../y/z", "a/C:/b", "\u{e9}/\u{df}"] {
        let once = sanitize_entry(name).unwrap().unwrap();
        assert_eq!(sanitize_entry(&once).unwrap().unwrap(), once);
    }
    assert!(sanitize_entry("a/..").unwrap().is_none());
    assert_eq!(sanitize_entry("./a/b/../c.txt").unwrap().unwrap(), "a/c.txt");
    assert_eq!(sanitize_entry("dir/").unwrap().unwrap(), "dir");
    assert!(sanitize_entry("").unwrap().is_none());
    assert!(sanitize_entry("./").unwrap().is_none());
    assert_eq!(
        said(sanitize_entry("../escaped.txt")),
        "archive path escapes extraction root: \"../escaped.txt\""
    );
    assert_eq!(
        said(sanitize_entry("C:\\evil.txt")),
        "archive contains absolute path: \"C:\\\\evil.txt\""
    );
    assert!(extract_entry(0, "../escaped.txt", false, 5).is_err());
    assert!(matches!(
        extract_entry(5, "a\\b.txt", false, 7),
        Ok(Unpack::Write { rel, total: 12 }) if rel == "a/b.txt"
    ));
    assert!(matches!(extract_entry(0, "a/", true, 0), Ok(Unpack::MakeDir(d)) if d == "a"));
    assert!(matches!(extract_entry(0, ".", false, 0), Ok(Unpack::Skip)));
    assert_eq!(
        said(extract_entry(MAX_TOTAL_UNCOMPRESSED, "a", false, 1)),
        "archive expands beyond decompression limit"
    );
    assert!(extract_entry(u64::MAX, "a", false, u64::MAX).is_err());
    assert!(extract_entry(MAX_TOTAL_UNCOMPRESSED - 1, "a", false, 1).is_ok());
}

#[test]
fn payload_files_are_located_by_name() {
    let files = list(&["deep/er/Cleo.ASI", "deep/cleo.asi", "other.txt"]);
    assert_eq!(locate_payload_file(&files, "CLEO.asi"), Some(1));
    assert_eq!(locate_payload_file(&files, "none"), None);
    assert_eq!(normalize_dest_name("a\\b"), "a/b");
    let have = vec![("x/cleo.asi".to_string(), "d1".to_string())];
    let pay = |v: &[(&str, &str)]| -> Vec<(String, String)> {
        v.iter().map(|(a, b)| (a.to_string(), b.to_string())).collect()
    };
    let got = collect_deployment("/s", &pay(&[("cleo.asi", "cleo.asi"), ("b", "b")]), &have).unwrap();
    assert_eq!(got.len(), 1);
    assert_eq!(got[0].src, "/s/x/cleo.asi");
    assert_eq!(got[0].sha256, "d1");
    assert_eq!(
        said(collect_deployment("/s", &pay(&[("b", "dir/b.dll"), ("cleo.asi", "cleo.asi")]), &have)),
        "required payload file \"dir/b.dll\" not found in the release archive"
    );
    assert_eq!(
        said(collect_deployment("/s", &Vec::new(), &have)),
        "package declares no payload files"
    );
}

#[test]
fn fetch_asset_verifies_digest_and_heals_corrupt_cache() {
    let good = sha256_text(b"archive");
    let bad = sha256_text(b"garbage-not-the-archive");
    assert_eq!(
        cached_asset("/h", "file:///x/SA.CLEO-v5.4.0.zip", "cleo.sa", "5.4.0"),
        "/h/cache/cleo.sa-5.4.0-SA.CLEO-v5.4.0.zip"
    );
    assert_eq!(fetch_asset(Some(&bad), &good), FetchStep::Download);
    assert_eq!(fetch_asset(None, &good), FetchStep::Download);
    assert_eq!(fetch_asset(Some(&good), &good), FetchStep::UseCached);
    assert!(verify_asset("file:///x/a.zip", &good, &good).is_ok());
    let zeros = "0".repeat(64);
    let err = said(verify_asset("file:///x/a.zip", &zeros, &good));
    assert!(err.contains("checksum mismatch"), "unexpected error: {err}");
    assert_eq!(
        err,
        format!("checksum mismatch for a.zip: expected sha256 {zeros}, got {good}")
    );
    assert_eq!(part_path("/c/a.zip"), "/c/a.zip.part");
    assert_eq!(file_url_path("file:///a/b", false).unwrap(), "/a/b");
    assert_eq!(file_url_path("file:///C:/b", true).unwrap(), "C:/b");
    assert!(file_url_path("https://x", false).is_none());
    assert!(check_asset_size(ASSET_MAX_BYTES).is_ok());
    assert_eq!(
        said(check_asset_size(ASSET_MAX_BYTES + 1)),
        "downloaded asset exceeds 536870912 byte limit"
    );
}

#[test]
fn ensure_payload_raw_single_file_asset() {
    let url = "file:///h/assets/vorbisFile.dll";
    assert_eq!(ensure_payload(false, url), Prepare::Copy);
    assert_eq!(ensure_payload(true, url), Prepare::Ready);
    assert_eq!(ensure_payload(false, "https://x/A.ZIP"), Prepare::Unzip);
    assert_eq!(complete_marker("/h", "raw-pkg", "1.0.0"), "/h/store/raw-pkg/1.0.0/.complete");
}

// ---------------------------------------------------------------------------
// The catalog
// ---------------------------------------------------------------------------

#[test]
fn copies_are_used_while_fresh() {
    assert_eq!(first_source(Some(TTL_SECS - 1), false), Source::Mirror);
    assert_eq!(first_source(Some(TTL_SECS - 1), true), Source::Network);
    assert_eq!(first_source(Some(TTL_SECS), false), Source::Network);
    assert!(mirror_is_stale(None));
    assert_eq!(after_failure("catalog", "u", "/m", true, "offline".into()).unwrap(), Source::Mirror);
    assert_eq!(
        said(after_failure("catalog", "u", "/m", false, "offline".into())),
        "cannot fetch catalog from u and no cached mirror exists at /m: offline"
    );
    assert!(check_size(10, 10).is_ok());
    assert_eq!(said(check_size(11, 10)), "response exceeds 10 byte limit");
}

#[test]
fn layouts_must_be_understood() {
    assert!(check_schema(2, 2, "x").is_ok());
    assert_eq!(
        said(check_schema(3, 2, "package catalog")),
        "package catalog schema 3 is newer than this chef (supports 2) - please upgrade chef"
    );
    let mut old = catalog(Vec::new());
    old.schema = 1;
    assert_eq!(
        said(get_packages(Ok(old))),
        "package catalog schema 1 is outdated (this chef needs 2) - delete the cached copy and refresh"
    );
    let mut lock = empty_lock();
    lock.schema = 9;
    assert!(said(get_lock(Ok(lock))).starts_with("package lock schema 9"));
    assert_eq!(
        said(get_packages(Err("EOF".into()))),
        "packages.json is not valid JSON: EOF"
    );
    assert_eq!(said(get_lock(Err("EOF".into()))), "packages.lock is not valid JSON: EOF");
    assert_eq!(
        refresh_warning("package lock", "offline", "/m"),
        "package lock refresh failed (offline); using cached mirror from /m"
    );
    assert!(load_metadata(Ok(catalog(Vec::new())), other("no".into())).is_err());
    let mut p = package("p", &[]);
    p.versions.push(release("1.0.0", "gone", &[]));
    let (_, _, warnings) =
        load_metadata(get_packages(Ok(catalog(vec![p]))), Ok(empty_lock())).unwrap();
    assert_eq!(
        warnings,
        vec!["no digest for gone (p 1.0.0) - run 'cargo run -p gen_hashes' to regenerate packages.lock"]
    );
}

#[test]
fn digests_identify_files() {
    let mut p = package("p", &[]);
    p.versions.push(release("1.0.0", "u", &["gta-sa"]));
    let pkgs = catalog(vec![p]);
    let mut lock = empty_lock();
    lock.assets.insert(
        "u".into(),
        LockedAsset {
            url: "u".into(),
            sha256: "s".into(),
            files: vec![LockedFile { path: "Dir/File.ASI".into(), sha256: "d".into() }],
        },
    );
    let index = payload_index(&pkgs, &lock);
    assert_eq!(index.len(), 1);
    assert_eq!(identify_digests(&index, "d"), vec![("p", "1.0.0")]);
    assert!(identify_digests(&index, "e").is_empty());
    let names = payload_basenames(&pkgs, &lock, Some("gta-sa"));
    assert_eq!(names.get("file.asi"), Some(&list(&["p"])));
    assert_eq!(payload_basenames(&pkgs, &lock, Some("gta-3")).len(), 0);
}

// ---------------------------------------------------------------------------
// Where things are
// ---------------------------------------------------------------------------

#[test]
fn history_log_rotates_and_appends() {
    let mut place = None;
    set_home_override(&mut place, "/tmp/h".to_string());
    let home = chef_home(&place, Some("/l"), Some("/u"), true);
    assert_eq!(history_path(&home), "/tmp/h/history.log");
    assert!(!history_is_full(HISTORY_MAX_BYTES));
    assert!(history_is_full(HISTORY_MAX_BYTES * 2));
    clear_home_override(&mut place);
    assert_eq!(chef_home(&place, Some("/l"), Some("/u"), true), "/l/chef");
    assert_eq!(chef_home(&place, Some("/l"), Some("/u"), false), "/l/Chef");
    assert_eq!(chef_home(&place, None, Some("/u"), true), "/u/.local/share/chef");
    assert_eq!(chef_home(&place, None, None, true), "./.local/share/chef");
    assert_eq!(state_path("/h"), "/h/state.json");
    assert_eq!(check_state_path("/h"), "/h/update_check.json");
    assert_eq!(tofu_path("/h"), "/h/tofu.json");
    assert_eq!(backup_root_for("/h", "k"), "/h/backups/k");
    assert_eq!(lock_path("/h", "k"), "/h/locks/k.lock");
    assert_ne!(lock_path("/h", "k"), lock_path("/h", "j"));
    assert_eq!(backup_name(7, 0), "7");
    assert_eq!(backup_name(7, 2), "7-2");
}

#[test]
fn game_directories_are_checked() {
    let far = |p: &str| Guarded { path: p.to_string(), here: false };
    let near = |p: &str| Guarded { path: p.to_string(), here: true };
    assert_eq!(
        said(resolve_game_dir("x", None, &far("/h"), &None, &far("/"))),
        "game directory x does not exist"
    );
    assert_eq!(
        said(resolve_game_dir("x", Some("/h"), &near("/h"), &None, &far("/"))),
        "refusing to operate on the data home (/h) as a game directory"
    );
    assert_eq!(
        said(resolve_game_dir("x", Some("/u"), &far("/h"), &Some(near("/u")), &far("/"))),
        "refusing to operate on the user home (/u) as a game directory"
    );
    assert_eq!(
        said(resolve_game_dir("x", Some("/"), &far("/h"), &None, &near("/"))),
        "refusing to operate on the filesystem root (/) as a game directory"
    );
    assert!(paths_equal("a", "b", Some("/c"), Some("/c")));
    assert!(!paths_equal("a", "b", Some("/c"), None));
    assert!(paths_equal("a", "a", None, Some("/c")));
    assert_eq!(family_title("gta-vc"), "GTA Vice City");
    assert_eq!(family_title("x"), "unknown game");
    assert!(detect_game(&catalog(Vec::new()), "/g", &list(&["a.exe"])).unwrap().is_none());
}

#[test]
fn empty_directories_go_from_the_inside_out() {
    let dirs = list(&["CLEO", "CLEO/a", "CLEO/a/b", "CLEO/c"]);
    let dirs: Vec<String> = dirs.iter().map(|d| format!("./{d}")).collect();
    let prune = |dir: &str, files: &[&str]| prune_empty_tree(dir, ".", &dirs, &list(files));
    assert_eq!(prune("./CLEO", &[]), vec!["./CLEO/c", "./CLEO/a/b", "./CLEO/a", "./CLEO"]);
    assert_eq!(prune("./CLEO", &["./CLEO/a/x.txt"]), vec!["./CLEO/c", "./CLEO/a/b"]);
    assert!(prune("./CLEO", &["./CLEO/c/x", "./CLEO/a/b/y"]).is_empty());
    // Directories above go where nothing else is in them.
    assert_eq!(prune("./CLEO/a/b", &["./CLEO/c/x"]), vec!["./CLEO/a/b", "./CLEO/a"]);
    assert_eq!(prune("./CLEO/a/b", &[]), vec!["./CLEO/a/b", "./CLEO/a"]);
    let line = list(&["./x", "./x/y", "./x/y/z"]);
    assert_eq!(
        prune_empty_tree("./x/y/z", ".", &line, &Vec::new()),
        vec!["./x/y/z", "./x/y", "./x"]
    );
    assert_eq!(prune_empty_tree("./x/y/z", "./x", &line, &Vec::new()), vec!["./x/y/z", "./x/y"]);
    // Neither the directory at which clearing stops nor one that is not there.
    assert!(prune_empty_tree("./x", "./x", &line, &Vec::new()).is_empty());
    assert!(prune("./gone", &[]).is_empty());
}

// ---------------------------------------------------------------------------
// Undoing
// ---------------------------------------------------------------------------

fn record(files: &[(&str, &str)], displaced: &[&str]) -> Install {
    Install {
        package: "p".into(),
        version: "1.5.0".into(),
        files: files
            .iter()
            .map(|(p, d)| ManagedFile {
                path: p.to_string(),
                source: String::new(),
                sha256: d.to_string(),
            })
            .collect(),
        owned_dirs: Vec::new(),
        backup: Some("7".into()),
        displaced: list(displaced),
        script: Vec::new(),
        at: 0,
    }
}

#[test]
fn operations_are_undone() {
    let over = Op::Overwrite { to: "a".into(), digest: "d".into(), before: Some("a".into()) };
    let here = |s: &str| Found::Content(s.to_string());
    assert!(matches!(revert_op(&over, &here("d"), true), Revert::Restore { from, to } if from == "a" && to == "a"));
    assert!(matches!(revert_op(&over, &here("d"), false), Revert::Delete { path } if path == "a"));
    assert!(matches!(revert_op(&over, &here("e"), true), Revert::Keep { path } if path == "a"));
    assert!(matches!(revert_op(&over, &Found::Opaque, true), Revert::Keep { .. }));
    assert!(matches!(revert_op(&over, &Found::Nothing, true), Revert::Restore { .. }));
    assert!(matches!(revert_op(&over, &Found::Nothing, false), Revert::Nothing));
    let gone = Op::Delete { path: "b".into(), before: Some("b".into()) };
    assert!(matches!(revert_op(&gone, &Found::Nothing, true), Revert::Restore { .. }));
    assert!(matches!(revert_op(&gone, &Found::Nothing, false), Revert::Nothing));
    let moved = Op::Rename { from: "x".into(), to: "y".into() };
    assert!(matches!(revert_op(&moved, &here("d"), false), Revert::Move { from, to } if from == "y" && to == "x"));
    assert!(matches!(revert_op(&moved, &Found::Nothing, false), Revert::Nothing));
}

#[test]
fn old_records_are_removed_by_their_files() {
    let inst = record(&[("a", "1"), ("b", "2")], &["a"]);
    assert!(!has_script(&inst));
    let mut seen = StrMap::new();
    seen.insert("a".to_string(), Found::Content("1".into()));
    seen.insert("b".to_string(), Found::Content("edited".into()));
    let (deleted, preserved) = legacy_files(&inst, &seen);
    assert_eq!(deleted, vec!["a"]);
    assert_eq!(preserved, vec!["b"]);
    assert_eq!(legacy_restores(&list(&["a", "b", "c"]), &preserved), vec!["a", "c"]);
    assert!(wants_displaced("a", &Vec::new(), &Vec::new(), true, true));
    assert!(!wants_displaced("a", &list(&["a"]), &Vec::new(), true, true));
    assert!(!wants_displaced("a", &Vec::new(), &list(&["a"]), true, true));
    assert!(!wants_displaced("a", &Vec::new(), &Vec::new(), false, true));
    assert!(!wants_displaced("a", &Vec::new(), &Vec::new(), true, false));
}

#[test]
fn files_of_a_removal_are_told_in_order_after_a_script() {
    let pkgs = catalog(Vec::new());
    let mut inst = record(&[], &[]);
    let (kept, back) = (list(&["z", "a"]), list(&["y", "b"]));
    let told = removed_row(&inst, &pkgs, &kept, &back);
    assert_eq!(told.name, "p");
    assert_eq!(told.preserved, vec!["z", "a"]);
    assert_eq!(told.restored, vec!["y", "b"]);
    inst.script.push(Op::Rename { from: "x".into(), to: "y".into() });
    let told = removed_row(&inst, &pkgs, &kept, &back);
    assert_eq!(told.preserved, vec!["a", "z"]);
    assert_eq!(told.restored, vec!["b", "y"]);
}

#[test]
fn removal_asks_for_the_right_version() {
    let mut st = StateFile::fresh();
    let mut installs = StrMap::new();
    installs.insert("p".to_string(), record(&[], &[]));
    st.put_dir("k", GameDirState { installs });
    assert!(remove_install(&st, "k", "p", None, "/g").is_ok());
    assert!(remove_install(&st, "k", "p", Some("1.5"), "/g").is_ok());
    assert!(remove_install(&st, "k", "p", Some("v1.5.0"), "/g").is_ok());
    assert_eq!(
        said(remove_install(&st, "k", "p", Some("1.5.1"), "/g")),
        "installed version of p is 1.5.0, not 1.5.1"
    );
    assert!(remove_install(&st, "k", "p", Some("15"), "/g").is_err());
    assert_eq!(
        said(remove_install(&st, "k", "q", None, "/g")),
        "no installation with id 'q' found in /g"
    );
    assert!(remove_install(&st, "j", "p", None, "/g").is_err());
}

// ---------------------------------------------------------------------------
// What is said
// ---------------------------------------------------------------------------

#[test]
fn errors_are_told() {
    let plain: chef::error::Result<()> = other("oops".into());
    let e = plain.unwrap_err();
    assert_eq!(json_error(&e), "{\"error\":\"oops\"}");
    let deep: chef::error::Result<()> = other_for("outer \"x\"".into(), "inner".into());
    let e = deep.unwrap_err();
    assert_eq!(e.message(), "outer \"x\": inner");
    assert_eq!(json_error(&e), "{\"error\":\"outer \\\"x\\\"\"}");
    let mut none = None;
    let r = write_error(&e, false, &mut none);
    assert_eq!(r.log.unwrap(), "error: outer \"x\": inner");
    assert!(r.print.is_none());
    assert_eq!(r.code, 1);
    let r = write_error(&e, true, &mut none);
    assert_eq!(r.print.unwrap(), "{\"error\":\"outer \\\"x\\\"\"}");
    let done = finish_batch(Some(e)).unwrap_err();
    assert_eq!(done.message(), "operation failed");
    let r = write_error(&done, true, &mut none);
    assert!(r.log.is_none() && r.print.is_none());
    assert_eq!(r.code, 1);
    assert!(finish_batch(None).is_ok());
    match finish_batch(Some(ChefError::Ambiguous(list(&["a"])))) {
        Err(ChefError::Reported(Failure { message, cause })) => {
            assert!(message.contains("did you mean"));
            assert!(cause.is_none());
        }
        other => panic!("{other:?}"),
    }
    let v = message_value("m");
    assert_eq!(v["error"], "m");
}

#[test]
fn lines_about_installs() {
    assert_eq!(installing_text("CLEO", "5.4.0"), "installing CLEO 5.4.0...");
    assert_eq!(installing_text("WidescreenFix", "0.0.0"), "installing WidescreenFix...");
    assert_eq!(installed_text("CLEO", "5.4.0"), "CLEO 5.4.0 installed");
    assert_eq!(
        already_text("CLEO", "5.4.0"),
        "CLEO 5.4.0 is already installed - nothing to do"
    );
    let r = Removed {
        id: "p".into(),
        name: "P".into(),
        version: "1.0.0".into(),
        preserved: list(&["a"]),
        restored: list(&["b"]),
    };
    assert_eq!(
        removed_lines(&r),
        vec![
            "removed P 1.0.0",
            "restored user-modified file: a",
            "restored your original file: b"
        ]
    );
}

#[test]
fn plans_are_printed_in_groups() {
    let product = ResolvedVersion {
        id: "sal".into(),
        name: "Silent's ASI Loader".into(),
        version: "1.3.0".into(),
        release: None,
        url: "u".into(),
        asset_sha256: "s".into(),
        payload: Vec::new(),
        dependencies: Vec::new(),
        slot: Vec::new(),
    };
    let step = |path: &str, op: PlanOp, note: &str| PlanStep {
        path: path.to_string(),
        op,
        note: note.to_string(),
    };
    let steps = vec![
        step("new.txt", PlanOp::Add, ""),
        step("scripts/global.ini", PlanOp::Backup, "user file backed up, restored on 'chef remove'"),
        step("vorbisFile.dll", PlanOp::Backup, "user file backed up, restored on 'chef remove'"),
        step("vorbisHooked.dll", PlanOp::Keep, "already installed"),
    ];
    assert_eq!(
        print_plan(&product, &steps),
        [
            "Silent's ASI Loader 1.3.0\n",
            "  add:\n",
            "    new.txt\n",
            "  backup:\n",
            "    scripts/global.ini  user file backed up, restored on 'chef remove'\n",
            "    vorbisFile.dll      user file backed up, restored on 'chef remove'\n",
            "  keep:\n",
            "    vorbisHooked.dll    already installed\n",
        ]
        .concat()
    );
    let long = "x".repeat(60);
    let text = print_plan(&product, &vec![step(&long, PlanOp::Add, "")]);
    assert!(text.contains(&format!("    {}...\n", "x".repeat(51))), "{text}");
}

// ---------------------------------------------------------------------------
// The program itself
// ---------------------------------------------------------------------------

#[test]
fn newer_programs_are_noticed() {
    let cur = ver("1.2.0");
    let new = latest_version(Some("v1.10.0")).unwrap();
    assert_eq!(upgrade_step(&new, &cur, false), UpgradeStep::Upgrade);
    assert_eq!(upgrade_step(&new, &cur, true), UpgradeStep::Tell { available: true });
    assert_eq!(upgrade_step(&cur, &cur, false), UpgradeStep::UpToDate);
    assert_eq!(upgrade_step(&cur, &new, true), UpgradeStep::Tell { available: false });
    assert!(latest_version(None).is_err());
    assert_eq!(
        upgrade_text(&new, &cur, true),
        "new version v1.10.0 available (current: v1.2.0) - run 'chef upgrade'"
    );
    assert_eq!(upgrade_text(&cur, &cur, false), "chef is up to date (v1.2.0)");
    assert_eq!(
        update_notice(&new, &cur).unwrap(),
        "new version v1.10.0 available - run 'chef upgrade'"
    );
    assert!(update_notice(&cur, &cur).is_none());
    assert_eq!(parse_tag(Some("vv1.0.0")).unwrap().text(), "1.0.0");
    assert!(parse_tag(Some("V1.0.0")).is_none());
    assert!(parse_tag(None).is_none());
    assert_eq!(chef::version::parse_tag(Some(" V1.0.0")).unwrap().text(), "1.0.0");
    assert!(notice_is_due(CHECK_INTERVAL_SECS, 0));
    assert!(!notice_is_due(CHECK_INTERVAL_SECS, 1));
    assert!(!notice_is_due(0, 5));
    let v = check_value(&new, &cur, Some(true));
    assert_eq!(v["updateAvailable"], true);
    assert_eq!(v["latest"], "1.10.0");
    assert!(check_value(&new, &cur, None).get("updateAvailable").is_none());
    assert_eq!(upgraded_value(&new, &cur)["to"], "1.10.0");
}

#[test]
fn program_archives_are_verified() {
    let digest = sha256_text(b"abc");
    let mut seen = StrMap::new();
    seen.insert("old.zip".to_string(), digest.clone());
    let side = format!("  {}  chef.zip\n", digest.to_uppercase());
    assert_eq!(sidecar_digest("chef.zip", &side).unwrap(), digest);
    assert_eq!(
        said(sidecar_digest("chef.zip", "abc")),
        "sidecar digest for chef.zip is malformed"
    );
    assert!(matches!(
        expected_digest("old.zip", None, &seen),
        Ok(DigestSource::Known(d)) if d == digest
    ));
    assert!(matches!(expected_digest("new.zip", None, &seen), Ok(DigestSource::TrustFirst)));
    assert!(expected_digest("new.zip", Some("?"), &seen).is_err());
    assert_eq!(
        said(verify_upgrade("c.zip", "a", "b")),
        "checksum mismatch for c.zip: expected a, got b"
    );
    assert!(verify_upgrade("c.zip", "a", "a").is_ok());
    let stem = asset_stem("windows", "x86_64").unwrap();
    assert!(asset_stem("linux", "x86_64").is_none());
    let asset = |n: &str, u: Option<&str>| ReleaseAsset {
        name: Some(n.to_string()),
        url: u.map(|s| s.to_string()),
    };
    let name = format!("{stem}.zip");
    assert_eq!(
        upgrade_asset(&vec![asset("notes.txt", None), asset(&name, Some("u"))], stem).unwrap(),
        (name.clone(), "u".to_string())
    );
    assert_eq!(
        said(upgrade_asset(&vec![asset(&name, None)], stem)),
        format!("asset {name} lacks a download URL")
    );
    assert_eq!(
        said(upgrade_asset(&Vec::new(), stem)),
        format!("release has no asset matching {stem}.*")
    );
    assert!(is_zip("a.zip") && !is_zip("a.tar.gz"));
    let paths = list(&["README.md", "x/chef.txt", "x/chef", "y/chef", "chef/z"]);
    assert_eq!(extract_binary(&paths, false).unwrap(), "x/chef");
    assert_eq!(extract_binary(&list(&["chef.exe"]), true).unwrap(), "chef.exe");
    assert_eq!(said(extract_binary(&paths, true)), "archive does not contain chef.exe");
    assert_eq!(said(extract_binary(&Vec::new(), false)), "archive does not contain chef");
}

// ---------------------------------------------------------------------------
// Texts and maps
// ---------------------------------------------------------------------------

#[test]
fn lists_of_texts() {
    assert_eq!(sort_texts(&list(&["b", "a", "b", "A"])), vec!["A", "a", "b", "b"]);
    assert_eq!(drop_repeats(&list(&["a", "b", "b"])), vec!["a", "b"]);
    assert_eq!(split("a.b-c", ".-"), vec!["a", "b", "c"]);
    let mut m = StrMap::new();
    m.insert("b".to_string(), 1);
    m.insert("a".to_string(), 2);
    m.insert("b".to_string(), 3);
    assert_eq!(m.len(), 2);
    assert_eq!(m.key_at(0), "a");
    assert_eq!(*m.value_at(1), 3);
    assert_eq!(m.remove("b"), Some(3));
    assert_eq!(m.remove("b"), None);
    assert!(!m.contains_key("b"));
}
