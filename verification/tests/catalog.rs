use chef::assets::{current_platform, select_asset_url};
use chef::catalog::{
    existent_slot, LockFile, LockedAsset, LockedFile, PackageEntry, PackagesFile, PostInstall,
    VersionEntry,
};
use chef::error::ChefError;
use chef::identify::payload_basenames;
use chef::names::{narrow_by_game, normalize, resolve, Answer};
use chef::offers::available_versions;
use chef::resolution::resolve_spec;
use chef::strmap::StrMap;
use chef::version::{display_version, list_version, version_word};

// ---------------------------------------------------------------------------
// Fixtures
// ---------------------------------------------------------------------------

fn list(v: &[&str]) -> Vec<String> {
    v.iter().map(|s| s.to_string()).collect()
}

fn version(version: &str, assets: &[&str], games: &[&str]) -> VersionEntry {
    VersionEntry {
        version: version.to_string(),
        preview: false,
        release: None,
        assets: list(assets),
        exclude: Vec::new(),
        games: list(games),
        dependencies: Vec::new(),
        postinstall: None,
    }
}

fn renaming(mut v: VersionEntry, from: &str, to: &str) -> VersionEntry {
    let mut rename = StrMap::new();
    rename.insert(from.to_string(), to.to_string());
    v.postinstall = Some(PostInstall { rename });
    v
}

fn package(
    id: &str,
    name: &str,
    aliases: &[&str],
    replaces: &[&str],
    versions: Vec<VersionEntry>,
) -> PackageEntry {
    PackageEntry {
        id: id.to_string(),
        name: name.to_string(),
        aliases: list(aliases),
        replaces: list(replaces),
        versions,
    }
}

fn catalog(games: &[(&str, &str)], packages: Vec<PackageEntry>) -> PackagesFile {
    let mut m = StrMap::new();
    for (exe, family) in games {
        m.insert(exe.to_string(), family.to_string());
    }
    PackagesFile { schema: 2, packages, games: m }
}

fn lock_of(assets: &[(&str, &[(&str, &str)])]) -> LockFile {
    let mut m = StrMap::new();
    for (url, files) in assets {
        m.insert(
            url.to_string(),
            LockedAsset {
                url: url.to_string(),
                sha256: "0".repeat(64),
                files: files
                    .iter()
                    .map(|(p, d)| LockedFile { path: p.to_string(), sha256: d.to_string() })
                    .collect(),
            },
        );
    }
    LockFile { schema: 2, generated_at: 0, assets: m }
}

fn unit_pkgs() -> PackagesFile {
    catalog(
        &[("gta_sa.exe", "gta-sa")],
        vec![
            package(
                "cleo.sa",
                "CLEO",
                &["cleo5", "cleo4"],
                &[],
                vec![version("5.4.0", &["u"], &["gta-sa"])],
            ),
            package(
                "cleo.vc",
                "VC.CLEO",
                &["vc.cleo"],
                &[],
                vec![version("2.2.0", &["u"], &["gta-vc"])],
            ),
            package(
                "cleo.iii",
                "III.CLEO",
                &["iii.cleo"],
                &[],
                vec![version("2.2.0", &["u"], &["gta-3"])],
            ),
            package(
                "cleo-redux.sa",
                "CLEO Redux",
                &["cleo-redux", "cleoredux"],
                &[],
                vec![version("1.5.0", &["u"], &["gta-sa"])],
            ),
            package(
                "cleo-redux.vc.iii",
                "CLEO Redux",
                &["cleo-redux", "cleoredux"],
                &[],
                vec![version("1.5.0", &["u"], &["gta-3", "gta-vc"])],
            ),
            package(
                "silents-asi-loader.sa",
                "Silent's ASI Loader",
                &["sal", "asi-loader"],
                &["universal-asi-loader.sa.vc.iii"],
                vec![version("1.5.0", &["u"], &["gta-sa"])],
            ),
            package(
                "universal-asi-loader.sa.vc.iii",
                "Universal ASI Loader",
                &["ual", "asi-loader"],
                &["silents-asi-loader.sa"],
                vec![
                    renaming(
                        version("9.7.4", &["u"], &["gta-sa"]),
                        "dinput8.dll",
                        "vorbisFile.dll",
                    ),
                    version("9.7.4", &["u"], &["gta-3", "gta-vc"]),
                ],
            ),
        ],
    )
}

fn unit_lock() -> LockFile {
    lock_of(&[("u", &[])])
}

fn platform() -> &'static str {
    current_platform("windows", "x86_64")
}

fn resolved(
    pkgs: &PackagesFile,
    lock: &LockFile,
    id: &str,
    game: Option<&str>,
    spec: Option<&str>,
) -> chef::error::Result<String> {
    resolve_spec(pkgs, lock, id, game, spec, platform()).map(|r| r.version)
}

fn first_hit(pkgs: &PackagesFile, s: &str) -> String {
    resolve(pkgs, s, None).unwrap()[0].pkg.id.clone()
}

fn id_of(
    pkgs: &PackagesFile,
    name: &str,
    game: Option<&str>,
) -> chef::error::Result<String> {
    chef::names::resolve_id(pkgs, name, game, &Answer::Silent)
}

// ---------------------------------------------------------------------------
// Names
// ---------------------------------------------------------------------------

#[test]
fn normalization_strips_non_alphanumerics() {
    assert_eq!(normalize("Silent's ASI Loader"), "silentsasiloader");
    assert_eq!(normalize("cleo-redux"), "cleoredux");
    assert_eq!(normalize("CLEO 5"), "cleo5");
}

#[test]
fn alias_matching_precedence() {
    let pkgs = unit_pkgs();
    // Ids.
    assert_eq!(first_hit(&pkgs, "cleo.sa"), "cleo.sa");
    assert_eq!(first_hit(&pkgs, "silents-asi-loader.sa"), "silents-asi-loader.sa");
    // Aliases.
    assert_eq!(first_hit(&pkgs, "cleo5"), "cleo.sa");
    assert_eq!(first_hit(&pkgs, "cleo4"), "cleo.sa");
    assert_eq!(first_hit(&pkgs, "vc.cleo"), "cleo.vc");
    assert_eq!(first_hit(&pkgs, "iii.cleo"), "cleo.iii");
    assert_eq!(first_hit(&pkgs, "sal"), "silents-asi-loader.sa");
    assert_eq!(first_hit(&pkgs, "ual"), "universal-asi-loader.sa.vc.iii");
    // A common front.
    let hits = resolve(&pkgs, "cleo-red", None).unwrap();
    assert_eq!(hits.len(), 2, "cleo-red matches both redux ids");
    // The game narrows them down.
    let norm = narrow_by_game(hits, &pkgs, Some("gta-sa"));
    assert_eq!(norm.len(), 1);
    assert_eq!(norm[0].pkg.id, "cleo-redux.sa");
    // A shared alias.
    let amb = resolve(&pkgs, "asi-loader", None).unwrap();
    assert_eq!(amb.len(), 2, "asi-loader must match both loader packages");
    assert!(amb.iter().any(|m| m.pkg.id == "silents-asi-loader.sa"));
    assert!(amb.iter().any(|m| m.pkg.id == "universal-asi-loader.sa.vc.iii"));
    // A slip of the finger.
    assert_eq!(first_hit(&pkgs, "cleoreduxx"), "cleo-redux.sa");
}

fn alias_keys(pkg: &PackageEntry) -> Vec<String> {
    let mut keys = vec![normalize(&pkg.id), normalize(&pkg.name)];
    keys.extend(pkg.aliases.iter().map(|a| normalize(a)));
    keys.sort();
    keys.dedup();
    keys.retain(|k| !k.is_empty());
    keys
}

fn alias_conflicts(pkgs: &PackagesFile) -> Vec<(String, String)> {
    let mut owner: Vec<(String, &str)> = Vec::new();
    let mut conflicts = Vec::new();
    for p in &pkgs.packages {
        for key in alias_keys(p) {
            match owner.iter().find(|(k, _)| *k == key) {
                Some((_, prev)) if *prev != p.id.as_str() => {
                    conflicts.push((key, format!("{} vs {}", prev, p.id)));
                }
                _ => owner.push((key, &p.id)),
            }
        }
    }
    conflicts
}

#[test]
fn catalog_has_no_unexpected_duplicate_normalized_aliases() {
    let pkgs = unit_pkgs();
    let conflicts = alias_conflicts(&pkgs);
    let shared: Vec<String> = conflicts.iter().map(|(k, _)| k.clone()).collect();
    assert!(
        shared.iter().all(|k| k == "asiloader"
            || k == "cleoredux"
            || k == "cleoreduxvc"
            || k == "cleoreduxs"),
        "unexpected alias conflicts: {conflicts:?}"
    );
}

#[test]
fn ambiguous_match_returns_candidates_exit2() {
    let pkgs = unit_pkgs();
    let hits = resolve(&pkgs, "asi", None).unwrap();
    assert_eq!(hits.len(), 2, "'asi' must match both loader packages");
    assert!(resolve(&pkgs, "zzzz", None)
        .unwrap_err()
        .message()
        .contains("unknown package"));
    let amb = ChefError::Ambiguous(vec!["a".into(), "b".into()]);
    assert!(amb.message().contains("did you mean"));
    assert_eq!(amb.exit_code(), 2);
}

#[test]
fn resolve_id_is_game_strict_and_ambiguous() {
    let pkgs = unit_pkgs();
    let err = id_of(&pkgs, "cleo.vc", Some("gta-sa")).unwrap_err();
    assert!(
        err.message().contains("unknown package"),
        "wrong-game name must be rejected: {}",
        err.message()
    );
    assert!(id_of(&pkgs, "zzz", None).unwrap_err().message().contains("unknown package"));
    assert_eq!(id_of(&pkgs, "cleo", Some("gta-sa")).unwrap(), "cleo.sa");
    assert_eq!(id_of(&pkgs, "vc.cleo", Some("gta-vc")).unwrap(), "cleo.vc");
    assert!(
        id_of(&pkgs, "vc.cleo", Some("gta-sa")).is_err(),
        "vc alias must be rejected in an SA game dir"
    );
    assert_eq!(
        id_of(&pkgs, "asi-loader", Some("gta-vc")).unwrap(),
        "universal-asi-loader.sa.vc.iii"
    );
    match id_of(&pkgs, "asi-loader", Some("gta-sa")) {
        Err(ChefError::Ambiguous(cands)) => {
            assert_eq!(cands.len(), 2);
        }
        other => panic!("expected Ambiguous, got {other:?}"),
    }
}

#[test]
fn display_never_shows_internal_ids_only_public_names() {
    let pkgs = unit_pkgs();
    for p in &pkgs.packages {
        assert_ne!(p.id, p.name, "internal id must differ from public name for {}", p.id);
        assert_eq!(pkgs.pkg(&p.id).unwrap().name, p.name);
    }
    let ids = [
        "cleo.sa",
        "cleo-redux.sa",
        "silents-asi-loader.sa",
        "universal-asi-loader.sa.vc.iii",
    ];
    let mut titles: Vec<String> =
        ids.iter().map(|id| pkgs.pkg(id).unwrap().name.clone()).collect();
    titles.sort();
    titles.dedup();
    assert_eq!(
        titles,
        vec![
            "CLEO".to_string(),
            "CLEO Redux".to_string(),
            "Silent's ASI Loader".to_string(),
            "Universal ASI Loader".to_string()
        ]
    );
    for t in &titles {
        assert!(!t.contains("cleo.sa"), "public name must not contain internal id: {t}");
        assert!(!t.contains("silents-asi-loader"), "public name must not contain internal id: {t}");
        assert!(
            !t.contains("universal-asi-loader"),
            "public name must not contain internal id: {t}"
        );
    }
    let vc_ids = ["cleo.vc", "cleo-redux.vc.iii", "universal-asi-loader.sa.vc.iii"];
    let mut vc_titles: Vec<String> =
        vc_ids.iter().map(|id| pkgs.pkg(id).unwrap().name.clone()).collect();
    vc_titles.sort();
    vc_titles.dedup();
    assert_eq!(
        vc_titles,
        vec![
            "CLEO Redux".to_string(),
            "Universal ASI Loader".to_string(),
            "VC.CLEO".to_string()
        ]
    );
}

// ---------------------------------------------------------------------------
// Releases
// ---------------------------------------------------------------------------

#[test]
fn resolve_spec_picks_stable_preview_latest_exact_prefix() {
    let pkgs = catalog(
        &[],
        vec![package(
            "p",
            "P",
            &[],
            &[],
            vec![
                version("1.0.0", &["u1"], &[]),
                version("1.5.0", &["u2"], &[]),
                version("2.0.0-rc.1", &["u3"], &[]),
            ],
        )],
    );
    let lock = lock_of(&[("u1", &[]), ("u2", &[]), ("u3", &[])]);
    assert_eq!(resolved(&pkgs, &lock, "p", None, None).unwrap(), "1.5.0");
    assert_eq!(resolved(&pkgs, &lock, "p", None, Some("stable")).unwrap(), "1.5.0");
    assert_eq!(resolved(&pkgs, &lock, "p", None, Some("preview")).unwrap(), "2.0.0-rc.1");
    assert_eq!(resolved(&pkgs, &lock, "p", None, Some("latest")).unwrap(), "2.0.0-rc.1");
    assert_eq!(resolved(&pkgs, &lock, "p", None, Some("1.5.0")).unwrap(), "1.5.0");
    assert_eq!(resolved(&pkgs, &lock, "p", None, Some("1")).unwrap(), "1.5.0");
    let err = resolved(&pkgs, &lock, "p", None, Some("9")).unwrap_err().message();
    assert!(err.contains("available majors"), "{err}");
    assert_eq!(
        err,
        "version '9' does not match any tracked release (available majors: 1, 2)"
    );
}

#[test]
fn resolution_says_what_is_wrong() {
    let pkgs = catalog(
        &[],
        vec![
            package("p", "P", &[], &[], vec![version("1.0.0", &["u1"], &[])]),
            package("none", "None", &[], &[], Vec::new()),
            package("bare", "Bare", &[], &[], vec![version("1.0.0", &[], &[])]),
            package("lost", "Lost", &[], &[], vec![version("1.0.0", &["gone"], &[])]),
        ],
    );
    let lock = lock_of(&[("u1", &[])]);
    let said = |id: &str, spec: &str| resolved(&pkgs, &lock, id, None, Some(spec)).unwrap_err().message();
    assert_eq!(
        said("p", "2.0.0"),
        "version 2.0.0 not tracked (available: 1.0.0)"
    );
    assert_eq!(said("p", "preview"), "no preview releases available for p");
    assert_eq!(
        said("p", "what?"),
        "invalid version spec 'what?' (expected latest, stable, preview, or a version like 5, 5.4, 4.4.4)"
    );
    assert_eq!(
        said("none", "stable"),
        "no tracked releases for none - run 'chef menu --refresh' or check packages.json"
    );
    assert_eq!(said("bare", "stable"), "version declares no assets");
    assert_eq!(
        said("lost", "stable"),
        "no digest recorded for gone - regenerate packages.lock (tools/gen_hashes)"
    );
    assert!(resolved(&pkgs, &lock, "unheard-of", None, None).is_err());
}

#[test]
fn versions_are_game_filtered() {
    let pkgs = unit_pkgs();
    let lock = unit_lock();
    assert!(available_versions(&pkgs, &lock, "cleo.sa", Some("gta-vc")).is_empty());
    assert!(!available_versions(&pkgs, &lock, "cleo.sa", Some("gta-sa")).is_empty());
    assert!(
        !available_versions(&pkgs, &lock, "universal-asi-loader.sa.vc.iii", Some("gta-vc"))
            .is_empty()
    );
}

#[test]
fn replaces_slots_are_symmetric() {
    let pkgs = unit_pkgs();
    let a = existent_slot(&pkgs, "silents-asi-loader.sa");
    assert!(a.contains(&"silents-asi-loader.sa".to_string()));
    assert!(a.contains(&"universal-asi-loader.sa.vc.iii".to_string()));
    let b = existent_slot(&pkgs, "universal-asi-loader.sa.vc.iii");
    assert!(b.contains(&"silents-asi-loader.sa".to_string()));
    assert_eq!(existent_slot(&pkgs, "nope"), vec!["nope".to_string()]);
}

fn wildcard_match(pattern: &str, text: &str) -> bool {
    fn rec(p: &[u8], t: &[u8]) -> bool {
        match (p.first(), t.first()) {
            (None, None) => true,
            (Some(b'*'), _) => rec(&p[1..], t) || (!t.is_empty() && rec(p, &t[1..])),
            (Some(a), Some(b)) if a.eq_ignore_ascii_case(b) => rec(&p[1..], &t[1..]),
            _ => false,
        }
    }
    rec(pattern.as_bytes(), text.as_bytes())
}

#[test]
fn generic_version_renders_hidden() {
    assert_eq!(display_version("0.0.0"), "");
    assert_eq!(display_version("5.4.0"), "5.4.0");
    assert_eq!(version_word("0.0.0"), "");
    assert_eq!(version_word("5.4.0"), " 5.4.0");
    assert_eq!(list_version("0.0.0"), "<no version>");
    assert_eq!(list_version("5.4.0"), "5.4.0");
}

#[test]
fn wildcard_and_asset_selection() {
    assert!(wildcard_match("*cleo5*.zip", "CLEO5.zip"));
    assert!(!wildcard_match("*cleo4*.zip", "CLEO5.zip"));
    let assets = vec![
        "https://example.invalid/releases/Ultimate-ASI-Loader_x64.zip".to_string(),
        "https://example.invalid/releases/Ultimate-ASI-Loader_Win32.zip".to_string(),
    ];
    let picked = select_asset_url(&assets, platform()).unwrap();
    let expected = "https://example.invalid/releases/Ultimate-ASI-Loader_Win32.zip";
    assert_eq!(picked, expected);
    assert_eq!(select_asset_url(&["only.zip".to_string()], platform()).unwrap(), "only.zip");
    // No archive is marked for the machine: the first one.
    assert_eq!(
        select_asset_url(&assets, current_platform("windows", "aarch64")).unwrap(),
        assets[0]
    );
    assert_eq!(
        select_asset_url(&[], platform()).unwrap_err().message(),
        "version declares no assets"
    );
}

#[test]
fn parse_loose_dot_beta_versions_sort_as_preview() {
    let pkgs = catalog(
        &[],
        vec![package(
            "p",
            "P",
            &[],
            &[],
            vec![version("2.0.0.beta", &["u"], &[]), version("1.0.0", &["u"], &[])],
        )],
    );
    let lock = unit_lock();
    assert_eq!(resolved(&pkgs, &lock, "p", None, Some("preview")).unwrap(), "2.0.0-beta");
    assert_eq!(
        resolved(&pkgs, &lock, "p", None, None).unwrap(),
        "1.0.0",
        "stable resolution must skip the dot-beta entry"
    );
}

// ---------------------------------------------------------------------------
// Games
// ---------------------------------------------------------------------------

#[test]
fn game_specific_all_commands_are_filtered() {
    let pkgs = unit_pkgs();
    let lock = unit_lock();
    let seen_in = |game: Option<&str>| -> Vec<String> {
        pkgs.sorted_ids()
            .into_iter()
            .filter(|id| !available_versions(&pkgs, &lock, id, game).is_empty())
            .map(|s| s.to_string())
            .collect()
    };
    assert_eq!(
        seen_in(Some("gta-sa")),
        vec![
            "cleo-redux.sa",
            "cleo.sa",
            "silents-asi-loader.sa",
            "universal-asi-loader.sa.vc.iii"
        ]
    );
    assert_eq!(
        seen_in(Some("gta-vc")),
        vec!["cleo-redux.vc.iii", "cleo.vc", "universal-asi-loader.sa.vc.iii"]
    );
    assert_eq!(
        seen_in(Some("gta-3")),
        vec!["cleo-redux.vc.iii", "cleo.iii", "universal-asi-loader.sa.vc.iii"]
    );
    assert_eq!(seen_in(None).len(), pkgs.packages.len());

    assert!(
        payload_basenames(&pkgs, &lock, Some("gta-sa")).len() > 0
            || !available_versions(&pkgs, &lock, "cleo.sa", Some("gta-sa")).is_empty()
    );

    for (game, expected) in [
        ("gta-sa", "cleo-redux.sa"),
        ("gta-vc", "cleo-redux.vc.iii"),
        ("gta-3", "cleo-redux.vc.iii"),
    ] {
        let hits = resolve(&pkgs, "cleo-redux", None).unwrap();
        assert_eq!(hits.len(), 2);
        let narrowed = narrow_by_game(hits, &pkgs, Some(game));
        assert_eq!(narrowed.len(), 1, "cleo-redux must narrow to 1 in {game}");
        assert_eq!(narrowed[0].pkg.id, expected);
    }
    for (game, expected) in [
        ("gta-sa", "silents-asi-loader.sa"),
        ("gta-vc", "universal-asi-loader.sa.vc.iii"),
    ] {
        let hits = resolve(&pkgs, "asi-loader", None).unwrap();
        assert_eq!(hits.len(), 2);
        let narrowed = narrow_by_game(hits, &pkgs, Some(game));
        if game == "gta-sa" {
            assert_eq!(narrowed.len(), 2);
        } else {
            assert_eq!(narrowed[0].pkg.id, expected);
        }
    }

    assert!(resolved(&pkgs, &lock, "cleo.sa", Some("gta-vc"), None).is_err());
    assert!(resolved(&pkgs, &lock, "cleo.vc", Some("gta-sa"), None).is_err());
    assert!(resolved(&pkgs, &lock, "cleo.iii", Some("gta-sa"), None).is_err());
    assert!(resolved(&pkgs, &lock, "silents-asi-loader.sa", Some("gta-vc"), None).is_err());
    assert!(resolved(&pkgs, &lock, "cleo.sa", Some("gta-sa"), None).is_ok());
    assert!(resolved(&pkgs, &lock, "cleo.vc", Some("gta-vc"), None).is_ok());
    assert!(resolved(&pkgs, &lock, "cleo.iii", Some("gta-3"), None).is_ok());
    assert!(
        resolved(&pkgs, &lock, "universal-asi-loader.sa.vc.iii", Some("gta-vc"), None).is_ok()
    );
}

#[test]
fn renamed_files_are_deployed_under_their_new_names() {
    let pkgs = unit_pkgs();
    let lock = lock_of(&[("u", &[("dinput8.dll", "d1")])]);
    let sa = resolve_spec(
        &pkgs,
        &lock,
        "universal-asi-loader.sa.vc.iii",
        Some("gta-sa"),
        None,
        platform(),
    )
    .unwrap();
    assert_eq!(
        sa.payload,
        vec![("vorbisFile.dll".to_string(), "dinput8.dll".to_string())]
    );
    let vc = resolve_spec(
        &pkgs,
        &lock,
        "universal-asi-loader.sa.vc.iii",
        Some("gta-vc"),
        None,
        platform(),
    )
    .unwrap();
    assert_eq!(vc.payload, vec![("dinput8.dll".to_string(), "dinput8.dll".to_string())]);
    assert_eq!(sa.slot, vec!["universal-asi-loader.sa.vc.iii", "silents-asi-loader.sa"]);
    assert_eq!(sa.store_key(), "universal-asi-loader.sa.vc.iii");
}
