use std::collections::BTreeMap;

use chef::add::{add_value, answer_offer, collect_deployment, plan_requests, Offered};
use chef::assets::current_platform;
use chef::catalog::{
    LockFile, LockedAsset, LockedFile, PackageEntry, PackagesFile, PostInstall, VersionEntry,
};
use chef::check::{check_install, prune_stale_state};
use chef::commands::{finish_batch, removal_requests, requests, split_pkg_spec, Cmd};
use chef::deploy::{
    deploy, install_record, paths_to_look_at, previous_backup, record_install, rollback_deletes,
    rollback_report, rollback_restores, DeployFile, DeployOutcome, DeployRequest,
};
use chef::digest::{dir_hash_key, sha256_text};
use chef::download::{ensure_payload, Prepare};
use chef::emit::{
    emit_json, emit_json_error, message_value, set_capture, take_capture, write_error, JsonOutput,
};
use chef::error::{other, ChefError, Result};
use chef::fetch::{get_lock, get_packages, load_metadata};
use chef::layout::{backup_name, store_root, store_version_dir};
use chef::lock::{Attempt, Lock, LockStep};
use chef::menu::{command_ref, menu_table, menu_value, narrow_rows, rows_for_all, visible_rows};
use chef::names::{resolve_id, Answer};
use chef::offers::available_versions;
use chef::plan::plan_deploy;
use chef::remove::{
    forget_install, next_to_undo, remove_install, remove_value, removed_row, RemoveRun, Removed,
};
use chef::resolution::{resolve_spec, ResolvedVersion};
use chef::session::{
    found_installed, install_one, missing_dependencies, payload_for, Action, AddRun, Event,
    InstallStep, Payload,
};
use chef::state::{GameDirState, Install, StateFile, SUPPORTED_STATE_SCHEMA};
use chef::strmap::StrMap;
use chef::target::{detect_game, resolve_game_dir, Guarded};
use chef::undo::{revert_op, settle, Found, Revert};
use chef::update::{
    update_hint, update_needed, update_status, update_targets, update_value, UpdateRow,
    UpdateStatus,
};
use chef::which::{
    detail_rows, details_text, is_ignored_config, key_of, newest_match, summarize_package, version_files,
    which_rows, which_text, which_value, with_hint,
};

// ---------------------------------------------------------------------------
// A game directory, a store and backup folders in memory
// ---------------------------------------------------------------------------

const HOME: &str = "/home/chef/data";
const GAME: &str = "/games/san-andreas";

type Tree = BTreeMap<String, Vec<u8>>;

struct World {
    pkgs: PackagesFile,
    lock: LockFile,
    archives: BTreeMap<String, Vec<(String, Vec<u8>)>>,
    game: Tree,
    store: BTreeMap<String, Tree>,
    backups: BTreeMap<String, Tree>,
    state: StateFile,
    locked: bool,
    clock: u64,
    capture: Option<JsonOutput>,
    said: Vec<String>,
    writes: usize,
    /// So many files of a deployment are written before the disk is full.
    room: Option<usize>,
}

fn list(v: &[&str]) -> Vec<String> {
    v.iter().map(|s| s.to_string()).collect()
}

fn release(version: &str, url: &str, games: &[&str], deps: &[&str]) -> VersionEntry {
    VersionEntry {
        version: version.to_string(),
        preview: false,
        release: None,
        assets: list(&[url]),
        exclude: Vec::new(),
        games: list(games),
        dependencies: list(deps),
        postinstall: None,
    }
}

fn renaming(mut v: VersionEntry, from: &str, to: &str) -> VersionEntry {
    let mut rename = StrMap::new();
    rename.insert(from.to_string(), to.to_string());
    v.postinstall = Some(PostInstall { rename });
    v
}

fn package(
    id: &str,
    name: &str,
    aliases: &[&str],
    replaces: &[&str],
    versions: Vec<VersionEntry>,
) -> PackageEntry {
    PackageEntry {
        id: id.to_string(),
        name: name.to_string(),
        aliases: list(aliases),
        replaces: list(replaces),
        versions,
    }
}

fn platform() -> &'static str {
    current_platform("windows", "x86_64")
}

fn key() -> String {
    dir_hash_key(GAME)
}

const LOADERS: &[&str] = &["silents-asi-loader.sa", "universal-asi-loader.sa.vc.iii"];

fn world(packages: Vec<PackageEntry>, zips: &[(&str, &[(&str, &[u8])])]) -> World {
    let mut games = StrMap::new();
    games.insert("gta_sa.exe".to_string(), "gta-sa".to_string());
    let mut assets = StrMap::new();
    let mut archives = BTreeMap::new();
    for (url, files) in zips {
        let files: Vec<(String, Vec<u8>)> =
            files.iter().map(|(p, b)| (p.to_string(), b.to_vec())).collect();
        let mut whole = Vec::new();
        for (p, b) in &files {
            whole.extend_from_slice(p.as_bytes());
            whole.extend_from_slice(b);
        }
        let mut inner: Vec<(String, String)> =
            files.iter().map(|(p, b)| (p.clone(), sha256_text(b))).collect();
        inner.sort();
        assets.insert(
            url.to_string(),
            LockedAsset {
                url: url.to_string(),
                sha256: sha256_text(&whole),
                files: inner
                    .into_iter()
                    .map(|(path, sha256)| LockedFile { path, sha256 })
                    .collect(),
            },
        );
        archives.insert(url.to_string(), files);
    }
    let pkgs = PackagesFile { schema: 2, packages, games };
    let lock = LockFile { schema: 2, generated_at: 0, assets };
    let (pkgs, lock, warnings) = load_metadata(get_packages(Ok(pkgs)), get_lock(Ok(lock))).unwrap();
    assert!(warnings.is_empty(), "{warnings:?}");
    let mut game = Tree::new();
    game.insert("gta_sa.exe".to_string(), b"MZ\x90\x00stub".to_vec());
    game.insert("user_save.dat".to_string(), b"user data - do not delete".to_vec());
    World {
        pkgs,
        lock,
        archives,
        game,
        store: BTreeMap::new(),
        backups: BTreeMap::new(),
        state: StateFile::fresh(),
        locked: false,
        clock: 1000,
        capture: None,
        said: Vec::new(),
        writes: 0,
        room: None,
    }
}

fn setup() -> World {
    world(
        vec![
            package(
                "cleo.sa",
                "CLEO",
                &["cleo5", "cleo4", "cleo", "cleo-sa"],
                &[],
                vec![
                    release("5.4.0", "file:///cleo5.zip", &["gta-sa"], LOADERS),
                    release("5.3.0", "file:///cleo53.zip", &["gta-sa"], LOADERS),
                    release("5.5.0-beta.1", "file:///cleo55b.zip", &["gta-sa"], LOADERS),
                    release("4.4.4", "file:///CLEO4.zip", &["gta-sa"], LOADERS),
                ],
            ),
            package(
                "cleo.vc",
                "VC.CLEO",
                &["vc.cleo", "cleo-vc"],
                &[],
                vec![release("2.2.0", "file:///CLEO4.zip", &["gta-vc"], &[])],
            ),
            package(
                "cleo.iii",
                "III.CLEO",
                &["iii.cleo", "cleo-iii"],
                &[],
                vec![release("2.2.0", "file:///CLEO4.zip", &["gta-3"], &[])],
            ),
            package(
                "cleo-redux.sa",
                "CLEO Redux",
                &["cleo-redux", "cleoredux"],
                &[],
                vec![release("1.5.0", "file:///redux.zip", &["gta-sa"], &[])],
            ),
            package(
                "cleo-redux.vc.iii",
                "CLEO Redux",
                &["cleo-redux", "cleoredux"],
                &[],
                vec![release("1.5.0", "file:///redux.zip", &["gta-3", "gta-vc"], &[])],
            ),
            package(
                "silents-asi-loader.sa",
                "Silent's ASI Loader",
                &["sal", "silents-asi-loader", "asi-loader"],
                &["universal-asi-loader.sa.vc.iii"],
                vec![release("1.5.0", "file:///SAL.zip", &["gta-sa"], &[])],
            ),
            package(
                "universal-asi-loader.sa.vc.iii",
                "Universal ASI Loader",
                &["ual", "universal-asi-loader", "asi-loader"],
                &["silents-asi-loader.sa"],
                vec![
                    renaming(
                        release("9.7.4", "file:///UAL.zip", &["gta-sa"], &[]),
                        "dinput8.dll",
                        "vorbisFile.dll",
                    ),
                    release("9.7.4", "file:///UAL.zip", &["gta-3", "gta-vc"], &[]),
                ],
            ),
        ],
        &[
            (
                "file:///cleo5.zip",
                &[
                    ("cleo.asi", b"MZ-cleo5-asi"),
                    ("CLEO/cleo_plugins/Example.cleo", b"dll"),
                    ("README.md", b"CLEO 5"),
                ],
            ),
            ("file:///cleo53.zip", &[("cleo.asi", b"MZ-cleo5-older")]),
            ("file:///cleo55b.zip", &[("cleo.asi", b"MZ-cleo5-preview")]),
            ("file:///CLEO4.zip", &[("cleo.asi", b"MZ-cleo4-asi"), ("CLEO/notes.txt", b"x")]),
            (
                "file:///redux.zip",
                &[("cleo_redux.asi", b"MZ-redux-asi"), ("cleo_redux.toml", b"log=0")],
            ),
            (
                "file:///SAL.zip",
                &[("vorbisFile.dll", b"MZ-sal-dll"), ("vorbisHooked.dll", b"MZ-sal-hooked")],
            ),
            ("file:///UAL.zip", &[("dinput8.dll", b"MZ-ual-dll")]),
        ],
    )
}

fn setup_scenario() -> World {
    world(
        vec![
            package(
                "cleo.sa",
                "CLEO",
                &["cleo5", "cleo4", "cleo-sa"],
                &[],
                vec![
                    release("5.4.0", "file:///cleo5.zip", &["gta-sa"], LOADERS),
                    release("4.4.4", "file:///CLEO4.zip", &["gta-sa"], LOADERS),
                ],
            ),
            package(
                "cleo-redux.sa",
                "CLEO Redux",
                &["cleo-redux", "cleoredux"],
                &[],
                vec![release("1.5.0", "file:///redux.zip", &["gta-sa"], &[])],
            ),
            package(
                "silents-asi-loader.sa",
                "Silent's ASI Loader",
                &["sal", "silents-asi-loader", "asi-loader"],
                &["universal-asi-loader.sa.vc.iii"],
                vec![
                    release("1.3.0", "file:///SAL13.zip", &["gta-sa"], &[]),
                    release("1.5.0-beta.1", "file:///SAL15b.zip", &["gta-sa"], &[]),
                ],
            ),
            package(
                "universal-asi-loader.sa.vc.iii",
                "Universal ASI Loader",
                &["ual", "universal-asi-loader", "asi-loader"],
                &["silents-asi-loader.sa"],
                vec![
                    renaming(
                        release("9.7.4", "file:///UAL.zip", &["gta-sa"], &[]),
                        "dinput8.dll",
                        "vorbisFile.dll",
                    ),
                    release("9.7.4", "file:///UAL.zip", &["gta-3", "gta-vc"], &[]),
                ],
            ),
        ],
        &[
            (
                "file:///cleo5.zip",
                &[("cleo.asi", b"MZ-cleo5-asi"), ("CLEO/cleo_plugins/Example.cleo", b"dll")],
            ),
            ("file:///CLEO4.zip", &[("cleo.asi", b"MZ-cleo4-asi")]),
            ("file:///redux.zip", &[("cleo_redux.asi", b"MZ-redux"), ("cleo_redux.toml", b"log=0")]),
            (
                "file:///SAL13.zip",
                &[("vorbisFile.dll", b"MZ-sal13"), ("vorbisHooked.dll", b"MZ-sal13h")],
            ),
            (
                "file:///SAL15b.zip",
                &[("vorbisFile.dll", b"MZ-sal15b"), ("vorbisHooked.dll", b"MZ-sal15bh")],
            ),
            ("file:///UAL.zip", &[("dinput8.dll", b"MZ-ual")]),
        ],
    )
}

impl World {
    fn seen(&self) -> StrMap<Found> {
        let mut m = StrMap::new();
        for (p, b) in &self.game {
            m.insert(p.clone(), Found::Content(sha256_text(b)));
        }
        m
    }

    fn root_files(&self) -> Vec<(String, String)> {
        self.game
            .iter()
            .filter(|(p, _)| !p.contains('/'))
            .map(|(p, b)| (p.clone(), sha256_text(b)))
            .collect()
    }

    fn names(&self) -> Vec<String> {
        self.root_files().into_iter().map(|(p, _)| p).collect()
    }

    fn tree(&self) -> StrMap<String> {
        let mut m = StrMap::new();
        for (p, b) in &self.game {
            m.insert(key_of(p), sha256_text(b));
        }
        m
    }

    fn dir(&self) -> Option<&GameDirState> {
        self.state.dir_state(&key())
    }

    fn install(&self, id: &str) -> Option<&Install> {
        self.state.install_of(&key(), id)
    }

    fn version(&self, id: &str) -> String {
        self.install(id).unwrap().version.clone()
    }

    fn family(&self) -> Result<Option<String>> {
        Ok(detect_game(&self.pkgs, GAME, &self.names())?.map(|g| g.family))
    }

    fn acquire(&mut self) -> Result<()> {
        let attempt = if self.locked { Attempt::Taken(Some(1)) } else { Attempt::Created };
        match Lock::acquire("game.lock", attempt)? {
            LockStep::Held(_) => {
                self.locked = true;
                Ok(())
            }
            LockStep::TakeOver => unreachable!(),
        }
    }

    fn release_lock(&mut self) {
        self.locked = false;
    }

    fn store_dir(&self, p: &ResolvedVersion) -> String {
        store_version_dir(HOME, p.store_key(), &p.version)
    }

    fn prepare(&mut self, p: &ResolvedVersion) -> Result<Vec<DeployFile>> {
        let dir = self.store_dir(p);
        match ensure_payload(self.store.contains_key(&dir), &p.url) {
            Prepare::Ready => {}
            Prepare::Unzip | Prepare::Copy => {
                let files = self.archives[&p.url].iter().cloned().collect();
                self.store.insert(dir.clone(), files);
            }
        }
        self.collect(p)
    }

    fn collect(&self, p: &ResolvedVersion) -> Result<Vec<DeployFile>> {
        let dir = self.store_dir(p);
        let files: Vec<(String, String)> =
            self.store[&dir].iter().map(|(path, b)| (path.clone(), sha256_text(b))).collect();
        collect_deployment(&dir, &p.payload, &files)
    }

    fn source(&self, f: &DeployFile) -> Option<Vec<u8>> {
        for (dir, files) in &self.store {
            if let Some(rel) = f.src.strip_prefix(&format!("{dir}/")) {
                return files.get(rel).cloned();
            }
        }
        None
    }

    fn deploy(&mut self, p: &ResolvedVersion, files: &Vec<DeployFile>) -> Result<DeployOutcome> {
        for f in files {
            if self.source(f).is_none() {
                return other(format!("source payload missing: {}", f.src));
            }
        }
        let req = DeployRequest {
            product: p,
            slot: &p.slot,
            version: &p.version,
            files,
            dry_run: false,
        };
        let all = self.seen();
        let mut seen = StrMap::new();
        for path in paths_to_look_at(&req, self.dir()) {
            if let Some(Found::Content(d)) = all.get(&path) {
                seen.insert(path, Found::Content(d.clone()));
            }
        }
        let old = previous_backup(self.dir(), &p.slot);
        let kept: Vec<String> = match &old {
            Some((b, displaced)) => {
                displaced.iter().filter(|d| self.backups[b].contains_key(*d)).cloned().collect()
            }
            None => Vec::new(),
        };
        let plan = deploy(&req, self.dir(), &seen, &kept);
        let aside: Tree = plan.aside.iter().map(|s| (s.clone(), self.game[s].clone())).collect();
        let mut backup = None;
        if plan.needs_backup {
            let mut tried = 0;
            while self.backups.contains_key(&backup_name(self.clock, tried)) {
                tried += 1;
            }
            let name = backup_name(self.clock, tried);
            let mut tree = Tree::new();
            for s in &plan.snapshots {
                if let Some(b) = self.game.get(s) {
                    tree.insert(s.clone(), b.clone());
                }
            }
            for c in &plan.carried {
                let b = self.backups[&old.as_ref().unwrap().0][c].clone();
                tree.insert(c.clone(), b);
            }
            self.backups.insert(name.clone(), tree);
            backup = Some(name);
        }
        for r in &plan.removals {
            self.game.remove(r);
        }
        for (i, f) in files.iter().enumerate() {
            if self.room == Some(i) {
                let snaps = match &backup {
                    Some(b) => self.backups[b].clone(),
                    None => Tree::new(),
                };
                let mut restored = Vec::new();
                for (s, from_aside) in rollback_restores(&plan) {
                    let from = if from_aside { &aside } else { &snaps };
                    self.game.insert(s.clone(), from[&s].clone());
                    restored.push((s, true));
                }
                let mut deleted = Vec::new();
                for d in rollback_deletes(files, &plan) {
                    if self.game.remove(&d).is_some() {
                        deleted.push(d);
                    }
                }
                return other(rollback_report("disk full", &restored, &deleted));
            }
            let bytes = self.source(f).unwrap();
            self.game.insert(f.dest_rel.clone(), bytes);
            self.writes += 1;
        }
        let saved: Vec<String> = match &backup {
            Some(b) => self.backups[b].keys().cloned().collect(),
            None => Vec::new(),
        };
        let record =
            install_record(&req, &plan, &seen, &saved, backup, &store_root(HOME), self.clock);
        record_install(&mut self.state, &key(), &p.slot, &p.id, record);
        self.clock += 1;
        Ok(DeployOutcome {
            replaced: plan.previous,
            preserved_modified: plan.preserved,
            displaced: plan.displaced,
        })
    }

    fn add(&mut self, pkgs: Vec<String>, dry_run: bool, json: bool) -> Result<()> {
        let game = self.family()?;
        let game = game.as_deref();
        let asked = requests(&pkgs);
        let answers: Vec<Answer> = asked.iter().map(|_| Answer::Silent).collect();
        let plan =
            plan_requests(&self.pkgs, &self.lock, &asked, &answers, game, platform())?;
        let missing =
            missing_dependencies(&plan, &self.pkgs, &self.lock, game, self.dir(), &self.names());
        let mut run = AddRun::new(plan, missing, dry_run);
        loop {
            match run.next(&self.pkgs) {
                Action::Say(m) => {
                    self.said.push(m);
                    run.advance(Event::Said, &self.pkgs);
                }
                Action::Ask { title, options, slot, .. } => {
                    match answer_offer(&title, &options, &slot, &Answer::Silent) {
                        Offered::Take(_) => unreachable!(),
                        Offered::Warn(m) => self.said.push(m),
                    }
                    run.advance(Event::Declined, &self.pkgs);
                }
                Action::Install(i) => {
                    let event = self.look_after(&run.plan[i], dry_run)?;
                    run.advance(event, &self.pkgs);
                }
                Action::Finish => break,
            }
        }
        if json {
            emit_json(&add_value(&run.rows), &mut self.capture);
        }
        Ok(())
    }

    fn look_after(&mut self, p: &ResolvedVersion, dry_run: bool) -> Result<Event> {
        if let Some(e) = found_installed(p, self.dir(), &self.seen()) {
            return Ok(e);
        }
        let complete = self.store.contains_key(&self.store_dir(p));
        let files = match payload_for(dry_run, complete) {
            Payload::Store => self.collect(p)?,
            Payload::Unknown => Vec::new(),
            Payload::Fetch => self.prepare(p)?,
        };
        match install_one(p, self.dir(), &self.seen(), &files, complete, dry_run) {
            InstallStep::Planned(steps) => Ok(Event::Planned(steps)),
            InstallStep::Deploy => {
                self.acquire()?;
                let done = self.deploy(p, &files);
                self.release_lock();
                done?;
                Ok(Event::Installed)
            }
        }
    }

    fn undo(&mut self, inst: &Install) -> (Vec<String>, Vec<String>) {
        let mut preserved = Vec::new();
        let mut restored = Vec::new();
        let snaps = match &inst.backup {
            Some(b) => self.backups[b].clone(),
            None => Tree::new(),
        };
        let mut done = 0;
        while let Some(op) = next_to_undo(inst, done) {
            let (path, before) = match op {
                chef::state::Op::Overwrite { to, before, .. } => (to, before.clone()),
                chef::state::Op::Delete { path, before } => (path, before.clone()),
                chef::state::Op::Rename { to, .. } => (to, None),
            };
            let here = match self.game.get(path) {
                Some(b) => Found::Content(sha256_text(b)),
                None => Found::Nothing,
            };
            let there = before.is_some_and(|b| snaps.contains_key(&b));
            let r = revert_op(op, &here, there);
            match &r {
                Revert::Nothing | Revert::Keep { .. } => {}
                Revert::Restore { from, to } => {
                    self.game.insert(to.clone(), snaps[from].clone());
                }
                Revert::Delete { path } => {
                    self.game.remove(path);
                }
                Revert::Move { from, to } => {
                    let b = self.game.remove(from).unwrap();
                    self.game.insert(to.clone(), b);
                }
            }
            settle(&r, true, &mut preserved, &mut restored);
            done += 1;
        }
        (preserved, restored)
    }

    fn remove_one(&mut self, name: &str, expect: Option<&str>) -> Result<Removed> {
        let game = self.family()?;
        let id = resolve_id(&self.pkgs, name, game.as_deref(), &Answer::Silent)?;
        self.acquire()?;
        let found = remove_install(&self.state, &key(), &id, expect, GAME).map(|i| i.copy());
        let inst = match found {
            Ok(i) => i,
            Err(e) => {
                self.release_lock();
                return Err(e);
            }
        };
        let (preserved, restored) = self.undo(&inst);
        forget_install(&mut self.state, &key(), &id);
        self.release_lock();
        Ok(removed_row(&inst, &self.pkgs, &preserved, &restored))
    }

    fn remove(&mut self, pkgs: Vec<String>, json: bool) -> Result<()> {
        let wanted = match removal_requests(&pkgs) {
            Err(e) => return finish_batch(Some(e)),
            Ok(w) => w,
        };
        let mut run = RemoveRun::new(wanted);
        while let Some(i) = run.next() {
            let (name, expect) = &run.wanted[i];
            let outcome = self.remove_one(name, expect.as_deref());
            if let (Err(e), true) = (&outcome, json) {
                emit_json_error(&message_value(&e.message()), &mut self.capture);
            }
            run.advance(outcome);
        }
        if json {
            if let Some(v) = remove_value(&run.removed) {
                emit_json(&v, &mut self.capture);
            }
        }
        finish_batch(run.first)
    }

    fn update(&mut self, pkg: Option<String>, dry_run: bool, json: bool) -> Result<()> {
        let game = self.family()?;
        let game = game.as_deref();
        let ids =
            update_targets(&self.pkgs, pkg.as_deref(), game, self.dir(), &Answer::Silent)?;
        let mut rows = Vec::new();
        for id in ids {
            let product =
                resolve_spec(&self.pkgs, &self.lock, &id, game, Some("stable"), platform())?;
            let from = self.version(&id);
            let status = update_status(update_needed(&from, &product.version), dry_run);
            let mut plan = Vec::new();
            match status {
                UpdateStatus::UpToDate => {}
                UpdateStatus::WouldUpdate => {
                    plan = plan_deploy(&product, self.dir(), &self.seen(), &Vec::new());
                }
                UpdateStatus::Updated => {
                    let files = self.prepare(&product)?;
                    self.deploy(&product, &files)?;
                }
            }
            rows.push(UpdateRow {
                id,
                name: product.name.clone(),
                from,
                to: product.version.clone(),
                status,
                plan,
            });
        }
        if json {
            emit_json(&update_value(&rows, dry_run), &mut self.capture);
        }
        Ok(())
    }

    fn which(&mut self, pkg: Option<String>, json: bool) -> Result<String> {
        let game = self.family()?;
        let game = game.as_deref();
        match pkg {
            Some(arg) => {
                let (name, spec) = split_pkg_spec(&arg);
                let id = resolve_id(&self.pkgs, &name, game, &Answer::Silent)?;
                let installed = self.install(&id).map(|i| i.version.clone());
                let rows = detail_rows(
                    &self.pkgs,
                    &self.lock,
                    &id,
                    game,
                    installed.as_deref(),
                    spec.as_deref(),
                    &self.tree(),
                );
                Ok(details_text(&rows))
            }
            None => {
                let ids: Vec<String> =
                    self.pkgs.sorted_ids().into_iter().map(|s| s.to_string()).collect();
                let rows =
                    which_rows(&ids, &self.tree(), &self.pkgs, &self.lock, game, self.dir());
                let rows: Vec<_> = rows
                    .into_iter()
                    .map(|r| {
                        let newest = resolve_spec(
                            &self.pkgs,
                            &self.lock,
                            &r.id,
                            game,
                            Some("stable"),
                            platform(),
                        )
                        .ok()
                        .map(|p| p.version);
                        with_hint(r, newest.as_deref())
                    })
                    .collect();
                if json {
                    emit_json(&which_value(GAME, game, &rows, &self.pkgs), &mut self.capture);
                }
                Ok(which_text(GAME, Some("GTA San Andreas"), &rows, &self.pkgs))
            }
        }
    }

    fn menu(&mut self, pkg: Option<String>, json: bool) -> Result<String> {
        let game = self.family().ok().flatten();
        let game = game.as_deref();
        let seen = self.seen();
        let root = self.root_files();
        prune_stale_state(&mut self.state, &key(), &seen, &root);
        let all = match pkg {
            None => rows_for_all(&self.pkgs),
            Some(name) => narrow_rows(&self.pkgs, &name, game)?,
        };
        let rows = visible_rows(&all, &self.pkgs, &self.lock, game);
        if json {
            emit_json(&menu_value(Some(GAME), &rows, &self.pkgs, &self.lock, game), &mut self.capture);
        }
        Ok(menu_table(&rows, &self.pkgs, &self.lock, game))
    }

    fn run_mode(&mut self, cmd: Cmd, json: bool) -> Result<()> {
        match cmd {
            Cmd::Add { pkgs, dry_run, .. } => self.add(pkgs, dry_run, json),
            Cmd::Remove { pkgs, .. } => self.remove(pkgs, json),
            Cmd::Menu { pkg, .. } => self.menu(pkg, json).map(|_| ()),
            Cmd::Which { pkg, .. } => self.which(pkg, json).map(|_| ()),
            Cmd::Update { pkg, dry_run, .. } => self.update(pkg, dry_run, json),
            Cmd::Upgrade { .. } => unreachable!(),
        }
    }

    fn run(&mut self, cmd: Cmd) -> Result<()> {
        self.run_mode(cmd, false)
    }

    fn run_ok(&mut self, cmd: Cmd) {
        if let Err(e) = self.run(cmd) {
            panic!("command failed: {}", e.message());
        }
    }

    fn json_doc(&mut self, cmd: Cmd) -> serde_json::Value {
        set_capture(&mut self.capture, JsonOutput::default());
        if let Err(e) = self.run_mode(cmd, true) {
            panic!("command failed: {}", e.message());
        }
        let cap = take_capture(&mut self.capture).expect("capture installed").out;
        assert_eq!(cap.len(), 1, "exactly one JSON document on stdout");
        serde_json::from_str(&cap[0]).expect("stdout document must parse as JSON")
    }

    fn wipe(&mut self, front: &str) {
        self.game.retain(|p, _| !p.starts_with(front));
    }
}

fn add_cmd(pkgs: &[&str]) -> Cmd {
    Cmd::Add { pkgs: list(pkgs), dir: Some(GAME.to_string()), dry_run: false }
}

fn dry_cmd(pkgs: &[&str]) -> Cmd {
    Cmd::Add { pkgs: list(pkgs), dir: Some(GAME.to_string()), dry_run: true }
}

fn remove_cmd(pkgs: &[&str]) -> Cmd {
    Cmd::Remove { pkgs: list(pkgs), dir: Some(GAME.to_string()) }
}

fn which_cmd(pkg: Option<&str>) -> Cmd {
    Cmd::Which { pkg: pkg.map(|s| s.to_string()), dir: Some(GAME.to_string()) }
}

fn menu_cmd(pkg: Option<&str>) -> Cmd {
    Cmd::Menu { pkg: pkg.map(|s| s.to_string()), dir: Some(GAME.to_string()), refresh: false }
}

fn update_cmd(pkg: Option<&str>, dry_run: bool) -> Cmd {
    Cmd::Update { pkg: pkg.map(|s| s.to_string()), dir: Some(GAME.to_string()), dry_run }
}

// ---------------------------------------------------------------------------
// The life of an install
// ---------------------------------------------------------------------------

#[test]
fn state_roundtrip_and_schema_guard() {
    let load = |read| StateFile::load("/h/state.json", read);
    let back = load(Some(Ok(StateFile { schema: 1, dirs: StrMap::new() }))).unwrap();
    assert_eq!(back.schema, 1);
    let newer = StateFile { schema: 99, dirs: StrMap::new() };
    assert!(newer.schema > SUPPORTED_STATE_SCHEMA);
    assert_eq!(
        load(Some(Ok(newer))).unwrap_err().message(),
        "state schema 99 is newer than supported 2 - please upgrade chef"
    );
    assert_eq!(
        load(Some(Err("EOF".into()))).unwrap_err().message(),
        "chef state at /h/state.json is corrupt (EOF); inspect the backups folder in the chef data directory before deleting it"
    );
    assert_eq!(load(None).unwrap().schema, SUPPORTED_STATE_SCHEMA);
}

#[test]
fn lock_serializes_and_expires() {
    let mut t = setup();
    t.acquire().unwrap();
    assert!(t.acquire().is_err());
    t.release_lock();
    assert!(t.acquire().is_ok());
    // A lock that nobody has touched for long is taken over.
    assert!(matches!(Lock::acquire("l", Attempt::Taken(Some(30))), Err(_)));
    assert!(matches!(Lock::acquire("l", Attempt::Taken(Some(31))), Ok(LockStep::TakeOver)));
    assert!(matches!(Lock::acquire("l", Attempt::Taken(None)), Ok(LockStep::TakeOver)));
    match Lock::acquire("l", Attempt::Created) {
        Ok(LockStep::Held(l)) => assert_eq!(l.path, "l"),
        other => panic!("{other:?}"),
    }
    assert!(Lock::acquire("l", Attempt::Failed("denied".into())).is_err());
}

#[test]
fn integration_use_which_remove_lifecycle() {
    let mut t = setup();
    t.run_ok(add_cmd(&["cleo@stable", "ual"]));
    let sa = t.install("cleo.sa").expect("cleo.sa installed");
    assert_eq!(sa.package, "cleo.sa");
    assert_eq!(sa.version, "5.4.0");
    assert!(t.install("universal-asi-loader.sa.vc.iii").is_some());
    assert!(t.game.contains_key("cleo.asi"));
    assert_eq!(t.game["vorbisFile.dll"], b"MZ-ual-dll");

    t.run_ok(which_cmd(Some("cleo")));
    assert!(t.run(remove_cmd(&["cleo@9.9.9"])).is_err());

    t.run_ok(remove_cmd(&["universal-asi-loader"]));
    assert!(t.install("universal-asi-loader.sa.vc.iii").is_none());

    t.run_ok(remove_cmd(&["cleo"]));
    assert!(!t.game.contains_key("cleo.asi"));
    assert!(!t.game.keys().any(|p| p.starts_with("CLEO")));
    assert!(t.game.contains_key("gta_sa.exe"));
}

#[test]
fn integration_use_same_version_is_noop() {
    let mut t = setup();
    t.run_ok(add_cmd(&["cleo@5"]));
    let writes = t.writes;
    t.run_ok(add_cmd(&["cleo@5"]));
    assert_eq!(t.writes, writes, "re-install of same version must not touch files");
    t.game.insert("cleo.asi".into(), b"user-edited".to_vec());
    t.run_ok(add_cmd(&["cleo@5"]));
    assert_ne!(
        t.game["cleo.asi"], b"user-edited",
        "modified file must be replaced by the pristine payload"
    );
    t.run_ok(add_cmd(&["cleo@4"]));
    assert_eq!(t.version("cleo.sa"), "4.4.4");
}

#[test]
fn integration_same_id_replacement_and_backup_restore() {
    let mut t = setup();
    t.run_ok(add_cmd(&["cleo@5.4.0"]));
    t.run_ok(add_cmd(&["cleo@4"]));
    let inst = t.install("cleo.sa").unwrap();
    assert_eq!(inst.package, "cleo.sa");
    assert_eq!(inst.version, "4.4.4");
    assert!(inst.backup.is_some(), "replacement snapshots the occupant");
    t.run_ok(remove_cmd(&["cleo"]));
    assert_eq!(
        t.game["cleo.asi"], b"MZ-cleo5-asi",
        "backup of replaced occupant restored"
    );
}

#[test]
fn integration_different_ids_coexist() {
    let mut t = setup();
    t.run_ok(add_cmd(&["cleo@5"]));
    t.run_ok(add_cmd(&["cleo-redux"]));
    assert!(t.install("cleo.sa").is_some());
    assert!(t.install("cleo-redux.sa").is_some());
    t.run_ok(remove_cmd(&["cleo"]));
    assert!(t.game.contains_key("cleo_redux.asi"));
}

#[test]
fn integration_loader_singletons_replace_each_other() {
    let mut t = setup();
    t.run_ok(add_cmd(&["cleo@5", "sal"]));
    assert_eq!(t.version("silents-asi-loader.sa"), "1.5.0");
    t.run_ok(add_cmd(&["universal-asi-loader"]));
    assert_eq!(t.version("universal-asi-loader.sa.vc.iii"), "9.7.4");
    assert!(t.install("silents-asi-loader.sa").is_none());
    assert_eq!(t.game["vorbisFile.dll"], b"MZ-ual-dll");
    assert!(!t.game.contains_key("vorbisHooked.dll"));
    assert!(!t.game.contains_key("vorbishooked.dll"));
    assert!(!t.game.contains_key("dinput8.dll"));
}

#[test]
fn integration_dry_run_performs_no_mutation() {
    let mut t = setup();
    let before = t.game.clone();
    t.run_ok(dry_cmd(&["cleo"]));
    assert_eq!(before.len(), t.game.len());
    assert_eq!(before, t.game);
    assert!(t.dir().is_none() || t.dir().unwrap().installs.len() == 0);
}

#[test]
fn integration_unmanaged_files_are_preserved() {
    let mut t = setup();
    t.game.insert("cleo.asi".into(), b"user-made".to_vec());
    t.run_ok(add_cmd(&["cleo@5"]));
    assert_ne!(
        t.game["cleo.asi"], b"user-made",
        "deployed file must replace the user's copy"
    );
    t.run_ok(remove_cmd(&["cleo"]));
    assert_eq!(
        t.game["cleo.asi"], b"user-made",
        "displaced user file must be restored on remove"
    );
    t.game.remove("cleo.asi");
    t.run_ok(add_cmd(&["cleo@5"]));
    t.game.insert("cleo.asi".into(), b"user-edited-managed-file".to_vec());
    t.run_ok(remove_cmd(&["cleo"]));
    assert_eq!(
        t.game["cleo.asi"], b"user-edited-managed-file",
        "user-modified managed file must survive removal"
    );
}

#[test]
fn integration_failed_deployment_leaves_state_intact() {
    let mut t = setup();
    t.run_ok(add_cmd(&["cleo@5"]));
    let before = t.version("cleo.sa");
    let vdir = store_version_dir(HOME, "cleo.sa", "5.4.0");
    assert_eq!(vdir, format!("{HOME}/store/cleo.sa/5.4.0"));
    let product =
        resolve_spec(&t.pkgs, &t.lock, "cleo.sa", Some("gta-sa"), Some("5.4.0"), platform())
            .unwrap();
    let files = vec![DeployFile {
        dest_rel: "cleo.asi".into(),
        src: format!("{HOME}/store/cleo.sa/does-not-exist/cleo.asi"),
        sha256: "0".repeat(64),
    }];
    t.acquire().unwrap();
    let res = t.deploy(&product, &files);
    assert!(res.is_err());
    t.release_lock();
    assert_eq!(t.version("cleo.sa"), before, "previous state untouched after failure");
    assert!(t.game.contains_key("cleo.asi"), "payload untouched");

    // The disk is full before the last file of another version is written.
    let game = t.game.clone();
    t.room = Some(1);
    let e = t.run(add_cmd(&["cleo@4"])).unwrap_err();
    assert!(
        e.message().starts_with(
            "rolled back - previous state intact\ndeployment failed: disk full\n  restored snapshot: "
        ),
        "{}",
        e.message()
    );
    assert_eq!(t.version("cleo.sa"), before);
    assert_eq!(t.game, game);
}

#[test]
fn edited_files_come_back() {
    let mut t = setup();
    t.run_ok(add_cmd(&["cleo@5"]));
    t.game.insert("cleo.asi".into(), b"user-edited".to_vec());
    let edited = t.game.clone();

    // A failed replacement leaves the edit in place.
    t.room = Some(1);
    assert!(t.run(add_cmd(&["cleo@4"])).is_err());
    assert_eq!(t.game, edited);
    assert_eq!(t.version("cleo.sa"), "5.4.0");

    // One that succeeds keeps it for the removal.
    t.room = None;
    t.run_ok(add_cmd(&["cleo@4"]));
    assert_eq!(t.game["cleo.asi"], b"MZ-cleo4-asi");
    t.run_ok(remove_cmd(&["cleo"]));
    assert_eq!(t.game["cleo.asi"], b"user-edited");
}

#[test]
fn a_failed_replacement_keeps_the_install_at_a_user_path() {
    let mut t = setup();
    t.game.insert("cleo.asi".into(), b"user-made".to_vec());
    t.run_ok(add_cmd(&["cleo@5"]));
    let before = t.game.clone();
    let p =
        resolve_spec(&t.pkgs, &t.lock, "cleo.sa", Some("gta-sa"), Some("4"), platform()).unwrap();
    let (name, displaced) = previous_backup(t.dir(), &p.slot).unwrap();
    assert_eq!(t.backups[&name]["cleo.asi"], b"user-made");
    assert_eq!(displaced, vec!["cleo.asi"]);
    // The backup folder takes the file of the user, the installed one is kept
    // elsewhere.
    let files = t.prepare(&p).unwrap();
    let req = DeployRequest {
        product: &p,
        slot: &p.slot,
        version: &p.version,
        files: &files,
        dry_run: false,
    };
    let plan = deploy(&req, t.dir(), &t.seen(), &displaced);
    assert_eq!(plan.carried, vec!["cleo.asi"]);
    assert_eq!(plan.aside, vec!["cleo.asi"]);
    assert!(rollback_restores(&plan).contains(&("cleo.asi".to_string(), true)));

    t.room = Some(1);
    assert!(t.run(add_cmd(&["cleo@4"])).is_err());
    assert_eq!(t.game, before);
    t.room = None;
    t.run_ok(add_cmd(&["cleo@4"]));
    t.run_ok(remove_cmd(&["cleo"]));
    assert_eq!(t.game["cleo.asi"], b"user-made");
}

#[test]
fn files_of_a_second_install_in_the_slot_come_back() {
    let mut t = setup();
    t.run_ok(add_cmd(&["ual"]));
    // A record of the other loader stands beside it.
    let mut u = setup();
    u.run_ok(add_cmd(&["sal"]));
    let mut installs = StrMap::new();
    installs.insert("universal-asi-loader.sa.vc.iii".to_string(), t.install(LOADERS[1]).unwrap().copy());
    installs.insert("silents-asi-loader.sa".to_string(), u.install(LOADERS[0]).unwrap().copy());
    t.state.put_dir(&key(), GameDirState { installs });
    t.game.insert("vorbisHooked.dll".into(), b"MZ-sal-hooked".to_vec());
    let before = t.game.clone();
    t.game.insert("vorbisFile.dll".into(), b"edited".to_vec());
    t.room = Some(1);
    assert!(t.run(add_cmd(&["sal"])).is_err());
    assert_eq!(t.game["vorbisFile.dll"], b"edited");
    assert_eq!(t.game["vorbisHooked.dll"], before["vorbisHooked.dll"]);
}

#[test]
fn adding_again_is_told_in_one_row() {
    let mut t = setup();
    t.run_ok(add_cmd(&["cleo@5"]));
    let (game, clock) = (t.game.clone(), t.clock);
    let doc = t.json_doc(add_cmd(&["cleo@5"]));
    let rows = doc["add"].as_array().unwrap().clone();
    assert_eq!(rows.len(), 1);
    assert_eq!(rows[0]["status"], "already");
    assert_eq!(t.game, game);
    assert_eq!(t.clock, clock);
    t.game.insert("cleo.asi".into(), b"edited".to_vec());
    t.run_ok(add_cmd(&["cleo@5"]));
    assert_eq!(t.game["cleo.asi"], b"MZ-cleo5-asi");
}

#[test]
fn a_dry_run_fetches_nothing() {
    assert_eq!(payload_for(true, true), Payload::Store);
    assert_eq!(payload_for(true, false), Payload::Unknown);
    assert_eq!(payload_for(false, true), Payload::Fetch);
    assert_eq!(payload_for(false, false), Payload::Fetch);
    let mut t = setup();
    t.run_ok(dry_cmd(&["cleo@5"]));
    assert!(t.store.is_empty());
    assert!(t.install("cleo.sa").is_none());
}

#[test]
fn one_bad_argument_keeps_the_others_from_being_installed() {
    let mut t = setup();
    let before = t.game.clone();
    let e = t.run(add_cmd(&["cleo@5", "cleo@99", "no-such-thing"])).unwrap_err();
    assert!(e.message().contains("99"), "{}", e.message());
    assert_eq!(t.game, before);
    assert!(t.install("cleo.sa").is_none());
    // Only what was answered for is planned.
    let asked = vec![("cleo".to_string(), Some("5".to_string())), ("nope".to_string(), None)];
    let plan = plan_requests(
        &t.pkgs,
        &t.lock,
        &asked,
        &vec![Answer::Silent],
        Some("gta-sa"),
        platform(),
    )
    .unwrap();
    assert_eq!(plan.len(), 1);
    assert_eq!((plan[0].id.as_str(), plan[0].version.as_str()), ("cleo.sa", "5.4.0"));
}

#[test]
fn a_removal_keeps_its_first_failure() {
    let row = |id: &str| Removed {
        id: id.into(),
        name: id.into(),
        version: "1".into(),
        preserved: Vec::new(),
        restored: Vec::new(),
    };
    let wanted: Vec<(String, Option<String>)> =
        ["a", "b", "c", "d"].iter().map(|n| (n.to_string(), None)).collect();
    let mut run = RemoveRun::new(wanted);
    let outcomes = vec![Ok(row("a")), other("one".into()), other("two".into()), Ok(row("d"))];
    for (i, o) in outcomes.into_iter().enumerate() {
        assert_eq!(run.next(), Some(i));
        run.advance(o);
    }
    assert_eq!(run.next(), None);
    let ids: Vec<&str> = run.removed.iter().map(|r| r.id.as_str()).collect();
    assert_eq!(ids, vec!["a", "d"]);
    assert!(matches!(
        finish_batch(run.first),
        Err(ChefError::Reported(f)) if f.message == "one"
    ));
}

#[test]
fn the_first_rows_are_what_is_picked() {
    let t = setup();
    for id in t.pkgs.sorted_ids() {
        for game in [None, Some("gta-sa"), Some("gta-vc"), Some("gta-3")] {
            let rows = available_versions(&t.pkgs, &t.lock, id, game);
            let pick = |spec: Option<&str>| {
                resolve_spec(&t.pkgs, &t.lock, id, game, spec, platform()).ok().map(|p| p.version)
            };
            assert_eq!(pick(Some("latest")), rows.first().map(|r| r.0.clone()));
            assert_eq!(pick(None), rows.iter().find(|r| !r.1).map(|r| r.0.clone()));
        }
    }
    let rows = available_versions(&t.pkgs, &t.lock, "cleo.sa", Some("gta-sa"));
    assert_eq!(rows[0], ("5.5.0-beta.1".to_string(), true));
    assert_eq!(rows[1], ("5.4.0".to_string(), false));
}

#[test]
fn rollback_brings_the_game_files_back() {
    let mut t = setup();
    t.game.insert("cleo.asi".into(), b"user-made".to_vec());
    let before = t.game.clone();
    let product =
        resolve_spec(&t.pkgs, &t.lock, "cleo.sa", Some("gta-sa"), Some("5.4.0"), platform())
            .unwrap();
    let files = t.prepare(&product).unwrap();
    let req = DeployRequest {
        product: &product,
        slot: &product.slot,
        version: &product.version,
        files: &files,
        dry_run: false,
    };
    let plan = deploy(&req, None, &t.seen(), &Vec::new());
    assert_eq!(plan.snapshots, vec!["cleo.asi"]);
    let snaps: Tree = plan.snapshots.iter().map(|s| (s.clone(), t.game[s].clone())).collect();
    // Two of the three files are written, then the disk is full.
    for f in &files[..2] {
        t.game.insert(f.dest_rel.clone(), t.source(f).unwrap());
    }
    for (p, b) in &snaps {
        t.game.insert(p.clone(), b.clone());
    }
    let gone = rollback_deletes(&files, &plan);
    assert_eq!(gone.len(), 2);
    assert!(!gone.contains(&"cleo.asi".to_string()));
    for p in &gone {
        t.game.remove(p);
    }
    assert_eq!(t.game, before);
    assert_eq!(
        rollback_report("disk full", &vec![("a".into(), true), ("b".into(), false)], &list(&["c"])),
        "rolled back - previous state intact\ndeployment failed: disk full\n  restored snapshot: a\n  FAILED to restore snapshot: b\n  deleted staged file: c"
    );
}

#[test]
fn integration_root_only_scope_negative() {
    let mut t = setup();
    t.game.insert("scripts/cleo_redux.asi".into(), b"MZ-redux-hidden".to_vec());
    t.run_ok(which_cmd(Some("cleo-redux")));
    assert_eq!(t.which(Some("cleo-redux".into()), false).unwrap(), "");
    t.run_ok(add_cmd(&["cleo-redux"]));
    assert!(t.game.contains_key("cleo_redux.asi"));
}

#[test]
fn integration_moved_asi_reported_not_deleted() {
    let mut t = setup();
    t.run_ok(add_cmd(&["cleo@5"]));
    let b = t.game.remove("cleo.asi").unwrap();
    t.game.insert("renamed.asi".into(), b);
    t.run_ok(which_cmd(Some("cleo")));
    t.run_ok(remove_cmd(&["cleo"]));
    assert!(t.game.contains_key("renamed.asi"), "moved ASI must not be deleted");
}

#[test]
fn integration_list_versions_order_contract() {
    let mut t = setup();
    t.run_ok(add_cmd(&["cleo@5.4.0"]));
    let versions = available_versions(&t.pkgs, &t.lock, "cleo.sa", Some("gta-sa"));
    assert_eq!(
        versions,
        vec![
            ("5.5.0-beta.1".to_string(), true),
            ("5.4.0".to_string(), false),
            ("4.4.4".to_string(), false),
        ]
    );
}

#[test]
fn integration_safety_guards_refuse_dangerous_targets() {
    let at = |path: &str, dir: &str| Guarded { path: path.to_string(), here: path == dir };
    let aim = |dir: &str| {
        resolve_game_dir(
            dir,
            Some(dir),
            &at(HOME, dir),
            &Some(at("/home/user", dir)),
            &at("/", dir),
        )
    };
    assert!(aim(HOME).is_err(), "the data home must be refused as a target");
    assert!(aim("/home/user").is_err());
    assert!(aim("/").is_err());
    assert_eq!(aim(GAME).unwrap(), GAME);
}

// ---------------------------------------------------------------------------
// Versions
// ---------------------------------------------------------------------------

#[test]
fn integration_version_spec_semantics() {
    let mut t = setup();
    t.run_ok(add_cmd(&["cleo@preview"]));
    let inst = t.install("cleo.sa").unwrap();
    assert_eq!(inst.package, "cleo.sa");
    assert_eq!(inst.version, "5.5.0-beta.1");

    t.run_ok(add_cmd(&["cleo"]));
    assert_eq!(t.version("cleo.sa"), "5.4.0");

    t.run_ok(add_cmd(&["cleo@latest"]));
    assert_eq!(t.version("cleo.sa"), "5.5.0-beta.1");

    t.run_ok(add_cmd(&["cleo@5"]));
    assert_eq!(t.version("cleo.sa"), "5.4.0");

    t.run_ok(add_cmd(&["cleo@v5.3.0"]));
    assert_eq!(t.version("cleo.sa"), "5.3.0");

    t.run_ok(add_cmd(&["cleo@4.4.4"]));
    let inst = t.install("cleo.sa").unwrap();
    assert_eq!(inst.package, "cleo.sa");
    assert_eq!(inst.version, "4.4.4");

    let err = t.run(add_cmd(&["cleo@6"])).unwrap_err();
    let msg = err.message();
    assert!(msg.contains("available majors"), "unexpected error for @6: {msg}");
    assert_eq!(
        msg,
        "version '6' does not match any tracked release (available majors: 4, 5)"
    );

    assert!(t.run(add_cmd(&["cleo@beta~!"])).is_err());

    t.run_ok(remove_cmd(&["cleo@4"]));
    assert!(t.install("cleo.sa").is_none());
    t.run_ok(add_cmd(&["cleo@4.4.4"]));
    let err = t.run(remove_cmd(&["cleo@latest"])).unwrap_err();
    match err {
        ChefError::Reported(e) => assert!(e.text().contains("exact version")),
        other => panic!("expected Reported, got {other:?}"),
    }
}

// ---------------------------------------------------------------------------
// Updates
// ---------------------------------------------------------------------------

#[test]
fn integration_update_upgrades_outdated_packages() {
    let mut t = setup();
    t.run_ok(add_cmd(&["cleo@v5.3.0"]));
    assert_eq!(t.version("cleo.sa"), "5.3.0");
    t.run_ok(update_cmd(Some("cleo"), true));
    assert_eq!(t.version("cleo.sa"), "5.3.0");
    t.run_ok(update_cmd(None, false));
    assert_eq!(t.version("cleo.sa"), "5.4.0");
    let before = t.writes;
    t.run_ok(update_cmd(None, false));
    assert_eq!(t.writes, before);
}

fn update_hint_direct(
    pkgs: &PackagesFile,
    lock: &LockFile,
    id: &str,
    installed: &str,
) -> Option<String> {
    let latest = resolve_spec(pkgs, lock, id, None, Some("stable"), platform()).ok()?;
    update_hint(installed, &latest.version, id)
}

#[test]
fn integration_which_reports_outdated_hint() {
    let mut t = setup();
    t.run_ok(add_cmd(&["cleo@v5.3.0"]));
    t.run_ok(which_cmd(Some("cleo")));
    assert_eq!(
        update_hint_direct(&t.pkgs, &t.lock, "cleo.sa", "5.3.0").unwrap(),
        "update available: 5.3.0 -> 5.4.0 - run 'chef update cleo.sa'"
    );
    assert!(update_hint_direct(&t.pkgs, &t.lock, "cleo.sa", "5.3.0").is_some());
    assert!(update_hint_direct(&t.pkgs, &t.lock, "cleo.sa", "5.4.0").is_none());
    assert!(t
        .which(None, false)
        .unwrap()
        .contains("update available: 5.3.0 -> 5.4.0"));
}

#[test]
fn integration_update_target_errors() {
    let mut t = setup();
    t.run_ok(add_cmd(&["cleo@5"]));
    let err = t.run(update_cmd(Some("cleo-redux"), false));
    assert!(err.is_err(), "updating a non-installed package must fail");
    assert_eq!(err.unwrap_err().message(), "CLEO Redux is not installed here");
    let err = t.run(update_cmd(Some("zzz-unknown"), false));
    assert!(err.is_err(), "unknown update target must fail");
    t.run_ok(update_cmd(Some("cleo"), false));
}

#[test]
fn integration_update_with_nothing_installed() {
    let mut t = setup();
    t.run_ok(update_cmd(None, false));
}

// ---------------------------------------------------------------------------
// What is there
// ---------------------------------------------------------------------------

#[test]
fn which_details_tree_matches_lock_digests() {
    let mut t = setup();
    t.run_ok(add_cmd(&["cleo@5", "sal"]));
    let details = |t: &World, id: &str, asked: Option<&str>| {
        detail_rows(&t.pkgs, &t.lock, id, Some("gta-sa"), None, asked, &t.tree())
    };
    let rows = details(&t, "cleo.sa", None);
    assert!(
        rows.iter().any(|(p, v)| p == "cleo.asi" && v == "5.4.0"),
        "cleo.asi must be identified as CLEO 5.4.0, got {rows:?}"
    );
    assert!(
        rows.iter().filter(|(_, v)| v == "5.4.0").count() >= 2,
        "cleo.asi + README.md (and CLEO/* payloads) all detected: {rows:?}"
    );
    assert!(
        !rows.iter().any(|(p, _)| p.contains("notes.txt")),
        "old-release-only paths must not be sought: {rows:?}"
    );
    assert!(
        !rows.iter().any(|(_, v)| v == "missing"),
        "a clean 5.4.0 install has nothing missing: {rows:?}"
    );
    let rows54 = details(&t, "cleo.sa", Some("5.4.0"));
    assert_eq!(rows54.len(), 3);
    assert!(rows54.iter().all(|(_, v)| v == "5.4.0"));

    t.game.insert("scratch.dll".into(), b"MZ-not-a-known-payload".to_vec());
    assert_eq!(rows.len(), details(&t, "cleo.sa", None).len(), "only locked paths are read");

    t.game.remove("README.md");
    let after = details(&t, "cleo.sa", None);
    assert!(
        after.iter().any(|(p, v)| p == "README.md" && v == "missing"),
        "anchor-release gap must report missing: {after:?}"
    );
    assert!(!after.iter().any(|(p, _)| p.contains("notes.txt")));

    t.game.insert("vorbisFile.dll".into(), b"MZ-custom-build".to_vec());
    let srows = details(&t, "silents-asi-loader.sa", None);
    assert!(
        srows.iter().any(|(p, v)| p == "vorbisFile.dll" && v == "unknown"),
        "the modified file must show as unknown: {srows:?}"
    );
    assert!(srows.iter().any(|(p, v)| p == "vorbisHooked.dll" && v == "1.5.0"));
    assert_eq!(
        details_text(&srows),
        "vorbisFile.dll    unknown\nvorbisHooked.dll  1.5.0\n"
    );
    let beta = details(&t, "silents-asi-loader.sa", Some("1.5.0-beta.1"));
    assert!(beta.is_empty());
}

#[test]
fn use_treats_user_installed_loader_files_as_present() {
    let mut t = setup();
    t.game.insert("vorbisfile.dll".into(), b"MZ-user-loader".to_vec());
    t.run_ok(add_cmd(&["cleo-redux@1.5.0"]));
    assert!(
        t.install("silents-asi-loader.sa").is_none(),
        "user's loader file must not be recorded as a chef install"
    );
    assert!(t.game.contains_key("vorbisfile.dll"), "user file kept");
    // And it meets the need of classic CLEO.
    t.run_ok(add_cmd(&["cleo@5"]));
    assert!(t.said.is_empty(), "{:?}", t.said);
}

#[test]
fn integration_dependency_offer_spans_replaces_slot() {
    let mut t = setup();
    t.run_ok(add_cmd(&["cleo@5"]));
    assert!(t.install("cleo.sa").is_some());
    assert!(t.install("silents-asi-loader.sa").is_none());
    assert!(t.install("universal-asi-loader.sa.vc.iii").is_none());
    assert_eq!(t.said.len(), 2);
    assert_eq!(
        t.said[0],
        "CLEO needs Silent's ASI Loader but none is installed - 'chef add <dir> silents-asi-loader.sa' or 'universal-asi-loader.sa.vc.iii' adds it"
    );
    let mut u = setup();
    u.run_ok(dry_cmd(&["cleo@5"]));
    assert_eq!(
        u.said[0],
        "note: CLEO needs silents-asi-loader.sa - none found (would offer to install)"
    );
}

#[test]
fn offers_can_be_taken() {
    let t = setup();
    let options = list(&["Silent's ASI Loader", "Universal ASI Loader"]);
    let slot = list(LOADERS);
    let take = |line: Option<&str>| {
        let answer = Answer::Said(line.map(|s| s.to_string()));
        answer_offer("CLEO", &options, &slot, &answer)
    };
    assert!(matches!(take(Some("2")), Offered::Take(id) if id == LOADERS[1]));
    assert!(matches!(take(Some("3")), Offered::Warn(_)));
    assert!(matches!(take(Some("")), Offered::Warn(_)));
    assert!(matches!(take(None), Offered::Warn(_)));

    // What was taken is installed after what was asked for, and meets the other
    // dependency, which has the same slot.
    let cleo =
        resolve_spec(&t.pkgs, &t.lock, "cleo.sa", Some("gta-sa"), Some("5"), platform()).unwrap();
    let plan = vec![cleo];
    let missing = missing_dependencies(
        &plan,
        &t.pkgs,
        &t.lock,
        Some("gta-sa"),
        t.dir(),
        &t.names(),
    );
    assert_eq!(missing.len(), 2);
    let mut run = AddRun::new(plan, missing, false);
    assert!(matches!(run.next(&t.pkgs), Action::Ask { .. }));
    let sal = resolve_spec(
        &t.pkgs,
        &t.lock,
        "silents-asi-loader.sa",
        Some("gta-sa"),
        None,
        platform(),
    )
    .unwrap();
    run.advance(Event::Took(sal), &t.pkgs);
    assert_eq!(run.missing.len(), 1);
    assert!(matches!(run.next(&t.pkgs), Action::Install(0)));
    run.advance(Event::Installed, &t.pkgs);
    assert!(matches!(run.next(&t.pkgs), Action::Install(1)));
    run.advance(Event::Already, &t.pkgs);
    assert!(matches!(run.next(&t.pkgs), Action::Finish));
    let ids: Vec<&str> = run.rows.iter().map(|r| r.id.as_str()).collect();
    assert_eq!(ids, vec!["cleo.sa", "silents-asi-loader.sa"]);
    // With the loader in the plan nothing is missing.
    assert!(missing_dependencies(&run.plan, &t.pkgs, &t.lock, Some("gta-sa"), None, &t.names())
        .is_empty());
}

#[test]
fn turning_one_loader_down_asks_for_the_other() {
    let t = setup();
    let cleo =
        resolve_spec(&t.pkgs, &t.lock, "cleo.sa", Some("gta-sa"), Some("5"), platform()).unwrap();
    let plan = vec![cleo];
    let missing =
        missing_dependencies(&plan, &t.pkgs, &t.lock, Some("gta-sa"), t.dir(), &t.names());
    let mut run = AddRun::new(plan, missing, false);
    run.advance(Event::Declined, &t.pkgs);
    assert!(matches!(run.next(&t.pkgs), Action::Ask { .. }));
    run.advance(Event::Declined, &t.pkgs);
    assert!(matches!(run.next(&t.pkgs), Action::Install(0)));
}

#[test]
fn integration_scenario_san_andreas() {
    let mut t = setup_scenario();
    let game = Some("gta-sa");
    assert_eq!(
        available_versions(&t.pkgs, &t.lock, "cleo.sa", game),
        vec![("5.4.0".into(), false), ("4.4.4".into(), false)]
    );
    assert_eq!(
        available_versions(&t.pkgs, &t.lock, "silents-asi-loader.sa", game),
        vec![("1.5.0-beta.1".into(), true), ("1.3.0".into(), false)]
    );
    assert_eq!(
        available_versions(&t.pkgs, &t.lock, "universal-asi-loader.sa.vc.iii", game),
        vec![("9.7.4".into(), false)]
    );
    let cleo_vers = available_versions(&t.pkgs, &t.lock, "cleo.sa", game);
    assert!(cleo_vers.iter().any(|(v, _)| v == "5.4.0"));
    assert!(cleo_vers.iter().any(|(v, _)| v == "4.4.4"));
    let sal_vers = available_versions(&t.pkgs, &t.lock, "silents-asi-loader.sa", game);
    assert!(sal_vers.iter().any(|(v, p)| v == "1.3.0" && !p));
    assert!(sal_vers.iter().any(|(v, p)| v == "1.5.0-beta.1" && *p));
    assert!(t.install("cleo.sa").is_none());
    t.run_ok(which_cmd(None));
    t.run_ok(which_cmd(Some("cleo")));
    assert!(t.install("cleo.sa").is_none());
    t.run_ok(add_cmd(&["cleo@5"]));
    assert_eq!(t.version("cleo.sa"), "5.4.0");
    let writes = t.writes;
    t.run_ok(add_cmd(&["cleo@5"]));
    assert_eq!(writes, t.writes);
    t.run_ok(remove_cmd(&["cleo@5"]));
    assert!(t.install("cleo.sa").is_none());
    assert!(!t.game.contains_key("cleo.asi"));
    assert!(t.run(remove_cmd(&["cleo@5"])).is_err());
    assert!(t.install("cleo.sa").is_none());
    t.run_ok(add_cmd(&["sal"]));
    assert_eq!(t.version("silents-asi-loader.sa"), "1.3.0");
    assert_eq!(t.game["vorbisFile.dll"], b"MZ-sal13");
    t.run_ok(add_cmd(&["sal@beta"]));
    assert_eq!(t.version("silents-asi-loader.sa"), "1.5.0-beta.1");
    assert_eq!(t.game["vorbisFile.dll"], b"MZ-sal15b");
    t.run_ok(which_cmd(Some("sal")));
    t.run_ok(add_cmd(&["ual"]));
    assert_eq!(t.version("universal-asi-loader.sa.vc.iii"), "9.7.4");
    assert_eq!(t.game["vorbisFile.dll"], b"MZ-ual");
    assert!(!t.game.contains_key("vorbisHooked.dll"));
    t.run_ok(which_cmd(Some("ual")));
    assert!(t.install("silents-asi-loader.sa").is_none());
    t.run_ok(remove_cmd(&["ual"]));
    assert!(t.install("universal-asi-loader.sa.vc.iii").is_none());
    assert!(t.state.installs_in(&key()).is_empty());
    t.run_ok(which_cmd(None));
}

#[test]
fn integration_game_specific_cross_game_use_rejected() {
    let t = setup();
    let refused = |id: &str, game: &str| {
        resolve_spec(&t.pkgs, &t.lock, id, Some(game), None, platform()).is_err()
    };
    assert!(refused("cleo.vc", "gta-sa"), "SA game must reject VC-only package");
    assert!(refused("cleo.iii", "gta-sa"), "SA game must reject III-only package");
    assert!(refused("silents-asi-loader.sa", "gta-vc"), "VC game must reject SA-only loader");
    let mut sa = setup_scenario();
    assert!(
        sa.run(add_cmd(&["__definitely_unknown_pkg__"])).is_err(),
        "unknown package must be rejected"
    );
    sa.run_ok(add_cmd(&["cleo-redux"]));
    assert!(sa.install("cleo-redux.sa").is_some());
}

#[test]
fn integration_game_specific_list_and_which_json() {
    let mut t = setup_scenario();
    let filtered: Vec<String> = t
        .pkgs
        .sorted_ids()
        .into_iter()
        .filter(|id| !available_versions(&t.pkgs, &t.lock, id, Some("gta-sa")).is_empty())
        .map(|s| s.to_string())
        .collect();
    assert!(!filtered.contains(&"cleo.vc".to_string()));
    assert!(!filtered.contains(&"cleo.iii".to_string()));
    assert!(!filtered.contains(&"cleo-redux.vc.iii".to_string()));
    assert!(filtered.contains(&"cleo.sa".to_string()));
    t.run_ok(which_cmd(None));
    t.run_ok(menu_cmd(None));
}

#[test]
fn check_install_classifies_present_missing_and_moved() {
    let mut t = setup();
    t.run_ok(add_cmd(&["cleo@5"]));
    let inst = t.install("cleo.sa").unwrap().copy();
    let chk = check_install(&inst, &t.seen(), &t.root_files());
    assert!(chk.all_present());
    assert!(!chk.present.is_empty());
    assert!(!chk.fully_gone());
    assert!(chk.moved.is_empty());

    let asi = t.game.remove("cleo.asi").unwrap();
    let chk = check_install(&inst, &t.seen(), &t.root_files());
    assert!(!chk.all_present());
    assert!(!chk.present.is_empty(), "CLEO/ + README still there");
    assert!(!chk.fully_gone());
    assert!(chk.missing.iter().any(|p| p == "cleo.asi"));
    assert!(chk.moved.is_empty());

    t.game.insert("moved.asi".into(), asi);
    let chk = check_install(&inst, &t.seen(), &t.root_files());
    assert!(!chk.all_present());
    assert!(!chk.present.is_empty());
    assert!(!chk.fully_gone(), "a moved file is not a gone file");
    assert_eq!(chk.moved.len(), 1);
    assert_eq!(chk.moved[0].0, "cleo.asi");
    assert!(chk.moved[0].1.ends_with("moved.asi"));

    t.game.remove("moved.asi");
    t.wipe("CLEO");
    t.game.remove("README.md");
    let chk = check_install(&inst, &t.seen(), &t.root_files());
    assert!(chk.fully_gone());
    assert!(chk.present.is_empty());
    assert_eq!(chk.missing.len(), inst.files.len());
}

#[test]
fn prune_stale_state_drops_only_fully_gone_installs() {
    let mut t = setup();
    t.run_ok(add_cmd(&["cleo@5"]));
    t.run_ok(add_cmd(&["cleo-redux"]));
    t.game.remove("cleo.asi");
    t.wipe("CLEO");
    t.game.remove("README.md");
    let (seen, root) = (t.seen(), t.root_files());
    assert!(prune_stale_state(&mut t.state, &key(), &seen, &root));
    assert!(t.install("cleo.sa").is_none(), "fully-gone install pruned");
    assert!(t.install("cleo-redux.sa").is_some(), "intact install untouched");
    assert!(!prune_stale_state(&mut t.state, &key(), &seen, &root));
    t.game.remove("cleo_redux.asi");
    let (seen, root) = (t.seen(), t.root_files());
    assert!(!prune_stale_state(&mut t.state, &key(), &seen, &root));
    assert!(t.install("cleo-redux.sa").is_some());
}

#[test]
fn detect_game_is_case_insensitive_and_errors_on_multiple_exes() {
    let mut games = StrMap::new();
    games.insert("gta_sa.exe".to_string(), "gta-sa".to_string());
    games.insert("gta-vc.exe".to_string(), "gta-vc".to_string());
    let pkgs = PackagesFile { schema: 2, packages: Vec::new(), games };
    let d = detect_game(&pkgs, "/g", &list(&["GTA_SA.EXE"])).unwrap().expect("detected");
    assert_eq!(d.family, "gta-sa");
    assert_eq!(d.exe, "gta_sa.exe");
    let err = detect_game(&pkgs, "/g", &list(&["GTA_SA.EXE", "gta-vc.exe"])).unwrap_err();
    assert!(err.message().contains("ambiguous"), "unexpected error: {}", err.message());
    assert!(detect_game(&pkgs, "/g", &Vec::new()).unwrap().is_none());
}

#[test]
fn integration_manual_delete_reported_and_pruned() {
    let mut t = setup();
    for which_first in [true, false] {
        t.run_ok(add_cmd(&["cleo@5"]));
        assert!(t.install("cleo.sa").is_some());
        t.game.remove("cleo.asi");
        t.wipe("CLEO");
        t.game.remove("README.md");
        if which_first {
            t.run_ok(which_cmd(Some("cleo")));
            assert!(
                t.install("cleo.sa").is_some(),
                "which must keep the record for the restore hint"
            );
        } else {
            t.run_ok(menu_cmd(None));
            assert!(
                t.install("cleo.sa").is_none(),
                "stale install must be pruned by the live refresh"
            );
        }
    }
}

#[test]
fn integration_remove_continues_after_one_failure() {
    let mut t = setup();
    t.run_ok(add_cmd(&["cleo@5"]));
    let err = t.run(remove_cmd(&["zzz-unknown", "cleo"])).unwrap_err();
    match err {
        ChefError::Reported(_) => {}
        other => panic!("expected Reported after a failed removal, got {other:?}"),
    }
    assert!(
        t.install("cleo.sa").is_none(),
        "valid target must still be removed after an earlier failure"
    );
    assert!(!t.game.contains_key("cleo.asi"));
}

#[test]
fn integration_ambiguous_name_reports_exit2() {
    let mut t = setup();
    let res = t.run(add_cmd(&["asi-loader"])).unwrap_err();
    assert_eq!(res.exit_code(), 2);
    match res {
        ChefError::Ambiguous(names) => assert_eq!(names.len(), 2),
        other => panic!("expected Ambiguous, got {other:?}"),
    }
    assert!(
        t.dir().is_none() || t.dir().unwrap().installs.len() == 0,
        "nothing may install on an ambiguous request"
    );
}

#[test]
fn integration_list_exact_id_works_unknown_errors() {
    let mut t = setup();
    t.run_ok(menu_cmd(Some("cleo.sa")));
    t.run_ok(menu_cmd(Some("sal")));
    let err = t.run(menu_cmd(Some("zzz-unknown")));
    assert!(err.is_err(), "unknown list target must fail");
}

#[test]
fn menu_shows_what_the_game_can_use() {
    let mut t = setup();
    assert_eq!(
        t.menu(None, false).unwrap(),
        [
            "TITLE                AVAILABLE                        COMMAND\n",
            "CLEO                 5.5.0-beta.1 (preview), 5.4.0, 4.4.4 chef add cleo5\n",
            "CLEO Redux           1.5.0                            chef add cleo-redux\n",
            "Silent's ASI Loader  1.5.0                            chef add sal\n",
            "Universal ASI Loader 9.7.4                            chef add ual\n",
        ]
        .concat()
    );
    let doc = t.json_doc(menu_cmd(Some("cleo")));
    assert_eq!(doc["dir"], GAME);
    assert_eq!(doc["packages"][0]["package"], "cleo.sa");
    assert_eq!(doc["packages"][0]["latest"], "5.4.0");
    assert_eq!(doc["packages"][0]["preview"], "5.5.0-beta.1");
    let redux = t.json_doc(menu_cmd(Some("cleo-redux")));
    assert!(redux["packages"][0]["preview"].is_null());
}

#[test]
fn displaced_user_file_survives_version_replacement() {
    let mut t = setup();
    t.game.insert("cleo.asi".into(), b"user-original".to_vec());
    t.run_ok(add_cmd(&["cleo@5"]));
    t.run_ok(add_cmd(&["cleo@4"]));
    let inst = t.install("cleo.sa").unwrap();
    assert_eq!(inst.version, "4.4.4");
    assert!(
        inst.displaced.iter().any(|d| d.eq_ignore_ascii_case("cleo.asi")),
        "carried-over displaced user file must be recorded on the new install"
    );
    t.run_ok(remove_cmd(&["cleo"]));
    assert_eq!(
        t.game["cleo.asi"], b"user-original",
        "user file must come back unchanged across a version replacement"
    );
}

#[test]
fn remove_brings_the_game_back_as_it_was() {
    let mut t = setup();
    t.game.insert("README.md".into(), b"mine".to_vec());
    let before = t.game.clone();
    t.run_ok(add_cmd(&["cleo@5", "sal", "cleo-redux"]));
    assert_ne!(t.game, before);
    t.run_ok(remove_cmd(&["cleo-redux", "sal", "cleo"]));
    assert_eq!(t.game, before);
    assert!(t.state.installs_in(&key()).is_empty());
}

#[test]
fn summarize_package_four_outcomes_and_attribution() {
    let t = setup();
    let vf = version_files(&t.pkgs, &t.lock, "cleo.sa", Some("gta-sa"));
    let (_, files54) =
        vf.iter().find(|(v, _)| v == "5.4.0").expect("fixture has cleo 5.4.0").clone();
    let norm = |p: &str| p.replace('/', "\\").to_lowercase();
    let map = |m: &BTreeMap<String, String>| {
        let mut s = StrMap::new();
        for (k, v) in m {
            s.insert(k.clone(), v.clone());
        }
        s
    };
    let summarize = |tree: &BTreeMap<String, String>, managed: bool| {
        summarize_package(&map(tree), &t.pkgs, &t.lock, "cleo.sa", Some("gta-sa"), None, managed)
    };

    let full: BTreeMap<String, String> =
        files54.iter().map(|(p, sha)| (norm(p), sha.clone())).collect();
    let row = summarize(&full, false).expect("clean install must be reported");
    assert_eq!(row.status, "installed");
    assert_eq!(row.version, "5.4.0");
    assert!(row.notes.is_empty());
    assert_eq!(row.versions, vec!["5.4.0".to_string()]);

    let (_, files44) =
        vf.iter().find(|(v, _)| v == "4.4.4").expect("fixture has cleo 4.4.4").clone();
    let (p44, sha44) = &files44[0];
    let mut mixed = full.clone();
    mixed.insert(norm(p44), sha44.clone());
    let row = summarize(&mixed, false).unwrap();
    assert_eq!(row.status, "multiple");
    assert_eq!(row.version, "multiple");
    assert_eq!(row.versions, vec!["5.4.0".to_string(), "4.4.4".to_string()]);
    assert!(row.notes.contains("chef which"));

    let mut custom = full.clone();
    custom.insert("cleo.asi".to_string(), "custom-build-sha".to_string());
    let row = summarize(&custom, false).unwrap();
    assert_eq!(row.status, "unknown");
    assert_eq!(row.version, "unknown");
    assert_eq!(row.versions, vec!["5.4.0".to_string()]);
    assert!(row.notes.contains("chef which"));

    let mut with_ini = full.clone();
    with_ini.insert("scripts\\global.ini".to_string(), "user-tweaked".to_string());
    let row = summarize(&with_ini, false).unwrap();
    assert_eq!(row.status, "installed");
    assert_eq!(row.version, "5.4.0");

    let empty = BTreeMap::new();
    let row = summarize(&empty, true).unwrap();
    assert_eq!(row.status, "not-found");
    assert_eq!(row.version, "not found");
    assert!(row.notes.contains("chef remove"));

    assert!(summarize(&empty, false).is_none());

    assert_eq!(command_ref(&t.pkgs, "silents-asi-loader.sa"), "sal");
    assert_eq!(command_ref(&t.pkgs, "cleo.sa"), "cleo5");

    let sal_vf = version_files(&t.pkgs, &t.lock, "silents-asi-loader.sa", Some("gta-sa"));
    let (_, sal_files) = sal_vf.iter().find(|(v, _)| v == "1.5.0").expect("sal 1.5.0").clone();
    let mut sal_tree: BTreeMap<String, String> =
        sal_files.iter().map(|(p, sha)| (norm(p), sha.clone())).collect();
    sal_tree.insert("vorbisfile.dll".to_string(), "custom-build".to_string());
    let srow = summarize_package(
        &map(&sal_tree),
        &t.pkgs,
        &t.lock,
        "silents-asi-loader.sa",
        Some("gta-sa"),
        None,
        false,
    )
    .unwrap();
    assert_eq!(srow.status, "unknown");
    assert!(srow.notes.contains("chef which sal"));
    assert!(
        !srow.notes.contains("Silent's"),
        "quote-laden name must not leak: {}",
        srow.notes
    );

    assert_eq!(newest_match(&["1.3.0", "1.5.0-beta.1", "1.4.0"]), "1.5.0-beta.1");

    assert!(is_ignored_config("scripts/global.ini"));
    assert!(is_ignored_config("X.INI"));
    assert!(!is_ignored_config("cleo.asi"));
    assert!(!is_ignored_config("cleo/.config/sa.json"));
}

#[test]
fn which_summary_splits_chef_and_user_rows() {
    let mut t = setup();
    t.run_ok(add_cmd(&["cleo@5"]));
    t.state = StateFile::fresh();
    let row = summarize_package(
        &t.tree(),
        &t.pkgs,
        &t.lock,
        "cleo.sa",
        Some("gta-sa"),
        None,
        false,
    )
    .expect("on-disk payload must be reported");
    assert!(!row.managed);
    assert_eq!(row.status, "installed");
    assert_eq!(row.version, "5.4.0");
    assert_eq!(
        t.which(None, false).unwrap(),
        format!(
            "\ngame dir: {GAME}\ngame: GTA San Andreas\n\nPACKAGES INSTALLED BY USER\nCLEO  5.4.0\n"
        )
    );

    t.run_ok(add_cmd(&["cleo@5"]));
    assert!(t.install("cleo.sa").is_some());
    for (_, files) in version_files(&t.pkgs, &t.lock, "cleo.sa", Some("gta-sa")) {
        for (p, _) in &files {
            t.game.remove(p);
        }
    }
    let row = summarize_package(
        &t.tree(),
        &t.pkgs,
        &t.lock,
        "cleo.sa",
        Some("gta-sa"),
        None,
        true,
    )
    .unwrap();
    assert_eq!(row.status, "not-found");
    assert_eq!(row.version, "not found");
    assert!(row.notes.contains("chef remove"));
    assert_eq!(
        t.which(None, false).unwrap(),
        format!(
            "\ngame dir: {GAME}\ngame: GTA San Andreas\n\nPACKAGES INSTALLED BY CHEF\nCLEO  not found  run 'chef remove cleo5' to restore the backup\n"
        )
    );
}

// ---------------------------------------------------------------------------
// Documents
// ---------------------------------------------------------------------------

#[test]
fn json_add_which_update_remove_documents() {
    let mut t = setup();
    let doc = t.json_doc(add_cmd(&["cleo@5"]));
    assert_eq!(doc["add"][0]["id"], "cleo.sa");
    assert_eq!(doc["add"][0]["version"], "5.4.0");
    assert_eq!(doc["add"][0]["status"], "installed");

    let doc = t.json_doc(add_cmd(&["cleo@5"]));
    assert_eq!(doc["add"][0]["status"], "already");

    let doc = t.json_doc(which_cmd(None));
    assert_eq!(doc["installs"][0]["section"], "chef");
    assert_eq!(doc["installs"][0]["status"], "installed");

    let doc = t.json_doc(update_cmd(None, false));
    assert_eq!(doc["dryRun"], false);
    assert_eq!(doc["update"][0]["status"], "up-to-date");

    let doc = t.json_doc(remove_cmd(&["cleo"]));
    assert_eq!(doc["remove"][0]["id"], "cleo.sa");
    assert_eq!(doc["remove"][0]["version"], "5.4.0");
    assert!(doc["remove"][0]["restored"].is_array());
}

#[test]
fn json_errors_are_machine_readable() {
    let mut t = setup();
    set_capture(&mut t.capture, JsonOutput::default());
    let err = t.run_mode(add_cmd(&["cleo@6"]), true).unwrap_err();
    let code = write_error(&err, true, &mut t.capture).code;
    assert_eq!(code, 1);
    let cap = take_capture(&mut t.capture).unwrap();
    assert!(cap.out.is_empty(), "no result document on failure");
    let obj: serde_json::Value = serde_json::from_str(&cap.err[0]).unwrap();
    assert!(
        obj["error"].as_str().unwrap().contains("tracked release"),
        "error text must survive JSON: {obj}"
    );

    let amb = ChefError::Ambiguous(vec!["CLEO".into(), "CLEO Redux".into()]);
    set_capture(&mut t.capture, JsonOutput::default());
    let code = write_error(&amb, true, &mut t.capture).code;
    assert_eq!(code, 2);
    let cap = take_capture(&mut t.capture).unwrap();
    let obj: serde_json::Value = serde_json::from_str(&cap.err[0]).unwrap();
    assert_eq!(obj["candidates"].as_array().unwrap().len(), 2);
}

#[test]
fn dry_run_add_plans_every_file() {
    let mut t = setup();
    let doc = t.json_doc(dry_cmd(&["cleo@5"]));
    assert_eq!(doc["add"][0]["status"], "would-install");
    let plan = doc["add"][0]["plan"].as_array().unwrap();
    assert!(plan.len() >= 3, "plan lists every file: {plan:?}");
    assert!(plan.iter().all(|s| s["op"] == "add"));
    assert!(!t.game.contains_key("cleo.asi"), "a dry run must not deploy anything");

    t.run_ok(add_cmd(&["cleo@5"]));
    let doc = t.json_doc(dry_cmd(&["cleo@4.4.4"]));
    let plan = doc["add"][0]["plan"].as_array().unwrap();
    assert!(
        plan.iter().any(|s| s["op"] == "remove" && s["path"] == "README.md"),
        "5.4.0-only file must show as removed: {plan:?}"
    );

    t.game.insert("README.md".into(), b"edited by user".to_vec());
    let doc = t.json_doc(dry_cmd(&["cleo@5"]));
    let plan = doc["add"][0]["plan"].as_array().unwrap();
    let readme = plan.iter().find(|s| s["path"] == "README.md").unwrap();
    assert_eq!(readme["op"], "replace");
    assert!(readme["note"].as_str().unwrap().contains("modified"), "{readme}");
    assert!(
        plan.iter().any(|s| s["op"] == "keep" && s["path"] == "cleo.asi"),
        "intact files keep their label: {plan:?}"
    );
}

#[test]
fn dry_run_backs_up_user_file_at_payload_path() {
    let mut t = setup();
    t.game.insert("cleo.asi".into(), b"MZ-user-asi".to_vec());
    let doc = t.json_doc(dry_cmd(&["cleo@5"]));
    let plan = doc["add"][0]["plan"].as_array().unwrap();
    let asi = plan.iter().find(|s| s["path"] == "cleo.asi").unwrap();
    assert_eq!(asi["op"], "backup");
    assert!(asi["note"].as_str().unwrap().contains("chef remove"));
}

#[test]
fn debug_dump_add_state_paths() {
    let mut t = setup();
    t.run_ok(add_cmd(&["cleo@5"]));
    let inst = t.install("cleo.sa").unwrap();
    assert_eq!(inst.version, "5.4.0");
    assert_eq!(inst.files[0].source, "store/cleo.sa/5.4.0/CLEO/cleo_plugins/Example.cleo");
    assert_eq!(inst.owned_dirs, vec!["CLEO"]);
}
