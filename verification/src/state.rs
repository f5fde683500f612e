//! What is installed where: the recorded state.

use vstd::prelude::*;
use crate::error::{fails, other, Result};
use crate::strmap::StrMap;
use crate::text::{cat3, decimal, decimal_text, own_all, texts};

verus! {

/// The newest layout of the recorded state that is understood.
pub const SUPPORTED_STATE_SCHEMA: u32 = 2;

/// One file that an install put into the game directory.
#[derive(Debug)]
pub struct ManagedFile {
    /// Path in the game directory, with `/` between its parts.
    pub path: String,
    pub source: String,
    pub sha256: String,
}

/// What a managed file is.
#[verifier::ext_equal]
pub struct ManagedView {
    pub path: Seq<char>,
    pub source: Seq<char>,
    pub sha256: Seq<char>,
}

impl View for ManagedFile {
    type V = ManagedView;

    open spec fn view(&self) -> ManagedView {
        ManagedView { path: self.path@, source: self.source@, sha256: self.sha256@ }
    }
}

/// One operation that an install did, with what undoes it. Paths are relative
/// to the game directory, snapshots to the backup folder of the install.
#[derive(Debug)]
pub enum Op {
    /// Wrote a file with this digest over whatever was at the path. Undone by
    /// putting the snapshot back, or by deleting the file where there is none.
    Overwrite { to: String, digest: String, before: Option<String> },
    /// Deleted a file. Undone by putting its snapshot back.
    Delete { path: String, before: Option<String> },
    /// Moved a file. Undone by moving it back.
    Rename { from: String, to: String },
}

/// What an operation is.
#[verifier::ext_equal]
pub enum OpView {
    Overwrite { to: Seq<char>, digest: Seq<char>, before: Option<Seq<char>> },
    Delete { path: Seq<char>, before: Option<Seq<char>> },
    Rename { from: Seq<char>, to: Seq<char> },
}

/// An optional text.
pub open spec fn opt(o: Option<String>) -> Option<Seq<char>> {
    match o {
        Some(s) => Some(s@),
        None => None,
    }
}

impl View for Op {
    type V = OpView;

    open spec fn view(&self) -> OpView {
        match self {
            Op::Overwrite { to, digest, before } => OpView::Overwrite {
                to: to@,
                digest: digest@,
                before: opt(*before),
            },
            Op::Delete { path, before } => OpView::Delete { path: path@, before: opt(*before) },
            Op::Rename { from, to } => OpView::Rename { from: from@, to: to@ },
        }
    }
}

/// One package in one game directory.
#[derive(Debug)]
pub struct Install {
    pub package: String,
    pub version: String,
    pub files: Vec<ManagedFile>,
    pub owned_dirs: Vec<String>,
    /// Name of the backup folder.
    pub backup: Option<String>,
    /// User files whose paths the install took; their snapshots are in the
    /// backup folder.
    pub displaced: Vec<String>,
    /// Every operation of the install, in order. Empty in records that are
    /// older than such scripts.
    pub script: Vec<Op>,
    /// When it was installed, in seconds.
    pub at: u64,
}

/// What an install is.
#[verifier::ext_equal]
pub struct InstallView {
    pub package: Seq<char>,
    pub version: Seq<char>,
    pub files: Seq<ManagedView>,
    pub owned_dirs: Seq<Seq<char>>,
    pub backup: Option<Seq<char>>,
    pub displaced: Seq<Seq<char>>,
    pub script: Seq<OpView>,
    pub at: u64,
}

/// What the files in a list are.
pub open spec fn file_views(v: Seq<ManagedFile>) -> Seq<ManagedView> {
    v.map_values(|f: ManagedFile| f@)
}

/// What the operations in a list are.
pub open spec fn op_views(v: Seq<Op>) -> Seq<OpView> {
    v.map_values(|o: Op| o@)
}

/// The paths of managed files.
pub open spec fn paths_of(v: Seq<ManagedView>) -> Seq<Seq<char>> {
    v.map_values(|f: ManagedView| f.path)
}

impl View for Install {
    type V = InstallView;

    open spec fn view(&self) -> InstallView {
        InstallView {
            package: self.package@,
            version: self.version@,
            files: file_views(self.files@),
            owned_dirs: texts(self.owned_dirs@),
            backup: opt(self.backup),
            displaced: texts(self.displaced@),
            script: op_views(self.script@),
            at: self.at,
        }
    }
}

/// A copy of an optional text.
pub fn copy_opt(o: &Option<String>) -> (r: Option<String>)
    ensures
        opt(r) == opt(*o),
{
    match o {
        Some(s) => Some(s.clone()),
        None => None,
    }
}

impl ManagedFile {
    /// A copy.
    pub fn copy(&self) -> (f: ManagedFile)
        ensures
            f@ == self@,
    {
        ManagedFile {
            path: self.path.clone(),
            source: self.source.clone(),
            sha256: self.sha256.clone(),
        }
    }
}

impl Op {
    /// A copy.
    pub fn copy(&self) -> (o: Op)
        ensures
            o@ == self@,
    {
        match self {
            Op::Overwrite { to, digest, before } => Op::Overwrite {
                to: to.clone(),
                digest: digest.clone(),
                before: copy_opt(before),
            },
            Op::Delete { path, before } => Op::Delete {
                path: path.clone(),
                before: copy_opt(before),
            },
            Op::Rename { from, to } => Op::Rename { from: from.clone(), to: to.clone() },
        }
    }
}

impl Install {
    /// The paths of the managed files.
    pub fn managed_paths(&self) -> (out: Vec<String>)
        ensures
            texts(out@) == paths_of(self@.files),
    {
        let ghost want = paths_of(self@.files);
        let mut out: Vec<String> = Vec::new();
        let mut i: usize = 0;
        while i < self.files.len()
            invariant
                i <= self.files@.len(),
                want == paths_of(self@.files),
                texts(out@) =~= want.take(i as int),
            decreases self.files.len() - i,
        {
            let ghost before = out@;
            out.push(self.files[i].path.clone());
            proof {
                assert(texts(out@) =~= texts(before).push(want[i as int]));
                assert(want.take(i + 1) =~= want.take(i as int).push(want[i as int]));
            }
            i = i + 1;
        }
        proof {
            assert(want.take(i as int) =~= want);
        }
        out
    }

    /// A copy.
    pub fn copy(&self) -> (c: Install)
        ensures
            c@ == self@,
    {
        let mut files: Vec<ManagedFile> = Vec::new();
        let mut i: usize = 0;
        while i < self.files.len()
            invariant
                i <= self.files@.len(),
                file_views(files@) =~= file_views(self.files@).take(i as int),
            decreases self.files.len() - i,
        {
            let ghost before = files@;
            files.push(self.files[i].copy());
            proof {
                let want = file_views(self.files@);
                assert(file_views(files@) =~= file_views(before).push(want[i as int]));
                assert(want.take(i + 1) =~= want.take(i as int).push(want[i as int]));
            }
            i = i + 1;
        }
        let mut script: Vec<Op> = Vec::new();
        let mut j: usize = 0;
        while j < self.script.len()
            invariant
                j <= self.script@.len(),
                op_views(script@) =~= op_views(self.script@).take(j as int),
            decreases self.script.len() - j,
        {
            let ghost before = script@;
            script.push(self.script[j].copy());
            proof {
                let want = op_views(self.script@);
                assert(op_views(script@) =~= op_views(before).push(want[j as int]));
                assert(want.take(j + 1) =~= want.take(j as int).push(want[j as int]));
            }
            j = j + 1;
        }
        proof {
            assert(file_views(self.files@).take(i as int) =~= file_views(self.files@));
            assert(op_views(self.script@).take(j as int) =~= op_views(self.script@));
        }
        Install {
            package: self.package.clone(),
            version: self.version.clone(),
            files,
            owned_dirs: own_all(&self.owned_dirs),
            backup: copy_opt(&self.backup),
            displaced: own_all(&self.displaced),
            script,
            at: self.at,
        }
    }
}

/// The installs of one game directory, by the id of the package.
#[derive(Debug)]
pub struct GameDirState {
    pub installs: StrMap<Install>,
}

impl Default for GameDirState {
    fn default() -> (d: GameDirState)
        ensures
            d.installs@ == Map::<Seq<char>, Install>::empty(),
    {
        GameDirState { installs: StrMap::new() }
    }
}

/// Everything that is recorded, by the key of the game directory.
#[derive(Debug)]
pub struct StateFile {
    pub schema: u32,
    pub dirs: StrMap<GameDirState>,
}

/// The installs recorded for a game directory.
pub open spec fn installs_at(st: StateFile, key: Seq<char>) -> Map<Seq<char>, Install> {
    if st.dirs@.dom().contains(key) {
        st.dirs@[key].installs@
    } else {
        Map::empty()
    }
}

/// The message about a recorded state that a newer program wrote.
pub open spec fn schema_message(schema: u32) -> Seq<char> {
    "state schema "@ + decimal(schema as nat) + " is newer than supported "@ + decimal(
        SUPPORTED_STATE_SCHEMA as nat,
    ) + " - please upgrade chef"@
}

/// The message about a recorded state that cannot be understood.
pub open spec fn corrupt_message(path: Seq<char>, why: Seq<char>) -> Seq<char> {
    "chef state at "@ + path + " is corrupt ("@ + why
        + "); inspect the backups folder in the chef data directory before deleting it"@
}

impl StateFile {
    /// The state of a machine where nothing was ever installed.
    pub fn fresh() -> (st: StateFile)
        ensures
            st.schema == SUPPORTED_STATE_SCHEMA,
            st.dirs@ == Map::<Seq<char>, GameDirState>::empty(),
    {
        StateFile { schema: SUPPORTED_STATE_SCHEMA, dirs: StrMap::new() }
    }

    /// The recorded state as it is used, where `read` is what reading the file at
    /// `path` came to: a fresh one where there is none yet; an error where it
    /// cannot be understood and where a newer program wrote it.
    pub fn load(
        path: &str,
        read: Option<core::result::Result<StateFile, String>>,
    ) -> (r: Result<StateFile>)
        ensures
            match read {
                None => r matches Ok(st) && st.schema == SUPPORTED_STATE_SCHEMA && st.dirs@
                    == Map::<Seq<char>, GameDirState>::empty(),
                Some(Err(why)) => fails(r, corrupt_message(path@, why@)),
                Some(Ok(st)) => if st.schema > SUPPORTED_STATE_SCHEMA {
                    fails(r, schema_message(st.schema))
                } else {
                    r == Ok::<StateFile, crate::error::ChefError>(st)
                },
            },
    {
        match read {
            None => Ok(StateFile::fresh()),
            Some(Err(why)) => {
                let mut m = cat3("chef state at ", path, " is corrupt (");
                m.append(why.as_str());
                m.append(
                    "); inspect the backups folder in the chef data directory before deleting it",
                );
                other(m)
            },
            Some(Ok(st)) => {
                if st.schema > SUPPORTED_STATE_SCHEMA {
                    let n = decimal_text(st.schema as u64);
                    let s = decimal_text(SUPPORTED_STATE_SCHEMA as u64);
                    let mut m = cat3("state schema ", n.as_str(), " is newer than supported ");
                    m.append(s.as_str());
                    m.append(" - please upgrade chef");
                    other(m)
                } else {
                    Ok(st)
                }
            },
        }
    }

    /// The installs of a game directory, if any were recorded.
    pub fn dir_state(&self, dir_key: &str) -> (r: Option<&GameDirState>)
        ensures
            match r {
                Some(d) => self.dirs@.dom().contains(dir_key@) && *d == self.dirs@[dir_key@],
                None => !self.dirs@.dom().contains(dir_key@),
            },
    {
        self.dirs.get(dir_key)
    }

    /// The install of a package in a game directory.
    pub fn install_of(&self, dir_key: &str, id: &str) -> (r: Option<&Install>)
        ensures
            match r {
                Some(i) => installs_at(*self, dir_key@).dom().contains(id@) && *i == installs_at(
                    *self,
                    dir_key@,
                )[id@],
                None => !installs_at(*self, dir_key@).dom().contains(id@),
            },
    {
        match self.dirs.get(dir_key) {
            Some(d) => d.installs.get(id),
            None => None,
        }
    }

    /// All installs of a game directory, in the order of their ids.
    pub fn installs_in(&self, dir_key: &str) -> (out: Vec<&Install>)
        ensures
            !self.dirs@.dom().contains(dir_key@) ==> out@.len() == 0,
            self.dirs@.dom().contains(dir_key@) ==> {
                let m = self.dirs@[dir_key@].installs;
                &&& out@.len() == m.keys().len()
                &&& crate::order::increasing(m.keys())
                &&& forall|k: Seq<char>| m@.dom().contains(k) <==> #[trigger] m.keys().contains(k)
                &&& forall|i: int|
                    0 <= i < out@.len() ==> *(#[trigger] out@[i]) == m@[m.keys()[i]]
            },
    {
        let mut out: Vec<&Install> = Vec::new();
        if let Some(d) = self.dirs.get(dir_key) {
            let n: usize = d.installs.len();
            let mut i: usize = 0;
            while i < n
                invariant
                    n == d.installs.keys().len(),
                    i <= n,
                    out@.len() == i,
                    forall|k: int|
                        0 <= k < i ==> *(#[trigger] out@[k]) == d.installs@[d.installs.keys()[k]],
                decreases n - i,
            {
                out.push(d.installs.value_at(i));
                i = i + 1;
            }
        }
        out
    }

    /// Replaces the installs of a game directory.
    pub fn put_dir(&mut self, dir_key: &str, d: GameDirState)
        ensures
            final(self).dirs@ == old(self).dirs@.insert(dir_key@, d),
            final(self).schema == old(self).schema,
    {
        self.dirs.insert(crate::text::own(dir_key), d);
    }
}

/// A recorded state is taken as it was read, unless a newer program wrote it or it
/// cannot be understood; where there is none, nothing is installed.
pub proof fn law_the_state_is_taken_as_read(
    path: &str,
    read: Option<core::result::Result<StateFile, String>>,
    r: Result<StateFile>,
    key: Seq<char>,
)
    requires
        call_ensures(StateFile::load, (path, read), r),
    ensures
        r is Err <==> read is Some && (read->0 is Err || read->0->Ok_0.schema > 2),
        read is Some && r is Ok ==> r->Ok_0 == read->0->Ok_0,
        read is None ==> installs_at(r->Ok_0, key).dom() == Set::<Seq<char>>::empty(),
{
}

} // verus!
