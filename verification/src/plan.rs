//! What installing a release would do to each file, without doing it.

use vstd::prelude::*;
use crate::deploy::{
    changed, dir_map, goes_to, has_content, has_path, is_there, look, occupant, placements,
    plan_for, slot_manages, DeployFile, Placed,
};
use crate::json::{held, held_fields, lemma_shows, object, put, record, shows, string, Json};
use crate::order::{comes_before, lemma_lt_total, lemma_lt_transitive, lt};
use crate::resolution::{pairs, ResolvedVersion};
use crate::restoring::{lemma_changed, lemma_not_in};
use crate::state::{file_views, paths_of, GameDirState, Install, ManagedFile, ManagedView};
use crate::strmap::StrMap;
use crate::target::keys_in_order;
use crate::text::{cat, cat3, chars_of, lowercase, own, same, slice_text, texts, to_lower};
use crate::undo::{Found, FoundView};

verus! {

/// What happens to one file.
#[derive(Debug, Clone, Copy, PartialEq, Eq, Structural)]
pub enum PlanOp {
    Add,
    Replace,
    Backup,
    Remove,
    Keep,
}

impl PlanOp {
    /// The word for it.
    pub open spec fn word_of(self) -> Seq<char> {
        match self {
            PlanOp::Add => "add"@,
            PlanOp::Replace => "replace"@,
            PlanOp::Backup => "backup"@,
            PlanOp::Remove => "remove"@,
            PlanOp::Keep => "keep"@,
        }
    }

    /// Its place in a plan.
    pub open spec fn rank(self) -> int {
        match self {
            PlanOp::Add => 0,
            PlanOp::Replace => 1,
            PlanOp::Backup => 2,
            PlanOp::Remove => 3,
            PlanOp::Keep => 4,
        }
    }

    /// The word for it.
    pub fn word(&self) -> (w: &'static str)
        ensures
            w@ == self.word_of(),
    {
        match self {
            PlanOp::Add => "add",
            PlanOp::Replace => "replace",
            PlanOp::Backup => "backup",
            PlanOp::Remove => "remove",
            PlanOp::Keep => "keep",
        }
    }

    fn place(&self) -> (n: u8)
        ensures
            n == self.rank(),
    {
        match self {
            PlanOp::Add => 0,
            PlanOp::Replace => 1,
            PlanOp::Backup => 2,
            PlanOp::Remove => 3,
            PlanOp::Keep => 4,
        }
    }
}

/// One step of a plan.
#[derive(Debug)]
pub struct PlanStep {
    /// Path in the game directory.
    pub path: String,
    pub op: PlanOp,
    pub note: String,
}

/// What a step is.
#[verifier::ext_equal]
pub struct StepView {
    pub path: Seq<char>,
    pub op: PlanOp,
    pub note: Seq<char>,
}

impl View for PlanStep {
    type V = StepView;

    open spec fn view(&self) -> StepView {
        StepView { path: self.path@, op: self.op, note: self.note@ }
    }
}

/// What the steps in a list are.
pub open spec fn step_views(v: Seq<PlanStep>) -> Seq<StepView> {
    v.map_values(|s: PlanStep| s@)
}

/// The digest that the release has for a path, up to case, where its files are
/// at hand; the last one counts.
pub open spec fn expected_digest(files: Seq<Placed>, low: Seq<char>) -> Option<Seq<char>>
    decreases files.len(),
{
    if files.len() == 0 {
        None
    } else if lowercase(files.last().dest) == low {
        Some(files.last().sha256)
    } else {
        expected_digest(files.drop_last(), low)
    }
}

/// The managed files put under their paths in small letters, where no file is
/// under that path yet.
pub open spec fn with_managed(
    m: Map<Seq<char>, (Seq<char>, Seq<char>)>,
    files: Seq<ManagedView>,
) -> Map<Seq<char>, (Seq<char>, Seq<char>)>
    decreases files.len(),
{
    if files.len() == 0 {
        m
    } else {
        let before = with_managed(m, files.drop_last());
        let f = files.last();
        if before.dom().contains(lowercase(f.path)) {
            before
        } else {
            before.insert(lowercase(f.path), (f.path, f.sha256))
        }
    }
}

/// The managed files of all installs in the slot: path in small letters to path
/// and digest.
pub open spec fn slot_files(installs: Map<Seq<char>, Install>, slot: Seq<Seq<char>>) -> Map<
    Seq<char>,
    (Seq<char>, Seq<char>),
>
    decreases slot.len(),
{
    if slot.len() == 0 {
        Map::empty()
    } else {
        let before = slot_files(installs, slot.drop_last());
        if installs.dom().contains(slot.last()) {
            with_managed(before, installs[slot.last()]@.files)
        } else {
            before
        }
    }
}

/// What happens to the path of a file of the release.
pub open spec fn step_for(
    deployed: Seq<char>,
    seen: Map<Seq<char>, Found>,
    files: Seq<Placed>,
    m: Map<Seq<char>, (Seq<char>, Seq<char>)>,
) -> StepView {
    let low = lowercase(deployed);
    let here = look(seen, deployed);
    if here is Nothing {
        StepView { path: deployed, op: PlanOp::Add, note: ""@ }
    } else if expected_digest(files, low) matches Some(d) && here == FoundView::Content(d) {
        StepView { path: deployed, op: PlanOp::Keep, note: "already installed"@ }
    } else if m.dom().contains(low) {
        if here == FoundView::Content(m[low].1) {
            StepView { path: deployed, op: PlanOp::Replace, note: "replaces the previous install"@ }
        } else {
            StepView {
                path: deployed,
                op: PlanOp::Replace,
                note: "overwrites your modified "@ + m[low].0,
            }
        }
    } else {
        StepView {
            path: deployed,
            op: PlanOp::Backup,
            note: "user file backed up, restored on 'chef remove'"@,
        }
    }
}

/// What happens to the paths of the files of the release.
pub open spec fn payload_steps(
    payload: Seq<(Seq<char>, Seq<char>)>,
    seen: Map<Seq<char>, Found>,
    files: Seq<Placed>,
    m: Map<Seq<char>, (Seq<char>, Seq<char>)>,
) -> Seq<StepView> {
    payload.map_values(|p: (Seq<char>, Seq<char>)| step_for(p.0, seen, files, m))
}

/// One of the files of the release goes to this path in small letters.
pub open spec fn shipped(payload: Seq<(Seq<char>, Seq<char>)>, low: Seq<char>) -> bool {
    exists|i: int| 0 <= i < payload.len() && lowercase((#[trigger] payload[i]).0) == low
}

/// What happens to a managed file that the release does not ship.
pub open spec fn stale_step(
    f: (Seq<char>, Seq<char>),
    seen: Map<Seq<char>, Found>,
    version: Seq<char>,
) -> StepView {
    if look(seen, f.0) == FoundView::Content(f.1) {
        StepView { path: f.0, op: PlanOp::Remove, note: "no longer shipped by "@ + version }
    } else {
        StepView {
            path: f.0,
            op: PlanOp::Keep,
            note: "no longer shipped; your modified copy stays"@,
        }
    }
}

/// What happens to the managed files that the release does not ship.
pub open spec fn stale_steps(
    keys: Seq<Seq<char>>,
    m: Map<Seq<char>, (Seq<char>, Seq<char>)>,
    payload: Seq<(Seq<char>, Seq<char>)>,
    seen: Map<Seq<char>, Found>,
    version: Seq<char>,
) -> Seq<StepView>
    decreases keys.len(),
{
    if keys.len() == 0 {
        Seq::empty()
    } else {
        let before = stale_steps(keys.drop_last(), m, payload, seen, version);
        if shipped(payload, keys.last()) {
            before
        } else {
            before.push(stale_step(m[keys.last()], seen, version))
        }
    }
}

/// `a` comes before `b` in a plan: by what happens, then by path.
pub open spec fn step_before(a: StepView, b: StepView) -> bool {
    a.op.rank() < b.op.rank() || (a.op.rank() == b.op.rank() && lt(a.path, b.path))
}

/// The step put into its place, behind its equals.
pub open spec fn step_placed(s: Seq<StepView>, x: StepView) -> Seq<StepView>
    decreases s.len(),
{
    if s.len() > 0 && step_before(x, s.last()) {
        step_placed(s.drop_last(), x).push(s.last())
    } else {
        s.push(x)
    }
}

/// The steps in order.
pub open spec fn steps_sorted(s: Seq<StepView>) -> Seq<StepView>
    decreases s.len(),
{
    if s.len() == 0 {
        s
    } else {
        step_placed(steps_sorted(s.drop_last()), s.last())
    }
}

proof fn lemma_step_placed(s: Seq<StepView>, x: StepView, j: int)
    requires
        0 <= j <= s.len(),
        forall|k: int| j <= k < s.len() ==> step_before(x, #[trigger] s[k]),
        j > 0 ==> !step_before(x, s[j - 1]),
    ensures
        step_placed(s, x) == s.insert(j, x),
    decreases s.len(),
{
    if s.len() > j {
        lemma_step_placed(s.drop_last(), x, j);
        assert(s.drop_last().insert(j, x).push(s.last()) =~= s.insert(j, x));
    } else {
        assert(s.push(x) =~= s.insert(j, x));
    }
}

fn is_step_before(a: &PlanStep, b: &PlanStep) -> (r: bool)
    ensures
        r == step_before(a@, b@),
{
    let x: u8 = a.op.place();
    let y: u8 = b.op.place();
    x < y || (x == y && comes_before(a.path.as_str(), b.path.as_str()))
}

fn place_step(v: &mut Vec<PlanStep>, x: PlanStep)
    ensures
        step_views(final(v)@) == step_placed(step_views(old(v)@), x@),
{
    let mut j: usize = v.len();
    let ghost s = step_views(v@);
    let ghost xv = x@;
    while j > 0 && is_step_before(&x, &v[j - 1])
        invariant
            j <= v@.len(),
            v@ == old(v)@,
            s == step_views(v@),
            xv == x@,
            forall|k: int| j <= k < s.len() ==> step_before(xv, #[trigger] s[k]),
        decreases j,
    {
        proof {
            assert(s[j - 1] == v@[j - 1]@);
        }
        j = j - 1;
    }
    proof {
        if j > 0 {
            assert(s[j - 1] == v@[j - 1]@);
        }
        lemma_step_placed(s, xv, j as int);
        assert(step_views(v@.insert(j as int, x)) =~= s.insert(j as int, xv));
    }
    v.insert(j, x);
}

fn sort_steps(steps: &Vec<PlanStep>) -> (out: Vec<PlanStep>)
    ensures
        step_views(out@) == steps_sorted(step_views(steps@)),
{
    let ghost s = step_views(steps@);
    let mut out: Vec<PlanStep> = Vec::new();
    let mut i: usize = 0;
    proof {
        assert(s.take(0) =~= Seq::<StepView>::empty());
        assert(step_views(out@) =~= Seq::<StepView>::empty());
    }
    while i < steps.len()
        invariant
            i <= steps@.len(),
            s == step_views(steps@),
            step_views(out@) == steps_sorted(s.take(i as int)),
        decreases steps.len() - i,
    {
        let x = &steps[i];
        proof {
            assert(s.take(i + 1).drop_last() =~= s.take(i as int));
            assert(s.take(i + 1).last() == x@);
        }
        place_step(
            &mut out,
            PlanStep { path: x.path.clone(), op: x.op, note: x.note.clone() },
        );
        i = i + 1;
    }
    proof {
        assert(s.take(i as int) =~= s);
    }
    out
}

fn digest_expected(files: &Vec<DeployFile>, low: &str) -> (r: Option<String>)
    ensures
        match r {
            Some(d) => expected_digest(placements(files@), low@) == Some(d@),
            None => expected_digest(placements(files@), low@) is None,
        },
{
    let ghost ps = placements(files@);
    let mut n: usize = files.len();
    proof {
        assert(ps.take(n as int) =~= ps);
    }
    while n > 0
        invariant
            n <= files@.len(),
            ps == placements(files@),
            expected_digest(ps, low@) == expected_digest(ps.take(n as int), low@),
        decreases n,
    {
        proof {
            assert(ps.take(n as int).drop_last() =~= ps.take(n - 1));
            assert(ps.take(n as int).last() == ps[n - 1]);
        }
        let l = to_lower(files[n - 1].dest_rel.as_str());
        if same(l.as_str(), low) {
            return Some(files[n - 1].sha256.clone());
        }
        n = n - 1;
    }
    None
}

/// The views of the pairs of texts in a map.
pub open spec fn pair_map(m: Map<Seq<char>, (String, String)>) -> Map<
    Seq<char>,
    (Seq<char>, Seq<char>),
> {
    m.map_values(|p: (String, String)| (p.0@, p.1@))
}

fn add_managed(m: &mut StrMap<(String, String)>, files: &Vec<ManagedFile>)
    ensures
        pair_map(final(m)@) == with_managed(pair_map(old(m)@), file_views(files@)),
{
    let ghost start = pair_map(m@);
    let ghost fs = file_views(files@);
    let mut i: usize = 0;
    proof {
        assert(fs.take(0) =~= Seq::<ManagedView>::empty());
    }
    while i < files.len()
        invariant
            i <= files@.len(),
            fs == file_views(files@),
            pair_map(m@) == with_managed(start, fs.take(i as int)),
        decreases files.len() - i,
    {
        let f = &files[i];
        proof {
            assert(fs.take(i + 1).drop_last() =~= fs.take(i as int));
            assert(fs.take(i + 1).last() == f@);
        }
        let low = to_lower(f.path.as_str());
        if !m.contains_key(low.as_str()) {
            let ghost before = m@;
            let ghost lv = low@;
            m.insert(low, (f.path.clone(), f.sha256.clone()));
            proof {
                assert(pair_map(m@) =~= pair_map(before).insert(lv, (f.path@, f.sha256@)));
            }
        }
        i = i + 1;
    }
    proof {
        assert(fs.take(i as int) =~= fs);
    }
}

fn files_of_slot(dir: Option<&GameDirState>, slot: &Vec<String>) -> (m: StrMap<(String, String)>)
    ensures
        pair_map(m@) == slot_files(dir_map(dir), texts(slot@)),
{
    let ghost s = texts(slot@);
    let mut m: StrMap<(String, String)> = StrMap::new();
    let mut i: usize = 0;
    proof {
        assert(s.take(0) =~= Seq::<Seq<char>>::empty());
        assert(pair_map(m@) =~= Map::empty());
    }
    while i < slot.len()
        invariant
            i <= slot@.len(),
            s == texts(slot@),
            pair_map(m@) == slot_files(dir_map(dir), s.take(i as int)),
        decreases slot.len() - i,
    {
        proof {
            assert(s.take(i + 1).drop_last() =~= s.take(i as int));
            assert(s.take(i + 1).last() == slot@[i as int]@);
        }
        if let Some(d) = dir {
            if let Some(x) = d.installs.get(slot[i].as_str()) {
                add_managed(&mut m, &x.files);
            }
        }
        i = i + 1;
    }
    proof {
        assert(s.take(i as int) =~= s);
    }
    m
}

fn plan_step(
    deployed: &String,
    seen: &StrMap<Found>,
    files: &Vec<DeployFile>,
    m: &StrMap<(String, String)>,
) -> (s: PlanStep)
    ensures
        s@ == step_for(deployed@, seen@, placements(files@), pair_map(m@)),
{
    let path = deployed.clone();
    if !is_there(seen, deployed.as_str()) {
        return PlanStep { path, op: PlanOp::Add, note: own("") };
    }
    let low = to_lower(deployed.as_str());
    if let Some(d) = digest_expected(files, low.as_str()) {
        if has_content(seen, deployed.as_str(), d.as_str()) {
            return PlanStep { path, op: PlanOp::Keep, note: own("already installed") };
        }
    }
    match m.get(low.as_str()) {
        Some(f) => {
            if has_content(seen, deployed.as_str(), f.1.as_str()) {
                PlanStep {
                    path,
                    op: PlanOp::Replace,
                    note: own("replaces the previous install"),
                }
            } else {
                PlanStep {
                    path,
                    op: PlanOp::Replace,
                    note: cat("overwrites your modified ", f.0.as_str()),
                }
            }
        },
        None => PlanStep {
            path,
            op: PlanOp::Backup,
            note: own("user file backed up, restored on 'chef remove'"),
        },
    }
}

fn is_shipped(payload: &Vec<(String, String)>, low: &str) -> (b: bool)
    ensures
        b == shipped(pairs(payload@), low@),
{
    let mut i: usize = 0;
    while i < payload.len()
        invariant
            i <= payload@.len(),
            forall|k: int| 0 <= k < i ==> lowercase((#[trigger] pairs(payload@)[k]).0) != low@,
        decreases payload.len() - i,
    {
        let l = to_lower(payload[i].0.as_str());
        if same(l.as_str(), low) {
            proof {
                assert(lowercase(pairs(payload@)[i as int].0) == low@);
            }
            return true;
        }
        i = i + 1;
    }
    false
}

/// The steps are the plan of installing the release: what happens to the paths of
/// its files, and to the managed files that it does not ship, in order.
pub open spec fn is_plan(
    steps: Seq<StepView>,
    product: ResolvedVersion,
    installs: Map<Seq<char>, Install>,
    seen: Map<Seq<char>, Found>,
    files: Seq<Placed>,
) -> bool {
    let m = slot_files(installs, texts(product.slot@));
    let pay = pairs(product.payload@);
    exists|keys: Seq<Seq<char>>| #[trigger]
        keys_in_order(m, keys) && steps == steps_sorted(
            payload_steps(pay, seen, files, m) + stale_steps(
                keys,
                m,
                pay,
                seen,
                product.version@,
            ),
        )
}

/// Plans, file by file, what installing the release would do. `seen` is what was
/// found in the game directory; `files` are the files of the release where they
/// are at hand, else none.
pub fn plan_deploy(
    product: &ResolvedVersion,
    dir: Option<&GameDirState>,
    seen: &StrMap<Found>,
    files: &Vec<DeployFile>,
) -> (out: Vec<PlanStep>)
    ensures
        is_plan(step_views(out@), *product, dir_map(dir), seen@, placements(files@)),
{
    let m = files_of_slot(dir, &product.slot);
    let ghost mv = slot_files(dir_map(dir), texts(product.slot@));
    let ghost pay = pairs(product.payload@);
    let ghost want = payload_steps(pay, seen@, placements(files@), mv);
    let mut steps: Vec<PlanStep> = Vec::new();
    let mut i: usize = 0;
    while i < product.payload.len()
        invariant
            i <= product.payload@.len(),
            mv == pair_map(m@),
            pay == pairs(product.payload@),
            want == payload_steps(pay, seen@, placements(files@), mv),
            step_views(steps@) =~= want.take(i as int),
        decreases product.payload.len() - i,
    {
        let ghost before = steps@;
        steps.push(plan_step(&product.payload[i].0, seen, files, &m));
        proof {
            assert(step_views(steps@) =~= step_views(before).push(want[i as int]));
            assert(want.take(i + 1) =~= want.take(i as int).push(want[i as int]));
        }
        i = i + 1;
    }
    let n: usize = m.len();
    let ghost keys = m.keys();
    proof {
        assert(want.take(i as int) =~= want);
        assert forall|k: Seq<char>| mv.dom().contains(k) <==> #[trigger] keys.contains(k) by {
            assert(m@.dom().contains(k) <==> mv.dom().contains(k));
        }
        assert(keys_in_order(mv, keys));
        assert(keys.take(0) =~= Seq::<Seq<char>>::empty());
        assert(want + Seq::<StepView>::empty() =~= want);
    }
    let mut j: usize = 0;
    while j < n
        invariant
            j <= n,
            n == keys.len(),
            keys == m.keys(),
            mv == pair_map(m@),
            pay == pairs(product.payload@),
            step_views(steps@) == want + stale_steps(
                keys.take(j as int),
                mv,
                pay,
                seen@,
                product.version@,
            ),
        decreases n - j,
    {
        let low = m.key_at(j);
        let f = m.value_at(j);
        let ghost done = stale_steps(keys.take(j as int), mv, pay, seen@, product.version@);
        proof {
            assert(keys.take(j + 1).drop_last() =~= keys.take(j as int));
            assert(keys.take(j + 1).last() == low@);
            assert(mv[low@] == (f.0@, f.1@));
        }
        if !is_shipped(&product.payload, low.as_str()) {
            let s = if has_content(seen, f.0.as_str(), f.1.as_str()) {
                PlanStep {
                    path: f.0.clone(),
                    op: PlanOp::Remove,
                    note: cat("no longer shipped by ", product.version.as_str()),
                }
            } else {
                PlanStep {
                    path: f.0.clone(),
                    op: PlanOp::Keep,
                    note: own("no longer shipped; your modified copy stays"),
                }
            };
            let ghost before = steps@;
            let ghost sv = s@;
            steps.push(s);
            proof {
                assert(step_views(steps@) =~= step_views(before).push(sv));
                assert((want + done).push(sv) =~= want + done.push(sv));
            }
        }
        j = j + 1;
    }
    proof {
        assert(keys.take(j as int) =~= keys);
    }
    sort_steps(&steps)
}

// ---------------------------------------------------------------------------
// The plan in words
// ---------------------------------------------------------------------------

/// The length of the longest path.
pub open spec fn widest(s: Seq<StepView>) -> nat
    decreases s.len(),
{
    if s.len() == 0 {
        0
    } else {
        let before = widest(s.drop_last());
        if s.last().path.len() > before {
            s.last().path.len()
        } else {
            before
        }
    }
}

/// The width of the column of paths: as wide as the longest, at most 52.
pub open spec fn path_width(s: Seq<StepView>) -> nat {
    if widest(s) < 52 {
        widest(s)
    } else {
        52
    }
}

/// So many spaces.
pub open spec fn spaces(n: nat) -> Seq<char>
    decreases n,
{
    if n == 0 {
        Seq::empty()
    } else {
        spaces((n - 1) as nat).push(' ')
    }
}

/// The text, filled up with spaces to the width.
pub open spec fn padded(s: Seq<char>, width: nat) -> Seq<char> {
    if s.len() < width {
        s + spaces((width - s.len()) as nat)
    } else {
        s
    }
}

/// A path in a column: cut where it is longer than the column.
pub open spec fn shortened(path: Seq<char>, width: nat) -> Seq<char> {
    if path.len() > width {
        path.take(
            if width == 0 {
                0
            } else {
                width - 1
            },
        ) + "..."@
    } else {
        path
    }
}

/// The line of a step.
pub open spec fn step_line(s: StepView, width: nat) -> Seq<char> {
    if s.note.len() == 0 {
        "    "@ + shortened(s.path, width) + "\n"@
    } else {
        "    "@ + padded(shortened(s.path, width), width) + "  "@ + s.note + "\n"@
    }
}

/// The lines of the steps, with a heading wherever something else happens.
pub open spec fn step_lines(s: Seq<StepView>, width: nat) -> Seq<char>
    decreases s.len(),
{
    if s.len() == 0 {
        Seq::empty()
    } else {
        let before = step_lines(s.drop_last(), width);
        let x = s.last();
        if s.len() == 1 || s[s.len() - 2].op != x.op {
            before + ("  "@ + x.op.word_of() + ":\n"@) + step_line(x, width)
        } else {
            before + step_line(x, width)
        }
    }
}

/// A text, filled up with spaces to the width.
pub fn pad(s: &str, width: usize) -> (out: String)
    ensures
        out@ == padded(s@, width as nat),
{
    let n: usize = chars_of(s).len();
    let mut out: String = own(s);
    if n < width {
        let mut k: usize = 0;
        proof {
            assert(s@ + spaces(0) =~= s@);
        }
        while k < width - n
            invariant
                n < width,
                k <= width - n,
                out@ == s@ + spaces(k as nat),
            decreases width - n - k,
        {
            proof {
                assert((s@ + spaces(k as nat)).push(' ') =~= s@ + spaces(k as nat).push(' '));
            }
            out.push(' ');
            k = k + 1;
        }
    }
    out
}

fn shorten(path: &str, width: usize) -> (out: String)
    ensures
        out@ == shortened(path@, width as nat),
{
    let v = chars_of(path);
    if v.len() > width {
        let n: usize = if width == 0 {
            0
        } else {
            width - 1
        };
        let head = slice_text(&v, 0, n);
        proof {
            assert(v@.subrange(0, n as int) =~= v@.take(n as int));
        }
        cat(head.as_str(), "...")
    } else {
        own(path)
    }
}

/// The plan in words, under the name and the version of the release.
pub fn print_plan(product: &ResolvedVersion, steps: &Vec<PlanStep>) -> (out: String)
    ensures
        out@ == product.name@ + " "@ + product.version@ + "\n"@ + step_lines(
            step_views(steps@),
            path_width(step_views(steps@)),
        ),
{
    let ghost s = step_views(steps@);
    let mut w: usize = 0;
    let mut i: usize = 0;
    proof {
        assert(s.take(0) =~= Seq::<StepView>::empty());
    }
    while i < steps.len()
        invariant
            i <= steps@.len(),
            s == step_views(steps@),
            w == if widest(s.take(i as int)) < 52 {
                widest(s.take(i as int))
            } else {
                52
            },
        decreases steps.len() - i,
    {
        proof {
            assert(s.take(i + 1).drop_last() =~= s.take(i as int));
            assert(s.take(i + 1).last() == steps@[i as int]@);
        }
        let n: usize = chars_of(steps[i].path.as_str()).len();
        if n > w {
            w = if n < 52 {
                n
            } else {
                52
            };
        }
        i = i + 1;
    }
    proof {
        assert(s.take(i as int) =~= s);
    }
    let mut out = cat3(product.name.as_str(), " ", product.version.as_str());
    out.append("\n");
    let ghost head = out@;
    let mut j: usize = 0;
    proof {
        assert(head + step_lines(s.take(0), w as nat) =~= head);
    }
    while j < steps.len()
        invariant
            j <= steps@.len(),
            s == step_views(steps@),
            out@ == head + step_lines(s.take(j as int), w as nat),
        decreases steps.len() - j,
    {
        let x = &steps[j];
        let ghost now = s.take(j + 1);
        let ghost before = step_lines(s.take(j as int), w as nat);
        proof {
            assert(now.drop_last() =~= s.take(j as int));
            assert(now.last() == x@);
            assert(j > 0 ==> now[now.len() - 2] == steps@[j - 1]@);
        }
        let mut add: String = String::new();
        let new_head: bool = j == 0 || steps[j - 1].op != x.op;
        if new_head {
            let h = cat3("  ", x.op.word(), ":\n");
            add.append(h.as_str());
            proof {
                assert(add@ =~= h@);
            }
        }
        let ghost heading = add@;
        let cell = shorten(x.path.as_str(), w);
        let line = if x.note.as_str().is_empty() {
            cat3("    ", cell.as_str(), "\n")
        } else {
            let p = pad(cell.as_str(), w);
            let mut l = cat3("    ", p.as_str(), "  ");
            l.append(x.note.as_str());
            l.append("\n");
            l
        };
        out.append(add.as_str());
        out.append(line.as_str());
        proof {
            assert(line@ == step_line(x@, w as nat));
            if new_head {
                assert(head + before + heading + line@ =~= head + (before + heading + line@));
            } else {
                assert(head + before + heading + line@ =~= head + (before + line@));
            }
        }
        j = j + 1;
    }
    proof {
        assert(s.take(j as int) =~= s);
    }
    out
}

/// A step as a document.
pub open spec fn step_document(s: StepView) -> Json {
    record(
        seq![
            ("path"@, Json::Text(s.path)),
            ("op"@, Json::Text(s.op.word_of())),
            ("note"@, Json::Text(s.note)),
        ],
    )
}

/// A step as a document.
pub fn step_value(s: &PlanStep) -> (v: serde_json::Value)
    ensures
        held(v) == step_document(s@),
{
    let mut f: Vec<(String, serde_json::Value)> = Vec::new();
    put(&mut f, "path", string(s.path.as_str()));
    put(&mut f, "op", string(s.op.word()));
    put(&mut f, "note", string(s.note.as_str()));
    proof {
        assert(held_fields(f@) =~= seq![
            ("path"@, Json::Text(s@.path)),
            ("op"@, Json::Text(s@.op.word_of())),
            ("note"@, Json::Text(s@.note)),
        ]);
    }
    object(f)
}

// ---------------------------------------------------------------------------
// What holds of a plan
// ---------------------------------------------------------------------------

proof fn lemma_step_placed_has(s: Seq<StepView>, x: StepView, e: StepView)
    ensures
        step_placed(s, x).contains(e) <==> s.contains(e) || e == x,
        step_placed(s, x).len() == s.len() + 1,
    decreases s.len(),
{
    let n = step_placed(s, x);
    let l = s.len() - 1;
    if s.len() > 0 && step_before(x, s.last()) {
        let t = s.drop_last();
        let b = step_placed(t, x);
        lemma_step_placed_has(t, x, e);
        assert(n == b.push(s[l]));
        if n.contains(e) {
            let k = n.index_of(e);
            if k < b.len() {
                assert(b[k] == e);
                if t.contains(e) {
                    assert(s[t.index_of(e)] == e);
                }
            } else {
                assert(s[l] == e);
            }
        }
        if s.contains(e) {
            let k = s.index_of(e);
            if k < l {
                assert(t[k] == e);
                assert(n[b.index_of(e)] == e);
            } else {
                assert(n[b.len() as int] == e);
            }
        }
        if e == x {
            assert(n[b.index_of(e)] == e);
        }
    } else {
        if n.contains(e) {
            let k = n.index_of(e);
            if k < s.len() {
                assert(s[k] == e);
            }
        }
        if s.contains(e) {
            assert(n[s.index_of(e)] == e);
        }
        assert(n[s.len() as int] == x);
    }
}

proof fn lemma_steps_sorted_has(s: Seq<StepView>, e: StepView)
    ensures
        steps_sorted(s).contains(e) <==> s.contains(e),
        steps_sorted(s).len() == s.len(),
    decreases s.len(),
{
    if s.len() > 0 {
        let t = s.drop_last();
        let l = s.len() - 1;
        lemma_steps_sorted_has(t, e);
        lemma_step_placed_has(steps_sorted(t), s[l], e);
        if s.contains(e) {
            let k = s.index_of(e);
            if k < l {
                assert(t[k] == e);
            }
        }
        if t.contains(e) {
            assert(s[t.index_of(e)] == e);
        }
        assert(s[l] == s.last());
    }
}

/// No step comes before one that stands in front of it.
spec fn in_step_order(s: Seq<StepView>) -> bool {
    forall|i: int, j: int|
        0 <= i < j < s.len() ==> !step_before(#[trigger] s[j], #[trigger] s[i])
}

proof fn lemma_step_before(a: StepView, b: StepView, c: StepView)
    ensures
        step_before(a, b) && step_before(b, c) ==> step_before(a, c),
        !(step_before(a, b) && step_before(b, a)),
        !step_before(b, a) && !step_before(c, b) ==> !step_before(c, a),
{
    lemma_lt_total(a.path, b.path);
    lemma_lt_total(b.path, c.path);
    lemma_lt_total(a.path, c.path);
    if lt(a.path, b.path) && lt(b.path, c.path) {
        lemma_lt_transitive(a.path, b.path, c.path);
    }
    if lt(c.path, a.path) && lt(a.path, b.path) {
        lemma_lt_transitive(c.path, a.path, b.path);
    }
    if lt(b.path, c.path) && lt(c.path, a.path) {
        lemma_lt_transitive(b.path, c.path, a.path);
    }
}

proof fn lemma_step_placed_order(s: Seq<StepView>, x: StepView)
    requires
        in_step_order(s),
    ensures
        in_step_order(step_placed(s, x)),
    decreases s.len(),
{
    let n = step_placed(s, x);
    let l = s.len() - 1;
    if s.len() > 0 && step_before(x, s.last()) {
        let t = s.drop_last();
        let b = step_placed(t, x);
        assert(in_step_order(t)) by {
            assert forall|i: int, j: int| 0 <= i < j < t.len() implies !step_before(
                #[trigger] t[j],
                #[trigger] t[i],
            ) by {
                assert(t[i] == s[i] && t[j] == s[j]);
            }
        }
        lemma_step_placed_order(t, x);
        assert forall|i: int, j: int| 0 <= i < j < n.len() implies !step_before(
            #[trigger] n[j],
            #[trigger] n[i],
        ) by {
            assert(n[i] == b[i]);
            if j < b.len() {
                assert(n[j] == b[j]);
            } else {
                assert(n[j] == s[l]);
                lemma_step_placed_has(t, x, b[i]);
                assert(b.contains(b[i]));
                if b[i] == x {
                    lemma_step_before(x, s[l], x);
                } else {
                    let k = t.index_of(b[i]);
                    assert(s[k] == b[i]);
                    assert(!step_before(s[l], s[k]));
                }
            }
        }
    } else {
        assert forall|i: int, j: int| 0 <= i < j < n.len() implies !step_before(
            #[trigger] n[j],
            #[trigger] n[i],
        ) by {
            assert(n[i] == s[i]);
            if j < s.len() {
                assert(n[j] == s[j]);
            } else {
                assert(n[j] == x);
                if i < l {
                    assert(!step_before(s[l], s[i]));
                    lemma_step_before(s[i], s[l], x);
                }
            }
        }
    }
}

proof fn lemma_steps_sorted_order(s: Seq<StepView>)
    ensures
        in_step_order(steps_sorted(s)),
    decreases s.len(),
{
    if s.len() > 0 {
        lemma_steps_sorted_order(s.drop_last());
        lemma_step_placed_order(steps_sorted(s.drop_last()), s.last());
    }
}

/// An install of the slot has this file.
pub open spec fn slot_has(
    installs: Map<Seq<char>, Install>,
    slot: Seq<Seq<char>>,
    f: ManagedView,
) -> bool {
    exists|i: int|
        0 <= i < slot.len() && installs.dom().contains(#[trigger] slot[i])
            && installs[slot[i]]@.files.contains(f)
}

proof fn lemma_with_managed(
    m: Map<Seq<char>, (Seq<char>, Seq<char>)>,
    files: Seq<ManagedView>,
    low: Seq<char>,
)
    ensures
        ({
            let n = with_managed(m, files);
            &&& m.dom().contains(low) ==> n.dom().contains(low) && n[low] == m[low]
            &&& n.dom().contains(low) && !m.dom().contains(low) ==> exists|j: int|
                0 <= j < files.len() && lowercase((#[trigger] files[j]).path) == low && n[low] == (
                    files[j].path,
                    files[j].sha256,
                )
            &&& forall|j: int|
                0 <= j < files.len() && lowercase((#[trigger] files[j]).path) == low
                    ==> n.dom().contains(low)
        }),
    decreases files.len(),
{
    if files.len() > 0 {
        let t = files.drop_last();
        let l = files.len() - 1;
        lemma_with_managed(m, t, low);
        let b = with_managed(m, t);
        let n = with_managed(m, files);
        if b.dom().contains(low) && !m.dom().contains(low) {
            let j = choose|j: int|
                0 <= j < t.len() && lowercase((#[trigger] t[j]).path) == low && b[low] == (
                    t[j].path,
                    t[j].sha256,
                );
            assert(files[j] == t[j]);
        } else if n.dom().contains(low) && !m.dom().contains(low) {
            assert(lowercase(files[l].path) == low);
        }
        assert forall|j: int| 0 <= j < files.len() && lowercase((#[trigger] files[j]).path) == low implies n.dom().contains(
            low,
        ) by {
            if j < l {
                assert(t[j] == files[j]);
            }
        }
    }
}

proof fn lemma_slot_files(installs: Map<Seq<char>, Install>, slot: Seq<Seq<char>>, low: Seq<char>)
    ensures
        ({
            let m = slot_files(installs, slot);
            &&& m.dom().contains(low) ==> exists|f: ManagedView| #[trigger]
                slot_has(installs, slot, f) && lowercase(f.path) == low && m[low] == (
                    f.path,
                    f.sha256,
                )
            &&& forall|f: ManagedView| #[trigger]
                slot_has(installs, slot, f) && lowercase(f.path) == low ==> m.dom().contains(low)
        }),
    decreases slot.len(),
{
    if slot.len() > 0 {
        let t = slot.drop_last();
        let l = slot.len() - 1;
        let id = slot[l];
        lemma_slot_files(installs, t, low);
        let b = slot_files(installs, t);
        let m = slot_files(installs, slot);
        let files = installs[id]@.files;
        lemma_with_managed(b, files, low);
        if m.dom().contains(low) {
            if b.dom().contains(low) {
                let f = choose|f: ManagedView| #[trigger]
                    slot_has(installs, t, f) && lowercase(f.path) == low && b[low] == (
                        f.path,
                        f.sha256,
                    );
                let i = choose|i: int|
                    0 <= i < t.len() && installs.dom().contains(#[trigger] t[i])
                        && installs[t[i]]@.files.contains(f);
                assert(slot[i] == t[i]);
                assert(slot_has(installs, slot, f));
            } else {
                let j = choose|j: int|
                    0 <= j < files.len() && lowercase((#[trigger] files[j]).path) == low && m[low]
                        == (files[j].path, files[j].sha256);
                assert(files.contains(files[j]));
                assert(slot_has(installs, slot, files[j]));
            }
        }
        assert forall|f: ManagedView| #[trigger]
            slot_has(installs, slot, f) && lowercase(f.path) == low implies m.dom().contains(
            low,
        ) by {
            let i = choose|i: int|
                0 <= i < slot.len() && installs.dom().contains(#[trigger] slot[i])
                    && installs[slot[i]]@.files.contains(f);
            if i < l {
                assert(t[i] == slot[i]);
                assert(slot_has(installs, t, f));
            } else {
                let j = files.index_of(f);
                assert(lowercase(files[j].path) == low);
            }
        }
    }
}

proof fn lemma_stale_steps(
    keys: Seq<Seq<char>>,
    m: Map<Seq<char>, (Seq<char>, Seq<char>)>,
    payload: Seq<(Seq<char>, Seq<char>)>,
    seen: Map<Seq<char>, Found>,
    version: Seq<char>,
)
    ensures
        ({
            let s = stale_steps(keys, m, payload, seen, version);
            &&& forall|k: int|
                0 <= k < keys.len() && !shipped(payload, #[trigger] keys[k]) ==> s.contains(
                    stale_step(m[keys[k]], seen, version),
                )
            &&& forall|e: StepView| #[trigger]
                s.contains(e) ==> exists|k: int|
                    0 <= k < keys.len() && !shipped(payload, #[trigger] keys[k]) && e == stale_step(
                        m[keys[k]],
                        seen,
                        version,
                    )
        }),
    decreases keys.len(),
{
    if keys.len() > 0 {
        let t = keys.drop_last();
        let l = keys.len() - 1;
        lemma_stale_steps(t, m, payload, seen, version);
        let b = stale_steps(t, m, payload, seen, version);
        let s = stale_steps(keys, m, payload, seen, version);
        assert forall|k: int| 0 <= k < keys.len() && !shipped(payload, #[trigger] keys[k]) implies s.contains(
            stale_step(m[keys[k]], seen, version),
        ) by {
            let e = stale_step(m[keys[k]], seen, version);
            if k < l {
                assert(t[k] == keys[k]);
                assert(s[b.index_of(e)] == e);
            } else {
                assert(s[b.len() as int] == e);
            }
        }
        assert forall|e: StepView| #[trigger] s.contains(e) implies exists|k: int|
            0 <= k < keys.len() && !shipped(payload, #[trigger] keys[k]) && e == stale_step(
                m[keys[k]],
                seen,
                version,
            ) by {
            let at = s.index_of(e);
            if at < b.len() {
                assert(b[at] == e);
                assert(b.contains(e));
                let k = choose|k: int|
                    0 <= k < t.len() && !shipped(payload, #[trigger] t[k]) && e == stale_step(
                        m[t[k]],
                        seen,
                        version,
                    );
                assert(keys[k] == t[k]);
            } else {
                assert(!shipped(payload, keys[l]));
            }
        }
    }
}

proof fn lemma_expected_digest(files: Seq<Placed>, low: Seq<char>)
    ensures
        match expected_digest(files, low) {
            Some(d) => exists|i: int|
                0 <= i < files.len() && lowercase((#[trigger] files[i]).dest) == low
                    && files[i].sha256 == d,
            None => forall|i: int|
                0 <= i < files.len() ==> lowercase((#[trigger] files[i]).dest) != low,
        },
    decreases files.len(),
{
    if files.len() > 0 {
        let t = files.drop_last();
        let l = files.len() - 1;
        lemma_expected_digest(t, low);
        if lowercase(files[l].dest) == low {
            assert(files[l].sha256 == files[l].sha256);
        } else if expected_digest(t, low) is Some {
            let i = choose|i: int|
                0 <= i < t.len() && lowercase((#[trigger] t[i]).dest) == low && t[i].sha256
                    == expected_digest(t, low)->0;
            assert(files[i] == t[i]);
        } else {
            assert forall|i: int| 0 <= i < files.len() implies lowercase((#[trigger] files[i]).dest)
                != low by {
                if i < l {
                    assert(t[i] == files[i]);
                }
            }
        }
    }
}

/// A plan tells of every path that the release ships: it is added where nothing is
/// there, kept where its very content is, replaced where an install of the slot has
/// the path, and else what is there is backed up. Of a file of the slot that the
/// release does not ship it tells that it is removed where it is unchanged, and that
/// it is kept where it is not; nothing else is removed. What is added comes first,
/// then what is replaced, backed up, removed and kept.
pub proof fn law_plan_tells_what_happens(
    steps: Seq<StepView>,
    product: ResolvedVersion,
    installs: Map<Seq<char>, Install>,
    seen: Map<Seq<char>, Found>,
    files: Seq<Placed>,
)
    requires
        is_plan(steps, product, installs, seen, files),
    ensures
        forall|i: int|
            0 <= i < product.payload@.len() ==> {
                let path = (#[trigger] product.payload@[i]).0@;
                let managed = exists|f: ManagedView| #[trigger]
                    slot_has(installs, texts(product.slot@), f) && lowercase(f.path) == lowercase(
                        path,
                    );
                exists|k: int|
                    0 <= k < steps.len() && (#[trigger] steps[k]).path == path && match steps[k].op {
                        PlanOp::Add => look(seen, path) is Nothing,
                        PlanOp::Keep => exists|j: int|
                            0 <= j < files.len() && lowercase((#[trigger] files[j]).dest)
                                == lowercase(path) && look(seen, path) == FoundView::Content(
                                files[j].sha256,
                            ),
                        PlanOp::Replace => !(look(seen, path) is Nothing) && managed,
                        PlanOp::Backup => !(look(seen, path) is Nothing) && !managed,
                        PlanOp::Remove => false,
                    }
            },
        forall|k: int|
            0 <= k < steps.len() && (#[trigger] steps[k]).op == PlanOp::Remove ==> {
                &&& exists|f: ManagedView| #[trigger]
                    slot_has(installs, texts(product.slot@), f) && f.path == steps[k].path && look(
                        seen,
                        f.path,
                    ) == FoundView::Content(f.sha256)
                &&& forall|i: int|
                    0 <= i < product.payload@.len() ==> lowercase(
                        (#[trigger] product.payload@[i]).0@,
                    ) != lowercase(steps[k].path)
            },
        forall|f: ManagedView| #[trigger]
            slot_has(installs, texts(product.slot@), f) && (forall|i: int|
                0 <= i < product.payload@.len() ==> lowercase((#[trigger] product.payload@[i]).0@)
                    != lowercase(f.path)) && (forall|g: ManagedView| #[trigger]
                slot_has(installs, texts(product.slot@), g) && lowercase(g.path) == lowercase(f.path)
                    ==> g.path == f.path && g.sha256 == f.sha256) ==> exists|k: int|
                0 <= k < steps.len() && (#[trigger] steps[k]).path == f.path && steps[k].op == (if look(
                    seen,
                    f.path,
                ) == FoundView::Content(f.sha256) {
                    PlanOp::Remove
                } else {
                    PlanOp::Keep
                }),
        steps.len() >= product.payload@.len(),
        forall|i: int, j: int|
            0 <= i < j < steps.len() ==> {
                &&& (#[trigger] steps[j]).op is Add ==> (#[trigger] steps[i]).op is Add
                &&& steps[j].op is Replace ==> steps[i].op is Add || steps[i].op is Replace
                &&& steps[j].op is Backup ==> !(steps[i].op is Remove) && !(steps[i].op is Keep)
                &&& steps[j].op is Remove ==> !(steps[i].op is Keep)
            },
{
    let slot = texts(product.slot@);
    let m = slot_files(installs, slot);
    let pay = pairs(product.payload@);
    let v = product.version@;
    let keys = choose|keys: Seq<Seq<char>>| #[trigger]
        keys_in_order(m, keys) && steps == steps_sorted(
            payload_steps(pay, seen, files, m) + stale_steps(keys, m, pay, seen, v),
        );
    let front = payload_steps(pay, seen, files, m);
    let back = stale_steps(keys, m, pay, seen, v);
    let all = front + back;
    lemma_stale_steps(keys, m, pay, seen, v);
    lemma_steps_sorted_order(all);
    lemma_steps_sorted_has(all, all[0]);
    assert forall|i: int| 0 <= i < product.payload@.len() implies {
        let path = (#[trigger] product.payload@[i]).0@;
        let managed = exists|f: ManagedView| #[trigger]
            slot_has(installs, slot, f) && lowercase(f.path) == lowercase(path);
        exists|k: int|
            0 <= k < steps.len() && (#[trigger] steps[k]).path == path && match steps[k].op {
                PlanOp::Add => look(seen, path) is Nothing,
                PlanOp::Keep => exists|j: int|
                    0 <= j < files.len() && lowercase((#[trigger] files[j]).dest) == lowercase(path)
                        && look(seen, path) == FoundView::Content(files[j].sha256),
                PlanOp::Replace => !(look(seen, path) is Nothing) && managed,
                PlanOp::Backup => !(look(seen, path) is Nothing) && !managed,
                PlanOp::Remove => false,
            }
    } by {
        let path = product.payload@[i].0@;
        assert(pay[i].0 == path);
        let e = step_for(path, seen, files, m);
        assert(front[i] == e);
        assert(all[i] == e);
        assert(all.contains(e));
        lemma_steps_sorted_has(all, e);
        lemma_slot_files(installs, slot, lowercase(path));
        lemma_expected_digest(files, lowercase(path));
        let k = steps.index_of(e);
        assert(steps[k] == e);
    }
    assert forall|k: int| 0 <= k < steps.len() && (#[trigger] steps[k]).op == PlanOp::Remove implies {
        &&& exists|f: ManagedView| #[trigger]
            slot_has(installs, slot, f) && f.path == steps[k].path && look(seen, f.path)
                == FoundView::Content(f.sha256)
        &&& forall|i: int|
            0 <= i < product.payload@.len() ==> lowercase((#[trigger] product.payload@[i]).0@)
                != lowercase(steps[k].path)
    } by {
        let e = steps[k];
        assert(steps.contains(e));
        lemma_steps_sorted_has(all, e);
        let at = all.index_of(e);
        if at < front.len() {
            assert(front[at] == e);
            assert(e == step_for(pay[at].0, seen, files, m));
        }
        assert(back[at - front.len()] == e);
        assert(back.contains(e));
        let q = choose|q: int|
            0 <= q < keys.len() && !shipped(pay, #[trigger] keys[q]) && e == stale_step(
                m[keys[q]],
                seen,
                v,
            );
        assert(keys.contains(keys[q]));
        lemma_slot_files(installs, slot, keys[q]);
        let f = choose|f: ManagedView| #[trigger]
            slot_has(installs, slot, f) && lowercase(f.path) == keys[q] && m[keys[q]] == (
                f.path,
                f.sha256,
            );
        assert(f.path == e.path);
        assert forall|i: int| 0 <= i < product.payload@.len() implies lowercase(
            (#[trigger] product.payload@[i]).0@,
        ) != lowercase(e.path) by {
            assert(pay[i].0 == product.payload@[i].0@);
        }
    }
    assert forall|f: ManagedView| #[trigger]
        slot_has(installs, slot, f) && (forall|i: int|
            0 <= i < product.payload@.len() ==> lowercase((#[trigger] product.payload@[i]).0@)
                != lowercase(f.path)) && (forall|g: ManagedView| #[trigger]
            slot_has(installs, slot, g) && lowercase(g.path) == lowercase(f.path) ==> g.path == f.path
                && g.sha256 == f.sha256) implies exists|k: int|
        0 <= k < steps.len() && (#[trigger] steps[k]).path == f.path && steps[k].op == (if look(
            seen,
            f.path,
        ) == FoundView::Content(f.sha256) {
            PlanOp::Remove
        } else {
            PlanOp::Keep
        }) by {
        let low = lowercase(f.path);
        lemma_slot_files(installs, slot, low);
        assert(m.dom().contains(low));
        let g = choose|g: ManagedView| #[trigger]
            slot_has(installs, slot, g) && lowercase(g.path) == low && m[low] == (g.path, g.sha256);
        assert(keys.contains(low));
        let q = keys.index_of(low);
        assert(!shipped(pay, keys[q])) by {
            if shipped(pay, low) {
                let i = choose|i: int|
                    0 <= i < pay.len() && lowercase((#[trigger] pay[i]).0) == low;
                assert(product.payload@[i].0@ == pay[i].0);
            }
        }
        let e = stale_step(m[low], seen, v);
        assert(back.contains(e));
        let at = back.index_of(e);
        assert(all[front.len() + at] == e);
        lemma_steps_sorted_has(all, e);
        let k = steps.index_of(e);
        assert(steps[k] == e);
    }
    assert forall|i: int, j: int| 0 <= i < j < steps.len() implies {
        &&& (#[trigger] steps[j]).op is Add ==> (#[trigger] steps[i]).op is Add
        &&& steps[j].op is Replace ==> steps[i].op is Add || steps[i].op is Replace
        &&& steps[j].op is Backup ==> !(steps[i].op is Remove) && !(steps[i].op is Keep)
        &&& steps[j].op is Remove ==> !(steps[i].op is Keep)
    } by {
        assert(!step_before(steps[j], steps[i]));
    }
}

/// A plan agrees with the deployment that it tells of, where the release has its
/// files at hand, one install gives way and none of its files has the path of
/// another up to case: what the plan removes is what the deployment removes and does
/// not write again, what the deployment leaves because it was edited the plan
/// keeps, and what the plan backs up is displaced.
pub proof fn law_plan_agrees_with_deployment(
    steps: Seq<StepView>,
    product: ResolvedVersion,
    installs: Map<Seq<char>, Install>,
    seen: Map<Seq<char>, Found>,
    files: Seq<Placed>,
    kept: Seq<String>,
)
    requires
        is_plan(steps, product, installs, seen, files),
        files.len() == product.payload@.len(),
        forall|i: int|
            0 <= i < files.len() ==> (#[trigger] files[i]).dest == product.payload@[i].0@,
        occupant(installs, texts(product.slot@)) is Some,
        forall|i: int|
            0 <= i < product.slot@.len() && installs.dom().contains(
                (#[trigger] product.slot@[i])@,
            ) ==> installs[product.slot@[i]@] == occupant(installs, texts(product.slot@))->0,
        forall|i: int, j: int|
            0 <= i < j < occupant(installs, texts(product.slot@))->0@.files.len() ==> lowercase(
                (#[trigger] occupant(installs, texts(product.slot@))->0@.files[i]).path,
            ) != lowercase(
                (#[trigger] occupant(installs, texts(product.slot@))->0@.files[j]).path,
            ),
    ensures
        ({
            let plan = plan_for(files, installs, texts(product.slot@), seen, kept);
            &&& forall|k: int|
                0 <= k < steps.len() && (#[trigger] steps[k]).op == PlanOp::Remove
                    ==> plan.removals.contains(steps[k].path) && !plan.preserved.contains(
                    steps[k].path,
                ) && !goes_to(files, steps[k].path)
            &&& forall|p: Seq<char>| #[trigger]
                plan.removals.contains(p) && !(look(seen, p) is Nothing) && !goes_to(files, p)
                    ==> exists|k: int|
                    0 <= k < steps.len() && (#[trigger] steps[k]).path == p && steps[k].op
                        == PlanOp::Remove
            &&& forall|p: Seq<char>| #[trigger]
                plan.preserved.contains(p) && !goes_to(files, p) ==> exists|k: int|
                    0 <= k < steps.len() && (#[trigger] steps[k]).path == p && steps[k].op
                        == PlanOp::Keep
            &&& forall|i: int|
                0 <= i < files.len() && !(look(seen, (#[trigger] files[i]).dest) is Nothing)
                    && plan.displaced.contains(files[i].dest) && !slot_manages(
                    installs,
                    texts(product.slot@),
                    files[i].dest,
                ) ==> exists|k: int|
                    0 <= k < steps.len() && (#[trigger] steps[k]).path == files[i].dest && (
                    steps[k].op == PlanOp::Backup || steps[k].op == PlanOp::Keep)
        }),
{
    let slot = texts(product.slot@);
    let prev = occupant(installs, slot)->0;
    let fs = prev@.files;
    let plan = plan_for(files, installs, slot, seen, kept);
    law_plan_tells_what_happens(steps, product, installs, seen, files);
    let at = lemma_occupant_at(installs, slot);
    // The files of the slot are those of the install that gives way.
    assert forall|f: ManagedView| #[trigger] slot_has(installs, slot, f) <==> fs.contains(f) by {
        if slot_has(installs, slot, f) {
            let i = choose|i: int|
                0 <= i < slot.len() && installs.dom().contains(#[trigger] slot[i])
                    && installs[slot[i]]@.files.contains(f);
            assert(product.slot@[i]@ == slot[i]);
        }
        if fs.contains(f) {
            assert(installs[slot[at]]@.files.contains(f));
        }
    }
    assert forall|f: ManagedView, g: ManagedView| #[trigger]
        fs.contains(f) && #[trigger] fs.contains(g) && lowercase(f.path) == lowercase(g.path) implies f
        == g by {
        let i = fs.index_of(f);
        let j = fs.index_of(g);
        if i < j {
            assert(lowercase(fs[i].path) != lowercase(fs[j].path));
        } else if j < i {
            assert(lowercase(fs[j].path) != lowercase(fs[i].path));
        }
    }
    assert forall|p: Seq<char>| #[trigger] changed(fs, seen).contains(p) implies exists|j: int|
        0 <= j < fs.len() && (#[trigger] fs[j]).path == p && !(look(seen, p) is Nothing) && look(
            seen,
            p,
        ) != FoundView::Content(fs[j].sha256) by {
        lemma_changed_from(fs, seen, p);
    }
    assert forall|k: int| 0 <= k < steps.len() && (#[trigger] steps[k]).op == PlanOp::Remove implies plan.removals.contains(
        steps[k].path,
    ) && !plan.preserved.contains(steps[k].path) && !goes_to(files, steps[k].path) by {
        let p = steps[k].path;
        let f = choose|f: ManagedView| #[trigger]
            slot_has(installs, slot, f) && f.path == p && look(seen, f.path) == FoundView::Content(
                f.sha256,
            );
        let j = fs.index_of(f);
        assert(paths_of(fs)[j] == p);
        if changed(fs, seen).contains(p) {
            let q = choose|q: int|
                0 <= q < fs.len() && (#[trigger] fs[q]).path == p && look(seen, p)
                    != FoundView::Content(fs[q].sha256);
            assert(fs.contains(fs[q]));
        }
        lemma_not_in(paths_of(fs), changed(fs, seen), p);
        if goes_to(files, p) {
            let i = choose|i: int|
                0 <= i < files.len() && lowercase((#[trigger] files[i]).dest) == lowercase(p);
            assert(lowercase(product.payload@[i].0@) == lowercase(p));
        }
    }
    assert forall|f: ManagedView| #[trigger] fs.contains(f) && !goes_to(files, f.path) implies exists|
        k: int,
    |
        0 <= k < steps.len() && (#[trigger] steps[k]).path == f.path && steps[k].op == (if look(
            seen,
            f.path,
        ) == FoundView::Content(f.sha256) {
            PlanOp::Remove
        } else {
            PlanOp::Keep
        }) by {
        assert(slot_has(installs, slot, f));
        assert forall|i: int| 0 <= i < product.payload@.len() implies lowercase(
            (#[trigger] product.payload@[i]).0@,
        ) != lowercase(f.path) by {
            assert(files[i].dest == product.payload@[i].0@);
        }
        assert forall|g: ManagedView| #[trigger]
            slot_has(installs, slot, g) && lowercase(g.path) == lowercase(f.path) implies g.path
            == f.path && g.sha256 == f.sha256 by {
            assert(fs.contains(g));
        }
    }
    assert forall|p: Seq<char>| #[trigger]
        plan.removals.contains(p) && !(look(seen, p) is Nothing) && !goes_to(files, p) implies exists|
        k: int,
    |
        0 <= k < steps.len() && (#[trigger] steps[k]).path == p && steps[k].op
            == PlanOp::Remove by {
        lemma_not_in(paths_of(fs), changed(fs, seen), p);
        let j = paths_of(fs).index_of(p);
        let f = fs[j];
        assert(f.path == p);
        assert(fs.contains(f));
        if look(seen, p) != FoundView::Content(f.sha256) {
            lemma_changed(fs, seen, j);
        }
    }
    assert forall|p: Seq<char>| #[trigger] plan.preserved.contains(p) && !goes_to(files, p) implies exists|
        k: int,
    |
        0 <= k < steps.len() && (#[trigger] steps[k]).path == p && steps[k].op
            == PlanOp::Keep by {
        let j = choose|j: int|
            0 <= j < fs.len() && (#[trigger] fs[j]).path == p && look(seen, p)
                != FoundView::Content(fs[j].sha256);
        assert(fs.contains(fs[j]));
    }
    assert forall|i: int|
        0 <= i < files.len() && !(look(seen, (#[trigger] files[i]).dest) is Nothing)
            && plan.displaced.contains(files[i].dest) && !slot_manages(
            installs,
            slot,
            files[i].dest,
        ) implies exists|k: int|
        0 <= k < steps.len() && (#[trigger] steps[k]).path == files[i].dest && (steps[k].op
            == PlanOp::Backup || steps[k].op == PlanOp::Keep) by {
        let path = product.payload@[i].0@;
        assert(files[i].dest == path);
        if exists|f: ManagedView| #[trigger]
            slot_has(installs, slot, f) && lowercase(f.path) == lowercase(path) {
            let f = choose|f: ManagedView| #[trigger]
                slot_has(installs, slot, f) && lowercase(f.path) == lowercase(path);
            let j = fs.index_of(f);
            assert(lowercase(fs[j].path) == lowercase(path));
            assert(has_path(installs[slot[at]]@.files, path));
            assert(slot_manages(installs, slot, path));
        }
    }
}

proof fn lemma_occupant_at(installs: Map<Seq<char>, Install>, slot: Seq<Seq<char>>) -> (i: int)
    requires
        occupant(installs, slot) is Some,
    ensures
        0 <= i < slot.len(),
        installs.dom().contains(slot[i]),
        installs[slot[i]] == occupant(installs, slot)->0,
        forall|j: int| 0 <= j < i ==> !installs.dom().contains(#[trigger] slot[j]),
    decreases slot.len(),
{
    if installs.dom().contains(slot[0]) {
        0
    } else {
        let t = slot.drop_first();
        let i = lemma_occupant_at(installs, t);
        assert(slot[i + 1] == t[i]);
        assert forall|j: int| 0 <= j < i + 1 implies !installs.dom().contains(#[trigger] slot[j]) by {
            if j > 0 {
                assert(t[j - 1] == slot[j]);
            }
        }
        i + 1
    }
}

proof fn lemma_changed_from(files: Seq<ManagedView>, seen: Map<Seq<char>, Found>, p: Seq<char>)
    requires
        changed(files, seen).contains(p),
    ensures
        exists|j: int|
            0 <= j < files.len() && (#[trigger] files[j]).path == p && !(look(seen, p) is Nothing)
                && look(seen, p) != FoundView::Content(files[j].sha256),
    decreases files.len(),
{
    if files.len() > 0 {
        let t = files.drop_last();
        let l = files.len() - 1;
        let b = changed(t, seen);
        let k = changed(files, seen).index_of(p);
        if k < b.len() {
            assert(b[k] == p);
            lemma_changed_from(t, seen, p);
            let j = choose|j: int|
                0 <= j < t.len() && (#[trigger] t[j]).path == p && !(look(seen, p) is Nothing)
                    && look(seen, p) != FoundView::Content(t[j].sha256);
            assert(files[j] == t[j]);
        } else {
            assert(files[l].path == p);
        }
    }
}

/// A text in a column keeps its characters, and has spaces behind it up to the
/// width of the column.
pub proof fn law_columns_are_filled(s: Seq<char>, width: nat)
    ensures
        padded(s, width).len() == if s.len() < width {
            width
        } else {
            s.len()
        },
        forall|i: int| 0 <= i < s.len() ==> #[trigger] padded(s, width)[i] == s[i],
        forall|i: int| s.len() <= i < padded(s, width).len() ==> #[trigger] padded(s, width)[i] == ' ',
{
    if s.len() < width {
        lemma_spaces((width - s.len()) as nat);
    }
}

proof fn lemma_spaces(n: nat)
    ensures
        spaces(n).len() == n,
        forall|i: int| 0 <= i < n ==> #[trigger] spaces(n)[i] == ' ',
    decreases n,
{
    if n > 0 {
        lemma_spaces((n - 1) as nat);
    }
}

/// The column of paths is wide enough for every path, unless one is longer than
/// 52 characters, and no wider than it has to be.
pub proof fn law_paths_fit(s: Seq<StepView>)
    ensures
        path_width(s) <= 52,
        forall|i: int|
            0 <= i < s.len() ==> (#[trigger] s[i]).path.len() <= path_width(s) || path_width(s) == 52,
        path_width(s) == 52 || s.len() == 0 || exists|i: int|
            0 <= i < s.len() && (#[trigger] s[i]).path.len() == path_width(s),
{
    lemma_widest(s);
}

proof fn lemma_widest(s: Seq<StepView>)
    ensures
        forall|i: int| 0 <= i < s.len() ==> (#[trigger] s[i]).path.len() <= widest(s),
        s.len() == 0 || exists|i: int|
            0 <= i < s.len() && (#[trigger] s[i]).path.len() == widest(s),
    decreases s.len(),
{
    if s.len() > 0 {
        let t = s.drop_last();
        lemma_widest(t);
        assert(s[s.len() - 1] == s.last());
        assert forall|i: int| 0 <= i < t.len() implies #[trigger] s[i] == t[i] by {}
        if t.len() > 0 {
            let i = choose|i: int| 0 <= i < t.len() && (#[trigger] t[i]).path.len() == widest(t);
            assert(s[i] == t[i]);
        }
    }
}

/// A step is told with its path, what happens, and the note.
pub proof fn law_steps_are_told_in_full(s: StepView)
    ensures
        shows(step_document(s), "path"@, Json::Text(s.path)),
        shows(step_document(s), "op"@, Json::Text(s.op.word_of())),
        shows(step_document(s), "note"@, Json::Text(s.note)),
{
    reveal_strlit("path");
    reveal_strlit("op");
    reveal_strlit("note");
    assert("path"@.len() == 4);
    assert("op"@.len() == 2);
    assert("note"@.len() == 4);
    assert("path"@[0] == 'p');
    assert("note"@[0] == 'n');
    let f = seq![
        ("path"@, Json::Text(s.path)),
        ("op"@, Json::Text(s.op.word_of())),
        ("note"@, Json::Text(s.note)),
    ];
    lemma_shows(f, 0);
    lemma_shows(f, 1);
    lemma_shows(f, 2);
}

/// Each thing that can happen to a file has a word of its own.
pub proof fn law_steps_have_words(a: &PlanOp, w: &'static str)
    requires
        call_ensures(PlanOp::word, (a,), w),
    ensures
        *a == PlanOp::Add <==> w@ == "add"@,
        *a == PlanOp::Replace <==> w@ == "replace"@,
        *a == PlanOp::Backup <==> w@ == "backup"@,
        *a == PlanOp::Remove <==> w@ == "remove"@,
        *a == PlanOp::Keep <==> w@ == "keep"@,
{
    reveal_strlit("add");
    reveal_strlit("replace");
    reveal_strlit("backup");
    reveal_strlit("remove");
    reveal_strlit("keep");
    assert("add"@.len() == 3);
    assert("replace"@.len() == 7);
    assert("backup"@.len() == 6 && "backup"@[0] == 'b');
    assert("remove"@.len() == 6 && "remove"@[0] == 'r');
    assert("keep"@.len() == 4);
}

/// Every step of a plan is told on a line of its own.
pub proof fn law_every_step_is_printed(s: Seq<StepView>, width: nat, i: int)
    requires
        0 <= i < s.len(),
    ensures
        exists|front: Seq<char>, back: Seq<char>|
            step_lines(s, width) == #[trigger] (front + step_line(s[i], width) + back),
    decreases s.len(),
{
    let t = s.drop_last();
    let x = s.last();
    let last = step_line(x, width);
    let before = step_lines(t, width);
    let head = "  "@ + x.op.word_of() + ":\n"@;
    let none = Seq::<char>::empty();
    let more = if s.len() == 1 || s[s.len() - 2].op != x.op {
        head + last
    } else {
        last
    };
    assert(step_lines(s, width) =~= before + more);
    if i < t.len() {
        law_every_step_is_printed(t, width, i);
        let (f, b) = choose|f: Seq<char>, b: Seq<char>|
            step_lines(t, width) == #[trigger] (f + step_line(t[i], width) + b);
        assert(step_lines(s, width) =~= f + step_line(s[i], width) + (b + more));
    } else if s.len() == 1 || s[s.len() - 2].op != x.op {
        assert(step_lines(s, width) =~= (before + head) + step_line(s[i], width) + none);
    } else {
        assert(step_lines(s, width) =~= before + step_line(s[i], width) + none);
    }
}

/// A path that fits into its column is told in full; a longer one is cut, with
/// three dots behind it.
pub proof fn law_long_paths_are_cut(path: Seq<char>, width: nat)
    ensures
        path.len() <= width ==> shortened(path, width) == path,
        path.len() > width && width > 0 ==> shortened(path, width) == path.take(width - 1) + "..."@,
{
}

} // verus!
