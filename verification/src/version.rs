//! Versions: reading, spelling and ordering them.

use vstd::prelude::*;
use crate::catalog::VersionEntry;
use crate::error::{fails, other, Result};
use crate::text::{
    all_ascii, all_digits, begins, cat, cat3, chars_of, contains, decimal, decimal_text, digit_char,
    found_at, is_digit, join, joined, law_pieces_of_both, lemma_pieces_nonempty, lowercase, occurs,
    only_digits, own, pieces, replace, replaced, same, skip_text, split, texts, to_lower, trim,
    trimmed,
};
use crate::order::{
    comes_before, lemma_lt_irreflexive, lemma_lt_total, lemma_lt_transitive, lt,
};

verus! {

/// A version: three numbers, the text of the pre-release and of the build.
#[derive(Debug)]
pub struct Version {
    pub major: u64,
    pub minor: u64,
    pub patch: u64,
    pub pre: String,
    pub build: String,
}

/// What a version is made of.
#[verifier::ext_equal]
pub struct VersionView {
    pub major: u64,
    pub minor: u64,
    pub patch: u64,
    pub pre: Seq<char>,
    pub build: Seq<char>,
}

impl View for Version {
    type V = VersionView;

    open spec fn view(&self) -> VersionView {
        VersionView {
            major: self.major,
            minor: self.minor,
            patch: self.patch,
            pre: self.pre@,
            build: self.build@,
        }
    }
}

/// How two versions compare.
#[derive(Debug, Clone, Copy, PartialEq, Eq, Structural)]
pub enum Order {
    Less,
    Equal,
    Greater,
}

impl Order {
    /// The comparison the other way round.
    pub open spec fn flipped(self) -> Order {
        match self {
            Order::Less => Order::Greater,
            Order::Equal => Order::Equal,
            Order::Greater => Order::Less,
        }
    }
}

/// What `semver::Version::parse` makes of a text: the version, or the text of
/// its error.
pub uninterp spec fn semver_parsed(s: Seq<char>) -> core::result::Result<VersionView, Seq<char>>;

/// How `Ord` of `semver::Version` compares two versions.
pub uninterp spec fn semver_order(a: VersionView, b: VersionView) -> Order;

/// A character of an identifier in a pre-release or a build.
pub open spec fn is_mark(c: char) -> bool {
    '0' <= c <= '9' || 'a' <= c <= 'z' || 'A' <= c <= 'Z' || c == '-'
}

/// An identifier: letters, digits and dashes, at least one.
pub open spec fn is_identifier(s: Seq<char>) -> bool {
    s.len() > 0 && forall|i: int| 0 <= i < s.len() ==> is_mark(#[trigger] s[i])
}

/// The pre-release and the build, where there are any, are identifiers with dots
/// between them, and no number in the pre-release starts with a zero.
pub open spec fn sound(v: VersionView) -> bool {
    &&& v.pre.len() > 0 ==> forall|i: int|
        0 <= i < pieces(v.pre, "."@).len() ==> {
            let p = #[trigger] pieces(v.pre, "."@)[i];
            is_identifier(p) && (all_digits(p) && p.len() > 1 ==> p[0] != '0')
        }
    &&& v.build.len() > 0 ==> forall|i: int|
        0 <= i < pieces(v.build, "."@).len() ==> is_identifier(
            #[trigger] pieces(v.build, "."@)[i],
        )
}

/// `a` comes before `b`, whichever way they are compared.
pub open spec fn older(a: VersionView, b: VersionView) -> bool {
    semver_order(a, b) == Order::Less && semver_order(b, a) == Order::Greater
}

/// `a` is `b`, or older than it and than all that `b` is not newer than.
pub open spec fn under(a: VersionView, b: VersionView) -> bool {
    a == b || (older(a, b) && forall|c: VersionView| #[trigger]
        semver_order(b, c) != Order::Greater ==> older(a, c))
}

/// Reads a version strictly; where it is none, the text of the reason.
pub fn parse_semver_text(s: &str) -> (r: core::result::Result<Version, String>)
    ensures
        match r {
            Ok(v) => semver_parsed(s@) == Ok::<VersionView, Seq<char>>(v@),
            Err(e) => semver_parsed(s@) == Err::<VersionView, Seq<char>>(e@),
        },
{
    parse_semver(s)
}

/// `semver::Version::parse`: the result is a function of the text, the parts of a
/// version that was read spell the text again, and its pre-release and its build
/// are made of identifiers.
#[verifier::external_body]
fn parse_semver(s: &str) -> (r: core::result::Result<Version, String>)
    ensures
        match r {
            Ok(v) => semver_parsed(s@) == Ok::<VersionView, Seq<char>>(v@),
            Err(e) => semver_parsed(s@) == Err::<VersionView, Seq<char>>(e@),
        },
        r matches Ok(v) ==> version_text(v@) == s@ && sound(v@),
{
    match semver::Version::parse(s) {
        Ok(v) => Ok(Version {
            major: v.major,
            minor: v.minor,
            patch: v.patch,
            pre: v.pre.as_str().to_string(),
            build: v.build.as_str().to_string(),
        }),
        Err(e) => Err(e.to_string()),
    }
}

/// Comparison of two `semver::Version`s by `Ord`. It is a total order: a
/// version equals itself, swapping the arguments flips the result, what is
/// above `b` is above everything that `b` is not below, what is below `b` is below
/// everything that `b` is not above, and the three numbers decide, in turn, where
/// they differ. Of versions that are made of identifiers only the same are equal.
#[verifier::external_body]
pub(crate) fn order_of(a: &Version, b: &Version) -> (r: Order)
    ensures
        r == semver_order(a@, b@),
        semver_order(b@, a@) == r.flipped(),
        a@ == b@ ==> r == Order::Equal,
        r == Order::Equal && sound(a@) && sound(b@) ==> a@ == b@,
        r == Order::Less ==> under(a@, b@),
        r == Order::Greater ==> under(b@, a@),
        r == Order::Greater ==> forall|c: VersionView|
            #[trigger] semver_order(c, b@) != Order::Greater ==> semver_order(c, a@) == Order::Less,
        r != Order::Greater ==> forall|c: VersionView|
            #[trigger] semver_order(b@, c) != Order::Greater ==> semver_order(a@, c)
                != Order::Greater,
        numbers_order(a@, b@) != Order::Equal ==> r == numbers_order(a@, b@),
{
    let side = |v: &Version| semver::Version {
        major: v.major,
        minor: v.minor,
        patch: v.patch,
        pre: semver::Prerelease::new(&v.pre).unwrap_or_default(),
        build: semver::BuildMetadata::new(&v.build).unwrap_or_default(),
    };
    match side(a).cmp(&side(b)) {
        std::cmp::Ordering::Less => Order::Less,
        std::cmp::Ordering::Equal => Order::Equal,
        std::cmp::Ordering::Greater => Order::Greater,
    }
}

/// What is under something is under all that this is under.
pub proof fn lemma_under(a: VersionView, b: VersionView, c: VersionView)
    requires
        under(a, b),
        under(b, c),
    ensures
        under(a, c),
{
}

/// How the three numbers compare, the first difference deciding.
pub open spec fn numbers_order(a: VersionView, b: VersionView) -> Order {
    if a.major != b.major {
        if a.major < b.major {
            Order::Less
        } else {
            Order::Greater
        }
    } else if a.minor != b.minor {
        if a.minor < b.minor {
            Order::Less
        } else {
            Order::Greater
        }
    } else if a.patch != b.patch {
        if a.patch < b.patch {
            Order::Less
        } else {
            Order::Greater
        }
    } else {
        Order::Equal
    }
}

/// The text of a version: `major.minor.patch`, then `-` and the pre-release,
/// then `+` and the build, where there are any.
pub open spec fn version_text(v: VersionView) -> Seq<char> {
    decimal(v.major as nat) + "."@ + decimal(v.minor as nat) + "."@ + decimal(v.patch as nat) + (
    if v.pre.len() > 0 {
        "-"@ + v.pre
    } else {
        Seq::empty()
    }) + (if v.build.len() > 0 {
        "+"@ + v.build
    } else {
        Seq::empty()
    })
}

impl Version {
    /// The text of the version.
    pub fn text(&self) -> (out: String)
        ensures
            out@ == version_text(self@),
    {
        let mut out: String = decimal_text(self.major);
        out.append(".");
        let minor = decimal_text(self.minor);
        out.append(minor.as_str());
        out.append(".");
        let patch = decimal_text(self.patch);
        out.append(patch.as_str());
        let ghost numbers = out@;
        if !self.pre.as_str().is_empty() {
            let tail = cat("-", self.pre.as_str());
            out.append(tail.as_str());
        } else {
            proof {
                assert(numbers + Seq::<char>::empty() =~= numbers);
            }
        }
        let ghost mid = out@;
        if !self.build.as_str().is_empty() {
            let tail = cat("+", self.build.as_str());
            out.append(tail.as_str());
        } else {
            proof {
                assert(mid + Seq::<char>::empty() =~= mid);
            }
        }
        out
    }

    /// The same version in every part.
    pub fn same(&self, other: &Version) -> (b: bool)
        ensures
            b == (self@ == other@),
    {
        let b: bool = self.major == other.major && self.minor == other.minor && self.patch
            == other.patch && self.pre == other.pre && self.build == other.build;
        proof {
            assert(b ==> self@ =~= other@);
        }
        b
    }

    /// A copy.
    pub fn copy(&self) -> (v: Version)
        ensures
            v@ == self@,
    {
        Version {
            major: self.major,
            minor: self.minor,
            patch: self.patch,
            pre: self.pre.clone(),
            build: self.build.clone(),
        }
    }
}

// ---------------------------------------------------------------------------
// Reading
// ---------------------------------------------------------------------------

/// The version that the text spells strictly.
pub open spec fn strict(s: Seq<char>) -> Option<VersionView> {
    match semver_parsed(s) {
        Ok(v) => Some(v),
        Err(_) => None,
    }
}

fn read_strict(s: &str) -> (r: Option<Version>)
    ensures
        opt_version(r) == strict(s@),
        opt_sound(opt_version(r)),
{
    match parse_semver(s) {
        Ok(v) => Some(v),
        Err(_) => None,
    }
}

/// The text without the white space around it and without one `v` or `V` in
/// front.
pub open spec fn without_v(s: Seq<char>) -> Seq<char> {
    let t = trimmed(s);
    if t.len() > 0 && (t[0] == 'v' || t[0] == 'V') {
        t.drop_first()
    } else {
        t
    }
}

/// Four numbers with dots between them, as a version whose build is the fourth.
pub open spec fn quad(s: Seq<char>) -> Option<Seq<char>> {
    let p = pieces(s, "."@);
    if p.len() == 4 && forall|i: int|
        0 <= i < 4 ==> (#[trigger] p[i]).len() > 0 && all_digits(p[i]) {
        Some(p[0] + "."@ + p[1] + "."@ + p[2] + "+"@ + p[3])
    } else {
        None
    }
}

/// The text speaks of a pre-release.
pub open spec fn previewish(s: Seq<char>) -> bool {
    let low = lowercase(s);
    occurs(low, "beta"@) || occurs(low, "preview"@) || occurs(low, "alpha"@) || occurs(low, "rc"@)
}

/// The text with a dash in front of the words of pre-releases.
pub open spec fn dashed(s: Seq<char>) -> Seq<char> {
    let s1 = replaced(s, ".beta"@, "-beta"@);
    let s2 = replaced(s1, ".preview"@, "-preview"@);
    let s3 = replaced(s2, ".alpha"@, "-alpha"@);
    let s4 = replaced(s3, ".rc"@, "-rc"@);
    let s5 = replaced(s4, "_beta"@, "-beta"@);
    let s6 = replaced(s5, "_preview"@, "-preview"@);
    let s7 = replaced(s6, "_alpha"@, "-alpha"@);
    replaced(s7, "_rc"@, "-rc"@)
}

/// The first three parts of the text with dots between them.
pub open spec fn front(s: Seq<char>) -> Seq<char> {
    let p = pieces(s, ".-_"@);
    joined(
        if p.len() < 3 {
            p
        } else {
            p.take(3)
        },
        "."@,
    )
}

/// The version with the pre-release `beta`.
pub open spec fn as_beta(v: VersionView) -> VersionView {
    VersionView { pre: "beta"@, ..v }
}

/// Which of four readings of a text counts: as it stands, with dashes, its
/// first three parts as a beta, or as four numbers.
pub open spec fn reading(
    s: Seq<char>,
    plain: Option<VersionView>,
    dash: Option<VersionView>,
    parts: Option<VersionView>,
    four: Option<VersionView>,
) -> Option<VersionView> {
    if plain is Some {
        plain
    } else if dashed(s) != s && dash is Some {
        dash
    } else if previewish(s) && parts is Some {
        Some(as_beta(parts->0))
    } else {
        four
    }
}

/// The version that the text spells as four numbers.
pub open spec fn strict_quad(s: Seq<char>) -> Option<VersionView> {
    match quad(s) {
        Some(q) => strict(q),
        None => None,
    }
}

/// The version that the text spells, also loosely: with a dot or an underscore
/// before the word of a pre-release, with more than three parts before it, or
/// with four numbers.
pub open spec fn loose(s: Seq<char>) -> Option<VersionView> {
    reading(s, strict(s), strict(dashed(s)), strict(front(s)), strict_quad(s))
}

/// What an optional version is made of.
pub open spec fn opt_version(v: Option<Version>) -> Option<VersionView> {
    match v {
        Some(v) => Some(v@),
        None => None,
    }
}

/// The version, where there is one, is made of identifiers.
pub open spec fn opt_sound(v: Option<VersionView>) -> bool {
    v is Some ==> sound(v->0)
}

/// The text without the white space around it and without a leading `v`.
pub fn strip_v_prefix(s: &str) -> (out: String)
    ensures
        out@ == without_v(s@),
{
    let t = trim(s);
    let v = chars_of(t.as_str());
    if v.len() > 0 && (v[0] == 'v' || v[0] == 'V') {
        let out = skip_text(&v, 1);
        proof {
            assert(v@.skip(1) =~= v@.drop_first());
        }
        out
    } else {
        t
    }
}

/// Four numbers with dots between them, as a version whose build is the fourth.
fn normalize_quad(s: &str) -> (r: Option<String>)
    ensures
        match r {
            Some(q) => quad(s@) == Some(q@),
            None => quad(s@) is None,
        },
{
    let p = split(s, ".");
    let ghost ps = pieces(s@, "."@);
    if p.len() != 4 {
        return None;
    }
    proof {
        assert(forall|i: int| 0 <= i < 4 ==> #[trigger] ps[i] == p@[i]@);
    }
    let mut i: usize = 0;
    while i < 4
        invariant
            i <= 4,
            p@.len() == 4,
            ps == pieces(s@, "."@),
            ps.len() == 4,
            forall|k: int| 0 <= k < 4 ==> #[trigger] ps[k] == p@[k]@,
            forall|k: int| 0 <= k < i ==> (#[trigger] ps[k]).len() > 0 && all_digits(ps[k]),
        decreases 4 - i,
    {
        if p[i].as_str().is_empty() || !only_digits(p[i].as_str()) {
            proof {
                assert(!(ps[i as int].len() > 0 && all_digits(ps[i as int])));
            }
            return None;
        }
        i = i + 1;
    }
    let mut q: String = cat3(p[0].as_str(), ".", p[1].as_str());
    q.append(".");
    q.append(p[2].as_str());
    q.append("+");
    q.append(p[3].as_str());
    Some(q)
}

/// Does the text speak of a pre-release?
fn is_preview_str(s: &str) -> (b: bool)
    ensures
        b == previewish(s@),
{
    let low = to_lower(s);
    contains(low.as_str(), "beta") || contains(low.as_str(), "preview") || contains(
        low.as_str(),
        "alpha",
    ) || contains(low.as_str(), "rc")
}

proof fn words_are_not_empty()
    ensures
        ".beta"@.len() > 0,
        ".preview"@.len() > 0,
        ".alpha"@.len() > 0,
        ".rc"@.len() > 0,
        "_beta"@.len() > 0,
        "_preview"@.len() > 0,
        "_alpha"@.len() > 0,
        "_rc"@.len() > 0,
{
    reveal_strlit(".beta");
    reveal_strlit(".preview");
    reveal_strlit(".alpha");
    reveal_strlit(".rc");
    reveal_strlit("_beta");
    reveal_strlit("_preview");
    reveal_strlit("_alpha");
    reveal_strlit("_rc");
}

/// The text with a dash in front of the words of pre-releases.
fn with_dashes(s: &str) -> (out: String)
    ensures
        out@ == dashed(s@),
{
    proof {
        words_are_not_empty();
    }
    let s1 = replace(s, ".beta", "-beta");
    let s2 = replace(s1.as_str(), ".preview", "-preview");
    let s3 = replace(s2.as_str(), ".alpha", "-alpha");
    let s4 = replace(s3.as_str(), ".rc", "-rc");
    let s5 = replace(s4.as_str(), "_beta", "-beta");
    let s6 = replace(s5.as_str(), "_preview", "-preview");
    let s7 = replace(s6.as_str(), "_alpha", "-alpha");
    replace(s7.as_str(), "_rc", "-rc")
}

/// The first three parts of the text with dots between them.
fn first_parts(s: &str) -> (out: String)
    ensures
        out@ == front(s@),
{
    let mut p = split(s, ".-_");
    let ghost ps = texts(p@);
    if p.len() > 3 {
        p.truncate(3);
        proof {
            assert(texts(p@) =~= ps.take(3));
        }
    } else {
        proof {
            assert(p@.len() == 3 ==> ps.take(3) =~= ps);
        }
    }
    join(&p, ".")
}

proof fn lemma_beta()
    ensures
        pieces("beta"@, "."@) == seq!["beta"@],
        is_identifier("beta"@),
        !all_digits("beta"@),
{
    reveal_strlit("beta");
    reveal_strlit(".");
    reveal_with_fuel(pieces, 5);
    let b = "beta"@;
    assert(b.drop_last().drop_last().drop_last().drop_last() =~= Seq::empty());
    assert(!"."@.contains('b') && !"."@.contains('e') && !"."@.contains('t') && !"."@.contains(
        'a',
    ));
    assert(Seq::<char>::empty().push('b').push('e').push('t').push('a') =~= b);
    assert(pieces(b, "."@) =~= seq![b]);
    assert(!is_digit(b[0]));
}

/// Which of four readings of a text counts.
pub fn choose_reading(
    s: &str,
    plain: Option<Version>,
    dash: Option<Version>,
    parts: Option<Version>,
    four: Option<Version>,
) -> (r: Option<Version>)
    ensures
        opt_version(r) == reading(
            s@,
            opt_version(plain),
            opt_version(dash),
            opt_version(parts),
            opt_version(four),
        ),
        opt_sound(opt_version(plain)) && opt_sound(opt_version(dash)) && opt_sound(
            opt_version(parts),
        ) && opt_sound(opt_version(four)) ==> opt_sound(opt_version(r)),
{
    if plain.is_some() {
        return plain;
    }
    if dash.is_some() {
        let normalized = with_dashes(s);
        if !same(normalized.as_str(), s) {
            return dash;
        }
    }
    if is_preview_str(s) {
        if let Some(v) = parts {
            let b = Version {
                major: v.major,
                minor: v.minor,
                patch: v.patch,
                pre: own("beta"),
                build: v.build,
            };
            proof {
                assert(b@ =~= as_beta(v@));
                lemma_beta();
            }
            return Some(b);
        }
    }
    four
}

/// The version that the text spells as four numbers.
fn read_quad(s: &str) -> (r: Option<Version>)
    ensures
        opt_version(r) == strict_quad(s@),
        opt_sound(opt_version(r)),
{
    match normalize_quad(s) {
        Some(q) => read_strict(q.as_str()),
        None => None,
    }
}

/// The version that the text spells, also loosely.
pub fn parse_version_loose(s: &str) -> (r: Option<Version>)
    ensures
        opt_version(r) == loose(s@),
        opt_sound(opt_version(r)),
{
    let dashes = with_dashes(s);
    let parts = first_parts(s);
    choose_reading(
        s,
        read_strict(s),
        read_strict(dashes.as_str()),
        read_strict(parts.as_str()),
        read_quad(s),
    )
}

/// A release text that was read: its version, and how users see it.
#[derive(Debug)]
pub struct Reading {
    pub version: Version,
    pub shown: String,
}

/// What a reading says.
#[verifier::ext_equal]
pub struct ReadingView {
    pub version: VersionView,
    pub shown: Seq<char>,
}

impl View for Reading {
    type V = ReadingView;

    open spec fn view(&self) -> ReadingView {
        ReadingView { version: self.version@, shown: self.shown@ }
    }
}

/// What an optional reading says.
pub open spec fn opt_reading(r: Option<Reading>) -> Option<ReadingView> {
    match r {
        Some(r) => Some(r@),
        None => None,
    }
}

/// The reading of a release text.
pub open spec fn read(raw: Seq<char>) -> Option<ReadingView> {
    match loose(raw) {
        Some(v) => Some(ReadingView { version: v, shown: shown(raw, v) }),
        None => None,
    }
}

/// Reads a release text.
pub fn read_release(raw: &str) -> (r: Option<Reading>)
    ensures
        opt_reading(r) == read(raw@),
        r matches Some(x) ==> sound(x@.version),
{
    match parse_version_loose(raw) {
        Some(v) => {
            let shown_text = display_spelling(raw, &v);
            Some(Reading { version: v, shown: shown_text })
        },
        None => None,
    }
}

/// The version that the text spells strictly or as four numbers.
pub open spec fn strict_or_quad(s: Seq<char>) -> Option<VersionView> {
    if strict(s) is Some {
        strict(s)
    } else {
        strict_quad(s)
    }
}

/// The version that the text spells strictly or as four numbers.
pub fn quad_version(s: &str) -> (r: Option<Version>)
    ensures
        opt_version(r) == strict_or_quad(s@),
{
    if let Some(v) = read_strict(s) {
        return Some(v);
    }
    read_quad(s)
}

/// Does the text spell a complete version strictly?
pub fn is_exact_version(s: &str) -> (b: bool)
    ensures
        b == (strict(s@) is Some),
{
    read_strict(s).is_some()
}

/// The version that the text spells strictly, or an error that names the text
/// and says why it is none.
pub fn parse_strict(s: &str) -> (r: Result<Version>)
    ensures
        match semver_parsed(s@) {
            Ok(v) => r matches Ok(w) && w@ == v,
            Err(e) => fails(r, "invalid version '"@ + s@ + "': "@ + e),
        },
{
    match parse_semver(s) {
        Ok(v) => Ok(v),
        Err(e) => {
            let mut m = cat3("invalid version '", s, "': ");
            m.append(e.as_str());
            other(m)
        },
    }
}

/// The version that the tag of a release names, if there is a tag and it is one.
pub fn parse_tag(tag: Option<&str>) -> (r: Option<Version>)
    ensures
        opt_version(r) == match tag {
            Some(t) => strict(without_v(t@)),
            None => None,
        },
{
    match tag {
        Some(t) => read_strict(strip_v_prefix(t).as_str()),
        None => None,
    }
}

// ---------------------------------------------------------------------------
// Spelling
// ---------------------------------------------------------------------------

/// Two texts that start with characters of one kind and go on with others start
/// with the same.
proof fn lemma_same_start(
    x: Seq<char>,
    r: Seq<char>,
    y: Seq<char>,
    s: Seq<char>,
    kind: spec_fn(char) -> bool,
)
    requires
        x + r == y + s,
        forall|i: int| 0 <= i < x.len() ==> kind(#[trigger] x[i]),
        forall|i: int| 0 <= i < y.len() ==> kind(#[trigger] y[i]),
        r.len() > 0 ==> !kind(r[0]),
        s.len() > 0 ==> !kind(s[0]),
    ensures
        x == y,
        r == s,
{
    let t = x + r;
    assert(t.len() == x.len() + r.len());
    assert(t.len() == y.len() + s.len());
    if x.len() < y.len() {
        assert(t[x.len() as int] == r[0]);
        assert(t[x.len() as int] == y[x.len() as int]);
        assert(false);
    } else if y.len() < x.len() {
        assert(t[y.len() as int] == s[0]);
        assert(t[y.len() as int] == x[y.len() as int]);
        assert(false);
    }
    assert forall|i: int| 0 <= i < x.len() implies x[i] == y[i] by {
        assert(t[i] == x[i]);
        assert(t[i] == y[i]);
    }
    assert(x =~= y);
    assert forall|i: int| 0 <= i < r.len() implies r[i] == s[i] by {
        assert(t[x.len() + i] == r[i]);
        assert(t[x.len() + i] == s[i]);
    }
    assert(r =~= s);
}

proof fn lemma_decimal_digits(n: nat)
    ensures
        decimal(n).len() > 0,
        all_digits(decimal(n)),
    decreases n,
{
    if n >= 10 {
        lemma_decimal_digits(n / 10);
    }
}

proof fn lemma_decimal_apart(m: nat, n: nat)
    requires
        decimal(m) == decimal(n),
    ensures
        m == n,
    decreases m,
{
    lemma_decimal_digits(m / 10);
    lemma_decimal_digits(n / 10);
    let a = decimal(m);
    let b = decimal(n);
    assert(a.last() == digit_char(m % 10));
    assert(b.last() == digit_char(n % 10));
    assert(m % 10 == n % 10);
    if m >= 10 && n >= 10 {
        assert(a.drop_last() =~= decimal(m / 10));
        assert(b.drop_last() =~= decimal(n / 10));
        lemma_decimal_apart(m / 10, n / 10);
    }
}

/// Every character is a dot or in one of the pieces.
proof fn lemma_pieces_chars(s: Seq<char>, k: int) -> (i: int)
    requires
        0 <= k < s.len(),
        s[k] != '.',
    ensures
        0 <= i < pieces(s, "."@).len(),
        pieces(s, "."@)[i].contains(s[k]),
    decreases s.len(),
{
    reveal_strlit(".");
    let t = s.drop_last();
    let b = pieces(t, "."@);
    let n = pieces(s, "."@);
    lemma_pieces_nonempty(t, "."@);
    if k == s.len() - 1 {
        assert("."@ =~= seq!['.']);
        assert(!"."@.contains(s[k]));
        let last = n.len() - 1;
        assert(n[last] == b.last().push(s[k]));
        assert(n[last][n[last].len() - 1] == s[k]);
        last
    } else {
        assert(t[k] == s[k]);
        let i = lemma_pieces_chars(t, k);
        if !"."@.contains(s.last()) && i == b.len() - 1 {
            let at = b[i].index_of(s[k]);
            assert(n[i][at] == s[k]);
        } else {
            assert(n[i] == b[i]);
        }
        i
    }
}

proof fn lemma_no_plus(s: Seq<char>)
    requires
        forall|i: int|
            0 <= i < pieces(s, "."@).len() ==> is_identifier(#[trigger] pieces(s, "."@)[i]),
    ensures
        forall|k: int| 0 <= k < s.len() ==> #[trigger] s[k] != '+',
{
    assert forall|k: int| 0 <= k < s.len() implies #[trigger] s[k] != '+' by {
        if s[k] == '+' {
            let i = lemma_pieces_chars(s, k);
            let p = pieces(s, "."@)[i];
            let at = p.index_of('+');
            assert(is_mark(p[at]));
        }
    }
}

/// What stands behind the three numbers in the text of a version.
spec fn tail_text(v: VersionView) -> Seq<char> {
    pre_text(v) + build_text(v)
}

spec fn pre_text(v: VersionView) -> Seq<char> {
    if v.pre.len() > 0 {
        "-"@ + v.pre
    } else {
        Seq::empty()
    }
}

spec fn build_text(v: VersionView) -> Seq<char> {
    if v.build.len() > 0 {
        "+"@ + v.build
    } else {
        Seq::empty()
    }
}

proof fn lemma_tail_apart(a: VersionView, b: VersionView)
    requires
        sound(a),
        sound(b),
        tail_text(a) == tail_text(b),
    ensures
        a.pre == b.pre,
        a.build == b.build,
{
    reveal_strlit("-");
    reveal_strlit("+");
    let no_plus = |c: char| c != '+';
    if a.pre.len() > 0 {
        lemma_no_plus(a.pre);
    }
    if b.pre.len() > 0 {
        lemma_no_plus(b.pre);
    }
    let x = pre_text(a);
    let y = pre_text(b);
    assert forall|i: int| 0 <= i < x.len() implies no_plus(#[trigger] x[i]) by {
        if i > 0 {
            assert(x[i] == a.pre[i - 1]);
        }
    }
    assert forall|i: int| 0 <= i < y.len() implies no_plus(#[trigger] y[i]) by {
        if i > 0 {
            assert(y[i] == b.pre[i - 1]);
        }
    }
    lemma_same_start(x, build_text(a), y, build_text(b), no_plus);
    assert(a.pre =~= b.pre) by {
        if a.pre.len() > 0 {
            assert(x.skip(1) =~= a.pre);
            assert(y.skip(1) =~= b.pre);
        }
    }
    assert(a.build =~= b.build) by {
        if a.build.len() > 0 {
            assert(build_text(a).skip(1) =~= a.build);
            assert(build_text(b).skip(1) =~= b.build);
        }
    }
}

/// The text behind a number: a dot, the next number and what follows.
spec fn dot_text(n: u64, rest: Seq<char>) -> Seq<char> {
    "."@ + (decimal(n as nat) + rest)
}

proof fn lemma_text_parts(v: VersionView)
    ensures
        version_text(v) == decimal(v.major as nat) + dot_text(
            v.minor,
            dot_text(v.patch, tail_text(v)),
        ),
{
    let (a, b, c) = (decimal(v.major as nat), decimal(v.minor as nat), decimal(v.patch as nat));
    let d = "."@;
    let (p, q) = (pre_text(v), build_text(v));
    assert(version_text(v) == a + d + b + d + c + p + q);
    assert((a + d + b + d + c + p) + q =~= (a + d + b + d + c) + (p + q));
    assert((a + d + b + d + c) + (p + q) =~= (a + d + b) + (d + (c + (p + q))));
    assert((a + d + b) + (d + (c + (p + q))) =~= a + (d + (b + (d + (c + (p + q))))));
}

proof fn lemma_numbers_apart(m: u64, r: Seq<char>, n: u64, s: Seq<char>)
    requires
        decimal(m as nat) + r == decimal(n as nat) + s,
        r.len() > 0 ==> !is_digit(r[0]),
        s.len() > 0 ==> !is_digit(s[0]),
    ensures
        m == n,
        r == s,
{
    let digit = |c: char| is_digit(c);
    lemma_decimal_digits(m as nat);
    lemma_decimal_digits(n as nat);
    lemma_same_start(decimal(m as nat), r, decimal(n as nat), s, digit);
    lemma_decimal_apart(m as nat, n as nat);
}

proof fn lemma_dots_apart(m: u64, r: Seq<char>, n: u64, s: Seq<char>)
    requires
        dot_text(m, r) == dot_text(n, s),
        r.len() > 0 ==> !is_digit(r[0]),
        s.len() > 0 ==> !is_digit(s[0]),
    ensures
        m == n,
        r == s,
{
    reveal_strlit(".");
    assert(dot_text(m, r).skip(1) =~= decimal(m as nat) + r);
    assert(dot_text(n, s).skip(1) =~= decimal(n as nat) + s);
    lemma_numbers_apart(m, r, n, s);
}

/// Two versions with the same text are the same, where they are made of
/// identifiers.
pub proof fn law_texts_tell_versions_apart(a: VersionView, b: VersionView)
    requires
        sound(a),
        sound(b),
        version_text(a) == version_text(b),
    ensures
        a == b,
{
    lemma_text_parts(a);
    lemma_text_parts(b);
    let (a3, b3) = (tail_text(a), tail_text(b));
    let (a2, b2) = (dot_text(a.patch, a3), dot_text(b.patch, b3));
    let (a1, b1) = (dot_text(a.minor, a2), dot_text(b.minor, b2));
    assert(a1[0] == '.' && b1[0] == '.' && a2[0] == '.' && b2[0] == '.') by {
        reveal_strlit(".");
    }
    assert((a3.len() > 0 ==> !is_digit(a3[0])) && (b3.len() > 0 ==> !is_digit(b3[0]))) by {
        reveal_strlit("-");
        reveal_strlit("+");
    }
    lemma_numbers_apart(a.major, a1, b.major, b1);
    lemma_dots_apart(a.minor, a2, b.minor, b2);
    lemma_dots_apart(a.patch, a3, b.patch, b3);
    lemma_tail_apart(a, b);
    assert(a =~= b);
}

/// The text that users see for a release: as it was released where that is a
/// version or four numbers, else the text of the version that was read.
pub open spec fn shown(raw: Seq<char>, v: VersionView) -> Seq<char> {
    if strict(raw) is Some || quad(raw) is Some {
        raw
    } else {
        version_text(v)
    }
}

/// The text that users see for a release.
pub fn display_spelling(raw: &str, v: &Version) -> (out: String)
    ensures
        out@ == shown(raw@, v@),
{
    if is_exact_version(raw) || normalize_quad(raw).is_some() {
        own(raw)
    } else {
        v.text()
    }
}

/// The version in messages; nothing for the label of releases without one.
pub open spec fn message_version(v: Seq<char>) -> Seq<char> {
    if v == "0.0.0"@ {
        ""@
    } else {
        v
    }
}

/// The version in tables; `<no version>` for the label of releases without one.
pub open spec fn table_version(v: Seq<char>) -> Seq<char> {
    if v == "0.0.0"@ {
        "<no version>"@
    } else {
        v
    }
}

/// The version in messages: nothing for `0.0.0`, which stands for releases
/// without one.
pub fn display_version(v: &str) -> (out: &str)
    ensures
        out@ == message_version(v@),
{
    if same(v, "0.0.0") {
        ""
    } else {
        v
    }
}

/// The version in messages with a space in front, or nothing.
pub fn version_word(v: &str) -> (out: String)
    ensures
        out@ == if message_version(v@).len() == 0 {
            Seq::empty()
        } else {
            " "@ + v@
        },
{
    let d = display_version(v);
    proof {
        reveal_strlit("");
    }
    if d.is_empty() {
        String::new()
    } else {
        cat(" ", d)
    }
}

/// The version in tables: `<no version>` for `0.0.0`.
pub fn list_version(v: &str) -> (out: &str)
    ensures
        out@ == table_version(v@),
{
    if same(v, "0.0.0") {
        "<no version>"
    } else {
        v
    }
}

// ---------------------------------------------------------------------------
// Comparing
// ---------------------------------------------------------------------------

/// The release is a preview: it is marked as one, or its version or its text
/// says so.
pub open spec fn is_preview(rec: VersionEntry, v: VersionView) -> bool {
    rec.preview || v.pre.len() > 0 || previewish(rec.version@)
}

/// Is the release a preview?
pub fn is_preview_rec(rec: &VersionEntry, v: &Version) -> (b: bool)
    ensures
        b == is_preview(*rec, v@),
{
    rec.preview || !v.pre.as_str().is_empty() || is_preview_str(rec.version.as_str())
}

/// The texts name the same release: they are equal, or they spell the same
/// version.
pub open spec fn same_release(a: Seq<char>, b: Seq<char>) -> bool {
    a == b || (loose(a) is Some && loose(a) == loose(b))
}

/// Do the texts name the same release?
pub fn same_version(a: &str, b: &str) -> (r: bool)
    ensures
        r == same_release(a@, b@),
{
    if same(a, b) {
        return true;
    }
    match (parse_version_loose(a), parse_version_loose(b)) {
        (Some(x), Some(y)) => x.same(&y),
        _ => false,
    }
}

/// The three numbers of the version that the text spells; zeros where it
/// spells none.
pub open spec fn numbers(s: Seq<char>) -> (u64, u64, u64) {
    match loose(s) {
        Some(v) => (v.major, v.minor, v.patch),
        None => (0, 0, 0),
    }
}

/// `a` is listed before `b`: its numbers are higher, or they are equal and its
/// text comes after that of `b`.
pub open spec fn newer_text(a: Seq<char>, b: Seq<char>) -> bool {
    let x = numbers(a);
    let y = numbers(b);
    if x.0 != y.0 {
        x.0 > y.0
    } else if x.1 != y.1 {
        x.1 > y.1
    } else if x.2 != y.2 {
        x.2 > y.2
    } else {
        lt(b, a)
    }
}

fn numbers_of(s: &str) -> (r: (u64, u64, u64))
    ensures
        r == numbers(s@),
{
    match parse_version_loose(s) {
        Some(v) => (v.major, v.minor, v.patch),
        None => (0, 0, 0),
    }
}

/// Is `a` listed before `b` where the newest comes first?
pub fn version_before(a: &str, b: &str) -> (r: bool)
    ensures
        r == newer_text(a@, b@),
{
    let x = numbers_of(a);
    let y = numbers_of(b);
    if x.0 != y.0 {
        x.0 > y.0
    } else if x.1 != y.1 {
        x.1 > y.1
    } else if x.2 != y.2 {
        x.2 > y.2
    } else {
        comes_before(b, a)
    }
}

proof fn lemma_no_word(low: Seq<char>, word: Seq<char>, c: char)
    requires
        word.len() > 0,
        word[0] == c,
        forall|i: int| 0 <= i < low.len() ==> #[trigger] low[i] != c,
    ensures
        !occurs(low, word),
{
    if occurs(low, word) {
        let at = choose|at: int| #[trigger] found_at(low, word, at);
        assert(low.subrange(at, at + word.len())[0] == low[at]);
        assert(low[at] == c);
    }
}

/// A release that the catalog marks as a preview is one, whatever its version, and
/// so is one with a pre-release in its version or one that is named a beta. A
/// release that is not marked, has no pre-release and is named by numbers and dots
/// alone is none.
pub proof fn law_what_is_a_preview(rec: VersionEntry, v: VersionView)
    ensures
        rec.preview ==> is_preview(rec, v),
        v.pre.len() > 0 ==> is_preview(rec, v),
        occurs(lowercase(rec.version@), "beta"@) || occurs(lowercase(rec.version@), "alpha"@)
            || occurs(lowercase(rec.version@), "preview"@) || occurs(
            lowercase(rec.version@),
            "rc"@,
        ) ==> is_preview(rec, v),
        !rec.preview && v.pre.len() == 0 && (forall|i: int|
            0 <= i < rec.version@.len() ==> '0' <= #[trigger] rec.version@[i] <= '9'
                || rec.version@[i] == '.') ==> !is_preview(rec, v),
{
    let t = rec.version@;
    if !rec.preview && v.pre.len() == 0 && (forall|i: int|
        0 <= i < t.len() ==> '0' <= #[trigger] t[i] <= '9' || t[i] == '.') {
        assert(all_ascii(t));
        assert(lowercase(t) =~= t);
        reveal_strlit("beta");
        reveal_strlit("alpha");
        reveal_strlit("preview");
        reveal_strlit("rc");
        lemma_no_word(t, "beta"@, 'b');
        lemma_no_word(t, "alpha"@, 'a');
        lemma_no_word(t, "preview"@, 'p');
        lemma_no_word(t, "rc"@, 'r');
    }
}

/// Texts of versions stand in a line from old to new: none is newer than itself,
/// of two different ones exactly one is newer, and what is newer than a newer one
/// is newer.
pub proof fn law_newer_is_an_order(a: Seq<char>, b: Seq<char>, c: Seq<char>)
    ensures
        !newer_text(a, a),
        a != b ==> newer_text(a, b) != newer_text(b, a),
        newer_text(a, b) && newer_text(b, c) ==> newer_text(a, c),
{
    lemma_lt_irreflexive(a);
    lemma_lt_total(a, b);
    if lt(b, a) && lt(a, b) {
        lemma_lt_transitive(a, b, a);
    }
    if lt(c, b) && lt(b, a) {
        lemma_lt_transitive(c, b, a);
    }
}

/// A version with greater numbers is newer, the first number that differs
/// deciding.
pub proof fn law_greater_numbers_are_newer(
    a: Seq<char>,
    b: Seq<char>,
    x: VersionView,
    y: VersionView,
)
    requires
        loose(a) == Some(x),
        loose(b) == Some(y),
        x.major > y.major || (x.major == y.major && (x.minor > y.minor || (x.minor == y.minor
            && x.patch > y.patch))),
    ensures
        newer_text(a, b),
        !newer_text(b, a),
{
}

/// A text that spells a version strictly is read as that version.
pub proof fn law_strict_readings_win(s: Seq<char>)
    requires
        strict(s) is Some,
    ensures
        loose(s) == strict(s),
        read(s) is Some,
        read(s)->0.version == strict(s)->0,
        read(s)->0.shown == s,
{
}

proof fn lemma_nothing_replaced(s: Seq<char>, from: Seq<char>, to: Seq<char>)
    requires
        !occurs(s, from),
    ensures
        replaced(s, from, to) == s,
    decreases s.len(),
{
    if from.len() > 0 && s.len() > 0 {
        let t = s.drop_first();
        assert(!begins(s, from)) by {
            if begins(s, from) {
                assert(found_at(s, from, 0));
            }
        }
        assert(!occurs(t, from)) by {
            if occurs(t, from) {
                let at = choose|at: int| #[trigger] found_at(t, from, at);
                assert(s.subrange(at + 1, at + 1 + from.len()) =~= t.subrange(at, at + from.len()));
                assert(found_at(s, from, at + 1));
            }
        }
        lemma_nothing_replaced(t, from, to);
        assert(seq![s[0]] + t =~= s);
    }
}

proof fn lemma_numbers_are_plain(s: Seq<char>)
    requires
        forall|i: int| 0 <= i < s.len() ==> '0' <= #[trigger] s[i] <= '9' || s[i] == '.',
    ensures
        dashed(s) == s,
        !previewish(s),
{
    reveal_strlit(".beta");
    reveal_strlit(".preview");
    reveal_strlit(".alpha");
    reveal_strlit(".rc");
    reveal_strlit("_beta");
    reveal_strlit("_preview");
    reveal_strlit("_alpha");
    reveal_strlit("_rc");
    reveal_strlit("beta");
    reveal_strlit("alpha");
    reveal_strlit("preview");
    reveal_strlit("rc");
    lemma_letter_missing(s, ".beta"@, 1);
    lemma_letter_missing(s, ".preview"@, 1);
    lemma_letter_missing(s, ".alpha"@, 1);
    lemma_letter_missing(s, ".rc"@, 1);
    lemma_letter_missing(s, "_beta"@, 1);
    lemma_letter_missing(s, "_preview"@, 1);
    lemma_letter_missing(s, "_alpha"@, 1);
    lemma_letter_missing(s, "_rc"@, 1);
    lemma_letter_missing(s, "beta"@, 0);
    lemma_letter_missing(s, "preview"@, 0);
    lemma_letter_missing(s, "alpha"@, 0);
    lemma_letter_missing(s, "rc"@, 0);
    lemma_nothing_replaced(s, ".beta"@, "-beta"@);
    lemma_nothing_replaced(s, ".preview"@, "-preview"@);
    lemma_nothing_replaced(s, ".alpha"@, "-alpha"@);
    lemma_nothing_replaced(s, ".rc"@, "-rc"@);
    lemma_nothing_replaced(s, "_beta"@, "-beta"@);
    lemma_nothing_replaced(s, "_preview"@, "-preview"@);
    lemma_nothing_replaced(s, "_alpha"@, "-alpha"@);
    lemma_nothing_replaced(s, "_rc"@, "-rc"@);
    assert(all_ascii(s));
    assert(lowercase(s) =~= s);
}

proof fn lemma_letter_missing(s: Seq<char>, w: Seq<char>, k: int)
    requires
        forall|i: int| 0 <= i < s.len() ==> '0' <= #[trigger] s[i] <= '9' || s[i] == '.',
        0 <= k < w.len(),
        'a' <= w[k] <= 'z',
    ensures
        !occurs(s, w),
{
    if occurs(s, w) {
        let at = choose|at: int| #[trigger] found_at(s, w, at);
        assert(s.subrange(at, at + w.len())[k] == w[k]);
        assert(s[at + k] == w[k]);
    }
}

/// Four numbers with dots between them are read as three and a build, and are
/// shown as they were written.
pub proof fn law_four_numbers_are_read(
    a: Seq<char>,
    b: Seq<char>,
    c: Seq<char>,
    d: Seq<char>,
    s: Seq<char>,
)
    requires
        a.len() > 0 && all_digits(a),
        b.len() > 0 && all_digits(b),
        c.len() > 0 && all_digits(c),
        d.len() > 0 && all_digits(d),
        s == a + seq!['.'] + b + seq!['.'] + c + seq!['.'] + d,
        strict(s) is None,
    ensures
        loose(s) == strict(a + "."@ + b + "."@ + c + "+"@ + d),
        read(s) is Some ==> read(s)->0.shown == s,
{
    reveal_strlit(".");
    assert("."@ =~= seq!['.']);
    let cd = c + seq!['.'] + d;
    let bcd = b + seq!['.'] + cd;
    assert(s =~= a + seq!['.'] + bcd);
    law_pieces_of_both(a, '.', bcd);
    law_pieces_of_both(b, '.', cd);
    law_pieces_of_both(c, '.', d);
    lemma_digits_one_piece(a);
    lemma_digits_one_piece(b);
    lemma_digits_one_piece(c);
    lemma_digits_one_piece(d);
    let p = pieces(s, "."@);
    assert(p =~= seq![a, b, c, d]);
    assert(p[0] == a && p[1] == b && p[2] == c && p[3] == d);
    assert forall|i: int| 0 <= i < 4 implies (#[trigger] p[i]).len() > 0 && all_digits(p[i]) by {}
    assert forall|i: int| 0 <= i < s.len() implies '0' <= #[trigger] s[i] <= '9' || s[i] == '.' by {
        let n = a.len() as int;
        let m = n + 1 + b.len();
        let k = m + 1 + c.len();
        if i < n {
            assert(s[i] == a[i]);
        } else if i > n && i < m {
            assert(s[i] == b[i - n - 1]);
        } else if i > m && i < k {
            assert(s[i] == c[i - m - 1]);
        } else if i > k {
            assert(s[i] == d[i - k - 1]);
        }
    }
    lemma_numbers_are_plain(s);
}

proof fn lemma_digits_one_piece(s: Seq<char>)
    requires
        all_digits(s),
    ensures
        pieces(s, seq!['.']) == seq![s],
    decreases s.len(),
{
    if s.len() > 0 {
        let t = s.drop_last();
        assert forall|i: int| 0 <= i < t.len() implies is_digit(#[trigger] t[i]) by {
            assert(t[i] == s[i]);
        }
        lemma_digits_one_piece(t);
        assert(is_digit(s[s.len() - 1]));
        assert(!seq!['.'].contains(s.last()));
        assert(seq![t].drop_last().push(t.push(s.last())) =~= seq![s]) by {
            assert(t.push(s.last()) =~= s);
        }
    } else {
        assert(seq![Seq::<char>::empty()] =~= seq![s]) by {
            assert(s =~= Seq::empty());
        }
    }
}

/// A release without a version, which is labelled `0.0.0`, is shown without it in
/// messages and as such in tables; every other version is shown as it is.
pub proof fn law_missing_versions_are_not_shown(v: Seq<char>)
    ensures
        message_version("0.0.0"@).len() == 0,
        table_version("0.0.0"@) == "<no version>"@,
        v != "0.0.0"@ ==> message_version(v) == v && table_version(v) == v,
{
    reveal_strlit("");
}

/// A text that is no version as it stands is read with dashes before the words of
/// pre-releases where that makes one of it, else, where it speaks of a pre-release,
/// as a beta of its first three parts; and what is read in such a way is shown as
/// the version that was read.
pub proof fn law_loose_readings(s: Seq<char>)
    requires
        strict(s) is None,
    ensures
        dashed(s) != s && strict(dashed(s)) is Some ==> loose(s) == strict(dashed(s)),
        dashed(s) == s && (occurs(lowercase(s), "beta"@) || occurs(lowercase(s), "rc"@)
            || occurs(lowercase(s), "alpha"@) || occurs(lowercase(s), "preview"@)) && strict(
            front(s),
        ) is Some ==> loose(s) is Some && loose(s)->0.major == strict(front(s))->0.major
            && loose(s)->0.minor == strict(front(s))->0.minor && loose(s)->0.patch == strict(
            front(s),
        )->0.patch && loose(s)->0.pre == "beta"@,
        quad(s) is None && read(s) is Some ==> read(s)->0.shown == version_text(
            read(s)->0.version,
        ),
        read(s) is Some <==> loose(s) is Some,
{
}

/// Texts name the same release exactly where they are equal or are read as the
/// same version, whichever comes first.
pub proof fn law_spellings_of_a_release(a: Seq<char>, b: Seq<char>)
    ensures
        same_release(a, a),
        same_release(a, b) == same_release(b, a),
        loose(a) is Some && loose(b) is Some ==> (same_release(a, b) <==> a == b || loose(a)
            == loose(b)),
        loose(a) is None ==> (same_release(a, b) <==> a == b),
{
}

} // verus!
