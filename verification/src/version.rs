//! Version parsing and comparison following Quilt Loader's version model.
//!
//! A version is either semantic (`SemVer` 2.0.0 extended with any number of
//! numeric release components) or a plain string, which only supports
//! equality. Parsing prefers the semantic reading and falls back to the plain
//! one.

use std::cmp::Ordering;

use vstd::prelude::*;
use vstd::std_specs::cmp::{PartialEqSpecImpl, PartialOrdSpecImpl};

use crate::text::{
    digits_value, lemma_decimal_of_digits, lemma_find_char, lemma_find_char_at, lemma_join_split,
    all_digits, chars_of, decimal, is_ascii_alnum, is_digit, join, join_chars, parse_u64,
    parse_u64_chars, push_chars, push_decimal, split, split_chars, split_once, split_once_chars,
    string_of, views,
};

verus! {

/// The mathematical model of a pre-release identifier.
pub enum PreId {
    Numeric(u64),
    Alpha(Seq<char>),
}

/// The mathematical model of a semantic version.
pub struct SemModel {
    pub components: Seq<u64>,
    pub pre: Seq<PreId>,
    pub build: Option<Seq<char>>,
}

/// The mathematical model of a version.
pub enum VersionModel {
    Semantic(SemModel),
    Plain(Seq<char>),
}

/// A single dot-separated identifier inside a pre-release tag.
#[derive(Clone, Debug, PartialEq, Eq)]
enum PreReleaseIdentifier {
    Numeric(u64),
    Alphanumeric(Vec<char>),
}

impl View for PreReleaseIdentifier {
    type V = PreId;

    closed spec fn view(&self) -> PreId {
        match self {
            PreReleaseIdentifier::Numeric(n) => PreId::Numeric(*n),
            PreReleaseIdentifier::Alphanumeric(s) => PreId::Alpha(s@),
        }
    }
}

pub open spec fn pre_views(v: Seq<PreReleaseIdentifier>) -> Seq<PreId> {
    v.map_values(|p: PreReleaseIdentifier| p@)
}

pub open spec fn option_view(o: Option<Vec<char>>) -> Option<Seq<char>> {
    match o {
        Some(v) => Some(v@),
        None => None,
    }
}

/// A semantic version: release components, an optional pre-release tag, and
/// optional build metadata that is ignored for ordering.
#[derive(Clone, Debug, Eq)]
pub struct SemanticVersion {
    components: Vec<u64>,
    pre_release: Vec<PreReleaseIdentifier>,
    build: Option<Vec<char>>,
}

impl View for SemanticVersion {
    type V = SemModel;

    closed spec fn view(&self) -> SemModel {
        SemModel {
            components: self.components@,
            pre: pre_views(self.pre_release@),
            build: option_view(self.build),
        }
    }
}

/// A parsed mod or game version.
#[derive(Clone, Debug, PartialEq, Eq)]
pub enum Version {
    /// A `SemVer` 2.0.0 version with an arbitrary number of release components.
    Semantic(SemanticVersion),
    /// A version string that is not valid semver; only equality is defined.
    Plain(String),
}

impl View for Version {
    type V = VersionModel;

    open spec fn view(&self) -> VersionModel {
        match self {
            Version::Semantic(s) => VersionModel::Semantic(s@),
            Version::Plain(p) => VersionModel::Plain(p@),
        }
    }
}

// ---------------------------------------------------------------------------
// The grammar.

/// Characters allowed in pre-release and build identifiers.
pub open spec fn is_identifier_char(c: char) -> bool {
    is_ascii_alnum(c) || c == '-'
}

pub open spec fn all_identifier_chars(s: Seq<char>) -> bool {
    forall|i: int| 0 <= i < s.len() ==> is_identifier_char(#[trigger] s[i])
}

/// Every part is non-empty and made of identifier characters.
pub open spec fn all_identifiers(parts: Seq<Seq<char>>) -> bool {
    forall|i: int|
        0 <= i < parts.len() ==> #[trigger] parts[i].len() > 0 && all_identifier_chars(parts[i])
}

/// Valid build metadata: non-empty dot-separated identifiers.
pub open spec fn valid_dotted(v: Seq<char>) -> bool {
    v.len() > 0 && all_identifiers(split(v, '.'))
}

/// A release component: decimal without a leading zero.
pub open spec fn parse_component(raw: Seq<char>) -> Option<u64> {
    if raw.len() == 0 || (raw.len() > 1 && raw[0] == '0') {
        None
    } else {
        parse_u64(raw)
    }
}

pub open spec fn parse_components(parts: Seq<Seq<char>>) -> Option<Seq<u64>>
    decreases parts.len(),
{
    if parts.len() == 0 {
        Some(seq![])
    } else {
        match (parse_components(parts.drop_last()), parse_component(parts.last())) {
            (Some(a), Some(b)) => Some(a.push(b)),
            _ => None,
        }
    }
}

/// A pre-release identifier: numeric when all digits without a leading zero,
/// rejected when all digits with one, alphanumeric otherwise.
pub open spec fn parse_pre_id(part: Seq<char>) -> Option<PreId> {
    if part.len() == 0 || !all_identifier_chars(part) {
        None
    } else if all_digits(part) {
        if part[0] != '0' || part.len() == 1 {
            match parse_u64(part) {
                Some(n) => Some(PreId::Numeric(n)),
                None => None,
            }
        } else {
            None
        }
    } else {
        Some(PreId::Alpha(part))
    }
}

pub open spec fn parse_pre_ids(parts: Seq<Seq<char>>) -> Option<Seq<PreId>>
    decreases parts.len(),
{
    if parts.len() == 0 {
        Some(seq![])
    } else {
        match (parse_pre_ids(parts.drop_last()), parse_pre_id(parts.last())) {
            (Some(a), Some(b)) => Some(a.push(b)),
            _ => None,
        }
    }
}

pub open spec fn parse_pre_release(tag: Seq<char>) -> Option<Seq<PreId>> {
    if tag.len() == 0 {
        None
    } else {
        parse_pre_ids(split(tag, '.'))
    }
}

/// `core[-pre][+build]`: the build is what follows the first `+`, the
/// pre-release what follows the first `-` before it.
pub open spec fn parse_semantic(s: Seq<char>) -> Option<SemModel> {
    if s.len() == 0 {
        None
    } else {
        let (without_build, build) = split_once(s, '+');
        let (core, pre) = split_once(without_build, '-');
        if build matches Some(b) && !valid_dotted(b) {
            None
        } else {
            match parse_components(split(core, '.')) {
                None => None,
                Some(components) => match pre {
                    None => Some(SemModel { components, pre: seq![], build }),
                    Some(tag) => match parse_pre_release(tag) {
                        None => None,
                        Some(ids) => Some(SemModel { components, pre: ids, build }),
                    },
                },
            }
        }
    }
}

/// A version string: semantic when it parses as one, plain otherwise.
pub open spec fn parse_version(s: Seq<char>) -> VersionModel {
    match parse_semantic(s) {
        Some(m) => VersionModel::Semantic(m),
        None => VersionModel::Plain(s),
    }
}

// ---------------------------------------------------------------------------
// Precedence, as -1 / 0 / 1.

pub open spec fn compare_u64(a: u64, b: u64) -> int {
    if a < b {
        -1
    } else if a > b {
        1
    } else {
        0
    }
}

/// The release component at `i`, absent trailing components reading as zero.
pub open spec fn component_at(c: Seq<u64>, i: int) -> u64 {
    if 0 <= i < c.len() {
        c[i]
    } else {
        0
    }
}

pub open spec fn max_len(a: Seq<u64>, b: Seq<u64>) -> int {
    if a.len() >= b.len() {
        a.len() as int
    } else {
        b.len() as int
    }
}

/// Compares release components from position `i` on.
pub open spec fn compare_release_from(a: Seq<u64>, b: Seq<u64>, i: int) -> int
    decreases max_len(a, b) - i,
{
    if i < 0 || i >= max_len(a, b) {
        0
    } else if component_at(a, i) != component_at(b, i) {
        compare_u64(component_at(a, i), component_at(b, i))
    } else {
        compare_release_from(a, b, i + 1)
    }
}

pub open spec fn compare_release(a: Seq<u64>, b: Seq<u64>) -> int {
    compare_release_from(a, b, 0)
}

/// Lexicographic order of character sequences by code point, which is the
/// byte order of their UTF-8 encodings.
pub open spec fn compare_text(a: Seq<char>, b: Seq<char>) -> int
    decreases a.len(),
{
    if a.len() == 0 && b.len() == 0 {
        0
    } else if a.len() == 0 {
        -1
    } else if b.len() == 0 {
        1
    } else if a[0] < b[0] {
        -1
    } else if a[0] > b[0] {
        1
    } else {
        compare_text(a.drop_first(), b.drop_first())
    }
}

/// Numeric identifiers rank below alphanumeric ones (`SemVer` 11.4.3).
pub open spec fn compare_pre_id(a: PreId, b: PreId) -> int {
    match (a, b) {
        (PreId::Numeric(x), PreId::Numeric(y)) => compare_u64(x, y),
        (PreId::Alpha(x), PreId::Alpha(y)) => compare_text(x, y),
        (PreId::Numeric(_), PreId::Alpha(_)) => -1,
        (PreId::Alpha(_), PreId::Numeric(_)) => 1,
    }
}

pub open spec fn compare_len(a: int, b: int) -> int {
    if a < b {
        -1
    } else if a > b {
        1
    } else {
        0
    }
}

/// Compares identifier lists pairwise from `i`, then by length.
pub open spec fn compare_pre_ids_from(l: Seq<PreId>, r: Seq<PreId>, i: int) -> int
    decreases l.len() - i,
{
    if i < 0 || i >= l.len() || i >= r.len() {
        compare_len(l.len() as int, r.len() as int)
    } else if compare_pre_id(l[i], r[i]) != 0 {
        compare_pre_id(l[i], r[i])
    } else {
        compare_pre_ids_from(l, r, i + 1)
    }
}

/// `SemVer` 11.4: a version without a pre-release tag ranks above one with it.
pub open spec fn compare_pre_release(l: Seq<PreId>, r: Seq<PreId>) -> int {
    if l.len() == 0 && r.len() == 0 {
        0
    } else if l.len() == 0 {
        1
    } else if r.len() == 0 {
        -1
    } else {
        compare_pre_ids_from(l, r, 0)
    }
}

/// Version precedence; build metadata takes no part.
pub open spec fn compare_semantic(a: SemModel, b: SemModel) -> int {
    if compare_release(a.components, b.components) != 0 {
        compare_release(a.components, b.components)
    } else {
        compare_pre_release(a.pre, b.pre)
    }
}

// ---------------------------------------------------------------------------
// Rendering.

pub open spec fn render_pre_id(p: PreId) -> Seq<char> {
    match p {
        PreId::Numeric(n) => decimal(n as nat),
        PreId::Alpha(s) => s,
    }
}

/// `components.join(".")`, then `-` and the pre-release identifiers, then `+`
/// and the build metadata.
pub open spec fn render_components(c: Seq<u64>) -> Seq<Seq<char>> {
    c.map_values(|x: u64| decimal(x as nat))
}

pub open spec fn render_pre_ids(p: Seq<PreId>) -> Seq<Seq<char>> {
    p.map_values(|x: PreId| render_pre_id(x))
}

pub open spec fn render_semantic(m: SemModel) -> Seq<char> {
    join(render_components(m.components), seq!['.']) + (if m.pre.len() > 0 {
        seq!['-'] + join(render_pre_ids(m.pre), seq!['.'])
    } else {
        seq![]
    }) + match m.build {
        Some(b) => seq!['+'] + b,
        None => seq![],
    }
}

pub open spec fn render_version(v: VersionModel) -> Seq<char> {
    match v {
        VersionModel::Semantic(m) => render_semantic(m),
        VersionModel::Plain(raw) => raw,
    }
}

// ---------------------------------------------------------------------------
// Executable parsing.

fn is_identifier_char_exec(c: char) -> (r: bool)
    ensures
        r == is_identifier_char(c),
{
    ('0' <= c && c <= '9') || ('a' <= c && c <= 'z') || ('A' <= c && c <= 'Z') || c == '-'
}

fn all_identifier_chars_exec(s: &[char]) -> (r: bool)
    ensures
        r == all_identifier_chars(s@),
{
    let mut i: usize = 0;
    while i < s.len()
        invariant
            i <= s@.len(),
            forall|k: int| 0 <= k < i ==> is_identifier_char(#[trigger] s@[k]),
        decreases s@.len() - i,
    {
        if !is_identifier_char_exec(s[i]) {
            return false;
        }
        i = i + 1;
    }
    true
}

fn all_digits_exec(s: &[char]) -> (r: bool)
    ensures
        r == all_digits(s@),
{
    let mut i: usize = 0;
    while i < s.len()
        invariant
            i <= s@.len(),
            forall|k: int| 0 <= k < i ==> is_digit(#[trigger] s@[k]),
        decreases s@.len() - i,
    {
        if !('0' <= s[i] && s[i] <= '9') {
            return false;
        }
        i = i + 1;
    }
    true
}

fn valid_dotted_exec(v: &[char]) -> (r: bool)
    ensures
        r == valid_dotted(v@),
{
    if v.len() == 0 {
        return false;
    }
    let parts = split_chars(v, '.');
    let mut i: usize = 0;
    while i < parts.len()
        invariant
            views(parts@) == split(v@, '.'),
            i <= parts@.len(),
            forall|k: int|
                0 <= k < i ==> #[trigger] views(parts@)[k].len() > 0 && all_identifier_chars(
                    views(parts@)[k],
                ),
        decreases parts@.len() - i,
    {
        let part = &parts[i];
        if part.len() == 0 || !all_identifier_chars_exec(part.as_slice()) {
            assert(views(parts@)[i as int] == part@);
            return false;
        }
        i = i + 1;
    }
    true
}

fn parse_component_exec(raw: &[char]) -> (r: Option<u64>)
    ensures
        r == parse_component(raw@),
{
    if raw.len() == 0 || (raw.len() > 1 && raw[0] == '0') {
        None
    } else {
        parse_u64_chars(raw)
    }
}

fn parse_pre_id_exec(part: &[char]) -> (r: Option<PreReleaseIdentifier>)
    ensures
        match r {
            Some(p) => parse_pre_id(part@) == Some(p@),
            None => parse_pre_id(part@) is None,
        },
{
    if part.len() == 0 || !all_identifier_chars_exec(part) {
        None
    } else if all_digits_exec(part) {
        if part[0] != '0' || part.len() == 1 {
            match parse_u64_chars(part) {
                Some(n) => Some(PreReleaseIdentifier::Numeric(n)),
                None => None,
            }
        } else {
            None
        }
    } else {
        let mut copy: Vec<char> = Vec::new();
        push_chars(&mut copy, part);
        Some(PreReleaseIdentifier::Alphanumeric(copy))
    }
}

fn parse_components_exec(parts: &Vec<Vec<char>>) -> (r: Option<Vec<u64>>)
    ensures
        match r {
            Some(c) => parse_components(views(parts@)) == Some(c@),
            None => parse_components(views(parts@)) is None,
        },
{
    let mut out: Vec<u64> = Vec::new();
    let mut i: usize = 0;
    while i < parts.len()
        invariant
            i <= parts@.len(),
            parse_components(views(parts@).take(i as int)) == Some(out@),
        decreases parts@.len() - i,
    {
        assert(views(parts@).take(i + 1).drop_last() =~= views(parts@).take(i as int));
        assert(views(parts@).take(i + 1).last() == parts@[i as int]@);
        match parse_component_exec(parts[i].as_slice()) {
            Some(c) => {
                out.push(c);
            },
            None => {
                proof {
                    lemma_parse_components_prefix_none(views(parts@), i as int + 1);
                }
                return None;
            },
        }
        i = i + 1;
    }
    assert(views(parts@).take(parts@.len() as int) =~= views(parts@));
    Some(out)
}

proof fn lemma_parse_components_prefix_none(parts: Seq<Seq<char>>, k: int)
    requires
        0 <= k <= parts.len(),
        parse_components(parts.take(k)) is None,
    ensures
        parse_components(parts) is None,
    decreases parts.len() - k,
{
    if k < parts.len() {
        assert(parts.take(k + 1).drop_last() =~= parts.take(k));
        lemma_parse_components_prefix_none(parts, k + 1);
    } else {
        assert(parts.take(k) =~= parts);
    }
}

proof fn lemma_parse_pre_ids_prefix_none(parts: Seq<Seq<char>>, k: int)
    requires
        0 <= k <= parts.len(),
        parse_pre_ids(parts.take(k)) is None,
    ensures
        parse_pre_ids(parts) is None,
    decreases parts.len() - k,
{
    if k < parts.len() {
        assert(parts.take(k + 1).drop_last() =~= parts.take(k));
        lemma_parse_pre_ids_prefix_none(parts, k + 1);
    } else {
        assert(parts.take(k) =~= parts);
    }
}

fn parse_pre_release_exec(tag: &[char]) -> (r: Option<Vec<PreReleaseIdentifier>>)
    ensures
        match r {
            Some(ids) => parse_pre_release(tag@) == Some(pre_views(ids@)),
            None => parse_pre_release(tag@) is None,
        },
{
    if tag.len() == 0 {
        return None;
    }
    let parts = split_chars(tag, '.');
    let mut out: Vec<PreReleaseIdentifier> = Vec::new();
    let mut i: usize = 0;
    while i < parts.len()
        invariant
            i <= parts@.len(),
            views(parts@) == split(tag@, '.'),
            parse_pre_ids(views(parts@).take(i as int)) == Some(pre_views(out@)),
        decreases parts@.len() - i,
    {
        assert(views(parts@).take(i + 1).drop_last() =~= views(parts@).take(i as int));
        assert(views(parts@).take(i + 1).last() == parts@[i as int]@);
        match parse_pre_id_exec(parts[i].as_slice()) {
            Some(p) => {
                out.push(p);
                assert(pre_views(out@) =~= pre_views(out@.drop_last()).push(p@));
            },
            None => {
                proof {
                    lemma_parse_pre_ids_prefix_none(views(parts@), i as int + 1);
                }
                return None;
            },
        }
        i = i + 1;
    }
    assert(views(parts@).take(parts@.len() as int) =~= views(parts@));
    Some(out)
}

impl SemanticVersion {
    fn parse_chars(s: &[char]) -> (r: Option<Self>)
        ensures
            match r {
                Some(v) => parse_semantic(s@) == Some(v@),
                None => parse_semantic(s@) is None,
            },
    {
        if s.len() == 0 {
            return None;
        }
        let (without_build, build) = split_once_chars(s, '+');
        if let Some(b) = &build {
            if !valid_dotted_exec(b.as_slice()) {
                return None;
            }
        }
        let (core, pre) = split_once_chars(without_build.as_slice(), '-');
        let parts = split_chars(core.as_slice(), '.');
        let components = match parse_components_exec(&parts) {
            Some(c) => c,
            None => {
                return None;
            },
        };
        let pre_release = match pre {
            None => Vec::new(),
            Some(tag) => match parse_pre_release_exec(tag.as_slice()) {
                Some(ids) => ids,
                None => {
                    return None;
                },
            },
        };
        let r = SemanticVersion { components, pre_release, build };
        assert(pre_views(Seq::<PreReleaseIdentifier>::empty()) =~= Seq::<PreId>::empty());
        Some(r)
    }

    /// Parse a semantic version, returning `None` when the input is not valid.
    pub fn parse(input: &str) -> (r: Option<Self>)
        ensures
            match r {
                Some(v) => parse_semantic(input@) == Some(v@),
                None => parse_semantic(input@) is None,
            },
            r is Some <==> exists|
                core: Seq<char>,
                pre: Option<Seq<char>>,
                build: Option<Seq<char>>,
            | #[trigger] semantic_shape(input@, core, pre, build),
    {
        proof {
            lemma_semantic_grammar(input@);
        }
        let s = chars_of(input);
        Self::parse_chars(s.as_slice())
    }

    /// The value of a release component, treating absent trailing components as
    /// zero so that `1.2` and `1.2.0` compare equal.
    pub fn component(&self, index: usize) -> (r: u64)
        ensures
            r == component_at(self@.components, index as int),
    {
        if index < self.components.len() {
            self.components[index]
        } else {
            0
        }
    }

    /// The number of explicit release components.
    pub fn component_count(&self) -> (r: usize)
        ensures
            r == self@.components.len(),
    {
        self.components.len()
    }

    /// Whether this version carries a pre-release tag.
    pub fn is_pre_release(&self) -> (r: bool)
        ensures
            r == (self@.pre.len() > 0),
    {
        self.pre_release.len() > 0
    }

    /// A version made of the given release components only.
    pub fn from_components(components: Vec<u64>) -> (r: Self)
        ensures
            r@ == (SemModel { components: components@, pre: seq![], build: None }),
    {
        let r = SemanticVersion { components, pre_release: Vec::new(), build: None };
        assert(pre_views(Seq::<PreReleaseIdentifier>::empty()) =~= Seq::<PreId>::empty());
        r
    }

    /// A copy with the same model.
    pub fn duplicate(&self) -> (r: Self)
        ensures
            r@ == self@,
    {
        let mut components: Vec<u64> = Vec::new();
        let mut i: usize = 0;
        while i < self.components.len()
            invariant
                i <= self.components@.len(),
                components@ == self.components@.take(i as int),
            decreases self.components@.len() - i,
        {
            components.push(self.components[i]);
            i = i + 1;
            assert(components@ =~= self.components@.take(i as int));
        }
        assert(self.components@.take(self.components@.len() as int) =~= self.components@);
        let mut pre_release: Vec<PreReleaseIdentifier> = Vec::new();
        let mut j: usize = 0;
        while j < self.pre_release.len()
            invariant
                j <= self.pre_release@.len(),
                pre_views(pre_release@) == pre_views(self.pre_release@).take(j as int),
            decreases self.pre_release@.len() - j,
        {
            let id = match &self.pre_release[j] {
                PreReleaseIdentifier::Numeric(n) => PreReleaseIdentifier::Numeric(*n),
                PreReleaseIdentifier::Alphanumeric(s) => {
                    let mut c: Vec<char> = Vec::new();
                    push_chars(&mut c, s.as_slice());
                    PreReleaseIdentifier::Alphanumeric(c)
                },
            };
            let ghost before = pre_release@;
            pre_release.push(id);
            assert(pre_views(pre_release@) =~= pre_views(before).push(id@));
            j = j + 1;
            assert(pre_views(pre_release@) =~= pre_views(self.pre_release@).take(j as int));
        }
        assert(pre_views(self.pre_release@).take(self.pre_release@.len() as int) =~= pre_views(
            self.pre_release@,
        ));
        let build = match &self.build {
            Some(b) => {
                let mut c: Vec<char> = Vec::new();
                push_chars(&mut c, b.as_slice());
                Some(c)
            },
            None => None,
        };
        SemanticVersion { components, pre_release, build }
    }

    /// The release components (absent ones are not listed).
    pub fn components(&self) -> (r: &Vec<u64>)
        ensures
            r@ == self@.components,
    {
        &self.components
    }

    /// Precedence as -1, 0 or 1.
    pub fn compare(&self, other: &Self) -> (r: i8)
        ensures
            r as int == compare_semantic(self@, other@),
    {
        let c = compare_release_exec(&self.components, &other.components);
        if c != 0 {
            c
        } else {
            compare_pre_release_exec(&self.pre_release, &other.pre_release)
        }
    }

    /// The textual form: components joined by `.`, then `-pre`, then `+build`.
    pub fn render(&self) -> (r: Vec<char>)
        ensures
            r@ == render_semantic(self@),
    {
        let mut parts: Vec<Vec<char>> = Vec::new();
        let mut i: usize = 0;
        while i < self.components.len()
            invariant
                i <= self.components@.len(),
                views(parts@) == render_components(self.components@.take(i as int)),
            decreases self.components@.len() - i,
        {
            let mut d: Vec<char> = Vec::new();
            push_decimal(&mut d, self.components[i]);
            let ghost before = parts@;
            parts.push(d);
            assert(views(parts@) =~= views(before).push(d@));
            assert(render_components(self.components@.take(i + 1)) =~= render_components(
                self.components@.take(i as int),
            ).push(decimal(self.components@[i as int] as nat)));
            i = i + 1;
        }
        assert(self.components@.take(self.components@.len() as int) =~= self.components@);
        let mut out = join_chars(&parts, &['.']);
        assert(seq!['.'] =~= ['.']@);
        let ghost head = out@;
        if self.pre_release.len() > 0 {
            let mut ids: Vec<Vec<char>> = Vec::new();
            let mut j: usize = 0;
            while j < self.pre_release.len()
                invariant
                    j <= self.pre_release@.len(),
                    views(ids@) == render_pre_ids(pre_views(self.pre_release@).take(j as int)),
                decreases self.pre_release@.len() - j,
            {
                let mut d: Vec<char> = Vec::new();
                match &self.pre_release[j] {
                    PreReleaseIdentifier::Numeric(n) => push_decimal(&mut d, *n),
                    PreReleaseIdentifier::Alphanumeric(s) => push_chars(&mut d, s.as_slice()),
                }
                let ghost before = ids@;
                ids.push(d);
                assert(views(ids@) =~= views(before).push(d@));
                assert(render_pre_ids(pre_views(self.pre_release@).take(j + 1)) =~= render_pre_ids(
                    pre_views(self.pre_release@).take(j as int),
                ).push(render_pre_id(self.pre_release@[j as int]@)));
                j = j + 1;
            }
            assert(pre_views(self.pre_release@).take(self.pre_release@.len() as int)
                =~= pre_views(self.pre_release@));
            out.push('-');
            let tags = join_chars(&ids, &['.']);
            push_chars(&mut out, tags.as_slice());
        }
        let ghost middle = out@;
        if let Some(b) = &self.build {
            out.push('+');
            push_chars(&mut out, b.as_slice());
        }
        assert(out@ =~= render_semantic(self@));
        out
    }

    /// The textual form as a `String`.
    pub fn to_string(&self) -> (r: String)
        ensures
            r@ == render_semantic(self@),
    {
        let v = self.render();
        string_of(v.as_slice())
    }
}

fn compare_u64_exec(a: u64, b: u64) -> (r: i8)
    ensures
        r as int == compare_u64(a, b),
{
    if a < b {
        -1
    } else if a > b {
        1
    } else {
        0
    }
}

fn compare_release_exec(a: &Vec<u64>, b: &Vec<u64>) -> (r: i8)
    ensures
        r as int == compare_release(a@, b@),
{
    let width = if a.len() >= b.len() {
        a.len()
    } else {
        b.len()
    };
    let mut i: usize = 0;
    while i < width
        invariant
            width == max_len(a@, b@),
            i <= width,
            compare_release(a@, b@) == compare_release_from(a@, b@, i as int),
        decreases width - i,
    {
        let x = if i < a.len() {
            a[i]
        } else {
            0
        };
        let y = if i < b.len() {
            b[i]
        } else {
            0
        };
        if x != y {
            return compare_u64_exec(x, y);
        }
        i = i + 1;
    }
    0
}

pub fn compare_chars(a: &[char], b: &[char]) -> (r: i8)
    ensures
        r as int == compare_text(a@, b@),
{
    let mut i: usize = 0;
    assert(a@.subrange(0, a@.len() as int) =~= a@);
    assert(b@.subrange(0, b@.len() as int) =~= b@);
    while i < a.len() && i < b.len()
        invariant
            i <= a@.len(),
            i <= b@.len(),
            compare_text(a@, b@) == compare_text(
                a@.subrange(i as int, a@.len() as int),
                b@.subrange(i as int, b@.len() as int),
            ),
        decreases a@.len() - i,
    {
        if a[i] < b[i] {
            return -1;
        }
        if a[i] > b[i] {
            return 1;
        }
        assert(a@.subrange(i as int, a@.len() as int).drop_first() =~= a@.subrange(
            i + 1,
            a@.len() as int,
        ));
        assert(b@.subrange(i as int, b@.len() as int).drop_first() =~= b@.subrange(
            i + 1,
            b@.len() as int,
        ));
        i = i + 1;
    }
    if i == a.len() && i == b.len() {
        0
    } else if i == a.len() {
        -1
    } else {
        1
    }
}

fn compare_pre_id_exec(a: &PreReleaseIdentifier, b: &PreReleaseIdentifier) -> (r: i8)
    ensures
        r as int == compare_pre_id(a@, b@),
{
    match (a, b) {
        (PreReleaseIdentifier::Numeric(x), PreReleaseIdentifier::Numeric(y)) => compare_u64_exec(
            *x,
            *y,
        ),
        (PreReleaseIdentifier::Alphanumeric(x), PreReleaseIdentifier::Alphanumeric(y)) => {
            compare_chars(x.as_slice(), y.as_slice())
        },
        (PreReleaseIdentifier::Numeric(_), PreReleaseIdentifier::Alphanumeric(_)) => -1,
        (PreReleaseIdentifier::Alphanumeric(_), PreReleaseIdentifier::Numeric(_)) => 1,
    }
}

fn compare_pre_release_exec(l: &Vec<PreReleaseIdentifier>, r: &Vec<PreReleaseIdentifier>) -> (res: i8)
    ensures
        res as int == compare_pre_release(pre_views(l@), pre_views(r@)),
{
    if l.len() == 0 && r.len() == 0 {
        return 0;
    }
    if l.len() == 0 {
        return 1;
    }
    if r.len() == 0 {
        return -1;
    }
    let ghost lv = pre_views(l@);
    let ghost rv = pre_views(r@);
    let mut i: usize = 0;
    while i < l.len() && i < r.len()
        invariant
            lv == pre_views(l@),
            rv == pre_views(r@),
            i <= l@.len(),
            i <= r@.len(),
            compare_pre_ids_from(lv, rv, 0) == compare_pre_ids_from(lv, rv, i as int),
        decreases l@.len() - i,
    {
        let c = compare_pre_id_exec(&l[i], &r[i]);
        if c != 0 {
            return c;
        }
        i = i + 1;
    }
    if l.len() < r.len() {
        -1
    } else if l.len() > r.len() {
        1
    } else {
        0
    }
}

/// The `Ordering` that a precedence value of -1, 0 or 1 stands for.
pub open spec fn ordering_of(c: int) -> Ordering {
    if c < 0 {
        Ordering::Less
    } else if c > 0 {
        Ordering::Greater
    } else {
        Ordering::Equal
    }
}

impl SemanticVersion {
    /// Version precedence; build metadata is ignored.
    pub fn cmp(&self, other: &Self) -> (r: Ordering)
        ensures
            r == ordering_of(compare_semantic(self@, other@)),
    {
        let c = self.compare(other);
        if c < 0 {
            Ordering::Less
        } else if c > 0 {
            Ordering::Greater
        } else {
            Ordering::Equal
        }
    }
}

impl PartialEq for SemanticVersion {
    /// Build metadata is excluded from precedence and from equality.
    fn eq(&self, other: &Self) -> (r: bool) {
        self.compare(other) == 0
    }
}

impl PartialEqSpecImpl for SemanticVersion {
    open spec fn obeys_eq_spec() -> bool {
        true
    }

    open spec fn eq_spec(&self, other: &Self) -> bool {
        compare_semantic(self@, other@) == 0
    }
}

impl PartialOrd for SemanticVersion {
    fn partial_cmp(&self, other: &Self) -> (r: Option<Ordering>) {
        Some(self.cmp(other))
    }
}

impl PartialOrdSpecImpl for SemanticVersion {
    open spec fn obeys_partial_cmp_spec() -> bool {
        true
    }

    open spec fn partial_cmp_spec(&self, other: &Self) -> Option<Ordering> {
        Some(ordering_of(compare_semantic(self@, other@)))
    }
}

impl Version {
    /// Parse a version string, preferring the semantic representation.
    pub fn parse(input: &str) -> (r: Self)
        ensures
            r@ == parse_version(input@),
            render_version(r@) == input@,
    {
        proof {
            lemma_version_round_trip(input@);
        }
        match SemanticVersion::parse(input) {
            Some(v) => Version::Semantic(v),
            None => Version::Plain(input.to_owned()),
        }
    }

    /// Parse a version from its characters.
    pub fn parse_chars(input: &[char]) -> (r: Self)
        ensures
            r@ == parse_version(input@),
    {
        match SemanticVersion::parse_chars(input) {
            Some(v) => Version::Semantic(v),
            None => Version::Plain(string_of(input)),
        }
    }

    /// The semantic view of this version, if it has one.
    pub fn as_semantic(&self) -> (r: Option<&SemanticVersion>)
        ensures
            match self@ {
                VersionModel::Semantic(m) => r matches Some(s) && s@ == m,
                VersionModel::Plain(_) => r is None,
            },
    {
        match self {
            Version::Semantic(version) => Some(version),
            Version::Plain(_) => None,
        }
    }

    /// The textual form: the semantic rendering, or the plain string itself.
    pub fn render(&self) -> (r: Vec<char>)
        ensures
            r@ == render_version(self@),
    {
        match self {
            Version::Semantic(v) => v.render(),
            Version::Plain(raw) => chars_of(raw.as_str()),
        }
    }

    /// The textual form as a `String`.
    pub fn to_string(&self) -> (r: String)
        ensures
            r@ == render_version(self@),
    {
        let v = self.render();
        string_of(v.as_slice())
    }
}

} // verus!

verus! {

// ---------------------------------------------------------------------------
// Laws of precedence.

/// Release comparison against a common bound `n` at least as long as both lists.
pub open spec fn compare_release_bounded(a: Seq<u64>, b: Seq<u64>, i: int, n: int) -> int
    decreases n - i,
{
    if i < 0 || i >= n {
        0
    } else if component_at(a, i) != component_at(b, i) {
        compare_u64(component_at(a, i), component_at(b, i))
    } else {
        compare_release_bounded(a, b, i + 1, n)
    }
}

proof fn lemma_release_bounded(a: Seq<u64>, b: Seq<u64>, i: int, n: int)
    requires
        0 <= i,
        n >= max_len(a, b),
    ensures
        compare_release_from(a, b, i) == compare_release_bounded(a, b, i, n),
    decreases n - i,
{
    if i < n {
        lemma_release_bounded(a, b, i + 1, n);
    }
}

proof fn lemma_release_bounded_transitive(a: Seq<u64>, b: Seq<u64>, c: Seq<u64>, i: int, n: int)
    requires
        0 <= i,
    ensures
        compare_release_bounded(a, b, i, n) <= 0 && compare_release_bounded(b, c, i, n) <= 0
            ==> compare_release_bounded(a, c, i, n) <= 0,
        compare_release_bounded(a, b, i, n) < 0 && compare_release_bounded(b, c, i, n) <= 0
            ==> compare_release_bounded(a, c, i, n) < 0,
        compare_release_bounded(a, b, i, n) <= 0 && compare_release_bounded(b, c, i, n) < 0
            ==> compare_release_bounded(a, c, i, n) < 0,
        compare_release_bounded(a, b, i, n) == -compare_release_bounded(b, a, i, n),
        compare_release_bounded(a, a, i, n) == 0,
    decreases n - i,
{
    if i < n {
        lemma_release_bounded_transitive(a, b, c, i + 1, n);
    }
}

pub proof fn lemma_text_laws(a: Seq<char>, b: Seq<char>, c: Seq<char>)
    ensures
        compare_text(a, b) <= 0 && compare_text(b, c) <= 0 ==> compare_text(a, c) <= 0,
        compare_text(a, b) < 0 && compare_text(b, c) <= 0 ==> compare_text(a, c) < 0,
        compare_text(a, b) <= 0 && compare_text(b, c) < 0 ==> compare_text(a, c) < 0,
        compare_text(a, b) == -compare_text(b, a),
        compare_text(a, a) == 0,
        compare_text(a, b) == 0 ==> a == b,
    decreases a.len(),
{
    if a.len() > 0 && b.len() > 0 && c.len() > 0 {
        lemma_text_laws(a.drop_first(), b.drop_first(), c.drop_first());
        if compare_text(a, b) == 0 {
            assert(a =~= seq![a[0]] + a.drop_first());
            assert(b =~= seq![b[0]] + b.drop_first());
        }
    } else if a.len() > 0 && b.len() > 0 {
        lemma_text_laws(a.drop_first(), b.drop_first(), a.drop_first());
        if compare_text(a, b) == 0 {
            assert(a =~= seq![a[0]] + a.drop_first());
            assert(b =~= seq![b[0]] + b.drop_first());
        }
    } else if a.len() > 0 {
        lemma_text_laws(a.drop_first(), a.drop_first(), a.drop_first());
    } else if a.len() == 0 && b.len() == 0 {
        assert(a =~= b);
    }
}

proof fn lemma_pre_id_laws(a: PreId, b: PreId, c: PreId)
    ensures
        compare_pre_id(a, b) <= 0 && compare_pre_id(b, c) <= 0 ==> compare_pre_id(a, c) <= 0,
        compare_pre_id(a, b) < 0 && compare_pre_id(b, c) <= 0 ==> compare_pre_id(a, c) < 0,
        compare_pre_id(a, b) <= 0 && compare_pre_id(b, c) < 0 ==> compare_pre_id(a, c) < 0,
        compare_pre_id(a, b) == -compare_pre_id(b, a),
        compare_pre_id(a, a) == 0,
{
    match (a, b, c) {
        (PreId::Alpha(x), PreId::Alpha(y), PreId::Alpha(z)) => {
            lemma_text_laws(x, y, z);
        },
        (PreId::Alpha(x), PreId::Alpha(y), _) => {
            lemma_text_laws(x, y, x);
        },
        (PreId::Alpha(x), _, _) => {
            lemma_text_laws(x, x, x);
        },
        _ => {},
    }
}

proof fn lemma_pre_ids_laws(l: Seq<PreId>, m: Seq<PreId>, r: Seq<PreId>, i: int)
    requires
        0 <= i,
    ensures
        compare_pre_ids_from(l, m, i) <= 0 && compare_pre_ids_from(m, r, i) <= 0
            ==> compare_pre_ids_from(l, r, i) <= 0,
        compare_pre_ids_from(l, m, i) < 0 && compare_pre_ids_from(m, r, i) <= 0
            ==> compare_pre_ids_from(l, r, i) < 0,
        compare_pre_ids_from(l, m, i) <= 0 && compare_pre_ids_from(m, r, i) < 0
            ==> compare_pre_ids_from(l, r, i) < 0,
        compare_pre_ids_from(l, m, i) == -compare_pre_ids_from(m, l, i),
        compare_pre_ids_from(l, l, i) == 0,
    decreases l.len() - i,
{
    if i < l.len() {
        lemma_pre_ids_laws(l, m, r, i + 1);
        if i < m.len() && i < r.len() {
            lemma_pre_id_laws(l[i], m[i], r[i]);
        } else if i < m.len() {
            lemma_pre_id_laws(l[i], m[i], l[i]);
        } else {
            lemma_pre_id_laws(l[i], l[i], l[i]);
        }
    }
}

/// Precedence is a total preorder: every version ranks equal to itself, the
/// comparison of two versions is the mirror of its reverse, and ranking is
/// transitive (the laws behind `Ord` for semantic versions).
pub proof fn lemma_precedence_total_preorder(a: SemModel, b: SemModel, c: SemModel)
    ensures
        compare_semantic(a, a) == 0,
        compare_semantic(a, b) == -compare_semantic(b, a),
        compare_semantic(a, b) <= 0 && compare_semantic(b, c) <= 0 ==> compare_semantic(a, c)
            <= 0,
        compare_semantic(a, b) < 0 && compare_semantic(b, c) <= 0 ==> compare_semantic(a, c)
            < 0,
        compare_semantic(a, b) <= 0 && compare_semantic(b, c) < 0 ==> compare_semantic(a, c)
            < 0,
{
    let n = max_len(max_len_seq(a.components, b.components), c.components);
    lemma_release_bounded(a.components, b.components, 0, n);
    lemma_release_bounded(b.components, a.components, 0, n);
    lemma_release_bounded(b.components, c.components, 0, n);
    lemma_release_bounded(c.components, b.components, 0, n);
    lemma_release_bounded(a.components, c.components, 0, n);
    lemma_release_bounded(c.components, a.components, 0, n);
    lemma_release_bounded(a.components, a.components, 0, n);
    lemma_release_bounded_transitive(a.components, b.components, c.components, 0, n);
    lemma_release_bounded_transitive(b.components, a.components, c.components, 0, n);
    lemma_release_bounded_transitive(a.components, c.components, b.components, 0, n);
    lemma_release_bounded_transitive(b.components, c.components, a.components, 0, n);
    lemma_release_bounded_transitive(c.components, a.components, b.components, 0, n);
    lemma_release_bounded_transitive(c.components, b.components, a.components, 0, n);
    lemma_pre_ids_laws(a.pre, b.pre, c.pre, 0);
    lemma_pre_ids_laws(b.pre, a.pre, c.pre, 0);
    lemma_pre_ids_laws(a.pre, c.pre, b.pre, 0);
    lemma_pre_ids_laws(b.pre, c.pre, a.pre, 0);
    lemma_pre_ids_laws(c.pre, a.pre, b.pre, 0);
    lemma_pre_ids_laws(c.pre, b.pre, a.pre, 0);
}

/// A list as long as the longer of two lists (all zeros; only its length matters).
pub open spec fn max_len_seq(a: Seq<u64>, b: Seq<u64>) -> Seq<u64> {
    Seq::new(max_len(a, b) as nat, |i: int| 0u64)
}

/// Absent trailing release components count as zero: two versions whose
/// components agree at every position, reading missing ones as zero, and whose
/// pre-release tags are equal have the same precedence, whatever their build
/// metadata (so `1.2`, `1.2.0` and `1.2.0+build` rank equal).
pub proof fn lemma_zero_padding_and_build_are_ignored(a: SemModel, b: SemModel)
    requires
        forall|i: int| 0 <= i ==> component_at(a.components, i) == component_at(b.components, i),
        a.pre == b.pre,
    ensures
        compare_semantic(a, b) == 0,
{
    let n = max_len(a.components, b.components);
    lemma_release_bounded(a.components, b.components, 0, n);
    lemma_release_equal_bounded(a.components, b.components, 0, n);
    lemma_pre_ids_laws(a.pre, a.pre, a.pre, 0);
}

proof fn lemma_release_equal_bounded(a: Seq<u64>, b: Seq<u64>, i: int, n: int)
    requires
        0 <= i,
        forall|k: int| 0 <= k ==> component_at(a, k) == component_at(b, k),
    ensures
        compare_release_bounded(a, b, i, n) == 0,
    decreases n - i,
{
    if i < n {
        lemma_release_equal_bounded(a, b, i + 1, n);
    }
}


/// A pre-release ranks below the release it precedes: with equal release
/// components, a version with a pre-release tag is lower than one without.
pub proof fn lemma_pre_release_ranks_below_release(a: SemModel, b: SemModel)
    requires
        forall|i: int| 0 <= i ==> component_at(a.components, i) == component_at(b.components, i),
        a.pre.len() > 0,
        b.pre.len() == 0,
    ensures
        compare_semantic(a, b) < 0,
{
    let n = max_len(a.components, b.components);
    lemma_release_bounded(a.components, b.components, 0, n);
    lemma_release_equal_bounded(a.components, b.components, 0, n);
}


proof fn lemma_component_render(raw: Seq<char>)
    requires
        parse_component(raw) is Some,
        !raw.contains('+'),
    ensures
        decimal(parse_component(raw)->Some_0 as nat) == raw,
{
    if raw.len() > 1 && raw[0] == '+' {
        assert(raw.contains('+'));
    }
    lemma_decimal_of_digits(raw);
}

proof fn lemma_components_render(parts: Seq<Seq<char>>)
    requires
        parse_components(parts) is Some,
        forall|k: int| 0 <= k < parts.len() ==> !(#[trigger] parts[k]).contains('+'),
    ensures
        render_components(parse_components(parts)->Some_0) == parts,
    decreases parts.len(),
{
    if parts.len() > 0 {
        let p = parts.drop_last();
        assert forall|k: int| 0 <= k < p.len() implies !(#[trigger] p[k]).contains('+') by {
            assert(p[k] == parts[k]);
        }
        lemma_components_render(p);
        assert(!parts[parts.len() - 1].contains('+'));
        lemma_component_render(parts.last());
        let a = parse_components(p)->Some_0;
        let b = parse_component(parts.last())->Some_0;
        assert(render_components(a.push(b)) =~= render_components(a).push(decimal(b as nat)));
        assert(p.push(parts.last()) =~= parts);
    } else {
        assert(render_components(seq![]) =~= Seq::<Seq<char>>::empty());
    }
}

proof fn lemma_pre_id_render(part: Seq<char>)
    requires
        parse_pre_id(part) is Some,
    ensures
        render_pre_id(parse_pre_id(part)->Some_0) == part,
{
    if all_digits(part) {
        if part.len() > 1 && part[0] == '+' {
            assert(is_digit(part[0]));
        }
        lemma_decimal_of_digits(part);
    }
}

proof fn lemma_pre_ids_render(parts: Seq<Seq<char>>)
    requires
        parse_pre_ids(parts) is Some,
    ensures
        render_pre_ids(parse_pre_ids(parts)->Some_0) == parts,
        parse_pre_ids(parts)->Some_0.len() == parts.len(),
    decreases parts.len(),
{
    if parts.len() > 0 {
        let p = parts.drop_last();
        lemma_pre_ids_render(p);
        lemma_pre_id_render(parts.last());
        let a = parse_pre_ids(p)->Some_0;
        let b = parse_pre_id(parts.last())->Some_0;
        assert(render_pre_ids(a.push(b)) =~= render_pre_ids(a).push(render_pre_id(b)));
        assert(p.push(parts.last()) =~= parts);
    } else {
        assert(render_pre_ids(seq![]) =~= Seq::<Seq<char>>::empty());
    }
}

/// Parsing then rendering a version gives the text back: a semantic version
/// is written in its one canonical form, and a plain one is kept as it is.
pub proof fn lemma_version_round_trip(s: Seq<char>)
    ensures
        render_version(parse_version(s)) == s,
{
    if let Some(m) = parse_semantic(s) {
        let (without_build, build) = split_once(s, '+');
        let (core, pre) = split_once(without_build, '-');
        lemma_find_char(s, '+');
        lemma_find_char(without_build, '-');
        // The core holds no `+`, so neither do its parts.
        assert(!core.contains('+')) by {
            if core.contains('+') {
                let j = choose|j: int| 0 <= j < core.len() && core[j] == '+';
                assert(without_build[j] == '+');
                assert(s[j] == '+');
            }
        }
        let parts = split(core, '.');
        lemma_join_split(core, '.');
        assert forall|k: int| 0 <= k < parts.len() implies !(#[trigger] parts[k]).contains('+') by {
            if parts[k].contains('+') {
                assert(core.contains('+'));
            }
        }
        lemma_components_render(parts);
        let head = join(render_components(m.components), seq!['.']);
        assert(head == core);
        let with_pre = head + (if m.pre.len() > 0 {
            seq!['-'] + join(render_pre_ids(m.pre), seq!['.'])
        } else {
            seq![]
        });
        match pre {
            Some(tag) => {
                lemma_join_split(tag, '.');
                lemma_pre_ids_render(split(tag, '.'));
                assert(m.pre.len() > 0);
                assert(core + seq!['-'] + tag =~= without_build);
                assert(with_pre =~= without_build);
            },
            None => {
                assert(with_pre =~= without_build);
            },
        }
        match build {
            Some(b) => {
                assert(without_build + seq!['+'] + b =~= s);
                assert(render_semantic(m) =~= with_pre + (seq!['+'] + b));
            },
            None => {
                assert(render_semantic(m) =~= with_pre + Seq::<char>::empty());
            },
        }
    }
}


proof fn lemma_pre_ids_prefix_below(l: Seq<PreId>, more: Seq<PreId>, i: int)
    requires
        0 <= i <= l.len(),
        more.len() > 0,
    ensures
        compare_pre_ids_from(l, l + more, i) < 0,
    decreases l.len() - i,
{
    let r = l + more;
    if i < l.len() {
        assert(r[i] == l[i]);
        match l[i] {
            PreId::Alpha(x) => lemma_text_laws(x, x, x),
            PreId::Numeric(_) => {},
        }
        lemma_pre_ids_prefix_below(l, more, i + 1);
    }
}

/// A pre-release tag followed by more identifiers ranks above the tag alone
/// (`1.0.0-alpha < 1.0.0-alpha.1`), whatever the added identifiers are.
pub proof fn lemma_longer_pre_release_ranks_above(a: SemModel, more: Seq<PreId>)
    requires
        a.pre.len() > 0,
        more.len() > 0,
    ensures
        compare_semantic(a, SemModel { pre: a.pre + more, ..a }) < 0,
{
    let b = SemModel { pre: a.pre + more, ..a };
    lemma_precedence_total_preorder(a, a, a);
    assert(compare_release(a.components, b.components) == 0);
    lemma_pre_ids_prefix_below(a.pre, more, 0);
}


/// `part` after the separator `sep`, or nothing.
pub open spec fn optional_part(sep: char, part: Option<Seq<char>>) -> Seq<char> {
    match part {
        Some(p) => seq![sep] + p,
        None => seq![],
    }
}

/// A release component: decimal digits without a leading zero (but `0`
/// itself), with a value that fits in a `u64`.
pub open spec fn canonical_number(p: Seq<char>) -> bool {
    &&& p.len() > 0
    &&& all_digits(p)
    &&& p[0] != '0' || p.len() == 1
    &&& digits_value(p) <= u64::MAX
}

/// A pre-release identifier: non-empty, over `[0-9A-Za-z-]`, and a canonical
/// number when it is made of digits only.
pub open spec fn pre_identifier(p: Seq<char>) -> bool {
    &&& p.len() > 0
    &&& all_identifier_chars(p)
    &&& all_digits(p) ==> canonical_number(p)
}

/// `s` reads as `core[-pre][+build]` with these parts: the core holds no `-`
/// or `+` and is dot-separated canonical numbers; the pre-release tag holds
/// no `+` and is dot-separated pre-release identifiers; the build metadata is
/// dot-separated non-empty identifiers.
pub open spec fn semantic_shape(
    s: Seq<char>,
    core: Seq<char>,
    pre: Option<Seq<char>>,
    build: Option<Seq<char>>,
) -> bool {
    &&& s == core + optional_part('-', pre) + optional_part('+', build)
    &&& !core.contains('-')
    &&& !core.contains('+')
    &&& forall|k: int|
        0 <= k < split(core, '.').len() ==> canonical_number(#[trigger] split(core, '.')[k])
    &&& pre matches Some(p) ==> {
        &&& !p.contains('+')
        &&& p.len() > 0
        &&& forall|k: int|
            0 <= k < split(p, '.').len() ==> pre_identifier(#[trigger] split(p, '.')[k])
    }
    &&& build matches Some(b) ==> valid_dotted(b)
}

proof fn lemma_components_all(parts: Seq<Seq<char>>)
    ensures
        parse_components(parts) is Some <==> forall|k: int|
            0 <= k < parts.len() ==> parse_component(#[trigger] parts[k]) is Some,
    decreases parts.len(),
{
    if parts.len() > 0 {
        let p = parts.drop_last();
        lemma_components_all(p);
        if forall|k: int| 0 <= k < parts.len() ==> parse_component(#[trigger] parts[k]) is Some {
            assert forall|k: int| 0 <= k < p.len() implies parse_component(#[trigger] p[k]) is Some by {
                assert(p[k] == parts[k]);
            }
            assert(parse_component(parts[parts.len() - 1]) is Some);
        }
        if parse_components(parts) is Some {
            assert forall|k: int| 0 <= k < parts.len() implies parse_component(
                #[trigger] parts[k],
            ) is Some by {
                if k < p.len() {
                    assert(p[k] == parts[k]);
                }
            }
        }
    }
}

proof fn lemma_pre_ids_all(parts: Seq<Seq<char>>)
    ensures
        parse_pre_ids(parts) is Some <==> forall|k: int|
            0 <= k < parts.len() ==> parse_pre_id(#[trigger] parts[k]) is Some,
    decreases parts.len(),
{
    if parts.len() > 0 {
        let p = parts.drop_last();
        lemma_pre_ids_all(p);
        if forall|k: int| 0 <= k < parts.len() ==> parse_pre_id(#[trigger] parts[k]) is Some {
            assert forall|k: int| 0 <= k < p.len() implies parse_pre_id(#[trigger] p[k]) is Some by {
                assert(p[k] == parts[k]);
            }
            assert(parse_pre_id(parts[parts.len() - 1]) is Some);
        }
        if parse_pre_ids(parts) is Some {
            assert forall|k: int| 0 <= k < parts.len() implies parse_pre_id(
                #[trigger] parts[k],
            ) is Some by {
                if k < p.len() {
                    assert(p[k] == parts[k]);
                }
            }
        }
    }
}

proof fn lemma_component_canonical(raw: Seq<char>)
    requires
        !raw.contains('+'),
    ensures
        parse_component(raw) is Some <==> canonical_number(raw),
{
    if raw.len() > 1 && raw[0] == '+' {
        assert(raw.contains('+'));
    }
}

proof fn lemma_pre_id_identifier(p: Seq<char>)
    ensures
        parse_pre_id(p) is Some <==> pre_identifier(p),
{
    if p.len() > 0 && all_identifier_chars(p) && all_digits(p) {
        assert(is_digit(p[0]));
        assert(p[0] != '+');
    }
}

/// Every part of `split(s, c)` lacks `x` when `s` does.
proof fn lemma_split_parts_lack(s: Seq<char>, c: char, x: char)
    requires
        !s.contains(x),
    ensures
        forall|k: int| 0 <= k < split(s, c).len() ==> !(#[trigger] split(s, c)[k]).contains(x),
{
    lemma_join_split(s, c);
}

/// The grammar of semantic versions: `s` parses exactly when it reads as
/// `core[-pre][+build]`, split at its first `+` and then at the first `-`,
/// with a core of dot-separated canonical numbers, an optional pre-release
/// tag of dot-separated identifiers, and optional build metadata of
/// dot-separated non-empty identifiers.
pub proof fn lemma_semantic_grammar(s: Seq<char>)
    ensures
        parse_semantic(s) is Some <==> exists|
            core: Seq<char>,
            pre: Option<Seq<char>>,
            build: Option<Seq<char>>,
        | #[trigger] semantic_shape(s, core, pre, build),
{
    let (without_build, build) = split_once(s, '+');
    let (core, pre) = split_once(without_build, '-');
    lemma_find_char(s, '+');
    lemma_find_char(without_build, '-');
    assert(!without_build.contains('+')) by {
        if without_build.contains('+') {
            let j = choose|j: int| 0 <= j < without_build.len() && without_build[j] == '+';
            assert(s[j] == '+');
        }
    }
    assert(!core.contains('+')) by {
        if core.contains('+') {
            let j = choose|j: int| 0 <= j < core.len() && core[j] == '+';
            assert(without_build[j] == '+');
        }
    }
    assert(!core.contains('-')) by {
        if core.contains('-') {
            let j = choose|j: int| 0 <= j < core.len() && core[j] == '-';
            assert(without_build[j] == '-');
        }
    }
    assert(without_build =~= core + optional_part('-', pre));
    assert(s =~= without_build + optional_part('+', build));
    lemma_split_parts_lack(core, '.', '+');
    lemma_components_all(split(core, '.'));
    assert forall|k: int| 0 <= k < split(core, '.').len() implies (parse_component(
        #[trigger] split(core, '.')[k],
    ) is Some <==> canonical_number(split(core, '.')[k])) by {
        lemma_component_canonical(split(core, '.')[k]);
    }
    if let Some(p) = pre {
        assert(!p.contains('+')) by {
            if p.contains('+') {
                let j = choose|j: int| 0 <= j < p.len() && p[j] == '+';
                assert(without_build[core.len() + 1 + j] == '+');
            }
        }
        lemma_pre_ids_all(split(p, '.'));
        assert forall|k: int| 0 <= k < split(p, '.').len() implies (parse_pre_id(
            #[trigger] split(p, '.')[k],
        ) is Some <==> pre_identifier(split(p, '.')[k])) by {
            lemma_pre_id_identifier(split(p, '.')[k]);
        }
    }
    if parse_semantic(s) is Some {
        assert(semantic_shape(s, core, pre, build));
    }
    if exists|c: Seq<char>, q: Option<Seq<char>>, b: Option<Seq<char>>|
        #[trigger] semantic_shape(s, c, q, b) {
        let (c, q, b) = choose|c: Seq<char>, q: Option<Seq<char>>, b: Option<Seq<char>>|
            #[trigger] semantic_shape(s, c, q, b);
        lemma_grammar_splits(s, c, q, b);
        assert(parse_semantic(s) is Some);
    }
}

/// The parts of a `core[-pre][+build]` reading are where `parse_semantic`
/// splits.
proof fn lemma_grammar_splits(s: Seq<char>, c: Seq<char>, q: Option<Seq<char>>, b: Option<Seq<char>>)
    requires
        semantic_shape(s, c, q, b),
    ensures
        split_once(s, '+') == (c + optional_part('-', q), b),
        split_once(c + optional_part('-', q), '-') == (c, q),
        s.len() > 0,
{
    let w = c + optional_part('-', q);
    assert(forall|j: int| 0 <= j < c.len() ==> c[j] != '+' && c[j] != '-');
    assert forall|j: int| 0 <= j < w.len() implies w[j] != '+' by {
        if j < c.len() {
            assert(w[j] == c[j]);
        } else if j > c.len() {
            let p = q->Some_0;
            assert(w[j] == p[j - c.len() - 1]);
            assert(!p.contains('+'));
        }
    }
    match b {
        Some(bb) => {
            assert(s =~= w + seq!['+'] + bb);
            lemma_find_char_at(s, '+', w.len() as int);
            assert(s.subrange(0, w.len() as int) =~= w);
            assert(s.subrange(w.len() as int + 1, s.len() as int) =~= bb);
        },
        None => {
            assert(s =~= w);
            lemma_find_char_at(s, '+', s.len() as int);
        },
    }
    match q {
        Some(p) => {
            assert(w =~= c + seq!['-'] + p);
            lemma_find_char_at(w, '-', c.len() as int);
            assert(w.subrange(0, c.len() as int) =~= c);
            assert(w.subrange(c.len() as int + 1, w.len() as int) =~= p);
        },
        None => {
            assert(w =~= c);
            lemma_find_char_at(w, '-', w.len() as int);
        },
    }
    lemma_join_split(c, '.');
    if c.len() == 0 {
        let part = split(c, '.')[0];
        if part.len() > 0 {
            assert(part.contains(part[0]));
        }
        assert(!canonical_number(part));
    }
}


proof fn lemma_release_first_difference(a: Seq<u64>, b: Seq<u64>, from: int, i: int)
    requires
        0 <= from <= i < max_len(a, b),
        component_at(a, i) != component_at(b, i),
        forall|j: int| from <= j < i ==> component_at(a, j) == component_at(b, j),
    ensures
        compare_release_from(a, b, from) == compare_u64(component_at(a, i), component_at(b, i)),
    decreases i - from,
{
    if from < i {
        lemma_release_first_difference(a, b, from + 1, i);
    }
}

proof fn lemma_release_all_equal(a: Seq<u64>, b: Seq<u64>, from: int)
    requires
        0 <= from,
        forall|j: int| from <= j < max_len(a, b) ==> component_at(a, j) == component_at(b, j),
    ensures
        compare_release_from(a, b, from) == 0,
    decreases max_len(a, b) - from,
{
    if from < max_len(a, b) {
        lemma_release_all_equal(a, b, from + 1);
    }
}

proof fn lemma_pre_id_equal(x: PreId, y: PreId)
    ensures
        compare_pre_id(x, y) == 0 <==> x == y,
{
    match (x, y) {
        (PreId::Alpha(p), PreId::Alpha(q)) => {
            lemma_text_laws(p, q, q);
            lemma_text_laws(p, p, p);
        },
        _ => {},
    }
}

proof fn lemma_pre_first_difference(l: Seq<PreId>, r: Seq<PreId>, from: int, i: int)
    requires
        0 <= from <= i < l.len(),
        i < r.len(),
        l[i] != r[i],
        forall|j: int| from <= j < i ==> l[j] == r[j],
    ensures
        compare_pre_ids_from(l, r, from) == compare_pre_id(l[i], r[i]),
    decreases i - from,
{
    lemma_pre_id_equal(l[from], r[from]);
    if from < i {
        lemma_pre_first_difference(l, r, from + 1, i);
    }
}

proof fn lemma_pre_all_equal(l: Seq<PreId>, r: Seq<PreId>, from: int)
    requires
        0 <= from,
        forall|j: int| from <= j < l.len() && j < r.len() ==> l[j] == r[j],
    ensures
        compare_pre_ids_from(l, r, from) == compare_len(l.len() as int, r.len() as int),
    decreases l.len() - from,
{
    if from < l.len() && from < r.len() {
        lemma_pre_id_equal(l[from], r[from]);
        lemma_pre_all_equal(l, r, from + 1);
    }
}

/// Precedence as `SemVer` states it, the order semantic versions are
/// compared by. Release components are compared left to right over the longer
/// list, a missing one counting as 0, and the first difference decides.
/// With equal releases: a version without a pre-release tag ranks above one
/// with it; two tags are compared identifier by identifier, the first
/// different pair deciding (a number below text, numbers by value, text by
/// code point), and when one tag is a prefix of the other the longer ranks
/// above. Build metadata takes no part.
pub proof fn lemma_precedence_as_semver(a: SemModel, b: SemModel)
    ensures
        forall|i: int|
            0 <= i < max_len(a.components, b.components) && component_at(a.components, i)
                != component_at(b.components, i) && (forall|j: int|
                0 <= j < i ==> component_at(a.components, j) == component_at(b.components, j))
                ==> compare_semantic(a, b) == compare_u64(
                #[trigger] component_at(a.components, i),
                component_at(b.components, i),
            ),
        (forall|j: int|
            0 <= j < max_len(a.components, b.components) ==> component_at(a.components, j)
                == component_at(b.components, j)) ==> {
            &&& a.pre.len() == 0 && b.pre.len() == 0 ==> compare_semantic(a, b) == 0
            &&& a.pre.len() == 0 && b.pre.len() > 0 ==> compare_semantic(a, b) == 1
            &&& a.pre.len() > 0 && b.pre.len() == 0 ==> compare_semantic(a, b) == -1
            &&& a.pre.len() > 0 && b.pre.len() > 0 ==> forall|i: int|
                0 <= i < a.pre.len() && i < b.pre.len() && a.pre[i] != b.pre[i] && (forall|j: int|
                    0 <= j < i ==> a.pre[j] == b.pre[j]) ==> compare_semantic(a, b)
                    == compare_pre_id(#[trigger] a.pre[i], b.pre[i])
            &&& a.pre.len() > 0 && b.pre.len() > 0 && (forall|j: int|
                0 <= j < a.pre.len() && j < b.pre.len() ==> a.pre[j] == b.pre[j])
                ==> compare_semantic(a, b) == compare_len(a.pre.len() as int, b.pre.len() as int)
        },
        forall|x: Option<Seq<char>>, y: Option<Seq<char>>|
            #[trigger] compare_semantic(SemModel { build: x, ..a }, SemModel { build: y, ..b })
                == compare_semantic(a, b),
        forall|i: int|
            0 <= i < max_len(a.components, b.components) && component_at(a.components, i)
                != component_at(b.components, i) && (forall|j: int|
                0 <= j < i ==> component_at(a.components, j) == component_at(b.components, j))
                ==> (compare_semantic(a, b) < 0 <==> #[trigger] component_at(a.components, i)
                < component_at(b.components, i)),
{
    assert forall|i: int|
        0 <= i < max_len(a.components, b.components) && component_at(a.components, i)
            != component_at(b.components, i) && (forall|j: int|
            0 <= j < i ==> component_at(a.components, j) == component_at(b.components, j))
            implies compare_semantic(a, b) == compare_u64(
            #[trigger] component_at(a.components, i),
            component_at(b.components, i),
        ) by {
        lemma_release_first_difference(a.components, b.components, 0, i);
    }
    if forall|j: int|
        0 <= j < max_len(a.components, b.components) ==> component_at(a.components, j)
            == component_at(b.components, j) {
        lemma_release_all_equal(a.components, b.components, 0);
        if a.pre.len() > 0 && b.pre.len() > 0 {
            assert forall|i: int|
                0 <= i < a.pre.len() && i < b.pre.len() && a.pre[i] != b.pre[i] && (forall|j: int|
                    0 <= j < i ==> a.pre[j] == b.pre[j]) implies compare_semantic(a, b)
                == compare_pre_id(#[trigger] a.pre[i], b.pre[i]) by {
                lemma_pre_first_difference(a.pre, b.pre, 0, i);
            }
            if forall|j: int| 0 <= j < a.pre.len() && j < b.pre.len() ==> a.pre[j] == b.pre[j] {
                lemma_pre_all_equal(a.pre, b.pre, 0);
            }
        }
    }
}


/// Pre-release identifiers decide as `SemVer` says. Take two versions with
/// the same release whose tags agree up to one identifier where they
/// differ: when both identifiers are numbers, the version with the smaller
/// number ranks lower (`1.0.0-rc.1 < 1.0.0-rc.2`); a number ranks below
/// text (`1.0.0-1 < 1.0.0-a`); two texts order by code points.
pub proof fn lemma_pre_release_identifier_order(
    a: SemModel,
    shared: Seq<PreId>,
    x: PreId,
    y: PreId,
    rest_a: Seq<PreId>,
    rest_b: Seq<PreId>,
)
    requires
        x != y,
    ensures
        ({
            let va = SemModel { pre: shared + seq![x] + rest_a, ..a };
            let vb = SemModel { pre: shared + seq![y] + rest_b, ..a };
            &&& (x is Numeric && y is Numeric) ==> (compare_semantic(va, vb) < 0 <==> x->Numeric_0
                < y->Numeric_0)
            &&& (x is Numeric && y is Alpha) ==> compare_semantic(va, vb) < 0
            &&& (x is Alpha && y is Numeric) ==> compare_semantic(va, vb) > 0
            &&& (x is Alpha && y is Alpha) ==> (compare_semantic(va, vb) < 0 <==> compare_text(
                x->Alpha_0,
                y->Alpha_0,
            ) < 0)
        }),
{
    let va = SemModel { pre: shared + seq![x] + rest_a, ..a };
    let vb = SemModel { pre: shared + seq![y] + rest_b, ..a };
    lemma_release_all_equal(a.components, a.components, 0);
    let i = shared.len() as int;
    assert(va.pre[i] == x && vb.pre[i] == y);
    assert forall|j: int| 0 <= j < i implies va.pre[j] == vb.pre[j] by {
        assert(va.pre[j] == shared[j] && vb.pre[j] == shared[j]);
    }
    lemma_pre_first_difference(va.pre, vb.pre, 0, i);
    assert(compare_semantic(va, vb) == compare_pre_id(x, y));
}


/// Text compares by code point, left to right: `p` ranks below `q` exactly
/// when `p` is a proper prefix of `q`, or at the first position where they
/// differ `p` holds the smaller character.
pub proof fn lemma_text_order(p: Seq<char>, q: Seq<char>)
    ensures
        compare_text(p, q) < 0 <==> (p.len() < q.len() && q.take(p.len() as int) == p) || exists|
            i: int,
        |
            0 <= i < p.len() && i < q.len() && p.take(i) == q.take(i) && #[trigger] p[i] < q[i],
    decreases p.len(),
{
    if p.len() > 0 && q.len() > 0 && p[0] == q[0] {
        let p1 = p.drop_first();
        let q1 = q.drop_first();
        lemma_text_order(p1, q1);
        if p1.len() < q1.len() && q1.take(p1.len() as int) == p1 {
            assert(q.take(p.len() as int) =~= seq![q[0]] + q1.take(p1.len() as int));
            assert(p =~= seq![p[0]] + p1);
        }
        if p.len() < q.len() && q.take(p.len() as int) == p {
            assert(q1.take(p1.len() as int) =~= q.take(p.len() as int).drop_first());
        }
        if exists|i: int| 0 <= i < p1.len() && i < q1.len() && p1.take(i) == q1.take(i) && #[trigger] p1[i] < q1[i] {
            let i = choose|i: int| 0 <= i < p1.len() && i < q1.len() && p1.take(i) == q1.take(i) && #[trigger] p1[i] < q1[i];
            assert(p.take(i + 1) =~= seq![p[0]] + p1.take(i));
            assert(q.take(i + 1) =~= seq![q[0]] + q1.take(i));
            assert(p[i + 1] == p1[i]);
        }
        if exists|i: int| 0 <= i < p.len() && i < q.len() && p.take(i) == q.take(i) && #[trigger] p[i] < q[i] {
            let i = choose|i: int| 0 <= i < p.len() && i < q.len() && p.take(i) == q.take(i) && #[trigger] p[i] < q[i];
            assert(i > 0);
            assert(p1.take(i - 1) =~= p.take(i).drop_first());
            assert(q1.take(i - 1) =~= q.take(i).drop_first());
            assert(p1[i - 1] == p[i]);
        }
    } else if p.len() > 0 && q.len() > 0 {
        if p[0] < q[0] {
            assert(p.take(0) =~= q.take(0));
        } else {
            assert forall|i: int| 0 <= i < p.len() && i < q.len() && p.take(i) == q.take(i) implies !(
            #[trigger] p[i] < q[i]) by {
                if i > 0 {
                    assert(p.take(i)[0] == q.take(i)[0]);
                }
            }
            if p.len() < q.len() && q.take(p.len() as int) == p {
                assert(q.take(p.len() as int)[0] == q[0]);
            }
        }
    } else if p.len() == 0 && q.len() > 0 {
        assert(q.take(0) =~= p);
    }
}

} // verus!
