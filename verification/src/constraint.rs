//! Version constraint parsing and matching, following the grammar Quilt
//! accepts in a dependency's `versions` field. A constraint is a union of
//! predicates; each predicate is a conjunction of bounds:
//!
//! - `*` or the empty string matches any version.
//! - `1.2.3` (no operator, no wildcard) requires exact equality.
//! - `>=`, `>`, `<=`, `<`, `=` compare against a version.
//! - `^1.2.3` allows changes that do not modify the left-most non-zero component.
//! - `~1.2.3` allows patch-level changes.
//! - `1.x`, `1.X`, `1.*`, `1.2.x` fix a prefix and leave the rest free.
//!
//! Predicates that reference a version which is not semantic fall back to exact
//! string equality. A predicate whose upper bound would need a component past
//! `u64::MAX` (`^18446744073709551615`, `18446744073709551615.x`) is rejected
//! as an error naming the predicate.

use vstd::prelude::*;

use crate::text::{
    chars_equal, chars_of, push_quoted, quoted, parse_u64, parse_u64_chars, push_str, split,
    split_chars, string_of, trim, trim_chars, trim_start, views, lemma_trim_end, lemma_trim_start,
};
use crate::version::{
    SemModel, SemanticVersion, Version, VersionModel, compare_release_from, compare_semantic, compare_u64, component_at, max_len,
    parse_version, render_semantic, render_version,
};

verus! {

/// How a bound compares a version with its reference version.
#[derive(Clone, Copy, Debug, PartialEq, Eq, Structural)]
pub enum Comparator {
    Greater,
    GreaterEqual,
    Less,
    LessEqual,
    Equal,
}

/// The operator a predicate starts with.
#[derive(Clone, Copy, Debug, PartialEq, Eq, Structural)]
pub enum Operator {
    Greater,
    GreaterEqual,
    Less,
    LessEqual,
    Exact,
    Caret,
    Tilde,
}

/// The model of a bound.
pub struct BoundModel {
    pub comparator: Comparator,
    pub version: SemModel,
}

/// The model of a predicate.
pub enum PredicateModel {
    Any,
    PlainEquals(Seq<char>),
    Bounds(Seq<BoundModel>),
}

#[derive(Clone, Debug)]
struct Bound {
    comparator: Comparator,
    version: SemanticVersion,
}

impl View for Bound {
    type V = BoundModel;

    closed spec fn view(&self) -> BoundModel {
        BoundModel { comparator: self.comparator, version: self.version@ }
    }
}

pub open spec fn bound_views(b: Seq<Bound>) -> Seq<BoundModel> {
    b.map_values(|x: Bound| x@)
}

/// A conjunction of bounds, or an exact match against an opaque version.
#[derive(Clone, Debug)]
enum Predicate {
    Any,
    PlainEquals(String),
    Bounds(Vec<Bound>),
}

impl View for Predicate {
    type V = PredicateModel;

    closed spec fn view(&self) -> PredicateModel {
        match self {
            Predicate::Any => PredicateModel::Any,
            Predicate::PlainEquals(s) => PredicateModel::PlainEquals(s@),
            Predicate::Bounds(b) => PredicateModel::Bounds(bound_views(b@)),
        }
    }
}

pub open spec fn predicate_views(p: Seq<Predicate>) -> Seq<PredicateModel> {
    p.map_values(|x: Predicate| x@)
}

/// A parsed `versions` value: a union of predicates.
#[derive(Clone, Debug)]
pub struct VersionSpec {
    predicates: Vec<Predicate>,
}

impl View for VersionSpec {
    type V = Seq<PredicateModel>;

    closed spec fn view(&self) -> Seq<PredicateModel> {
        predicate_views(self.predicates@)
    }
}

// ---------------------------------------------------------------------------
// Matching.

pub open spec fn bound_matches(b: BoundModel, v: SemModel) -> bool {
    let o = compare_semantic(v, b.version);
    match b.comparator {
        Comparator::Greater => o > 0,
        Comparator::GreaterEqual => o >= 0,
        Comparator::Less => o < 0,
        Comparator::LessEqual => o <= 0,
        Comparator::Equal => o == 0,
    }
}

pub open spec fn all_bounds_match(bounds: Seq<BoundModel>, v: SemModel) -> bool {
    forall|i: int| 0 <= i < bounds.len() ==> bound_matches(#[trigger] bounds[i], v)
}

/// A plain predicate matches the textual form of the version; bounds match
/// only semantic versions that satisfy every bound.
pub open spec fn predicate_matches(p: PredicateModel, v: VersionModel) -> bool {
    match p {
        PredicateModel::Any => true,
        PredicateModel::PlainEquals(expected) => match v {
            VersionModel::Plain(raw) => raw == expected,
            VersionModel::Semantic(s) => render_semantic(s) == expected,
        },
        PredicateModel::Bounds(bounds) => match v {
            VersionModel::Semantic(s) => all_bounds_match(bounds, s),
            VersionModel::Plain(_) => false,
        },
    }
}

/// A union matches when any of its predicates does.
pub open spec fn spec_matches(spec: Seq<PredicateModel>, v: VersionModel) -> bool {
    exists|i: int| 0 <= i < spec.len() && predicate_matches(#[trigger] spec[i], v)
}

// ---------------------------------------------------------------------------
// The grammar.

pub open spec fn operator_symbol(op: Operator) -> Seq<char> {
    match op {
        Operator::Greater => seq!['>'],
        Operator::GreaterEqual => seq!['>', '='],
        Operator::Less => seq!['<'],
        Operator::LessEqual => seq!['<', '='],
        Operator::Exact => seq!['='],
        Operator::Caret => seq!['^'],
        Operator::Tilde => seq!['~'],
    }
}

pub open spec fn starts_with(s: Seq<char>, p: Seq<char>) -> bool {
    p.len() <= s.len() && s.take(p.len() as int) == p
}

/// The first operator, tried in the order `>=`, `<=`, `>`, `<`, `=`, `^`, `~`,
/// that `s` starts with, and the trimmed remainder.
pub open spec fn strip_operator(s: Seq<char>) -> Option<(Operator, Seq<char>)> {
    let order = seq![
        Operator::GreaterEqual,
        Operator::LessEqual,
        Operator::Greater,
        Operator::Less,
        Operator::Exact,
        Operator::Caret,
        Operator::Tilde,
    ];
    first_operator(s, order)
}

pub open spec fn first_operator(s: Seq<char>, order: Seq<Operator>) -> Option<(Operator, Seq<char>)>
    decreases order.len(),
{
    if order.len() == 0 {
        None
    } else if starts_with(s, operator_symbol(order[0])) {
        Some((order[0], trim(s.skip(operator_symbol(order[0]).len() as int))))
    } else {
        first_operator(s, order.drop_first())
    }
}

/// A version with the given release components only.
pub open spec fn exact_model(c: Seq<u64>) -> SemModel {
    SemModel { components: c, pre: seq![], build: None }
}

/// `x + 1`; `u64::MAX` has none.
pub open spec fn successor(x: u64) -> Option<u64> {
    if x == u64::MAX {
        None
    } else {
        Some((x + 1) as u64)
    }
}

pub open spec fn at_least_below(lower: SemModel, upper: SemModel) -> Seq<BoundModel> {
    seq![
        BoundModel { comparator: Comparator::GreaterEqual, version: lower },
        BoundModel { comparator: Comparator::Less, version: upper },
    ]
}

/// The range from `v` up to, not including, the version with release
/// components `upper`; none when a component of `upper` has no `u64` value.
pub open spec fn range_below(v: SemModel, upper: Seq<Option<u64>>) -> Option<Seq<BoundModel>> {
    if upper[0] is Some && upper[1] is Some && upper[2] is Some {
        Some(
            at_least_below(
                v,
                exact_model(seq![upper[0]->Some_0, upper[1]->Some_0, upper[2]->Some_0]),
            ),
        )
    } else {
        None
    }
}

/// `^1.2.3` -> `>=1.2.3 <2.0.0`; `^0.2.3` -> `>=0.2.3 <0.3.0`; `^0.0.3` -> `>=0.0.3 <0.0.4`.
/// None when the component to increment is `u64::MAX`.
pub open spec fn caret_bounds(v: SemModel) -> Option<Seq<BoundModel>> {
    let major = component_at(v.components, 0);
    let minor = component_at(v.components, 1);
    let patch = component_at(v.components, 2);
    if major != 0 {
        range_below(v, seq![successor(major), Some(0u64), Some(0u64)])
    } else if minor != 0 {
        range_below(v, seq![Some(0u64), successor(minor), Some(0u64)])
    } else {
        range_below(v, seq![Some(0u64), Some(0u64), successor(patch)])
    }
}

/// `~1.2.3` -> `>=1.2.3 <1.3.0`; `~1.2` -> `>=1.2.0 <1.3.0`; `~1` -> `>=1.0.0 <2.0.0`.
/// None when the component to increment is `u64::MAX`.
pub open spec fn tilde_bounds(v: SemModel) -> Option<Seq<BoundModel>> {
    let major = component_at(v.components, 0);
    if v.components.len() >= 2 {
        range_below(v, seq![Some(major), successor(component_at(v.components, 1)), Some(0u64)])
    } else {
        range_below(v, seq![successor(major), Some(0u64), Some(0u64)])
    }
}

/// The bounds an operator stands for; none when its upper bound has no
/// `u64` components.
pub open spec fn operator_bounds(op: Operator, v: SemModel) -> Option<Seq<BoundModel>> {
    match op {
        Operator::Greater => Some(seq![BoundModel { comparator: Comparator::Greater, version: v }]),
        Operator::GreaterEqual => Some(
            seq![BoundModel { comparator: Comparator::GreaterEqual, version: v }],
        ),
        Operator::Less => Some(seq![BoundModel { comparator: Comparator::Less, version: v }]),
        Operator::LessEqual => Some(
            seq![BoundModel { comparator: Comparator::LessEqual, version: v }],
        ),
        Operator::Exact => Some(seq![BoundModel { comparator: Comparator::Equal, version: v }]),
        Operator::Caret => caret_bounds(v),
        Operator::Tilde => tilde_bounds(v),
    }
}

pub open spec fn out_of_range_message(input: Seq<char>) -> Seq<char> {
    "upper bound out of range in "@ + quoted(input)
}

pub open spec fn is_wildcard(p: Seq<char>) -> bool {
    p == seq!['x'] || p == seq!['X'] || p == seq!['*']
}

pub open spec fn after_wildcard_message(input: Seq<char>) -> Seq<char> {
    "fixed component after wildcard in "@ + quoted(input)
}

pub open spec fn invalid_component_message(part: Seq<char>, input: Seq<char>) -> Seq<char> {
    "invalid version component "@ + quoted(part) + " in "@ + quoted(input)
}

pub open spec fn non_semantic_message(op: Operator, raw: Seq<char>) -> Seq<char> {
    "operator "@ + quoted(operator_symbol(op)) + " cannot be applied to non-semantic version "@
        + quoted(raw)
}

/// Reads the parts of a wildcard pattern left to right: parts before the first
/// wildcard are numbers, parts after it must be wildcards too.
pub open spec fn scan_wildcard(
    parts: Seq<Seq<char>>,
    saw: bool,
    prefix: Seq<u64>,
    input: Seq<char>,
) -> Result<Seq<u64>, Seq<char>>
    decreases parts.len(),
{
    if parts.len() == 0 {
        Ok(prefix)
    } else if is_wildcard(parts[0]) {
        scan_wildcard(parts.drop_first(), true, prefix, input)
    } else if saw {
        Err(after_wildcard_message(input))
    } else {
        match parse_u64(parts[0]) {
            None => Err(invalid_component_message(parts[0], input)),
            Some(v) => scan_wildcard(parts.drop_first(), false, prefix.push(v), input),
        }
    }
}

/// `Ok(None)` when no part is a wildcard; a bare wildcard gives no bounds;
/// otherwise the range `[prefix, prefix with its last component incremented)`.
pub open spec fn parse_wildcard(input: Seq<char>) -> Result<Option<Seq<BoundModel>>, Seq<char>> {
    let parts = split(input, '.');
    if !(exists|i: int| 0 <= i < parts.len() && is_wildcard(#[trigger] parts[i])) {
        Ok(None)
    } else {
        match scan_wildcard(parts, false, seq![], input) {
            Err(e) => Err(e),
            Ok(prefix) => if prefix.len() == 0 {
                Ok(Some(seq![]))
            } else {
                match successor(prefix[prefix.len() - 1]) {
                    None => Err(out_of_range_message(input)),
                    Some(next) => Ok(
                        Some(
                            at_least_below(
                                exact_model(prefix),
                                exact_model(prefix.update(prefix.len() - 1, next)),
                            ),
                        ),
                    ),
                }
            },
        }
    }
}

/// One predicate of a `versions` value.
pub open spec fn parse_predicate(input: Seq<char>) -> Result<PredicateModel, Seq<char>> {
    let t = trim(input);
    if t.len() == 0 || t == seq!['*'] {
        Ok(PredicateModel::Any)
    } else {
        match strip_operator(t) {
            Some((op, rest)) => match parse_version(rest) {
                VersionModel::Semantic(v) => match operator_bounds(op, v) {
                    Some(bounds) => Ok(PredicateModel::Bounds(bounds)),
                    None => Err(out_of_range_message(t)),
                },
                VersionModel::Plain(raw) => if op == Operator::Exact {
                    Ok(PredicateModel::PlainEquals(raw))
                } else {
                    Err(non_semantic_message(op, raw))
                },
            },
            None => match parse_wildcard(t) {
                Err(e) => Err(e),
                Ok(Some(bounds)) => Ok(PredicateModel::Bounds(bounds)),
                Ok(None) => match parse_version(t) {
                    VersionModel::Semantic(v) => Ok(
                        PredicateModel::Bounds(
                            seq![BoundModel { comparator: Comparator::Equal, version: v }],
                        ),
                    ),
                    VersionModel::Plain(raw) => Ok(PredicateModel::PlainEquals(raw)),
                },
            },
        }
    }
}

/// A union of predicates: the first malformed one is the error; no predicate
/// at all means any version.
pub open spec fn parse_union(inputs: Seq<Seq<char>>) -> Result<Seq<PredicateModel>, Seq<char>> {
    match parse_predicates(inputs) {
        Err(e) => Err(e),
        Ok(ps) => if ps.len() == 0 {
            Ok(seq![PredicateModel::Any])
        } else {
            Ok(ps)
        },
    }
}

pub open spec fn parse_predicates(inputs: Seq<Seq<char>>) -> Result<
    Seq<PredicateModel>,
    Seq<char>,
>
    decreases inputs.len(),
{
    if inputs.len() == 0 {
        Ok(seq![])
    } else {
        match parse_predicate(inputs[0]) {
            Err(e) => Err(e),
            Ok(p) => match parse_predicates(inputs.drop_first()) {
                Err(e) => Err(e),
                Ok(rest) => Ok(seq![p] + rest),
            },
        }
    }
}

// ---------------------------------------------------------------------------
// Executable code.

impl Operator {
    /// The operator's spelling.
    pub fn symbol(self) -> (r: &'static str)
        ensures
            r@ == operator_symbol(self),
    {
        proof {
            reveal_strlit(">");
            reveal_strlit(">=");
            reveal_strlit("<");
            reveal_strlit("<=");
            reveal_strlit("=");
            reveal_strlit("^");
            reveal_strlit("~");
        }
        match self {
            Operator::Greater => ">",
            Operator::GreaterEqual => ">=",
            Operator::Less => "<",
            Operator::LessEqual => "<=",
            Operator::Exact => "=",
            Operator::Caret => "^",
            Operator::Tilde => "~",
        }
    }

    /// Desugars an operator plus version into concrete bounds; none when the
    /// upper bound has no `u64` components.
    fn bounds(self, version: &SemanticVersion) -> (r: Option<Vec<Bound>>)
        ensures
            match r {
                Some(b) => operator_bounds(self, version@) == Some(bound_views(b@)),
                None => operator_bounds(self, version@) is None,
            },
    {
        let r = match self {
            Operator::Greater => vec![bound(Comparator::Greater, version)],
            Operator::GreaterEqual => vec![bound(Comparator::GreaterEqual, version)],
            Operator::Less => vec![bound(Comparator::Less, version)],
            Operator::LessEqual => vec![bound(Comparator::LessEqual, version)],
            Operator::Exact => vec![bound(Comparator::Equal, version)],
            Operator::Caret => {
                return caret(version);
            },
            Operator::Tilde => {
                return tilde(version);
            },
        };
        assert(Some(bound_views(r@)) =~= operator_bounds(self, version@));
        Some(r)
    }
}

fn bound(comparator: Comparator, version: &SemanticVersion) -> (r: Bound)
    ensures
        r@ == (BoundModel { comparator, version: version@ }),
{
    Bound { comparator, version: version.duplicate() }
}

fn exact_version(components: Vec<u64>) -> (r: SemanticVersion)
    ensures
        r@ == exact_model(components@),
{
    SemanticVersion::from_components(components)
}

fn successor_exec(x: u64) -> (r: Option<u64>)
    ensures
        r == successor(x),
{
    if x == u64::MAX {
        None
    } else {
        Some(x + 1)
    }
}

/// The range from `version` below the release `a.b.c`, if each exists.
fn range_below_exec(version: &SemanticVersion, a: Option<u64>, b: Option<u64>, c: Option<u64>) -> (r:
    Option<Vec<Bound>>)
    ensures
        match r {
            Some(x) => range_below(version@, seq![a, b, c]) == Some(bound_views(x@)),
            None => range_below(version@, seq![a, b, c]) is None,
        },
{
    match (a, b, c) {
        (Some(a), Some(b), Some(c)) => {
            let upper = exact_version(vec![a, b, c]);
            let r = vec![
                bound(Comparator::GreaterEqual, version),
                Bound { comparator: Comparator::Less, version: upper },
            ];
            assert(Some(bound_views(r@)) =~= range_below(
                version@,
                seq![Some(a), Some(b), Some(c)],
            ));
            Some(r)
        },
        _ => None,
    }
}

fn caret(version: &SemanticVersion) -> (r: Option<Vec<Bound>>)
    ensures
        match r {
            Some(b) => caret_bounds(version@) == Some(bound_views(b@)),
            None => caret_bounds(version@) is None,
        },
{
    let major = version.component(0);
    let minor = version.component(1);
    let patch = version.component(2);
    if major != 0 {
        range_below_exec(version, successor_exec(major), Some(0), Some(0))
    } else if minor != 0 {
        range_below_exec(version, Some(0), successor_exec(minor), Some(0))
    } else {
        range_below_exec(version, Some(0), Some(0), successor_exec(patch))
    }
}

fn tilde(version: &SemanticVersion) -> (r: Option<Vec<Bound>>)
    ensures
        match r {
            Some(b) => tilde_bounds(version@) == Some(bound_views(b@)),
            None => tilde_bounds(version@) is None,
        },
{
    let major = version.component(0);
    if version.component_count() >= 2 {
        range_below_exec(version, Some(major), successor_exec(version.component(1)), Some(0))
    } else {
        range_below_exec(version, successor_exec(major), Some(0), Some(0))
    }
}

fn out_of_range_error(input: &[char]) -> (r: String)
    ensures
        r@ == out_of_range_message(input@),
{
    let mut msg: Vec<char> = Vec::new();
    push_str(&mut msg, "upper bound out of range in ");
    push_quoted(&mut msg, input);
    string_of(msg.as_slice())
}

impl Bound {
    fn matches(&self, version: &SemanticVersion) -> (r: bool)
        ensures
            r == bound_matches(self@, version@),
    {
        let o = version.compare(&self.version);
        match self.comparator {
            Comparator::Greater => o > 0,
            Comparator::GreaterEqual => o >= 0,
            Comparator::Less => o < 0,
            Comparator::LessEqual => o <= 0,
            Comparator::Equal => o == 0,
        }
    }
}

fn starts_with_exec(s: &[char], p: &[char]) -> (r: bool)
    ensures
        r == starts_with(s@, p@),
{
    if p.len() > s.len() {
        return false;
    }
    let mut i: usize = 0;
    while i < p.len()
        invariant
            p@.len() <= s@.len(),
            i <= p@.len(),
            forall|k: int| 0 <= k < i ==> s@[k] == p@[k],
        decreases p@.len() - i,
    {
        if s[i] != p[i] {
            assert(s@.take(p@.len() as int)[i as int] != p@[i as int]);
            return false;
        }
        i = i + 1;
    }
    assert(s@.take(p@.len() as int) =~= p@);
    true
}

fn operator_chars(op: Operator) -> (r: Vec<char>)
    ensures
        r@ == operator_symbol(op),
{
    chars_of(op.symbol())
}

fn strip_operator_exec(s: &[char]) -> (r: Option<(Operator, Vec<char>)>)
    ensures
        match r {
            Some((op, rest)) => strip_operator(s@) == Some((op, rest@)),
            None => strip_operator(s@) is None,
        },
{
    let order = [
        Operator::GreaterEqual,
        Operator::LessEqual,
        Operator::Greater,
        Operator::Less,
        Operator::Exact,
        Operator::Caret,
        Operator::Tilde,
    ];
    let ghost spec_order = seq![
        Operator::GreaterEqual,
        Operator::LessEqual,
        Operator::Greater,
        Operator::Less,
        Operator::Exact,
        Operator::Caret,
        Operator::Tilde,
    ];
    assert(order@ =~= spec_order);
    assert(spec_order.skip(0) =~= spec_order);
    let mut i: usize = 0;
    while i < 7
        invariant
            order@ == spec_order,
            i <= 7,
            strip_operator(s@) == first_operator(s@, spec_order.skip(i as int)),
        decreases 7 - i,
    {
        let op = order[i];
        let symbol = operator_chars(op);
        assert(spec_order.skip(i as int)[0] == op);
        assert(spec_order.skip(i as int).drop_first() =~= spec_order.skip(i + 1));
        if starts_with_exec(s, symbol.as_slice()) {
            let mut tail: Vec<char> = Vec::new();
            let mut k = symbol.len();
            while k < s.len()
                invariant
                    symbol@.len() <= k <= s@.len(),
                    tail@ == s@.subrange(symbol@.len() as int, k as int),
                decreases s@.len() - k,
            {
                tail.push(s[k]);
                k = k + 1;
                assert(tail@ =~= s@.subrange(symbol@.len() as int, k as int));
            }
            assert(tail@ =~= s@.skip(symbol@.len() as int));
            let rest = trim_chars(tail.as_slice());
            return Some((op, rest));
        }
        i = i + 1;
    }
    None
}

fn is_wildcard_exec(p: &[char]) -> (r: bool)
    ensures
        r == is_wildcard(p@),
{
    if p.len() != 1 {
        return false;
    }
    if p[0] == 'x' {
        assert(p@ =~= seq!['x']);
        true
    } else if p[0] == 'X' {
        assert(p@ =~= seq!['X']);
        true
    } else if p[0] == '*' {
        assert(p@ =~= seq!['*']);
        true
    } else {
        assert(p@ != seq!['x'] && p@ != seq!['X'] && p@ != seq!['*']) by {
            if p@ == seq!['x'] || p@ == seq!['X'] || p@ == seq!['*'] {
                assert(p@[0] == seq!['x'][0] || p@[0] == seq!['X'][0] || p@[0] == seq!['*'][0]);
            }
        }
        false
    }
}

fn parse_wildcard_exec(input: &[char]) -> (r: Result<Option<Vec<Bound>>, String>)
    ensures
        match r {
            Ok(Some(b)) => parse_wildcard(input@) == Ok::<Option<Seq<BoundModel>>, Seq<char>>(
                Some(bound_views(b@)),
            ),
            Ok(None) => parse_wildcard(input@) == Ok::<Option<Seq<BoundModel>>, Seq<char>>(None),
            Err(e) => parse_wildcard(input@) == Err::<Option<Seq<BoundModel>>, Seq<char>>(e@),
        },
{
    let parts = split_chars(input, '.');
    let ghost pv = views(parts@);
    let mut any = false;
    let mut i: usize = 0;
    while i < parts.len()
        invariant
            pv == views(parts@),
            i <= parts@.len(),
            any == (exists|k: int| 0 <= k < i && is_wildcard(#[trigger] pv[k])),
        decreases parts@.len() - i,
    {
        if is_wildcard_exec(parts[i].as_slice()) {
            any = true;
        }
        assert(pv[i as int] == parts@[i as int]@);
        i = i + 1;
    }
    if !any {
        return Ok(None);
    }
    let mut prefix: Vec<u64> = Vec::new();
    let mut saw = false;
    let mut j: usize = 0;
    assert(pv.skip(0) =~= pv);
    while j < parts.len()
        invariant
            pv == views(parts@),
            views(parts@) == split(input@, '.'),
            exists|k: int| 0 <= k < pv.len() && is_wildcard(#[trigger] pv[k]),
            j <= parts@.len(),
            scan_wildcard(pv, false, seq![], input@) == scan_wildcard(
                pv.skip(j as int),
                saw,
                prefix@,
                input@,
            ),
        decreases parts@.len() - j,
    {
        let part = parts[j].as_slice();
        assert(pv.skip(j as int)[0] == part@);
        assert(pv.skip(j as int).drop_first() =~= pv.skip(j + 1));
        if is_wildcard_exec(part) {
            saw = true;
        } else if saw {
            let mut msg: Vec<char> = Vec::new();
            push_str(&mut msg, "fixed component after wildcard in ");
            push_quoted(&mut msg, input);
            return Err(string_of(msg.as_slice()));
        } else {
            match parse_u64_chars(part) {
                None => {
                    let mut msg: Vec<char> = Vec::new();
                    push_str(&mut msg, "invalid version component ");
                    push_quoted(&mut msg, part);
                    push_str(&mut msg, " in ");
                    push_quoted(&mut msg, input);
                    return Err(string_of(msg.as_slice()));
                },
                Some(v) => {
                    prefix.push(v);
                },
            }
        }
        j = j + 1;
    }
    assert(pv.skip(parts@.len() as int) =~= Seq::<Seq<char>>::empty());
    if prefix.len() == 0 {
        let empty: Vec<Bound> = Vec::new();
        assert(bound_views(empty@) =~= Seq::<BoundModel>::empty());
        return Ok(Some(empty));
    }
    let mut lower_components: Vec<u64> = Vec::new();
    let mut upper_components: Vec<u64> = Vec::new();
    let mut k: usize = 0;
    while k < prefix.len()
        invariant
            k <= prefix@.len(),
            lower_components@ == prefix@.take(k as int),
            upper_components@ == prefix@.take(k as int),
        decreases prefix@.len() - k,
    {
        lower_components.push(prefix[k]);
        upper_components.push(prefix[k]);
        k = k + 1;
        assert(lower_components@ =~= prefix@.take(k as int));
        assert(upper_components@ =~= prefix@.take(k as int));
    }
    assert(prefix@.take(prefix@.len() as int) =~= prefix@);
    let last = upper_components.len() - 1;
    let bumped = match successor_exec(upper_components[last]) {
        Some(next) => next,
        None => {
            return Err(out_of_range_error(input));
        },
    };
    upper_components.set(last, bumped);
    let lower = exact_version(lower_components);
    let upper = exact_version(upper_components);
    let r = vec![
        Bound { comparator: Comparator::GreaterEqual, version: lower },
        Bound { comparator: Comparator::Less, version: upper },
    ];
    assert(bound_views(r@) =~= at_least_below(
        exact_model(prefix@),
        exact_model(prefix@.update(prefix@.len() - 1, bumped)),
    ));
    Ok(Some(r))
}

impl Predicate {
    fn parse(input: &[char]) -> (r: Result<Self, String>)
        ensures
            match r {
                Ok(p) => parse_predicate(input@) == Ok::<PredicateModel, Seq<char>>(p@),
                Err(e) => parse_predicate(input@) == Err::<PredicateModel, Seq<char>>(e@),
            },
    {
        let trimmed = trim_chars(input);
        if trimmed.len() == 0 || (trimmed.len() == 1 && trimmed[0] == '*') {
            proof {
                if trimmed@.len() == 1 {
                    assert(trimmed@ =~= seq!['*']);
                }
            }
            return Ok(Predicate::Any);
        }
        proof {
            if trimmed@ == seq!['*'] {
                assert(trimmed@[0] == seq!['*'][0]);
            }
        }
        if let Some((operator, rest)) = strip_operator_exec(trimmed.as_slice()) {
            return match Version::parse_chars(rest.as_slice()) {
                Version::Semantic(version) => match operator.bounds(&version) {
                    Some(bounds) => Ok(Predicate::Bounds(bounds)),
                    None => Err(out_of_range_error(trimmed.as_slice())),
                },
                Version::Plain(raw) => {
                    if operator == Operator::Exact {
                        Ok(Predicate::PlainEquals(raw))
                    } else {
                        let mut msg: Vec<char> = Vec::new();
                        push_str(&mut msg, "operator ");
                        let sym = operator_chars(operator);
                        push_quoted(&mut msg, sym.as_slice());
                        push_str(&mut msg, " cannot be applied to non-semantic version ");
                        let raw_chars = chars_of(raw.as_str());
                        push_quoted(&mut msg, raw_chars.as_slice());
                        Err(string_of(msg.as_slice()))
                    }
                },
            };
        }
        match parse_wildcard_exec(trimmed.as_slice()) {
            Err(e) => Err(e),
            Ok(Some(bounds)) => Ok(Predicate::Bounds(bounds)),
            Ok(None) => match Version::parse_chars(trimmed.as_slice()) {
                Version::Semantic(version) => {
                    let b = vec![Bound { comparator: Comparator::Equal, version }];
                    assert(bound_views(b@) =~= seq![
                        BoundModel { comparator: Comparator::Equal, version: b@[0].version@ },
                    ]);
                    Ok(Predicate::Bounds(b))
                },
                Version::Plain(raw) => Ok(Predicate::PlainEquals(raw)),
            },
        }
    }

    fn matches(&self, version: &Version) -> (r: bool)
        ensures
            r == predicate_matches(self@, version@),
    {
        match self {
            Predicate::Any => true,
            Predicate::PlainEquals(expected) => {
                let e = chars_of(expected.as_str());
                let v = version.render();
                chars_equal(v.as_slice(), e.as_slice())
            },
            Predicate::Bounds(bounds) => match version {
                Version::Semantic(semantic) => {
                    let mut i: usize = 0;
                    while i < bounds.len()
                        invariant
                            i <= bounds@.len(),
                            self@ == PredicateModel::Bounds(bound_views(bounds@)),
                            version@ == VersionModel::Semantic(semantic@),
                            forall|k: int|
                                0 <= k < i ==> bound_matches(
                                    #[trigger] bound_views(bounds@)[k],
                                    semantic@,
                                ),
                        decreases bounds@.len() - i,
                    {
                        if !bounds[i].matches(semantic) {
                            assert(bound_views(bounds@)[i as int] == bounds@[i as int]@);
                            assert(!bound_matches(bound_views(bounds@)[i as int], semantic@));
                            assert(!all_bounds_match(bound_views(bounds@), semantic@));
                            assert(self@ == PredicateModel::Bounds(bound_views(bounds@)));
                            assert(version@ == VersionModel::Semantic(semantic@));
                            return false;
                        }
                        i = i + 1;
                    }
                    true
                },
                Version::Plain(_) => false,
            },
        }
    }
}

impl VersionSpec {
    /// A spec that matches every version.
    pub fn any() -> (r: Self)
        ensures
            r@ == seq![PredicateModel::Any],
    {
        let r = VersionSpec { predicates: vec![Predicate::Any] };
        assert(r@ =~= seq![PredicateModel::Any]);
        r
    }

    /// Parse a single predicate string; the error names the offending fragment.
    pub fn parse(input: &str) -> (r: Result<Self, String>)
        ensures
            match r {
                Ok(s) => parse_predicate(input@) matches Ok(p) && s@ == seq![p],
                Err(e) => parse_predicate(input@) == Err::<PredicateModel, Seq<char>>(e@),
            },
            r is Err <==> refused(trim(input@)),
            r matches Err(e) ==> names_fragment(e@, input@),
    {
        proof {
            lemma_predicate_refused_exactly_when(input@);
            lemma_refusal_names_the_fragment(input@);
        }
        let chars = chars_of(input);
        match Predicate::parse(chars.as_slice()) {
            Ok(p) => {
                let r = VersionSpec { predicates: vec![p] };
                assert(r@ =~= seq![p@]);
                Ok(r)
            },
            Err(e) => Err(e),
        }
    }

    /// Parse a union from several predicate strings; an empty list matches
    /// any version.
    pub fn parse_union(inputs: &[&str]) -> (r: Result<Self, String>)
        ensures
            match r {
                Ok(s) => parse_union(inputs@.map_values(|x: &str| x@)) == Ok::<
                    Seq<PredicateModel>,
                    Seq<char>,
                >(s@),
                Err(e) => parse_union(inputs@.map_values(|x: &str| x@)) == Err::<
                    Seq<PredicateModel>,
                    Seq<char>,
                >(e@),
            },
            r is Err <==> exists|i: int|
                0 <= i < inputs@.len() && parse_predicate(#[trigger] inputs@[i]@) is Err,
            r matches Ok(s) ==> forall|v: VersionModel|
                #[trigger] spec_matches(s@, v) <==> (inputs@.len() == 0 || exists|i: int|
                    0 <= i < inputs@.len() && member_matches(#[trigger] inputs@[i]@, v)),
    {
        let ghost xs = inputs@.map_values(|x: &str| x@);
        proof {
            lemma_union_fails_exactly_when(xs);
            if exists|i: int| 0 <= i < inputs@.len() && parse_predicate(#[trigger] inputs@[i]@) is Err {
                let i = choose|i: int|
                    0 <= i < inputs@.len() && parse_predicate(#[trigger] inputs@[i]@) is Err;
                assert(xs[i] == inputs@[i]@);
            }
            if exists|i: int| 0 <= i < xs.len() && parse_predicate(#[trigger] xs[i]) is Err {
                let i = choose|i: int| 0 <= i < xs.len() && parse_predicate(#[trigger] xs[i]) is Err;
                assert(xs[i] == inputs@[i]@);
            }
        }
        let mut strings: Vec<Vec<char>> = Vec::new();
        let mut i: usize = 0;
        while i < inputs.len()
            invariant
                i <= inputs@.len(),
                views(strings@) == inputs@.map_values(|x: &str| x@).take(i as int),
            decreases inputs@.len() - i,
        {
            let c = chars_of(inputs[i]);
            let ghost before = strings@;
            strings.push(c);
            assert(views(strings@) =~= views(before).push(c@));
            assert(inputs@.map_values(|x: &str| x@).take(i + 1) =~= inputs@.map_values(
                |x: &str| x@,
            ).take(i as int).push(inputs@[i as int]@));
            i = i + 1;
        }
        assert(inputs@.map_values(|x: &str| x@).take(inputs@.len() as int) =~= inputs@.map_values(
            |x: &str| x@,
        ));
        let r = Self::parse_union_chars(&strings);
        proof {
            if r is Ok {
                let s = r->Ok_0;
                assert forall|v: VersionModel|
                    #[trigger] spec_matches(s@, v) <==> (inputs@.len() == 0 || exists|i: int|
                        0 <= i < inputs@.len() && member_matches(#[trigger] inputs@[i]@, v)) by {
                    lemma_union_matches_any_member(xs, v);
                    if exists|i: int| 0 <= i < inputs@.len() && member_matches(#[trigger] inputs@[i]@, v) {
                        let i = choose|i: int|
                            0 <= i < inputs@.len() && member_matches(#[trigger] inputs@[i]@, v);
                        assert(xs[i] == inputs@[i]@);
                    }
                    if exists|i: int| 0 <= i < xs.len() && member_matches(#[trigger] xs[i], v) {
                        let i = choose|i: int| 0 <= i < xs.len() && member_matches(#[trigger] xs[i], v);
                        assert(xs[i] == inputs@[i]@);
                    }
                }
            }
        }
        r
    }

    /// Parse a union from several predicates given as characters.
    pub fn parse_union_chars(inputs: &Vec<Vec<char>>) -> (r: Result<Self, String>)
        ensures
            match r {
                Ok(s) => parse_union(views(inputs@)) == Ok::<Seq<PredicateModel>, Seq<char>>(
                    s@,
                ),
                Err(e) => parse_union(views(inputs@)) == Err::<Seq<PredicateModel>, Seq<char>>(
                    e@,
                ),
            },
    {
        let ghost all = views(inputs@);
        let mut predicates: Vec<Predicate> = Vec::new();
        let mut i: usize = 0;
        assert(all.skip(0) =~= all);
        while i < inputs.len()
            invariant
                all == views(inputs@),
                i <= inputs@.len(),
                parse_predicates(all) == match parse_predicates(all.skip(i as int)) {
                    Err(e) => Err(e),
                    Ok(rest) => Ok(predicate_views(predicates@) + rest),
                },
            decreases inputs@.len() - i,
        {
            assert(all.skip(i as int)[0] == inputs@[i as int]@);
            assert(all.skip(i as int).drop_first() =~= all.skip(i + 1));
            match Predicate::parse(inputs[i].as_slice()) {
                Ok(p) => {
                    let ghost before = predicates@;
                    predicates.push(p);
                    assert(predicate_views(predicates@) =~= predicate_views(before) + seq![p@]);
                    proof {
                        match parse_predicates(all.skip(i + 1)) {
                            Err(e) => {},
                            Ok(rest) => {
                                assert(predicate_views(before) + (seq![p@] + rest)
                                    =~= predicate_views(predicates@) + rest);
                            },
                        }
                    }
                },
                Err(e) => {
                    return Err(e);
                },
            }
            i = i + 1;
        }
        assert(all.skip(inputs@.len() as int) =~= Seq::<Seq<char>>::empty());
        assert(predicate_views(predicates@) + Seq::<PredicateModel>::empty() =~= predicate_views(
            predicates@,
        ));
        if predicates.len() == 0 {
            predicates.push(Predicate::Any);
            assert(predicate_views(predicates@) =~= seq![PredicateModel::Any]);
        }
        Ok(VersionSpec { predicates })
    }

    /// Whether `version` satisfies this spec.
    pub fn matches(&self, version: &Version) -> (r: bool)
        ensures
            r == spec_matches(self@, version@),
    {
        let mut i: usize = 0;
        while i < self.predicates.len()
            invariant
                i <= self.predicates@.len(),
                forall|k: int| 0 <= k < i ==> !predicate_matches(#[trigger] self@[k], version@),
            decreases self.predicates@.len() - i,
        {
            assert(self@[i as int] == self.predicates@[i as int]@);
            if self.predicates[i].matches(version) {
                return true;
            }
            i = i + 1;
        }
        false
    }
}


/// `*` and the empty string (around whitespace) match every version.
pub proof fn lemma_wildcard_matches_everything(input: Seq<char>, v: VersionModel)
    requires
        trim(input).len() == 0 || trim(input) == seq!['*'],
    ensures
        parse_predicate(input) == Ok::<PredicateModel, Seq<char>>(PredicateModel::Any),
        spec_matches(seq![PredicateModel::Any], v),
{
    assert(predicate_matches(seq![PredicateModel::Any][0], v));
}

proof fn lemma_parse_predicates(inputs: Seq<Seq<char>>)
    ensures
        parse_predicates(inputs) matches Ok(ps) ==> ps.len() == inputs.len() && forall|i: int|
            0 <= i < inputs.len() ==> parse_predicate(#[trigger] inputs[i]) == Ok::<
                PredicateModel,
                Seq<char>,
            >(ps[i]),
    decreases inputs.len(),
{
    if inputs.len() > 0 {
        let t = inputs.drop_first();
        lemma_parse_predicates(t);
        if let Ok(ps) = parse_predicates(inputs) {
            let rest = parse_predicates(t)->Ok_0;
            assert forall|i: int| 0 <= i < inputs.len() implies parse_predicate(
                #[trigger] inputs[i],
            ) == Ok::<PredicateModel, Seq<char>>(ps[i]) by {
                if i > 0 {
                    assert(inputs[i] == t[i - 1]);
                    assert(ps[i] == rest[i - 1]);
                }
            }
        }
    }
}

/// Whether the predicate written `input` parses and matches `v`.
pub open spec fn member_matches(input: Seq<char>, v: VersionModel) -> bool {
    parse_predicate(input) matches Ok(p) && predicate_matches(p, v)
}

/// A union matches exactly the versions that one of its members matches; an
/// empty union matches every version.
pub proof fn lemma_union_matches_any_member(inputs: Seq<Seq<char>>, v: VersionModel)
    requires
        parse_union(inputs) is Ok,
    ensures
        inputs.len() > 0 ==> (spec_matches(parse_union(inputs)->Ok_0, v) <==> exists|i: int|
            0 <= i < inputs.len() && member_matches(#[trigger] inputs[i], v)),
        inputs.len() == 0 ==> spec_matches(parse_union(inputs)->Ok_0, v),
{
    lemma_parse_predicates(inputs);
    let ps = parse_union(inputs)->Ok_0;
    if inputs.len() == 0 {
        assert(predicate_matches(ps[0], v));
    } else {
        if spec_matches(ps, v) {
            let i = choose|i: int| 0 <= i < ps.len() && predicate_matches(#[trigger] ps[i], v);
            assert(parse_predicate(inputs[i]) == Ok::<PredicateModel, Seq<char>>(ps[i]));
            assert(member_matches(inputs[i], v));
        }
        if exists|i: int| 0 <= i < inputs.len() && member_matches(#[trigger] inputs[i], v) {
            let i = choose|i: int| 0 <= i < inputs.len() && member_matches(#[trigger] inputs[i], v);
            assert(parse_predicate(inputs[i]) == Ok::<PredicateModel, Seq<char>>(ps[i]));
            assert(predicate_matches(ps[i], v));
        }
    }
}


/// Some part that is not a wildcard comes after a wildcard part or is not a
/// `u64` number.
pub open spec fn misplaced_part(parts: Seq<Seq<char>>) -> bool {
    exists|j: int|
        0 <= j < parts.len() && !is_wildcard(#[trigger] parts[j]) && ((exists|i: int|
            0 <= i < j && is_wildcard(#[trigger] parts[i])) || parse_u64(parts[j]) is None)
}

/// The last part that is not a wildcard is `u64::MAX`, so the range it
/// starts has no upper bound in `u64`.
pub open spec fn ends_at_max(parts: Seq<Seq<char>>) -> bool {
    exists|j: int|
        0 <= j < parts.len() && !is_wildcard(#[trigger] parts[j]) && parse_u64(parts[j]) == Some(
            u64::MAX,
        ) && forall|k: int| j < k < parts.len() ==> is_wildcard(#[trigger] parts[k])
}

/// Some part that is not a wildcard comes after a wildcard part (or after
/// the start, when `saw`) or is not a `u64` number.
spec fn refused_from(parts: Seq<Seq<char>>, saw: bool) -> bool {
    exists|j: int|
        0 <= j < parts.len() && !is_wildcard(#[trigger] parts[j]) && (saw || (exists|i: int|
            0 <= i < j && is_wildcard(#[trigger] parts[i])) || parse_u64(parts[j]) is None)
}

#[verifier::spinoff_prover]
proof fn lemma_scan_wildcard_err(
    parts: Seq<Seq<char>>,
    saw: bool,
    prefix: Seq<u64>,
    input: Seq<char>,
)
    ensures
        scan_wildcard(parts, saw, prefix, input) is Err <==> refused_from(parts, saw),
    decreases parts.len(),
{
    if parts.len() > 0 {
        let rest = parts.drop_first();
        let r = scan_wildcard(parts, saw, prefix, input);
        if is_wildcard(parts[0]) {
            lemma_scan_wildcard_err(rest, true, prefix, input);
            if r is Err {
                let j = choose|j: int| 0 <= j < rest.len() && !is_wildcard(#[trigger] rest[j]);
                assert(!is_wildcard(parts[j + 1]));
                assert(is_wildcard(parts[0]));
            }
            if refused_from(parts, saw) {
                let j = choose|j: int|
                    0 <= j < parts.len() && !is_wildcard(#[trigger] parts[j]) && (saw || (exists|i: int|
                        0 <= i < j && is_wildcard(#[trigger] parts[i])) || parse_u64(parts[j])
                        is None);
                assert(j >= 1);
                assert(rest[j - 1] == parts[j]);
            }
        } else if saw {
            assert(!is_wildcard(parts[0]));
        } else {
            match parse_u64(parts[0]) {
                None => {
                    assert(!is_wildcard(parts[0]));
                },
                Some(v) => {
                    lemma_scan_wildcard_err(rest, false, prefix.push(v), input);
                    if r is Err {
                        let j = choose|j: int|
                            0 <= j < rest.len() && !is_wildcard(#[trigger] rest[j]) && ((exists|i: int|
                                0 <= i < j && is_wildcard(#[trigger] rest[i])) || parse_u64(rest[j])
                                is None);
                        assert(!is_wildcard(parts[j + 1]));
                        if exists|i: int| 0 <= i < j && is_wildcard(#[trigger] rest[i]) {
                            let i = choose|i: int| 0 <= i < j && is_wildcard(#[trigger] rest[i]);
                            assert(is_wildcard(parts[i + 1]));
                        }
                    }
                    if refused_from(parts, saw) {
                        let j = choose|j: int|
                            0 <= j < parts.len() && !is_wildcard(#[trigger] parts[j]) && ((exists|i: int|
                                0 <= i < j && is_wildcard(#[trigger] parts[i])) || parse_u64(parts[j])
                                is None);
                        assert(j >= 1);
                        assert(rest[j - 1] == parts[j]);
                        if exists|i: int| 0 <= i < j && is_wildcard(#[trigger] parts[i]) {
                            let i = choose|i: int| 0 <= i < j && is_wildcard(#[trigger] parts[i]);
                            assert(i >= 1);
                            assert(is_wildcard(rest[i - 1]));
                        }
                    }
                },
            }
        }
    }
}

#[verifier::spinoff_prover]
proof fn lemma_scan_wildcard_ok(
    parts: Seq<Seq<char>>,
    saw: bool,
    prefix: Seq<u64>,
    input: Seq<char>,
)
    ensures
        scan_wildcard(parts, saw, prefix, input) matches Ok(p) ==> ((forall|k: int|
            0 <= k < parts.len() ==> is_wildcard(#[trigger] parts[k])) ==> p == prefix),
        scan_wildcard(parts, saw, prefix, input) matches Ok(p) ==> forall|j: int|
            0 <= j < parts.len() && !is_wildcard(#[trigger] parts[j]) && (forall|k: int|
                j < k < parts.len() ==> is_wildcard(#[trigger] parts[k])) ==> p.len() > 0 && Some(
                p.last(),
            ) == parse_u64(parts[j]),
    decreases parts.len(),
{
    if parts.len() > 0 {
        let rest = parts.drop_first();
        let r = scan_wildcard(parts, saw, prefix, input);
        if is_wildcard(parts[0]) {
            lemma_scan_wildcard_ok(rest, true, prefix, input);
            if let Ok(p) = r {
                assert forall|j: int|
                    0 <= j < parts.len() && !is_wildcard(#[trigger] parts[j]) && (forall|k: int|
                        j < k < parts.len() ==> is_wildcard(#[trigger] parts[k])) implies p.len()
                    > 0 && Some(p.last()) == parse_u64(parts[j]) by {
                    assert(j >= 1);
                    assert(rest[j - 1] == parts[j]);
                    assert forall|k: int| j - 1 < k < rest.len() implies is_wildcard(
                        #[trigger] rest[k],
                    ) by {
                        assert(is_wildcard(parts[k + 1]));
                    }
                }
                if forall|k: int| 0 <= k < parts.len() ==> is_wildcard(#[trigger] parts[k]) {
                    assert forall|k: int| 0 <= k < rest.len() implies is_wildcard(
                        #[trigger] rest[k],
                    ) by {
                        assert(is_wildcard(parts[k + 1]));
                    }
                }
            }
        } else if !saw {
            if let Some(v) = parse_u64(parts[0]) {
                lemma_scan_wildcard_ok(rest, false, prefix.push(v), input);
                if let Ok(p) = r {
                    assert forall|j: int|
                        0 <= j < parts.len() && !is_wildcard(#[trigger] parts[j]) && (forall|k: int|
                            j < k < parts.len() ==> is_wildcard(#[trigger] parts[k])) implies p.len()
                        > 0 && Some(p.last()) == parse_u64(parts[j]) by {
                        if j == 0 {
                            assert forall|k: int| 0 <= k < rest.len() implies is_wildcard(
                                #[trigger] rest[k],
                            ) by {
                                assert(is_wildcard(parts[k + 1]));
                            }
                        } else {
                            assert(rest[j - 1] == parts[j]);
                            assert forall|k: int| j - 1 < k < rest.len() implies is_wildcard(
                                #[trigger] rest[k],
                            ) by {
                                assert(is_wildcard(parts[k + 1]));
                            }
                        }
                    }
                    assert(!is_wildcard(parts[0]));
                }
            }
        }
    }
}

/// The wildcard rule: a pattern with a wildcard part (`1.x`, `1.2.*`, `*.*`)
/// is refused exactly when some other part comes after a wildcard or is not a
/// `u64` number, or when the range it fixes would need a component past
/// `u64::MAX` (its last number is `u64::MAX`).
pub proof fn lemma_wildcard_refused_exactly_when(input: Seq<char>)
    requires
        exists|i: int| 0 <= i < split(input, '.').len() && is_wildcard(#[trigger] split(input, '.')[i]),
    ensures
        parse_wildcard(input) is Err <==> misplaced_part(split(input, '.')) || ends_at_max(
            split(input, '.'),
        ),
{
    let parts = split(input, '.');
    lemma_scan_wildcard_err(parts, false, seq![], input);
    lemma_scan_wildcard_ok(parts, false, seq![], input);
    match scan_wildcard(parts, false, seq![], input) {
        Err(_) => {},
        Ok(p) => {
            if ends_at_max(parts) {
                let j = choose|j: int|
                    0 <= j < parts.len() && !is_wildcard(#[trigger] parts[j]) && parse_u64(parts[j])
                        == Some(u64::MAX) && forall|k: int|
                        j < k < parts.len() ==> is_wildcard(#[trigger] parts[k]);
                assert(p.len() > 0 && p.last() == u64::MAX);
                assert(p[p.len() - 1] == p.last());
            }
            if p.len() > 0 && p[p.len() - 1] == u64::MAX {
                // The last number comes from the last part that is not a wildcard.
                if forall|k: int| 0 <= k < parts.len() ==> is_wildcard(#[trigger] parts[k]) {
                    assert(p == Seq::<u64>::empty());
                }
                let j = choose|j: int| 0 <= j < parts.len() && !is_wildcard(#[trigger] parts[j]);
                let last = lemma_last_non_wildcard(parts, j);
                assert(p.last() == p[p.len() - 1]);
                assert(ends_at_max(parts));
            }
        },
    }
}

/// A part that is not a wildcard, with only wildcards after it, exists when
/// some part is not a wildcard.
proof fn lemma_last_non_wildcard(parts: Seq<Seq<char>>, j: int) -> (last: int)
    requires
        0 <= j < parts.len(),
        !is_wildcard(parts[j]),
    ensures
        j <= last < parts.len(),
        !is_wildcard(parts[last]),
        forall|k: int| last < k < parts.len() ==> is_wildcard(#[trigger] parts[k]),
    decreases parts.len() - j,
{
    if exists|k: int| j < k < parts.len() && !is_wildcard(#[trigger] parts[k]) {
        let k = choose|k: int| j < k < parts.len() && !is_wildcard(#[trigger] parts[k]);
        lemma_last_non_wildcard(parts, k)
    } else {
        j
    }
}


/// Whether `parse_predicate` refuses the trimmed predicate `t`, case by case.
pub open spec fn refused(t: Seq<char>) -> bool {
    &&& !(t.len() == 0 || t == seq!['*'])
    &&& match strip_operator(t) {
        Some((op, rest)) => match parse_version(rest) {
            VersionModel::Semantic(v) => (op == Operator::Caret && caret_bounds(v) is None) || (op
                == Operator::Tilde && tilde_bounds(v) is None),
            VersionModel::Plain(_) => op != Operator::Exact,
        },
        None => {
            &&& exists|i: int|
                0 <= i < split(t, '.').len() && is_wildcard(#[trigger] split(t, '.')[i])
            &&& misplaced_part(split(t, '.')) || ends_at_max(split(t, '.'))
        },
    }
}

/// A predicate is refused exactly when, once trimmed: an operator other than
/// `=` stands before a version that is not semantic; a `^` or `~` bound would
/// need a component past `u64::MAX`; or, with no operator, it is a wildcard
/// pattern that the wildcard rule refuses. Everything else parses.
pub proof fn lemma_predicate_refused_exactly_when(input: Seq<char>)
    ensures
        parse_predicate(input) is Err <==> refused(trim(input)),
{
    let t = trim(input);
    if !(t.len() == 0 || t == seq!['*']) && strip_operator(t) is None {
        if exists|i: int| 0 <= i < split(t, '.').len() && is_wildcard(#[trigger] split(t, '.')[i]) {
            lemma_wildcard_refused_exactly_when(t);
        }
    }
}


/// The longest operator wins: a predicate written as an operator's symbol and
/// a rest that does not start with `=` reads as that operator and the
/// trimmed rest (so `>=1.0` is `>=` and `1.0`, never `>` and `=1.0`).
pub proof fn lemma_strip_operator_longest(op: Operator, rest: Seq<char>)
    requires
        !(rest.len() > 0 && rest[0] == '='),
    ensures
        strip_operator(operator_symbol(op) + rest) == Some((op, trim(rest))),
{
    let s = operator_symbol(op) + rest;
    reveal_with_fuel(first_operator, 8);
    assert(s.skip(operator_symbol(op).len() as int) =~= rest);
    assert(s.take(1) =~= seq![s[0]]);
    if s.len() >= 2 {
        assert(s.take(2) =~= seq![s[0], s[1]]);
    }
    if rest.len() > 0 {
        assert(s[operator_symbol(op).len() as int] == rest[0]);
    }
}

proof fn lemma_first_operator_none(s: Seq<char>, order: Seq<Operator>)
    ensures
        first_operator(s, order) is None <==> forall|k: int|
            0 <= k < order.len() ==> !starts_with(s, operator_symbol(#[trigger] order[k])),
    decreases order.len(),
{
    if order.len() > 0 {
        lemma_first_operator_none(s, order.drop_first());
        assert forall|k: int| 1 <= k < order.len() implies order[k] == #[trigger] order.drop_first()[k
            - 1] by {}
        if !starts_with(s, operator_symbol(order[0])) && first_operator(s, order.drop_first()) is None {
            assert forall|k: int| 0 <= k < order.len() implies !starts_with(
                s,
                operator_symbol(#[trigger] order[k]),
            ) by {
                if k > 0 {
                    assert(order[k] == order.drop_first()[k - 1]);
                }
            }
        }
    }
}

/// There is no operator exactly when the text does not start with `>`, `<`,
/// `=`, `^` or `~`.
pub proof fn lemma_strip_operator_none(s: Seq<char>)
    ensures
        strip_operator(s) is None <==> !(s.len() > 0 && (s[0] == '>' || s[0] == '<' || s[0] == '='
            || s[0] == '^' || s[0] == '~')),
{
    let order = seq![
        Operator::GreaterEqual,
        Operator::LessEqual,
        Operator::Greater,
        Operator::Less,
        Operator::Exact,
        Operator::Caret,
        Operator::Tilde,
    ];
    lemma_first_operator_none(s, order);
    if s.len() > 0 {
        assert(s.take(1) =~= seq![s[0]]);
        if s.len() >= 2 {
            assert(s.take(2) =~= seq![s[0], s[1]]);
        }
    }
    assert(order[2] == Operator::Greater && order[3] == Operator::Less && order[4]
        == Operator::Exact && order[5] == Operator::Caret && order[6] == Operator::Tilde);
    assert(order[0] == Operator::GreaterEqual && order[1] == Operator::LessEqual);
    if !(s.len() > 0 && (s[0] == '>' || s[0] == '<' || s[0] == '=' || s[0] == '^' || s[0] == '~')) {
        assert forall|k: int| 0 <= k < order.len() implies !starts_with(
            s,
            operator_symbol(#[trigger] order[k]),
        ) by {
            if s.len() > 0 {
                assert(starts_with(s, operator_symbol(order[k])) ==> s[0] == operator_symbol(
                    order[k],
                )[0]);
            }
        }
    } else {
        if s[0] == '>' {
            assert(starts_with(s, operator_symbol(order[2])));
        } else if s[0] == '<' {
            assert(starts_with(s, operator_symbol(order[3])));
        } else if s[0] == '=' {
            assert(starts_with(s, operator_symbol(order[4])));
        } else if s[0] == '^' {
            assert(starts_with(s, operator_symbol(order[5])));
        } else {
            assert(starts_with(s, operator_symbol(order[6])));
        }
    }
}

proof fn lemma_predicates_fail_exactly_when(inputs: Seq<Seq<char>>)
    ensures
        parse_predicates(inputs) is Err <==> exists|i: int|
            0 <= i < inputs.len() && parse_predicate(#[trigger] inputs[i]) is Err,
    decreases inputs.len(),
{
    if inputs.len() > 0 {
        let rest = inputs.drop_first();
        lemma_predicates_fail_exactly_when(rest);
        if exists|i: int| 0 <= i < rest.len() && parse_predicate(#[trigger] rest[i]) is Err {
            let i = choose|i: int| 0 <= i < rest.len() && parse_predicate(#[trigger] rest[i]) is Err;
            assert(inputs[i + 1] == rest[i]);
        }
        if exists|i: int| 0 <= i < inputs.len() && parse_predicate(#[trigger] inputs[i]) is Err {
            let i = choose|i: int|
                0 <= i < inputs.len() && parse_predicate(#[trigger] inputs[i]) is Err;
            if i > 0 {
                assert(rest[i - 1] == inputs[i]);
            }
        }
    }
}

/// A union is refused exactly when one of its members is.
pub proof fn lemma_union_fails_exactly_when(inputs: Seq<Seq<char>>)
    ensures
        parse_union(inputs) is Err <==> exists|i: int|
            0 <= i < inputs.len() && parse_predicate(#[trigger] inputs[i]) is Err,
{
    lemma_predicates_fail_exactly_when(inputs);
}


/// `piece` stands in `e` from position `p`.
pub open spec fn contains_at(e: Seq<char>, piece: Seq<char>, p: int) -> bool {
    0 <= p && p + piece.len() <= e.len() && e.subrange(p, p + piece.len()) == piece
}

/// `e` quotes a non-empty piece of `input`.
pub open spec fn names_fragment(e: Seq<char>, input: Seq<char>) -> bool {
    exists|a: int, b: int, p: int|
        0 <= a < b <= input.len() && #[trigger] contains_at(e, quoted(input.subrange(a, b)), p)
}

proof fn lemma_first_operator_found(s: Seq<char>, order: Seq<Operator>)
    ensures
        first_operator(s, order) matches Some((op, rest)) ==> starts_with(s, operator_symbol(op)),
    decreases order.len(),
{
    if order.len() > 0 {
        lemma_first_operator_found(s, order.drop_first());
    }
}

proof fn lemma_scan_wildcard_messages(
    parts: Seq<Seq<char>>,
    saw: bool,
    prefix: Seq<u64>,
    input: Seq<char>,
)
    ensures
        scan_wildcard(parts, saw, prefix, input) matches Err(e) ==> e == after_wildcard_message(
            input,
        ) || exists|part: Seq<char>| e == #[trigger] invalid_component_message(part, input),
    decreases parts.len(),
{
    if parts.len() > 0 {
        if is_wildcard(parts[0]) {
            lemma_scan_wildcard_messages(parts.drop_first(), true, prefix, input);
        } else if !saw {
            if let Some(v) = parse_u64(parts[0]) {
                lemma_scan_wildcard_messages(parts.drop_first(), false, prefix.push(v), input);
            }
        }
    }
}

/// `e` ends with `input` quoted.
proof fn lemma_ends_quoting(e: Seq<char>, head: Seq<char>, input: Seq<char>)
    requires
        e == head + quoted(input),
    ensures
        contains_at(e, quoted(input), head.len() as int),
{
    assert(e.subrange(head.len() as int, head.len() + quoted(input).len() as int) =~= quoted(input));
}

/// Every refusal names what it refuses: the error quotes a non-empty piece
/// of the predicate, the whole trimmed predicate or, for an operator that
/// cannot apply, the operator.
pub proof fn lemma_refusal_names_the_fragment(input: Seq<char>)
    ensures
        parse_predicate(input) matches Err(e) ==> names_fragment(e, input),
{
    let t = trim(input);
    let n = input.len();
    let ts = trim_start(input);
    lemma_trim_start(input);
    lemma_trim_end(ts);
    let st = n - ts.len();
    assert(t =~= input.subrange(st, st + t.len()));
    if let Err(e) = parse_predicate(input) {
        assert(t.len() > 0);
        match strip_operator(t) {
            Some((op, rest)) => {
                match parse_version(rest) {
                    VersionModel::Semantic(v) => {
                        lemma_ends_quoting(e, "upper bound out of range in "@, t);
                        assert(contains_at(e, quoted(input.subrange(st, st + t.len())), ("upper bound out of range in "@).len() as int));
                    },
                    VersionModel::Plain(raw) => {
                        let sym = operator_symbol(op);
                        lemma_first_operator_found(
                            t,
                            seq![
                                Operator::GreaterEqual,
                                Operator::LessEqual,
                                Operator::Greater,
                                Operator::Less,
                                Operator::Exact,
                                Operator::Caret,
                                Operator::Tilde,
                            ],
                        );
                        assert(sym == t.take(sym.len() as int));
                        assert(sym =~= input.subrange(st, st + sym.len()));
                        let head = "operator "@;
                        assert(e =~= head + quoted(sym) + (" cannot be applied to non-semantic version "@
                            + quoted(raw)));
                        assert(e.subrange(head.len() as int, head.len() + quoted(sym).len() as int)
                            =~= quoted(sym));
                        assert(contains_at(e, quoted(input.subrange(st, st + sym.len())), head.len() as int));
                    },
                }
            },
            None => {
                lemma_scan_wildcard_messages(split(t, '.'), false, seq![], t);
                let q = input.subrange(st, st + t.len());
                if e == after_wildcard_message(t) {
                    lemma_ends_quoting(e, "fixed component after wildcard in "@, t);
                    assert(contains_at(e, quoted(q), ("fixed component after wildcard in "@).len() as int));
                } else if e == out_of_range_message(t) {
                    lemma_ends_quoting(e, "upper bound out of range in "@, t);
                    assert(contains_at(e, quoted(q), ("upper bound out of range in "@).len() as int));
                } else {
                    let part = choose|part: Seq<char>| e == #[trigger] invalid_component_message(part, t);
                    let head = "invalid version component "@ + quoted(part) + " in "@;
                    lemma_ends_quoting(e, head, t);
                    assert(contains_at(e, quoted(q), head.len() as int));
                }
            },
        }
    }
}


/// What each comparator of a bound means, in terms of version precedence:
/// `<` accepts the versions ranking below the bound's version, `=` those
/// ranking equal to it, `>` those it ranks below; `<=` accepts exactly what
/// `<` or `=` accepts, `>=` exactly what `>` or `=` accepts. So `<=2.0.0`
/// accepts `1.5.0`, and `>=` and `<` split every version between them.
pub proof fn lemma_bound_comparators(w: SemModel, v: SemModel)
    ensures
        bound_matches(BoundModel { comparator: Comparator::Less, version: w }, v)
            <==> compare_semantic(v, w) < 0,
        bound_matches(BoundModel { comparator: Comparator::Equal, version: w }, v)
            <==> compare_semantic(v, w) == 0,
        bound_matches(BoundModel { comparator: Comparator::Greater, version: w }, v)
            <==> compare_semantic(w, v) < 0,
        bound_matches(BoundModel { comparator: Comparator::LessEqual, version: w }, v) <==> (
        compare_semantic(v, w) < 0 || compare_semantic(v, w) == 0),
        bound_matches(BoundModel { comparator: Comparator::GreaterEqual, version: w }, v) <==> (
        compare_semantic(w, v) < 0 || compare_semantic(v, w) == 0),
        bound_matches(BoundModel { comparator: Comparator::GreaterEqual, version: w }, v) <==> !bound_matches(
            BoundModel { comparator: Comparator::Less, version: w },
            v,
        ),
        bound_matches(BoundModel { comparator: Comparator::LessEqual, version: w }, v) <==> !bound_matches(
            BoundModel { comparator: Comparator::Greater, version: w },
            v,
        ),
{
    crate::version::lemma_precedence_total_preorder(v, w, w);
}


// ---------------------------------------------------------------------------
// What the ranges accept, for release versions.

proof fn lemma_release_tail_at_least(a: Seq<u64>, q: Seq<u64>, j: int)
    requires
        0 <= j,
        forall|i: int| j <= i ==> component_at(q, i) == 0,
    ensures
        compare_release_from(a, q, j) >= 0,
    decreases max_len(a, q) - j,
{
    if j < max_len(a, q) {
        if component_at(a, j) == component_at(q, j) {
            lemma_release_tail_at_least(a, q, j + 1);
        }
    }
}

proof fn lemma_release_skip_equal(a: Seq<u64>, q: Seq<u64>, j: int, k: int)
    requires
        0 <= j <= k <= max_len(a, q),
        forall|i: int| j <= i < k ==> component_at(a, i) == component_at(q, i),
    ensures
        compare_release_from(a, q, j) == compare_release_from(a, q, k),
    decreases k - j,
{
    if j < k {
        lemma_release_skip_equal(a, q, j + 1, k);
    }
}

/// A release version `u` agreeing with `q` before position `k`, where `q`
/// is zero after `k`, ranks below `q` exactly when its component at `k` is
/// smaller.
proof fn lemma_below_at(u: SemModel, q: Seq<u64>, k: int)
    requires
        u.pre.len() == 0,
        0 <= k < q.len(),
        forall|i: int| 0 <= i < k ==> component_at(u.components, i) == component_at(q, i),
        forall|i: int| k < i ==> component_at(q, i) == 0,
    ensures
        compare_semantic(u, exact_model(q)) < 0 <==> component_at(u.components, k) < q[k],
{
    let a = u.components;
    lemma_release_skip_equal(a, q, 0, k);
    assert(component_at(q, k) == q[k]);
    if component_at(a, k) == q[k] {
        lemma_release_tail_at_least(a, q, k + 1);
    }
}

/// The release components of `u` and `w` first differ at `i`.
spec fn first_difference_at(u: Seq<u64>, w: Seq<u64>, i: int) -> bool {
    &&& 0 <= i < max_len(u, w)
    &&& component_at(u, i) != component_at(w, i)
    &&& forall|j: int| 0 <= j < i ==> component_at(u, j) == component_at(w, j)
}

proof fn lemma_first_difference_sign(u: SemModel, w: SemModel, i: int)
    requires
        first_difference_at(u.components, w.components, i),
    ensures
        compare_semantic(u, w) < 0 <==> component_at(u.components, i) < component_at(
            w.components,
            i,
        ),
        compare_semantic(u, w) != 0,
{
    crate::version::lemma_precedence_as_semver(u, w);
    assert(compare_semantic(u, w) == compare_u64(
        component_at(u.components, i),
        component_at(w.components, i),
    ));
}

/// A caret range `^w` accepts, among release versions, exactly those at
/// least `w` that keep `w`'s left-most non-zero component among its first
/// three, and every component left of it (`^1.2.3` accepts `1.x.y` from
/// `1.2.3` on, `^0.2.3` accepts `0.2.x` from `0.2.3` on, `^0.0.3` only
/// `0.0.3`).
pub proof fn lemma_caret_range(w: SemModel, u: SemModel)
    requires
        u.pre.len() == 0,
        caret_bounds(w) is Some,
    ensures
        all_bounds_match(caret_bounds(w)->Some_0, u) <==> compare_semantic(u, w) >= 0 && (if component_at(
            w.components,
            0,
        ) != 0 {
            component_at(u.components, 0) == component_at(w.components, 0)
        } else if component_at(w.components, 1) != 0 {
            component_at(u.components, 0) == 0 && component_at(u.components, 1) == component_at(
                w.components,
                1,
            )
        } else {
            component_at(u.components, 0) == 0 && component_at(u.components, 1) == 0
                && component_at(u.components, 2) == component_at(w.components, 2)
        }),
{
    let bs = caret_bounds(w)->Some_0;
    let uc = u.components;
    let wc = w.components;
    let major = component_at(wc, 0);
    let minor = component_at(wc, 1);
    let patch = component_at(wc, 2);
    crate::version::lemma_precedence_total_preorder(u, w, w);
    lemma_bound_comparators(w, u);
    let e = bs[1].version;
    assert(bs.len() == 2 && bs[0] == BoundModel { comparator: Comparator::GreaterEqual, version: w });
    assert(bs[1].comparator == Comparator::Less);
    lemma_bound_comparators(e, u);
    assert(all_bounds_match(bs, u) <==> bound_matches(bs[0], u) && bound_matches(bs[1], u));
    let q = e.components;
    assert(e == exact_model(q));
    if major != 0 {
        assert(q == seq![(major + 1) as u64, 0u64, 0u64]);
        lemma_below_at(u, q, 0);
        if component_at(uc, 0) < major {
            lemma_first_difference_sign(u, w, 0);
        }
    } else if minor != 0 {
        assert(q == seq![0u64, (minor + 1) as u64, 0u64]);
        if component_at(uc, 0) != 0 {
            lemma_first_difference_sign(u, e, 0);
        } else {
            lemma_below_at(u, q, 1);
            if component_at(uc, 1) < minor {
                lemma_first_difference_sign(u, w, 1);
            }
        }
    } else {
        assert(q == seq![0u64, 0u64, (patch + 1) as u64]);
        if component_at(uc, 0) != 0 {
            lemma_first_difference_sign(u, e, 0);
        } else if component_at(uc, 1) != 0 {
            lemma_first_difference_sign(u, e, 1);
        } else {
            lemma_below_at(u, q, 2);
            if component_at(uc, 2) < patch {
                lemma_first_difference_sign(u, w, 2);
            }
        }
    }
}


/// A tilde range `~w` accepts, among release versions, exactly those at
/// least `w` with `w`'s major component and, when `w` names a minor one,
/// its minor component too (`~1.2.3` accepts `1.2.x` from `1.2.3` on, `~1`
/// accepts `1.x.y`).
pub proof fn lemma_tilde_range(w: SemModel, u: SemModel)
    requires
        u.pre.len() == 0,
        tilde_bounds(w) is Some,
    ensures
        all_bounds_match(tilde_bounds(w)->Some_0, u) <==> compare_semantic(u, w) >= 0 && component_at(
            u.components,
            0,
        ) == component_at(w.components, 0) && (w.components.len() >= 2 ==> component_at(
            u.components,
            1,
        ) == component_at(w.components, 1)),
{
    let bs = tilde_bounds(w)->Some_0;
    let uc = u.components;
    let wc = w.components;
    let major = component_at(wc, 0);
    let minor = component_at(wc, 1);
    crate::version::lemma_precedence_total_preorder(u, w, w);
    lemma_bound_comparators(w, u);
    let e = bs[1].version;
    assert(bs.len() == 2 && bs[0] == BoundModel { comparator: Comparator::GreaterEqual, version: w });
    assert(bs[1].comparator == Comparator::Less);
    lemma_bound_comparators(e, u);
    assert(all_bounds_match(bs, u) <==> bound_matches(bs[0], u) && bound_matches(bs[1], u));
    let q = e.components;
    assert(e == exact_model(q));
    if wc.len() >= 2 {
        assert(q == seq![major, (minor + 1) as u64, 0u64]);
        if component_at(uc, 0) != major {
            lemma_first_difference_sign(u, e, 0);
            lemma_first_difference_sign(u, w, 0);
        } else {
            lemma_below_at(u, q, 1);
            if component_at(uc, 1) < minor {
                lemma_first_difference_sign(u, w, 1);
            }
        }
    } else {
        assert(q == seq![(major + 1) as u64, 0u64, 0u64]);
        lemma_below_at(u, q, 0);
        if component_at(uc, 0) < major {
            lemma_first_difference_sign(u, w, 0);
        }
    }
}


/// The numbers a pattern's parts start with, up to the first part that is
/// a wildcard or not a number.
pub open spec fn leading_numbers(parts: Seq<Seq<char>>) -> Seq<u64>
    decreases parts.len(),
{
    if parts.len() == 0 || is_wildcard(parts[0]) {
        seq![]
    } else {
        match parse_u64(parts[0]) {
            Some(v) => seq![v] + leading_numbers(parts.drop_first()),
            None => seq![],
        }
    }
}

proof fn lemma_scan_wildcard_prefix(parts: Seq<Seq<char>>, saw: bool, prefix: Seq<u64>, input: Seq<char>)
    ensures
        scan_wildcard(parts, saw, prefix, input) matches Ok(p) ==> p == prefix + (if saw {
            Seq::<u64>::empty()
        } else {
            leading_numbers(parts)
        }),
    decreases parts.len(),
{
    if parts.len() == 0 {
        assert(prefix + Seq::<u64>::empty() =~= prefix);
    } else if is_wildcard(parts[0]) {
        lemma_scan_wildcard_prefix(parts.drop_first(), true, prefix, input);
        assert(prefix + Seq::<u64>::empty() =~= prefix);
    } else if !saw {
        if let Some(v) = parse_u64(parts[0]) {
            lemma_scan_wildcard_prefix(parts.drop_first(), false, prefix.push(v), input);
            assert(prefix.push(v) + leading_numbers(parts.drop_first()) =~= prefix + (seq![v]
                + leading_numbers(parts.drop_first())));
        }
    }
}

/// The first position below `n` where `u` and `q` differ, if any.
proof fn lemma_first_mismatch(u: Seq<u64>, q: Seq<u64>, n: int) -> (j: int)
    requires
        0 <= n,
    ensures
        0 <= j <= n,
        forall|i: int| 0 <= i < j ==> component_at(u, i) == component_at(q, i),
        j < n ==> component_at(u, j) != component_at(q, j),
    decreases n,
{
    if n == 0 {
        0
    } else {
        let j = lemma_first_mismatch(u, q, n - 1);
        if j < n - 1 {
            j
        } else if component_at(u, n - 1) != component_at(q, n - 1) {
            n - 1
        } else {
            n
        }
    }
}

/// A wildcard pattern fixing numbers (`1.x`, `1.2.*`) accepts, among
/// release versions, exactly those whose leading components are those
/// numbers; a pattern fixing none accepts everything.
pub proof fn lemma_wildcard_range(input: Seq<char>, u: SemModel)
    requires
        u.pre.len() == 0,
        parse_wildcard(input) matches Ok(Some(bs)),
    ensures
        ({
            let fixed = leading_numbers(split(input, '.'));
            all_bounds_match(parse_wildcard(input)->Ok_0->Some_0, u) <==> forall|i: int|
                0 <= i < fixed.len() ==> component_at(u.components, i) == #[trigger] fixed[i]
        }),
{
    let parts = split(input, '.');
    let fixed = leading_numbers(parts);
    let bs = parse_wildcard(input)->Ok_0->Some_0;
    lemma_scan_wildcard_prefix(parts, false, seq![], input);
    let p = scan_wildcard(parts, false, seq![], input)->Ok_0;
    assert(p =~= fixed);
    if p.len() > 0 {
        let k = p.len() - 1;
        let next = successor(p[k])->Some_0;
        let q = p.update(k, next);
        let lo = exact_model(p);
        let hi = exact_model(q);
        assert(bs == at_least_below(lo, hi));
        lemma_bound_comparators(lo, u);
        lemma_bound_comparators(hi, u);
        crate::version::lemma_precedence_total_preorder(u, lo, lo);
        assert(all_bounds_match(bs, u) <==> bound_matches(bs[0], u) && bound_matches(bs[1], u));
        let j = lemma_first_mismatch(u.components, p, p.len() as int);
        if j == p.len() {
            // Every fixed number agrees.
            lemma_below_at(u, q, k);
            lemma_release_skip_equal(u.components, p, 0, p.len() as int);
            lemma_release_tail_at_least(u.components, p, p.len() as int);
        } else {
            assert(component_at(u.components, j) != fixed[j]);
            if j < k {
                assert(first_difference_at(u.components, p, j));
                assert(first_difference_at(u.components, q, j)) by {
                    assert forall|i: int| 0 <= i < j implies component_at(u.components, i)
                        == component_at(q, i) by {
                        assert(q[i] == p[i]);
                    }
                    assert(q[j] == p[j]);
                }
                lemma_first_difference_sign(u, lo, j);
                lemma_first_difference_sign(u, hi, j);
            } else {
                assert(first_difference_at(u.components, p, k));
                lemma_first_difference_sign(u, lo, k);
                assert forall|i: int| 0 <= i < k implies component_at(u.components, i)
                    == component_at(q, i) by {
                    assert(q[i] == p[i]);
                }
                lemma_below_at(u, q, k);
            }
        }
    } else {
        assert(bs == Seq::<BoundModel>::empty());
    }
}


/// What each operator accepts of a semantic version `v`, against the
/// version `w` written after it: `>w` the versions ranking above `w`, `>=w`
/// those not below it, `<w` those below, `<=w` those not above, `=w` those
/// ranking equal.
pub proof fn lemma_operator_meaning(w: SemModel, v: SemModel)
    ensures
        operator_bounds(Operator::Greater, w) matches Some(bs) && (all_bounds_match(bs, v)
            <==> compare_semantic(w, v) < 0),
        operator_bounds(Operator::GreaterEqual, w) matches Some(bs) && (all_bounds_match(bs, v)
            <==> !(compare_semantic(v, w) < 0)),
        operator_bounds(Operator::Less, w) matches Some(bs) && (all_bounds_match(bs, v)
            <==> compare_semantic(v, w) < 0),
        operator_bounds(Operator::LessEqual, w) matches Some(bs) && (all_bounds_match(bs, v)
            <==> !(compare_semantic(w, v) < 0)),
        operator_bounds(Operator::Exact, w) matches Some(bs) && (all_bounds_match(bs, v)
            <==> compare_semantic(v, w) == 0),
{
    lemma_bound_comparators(w, v);
    crate::version::lemma_precedence_total_preorder(v, w, w);
    let g = seq![BoundModel { comparator: Comparator::Greater, version: w }];
    let ge = seq![BoundModel { comparator: Comparator::GreaterEqual, version: w }];
    let l = seq![BoundModel { comparator: Comparator::Less, version: w }];
    let le = seq![BoundModel { comparator: Comparator::LessEqual, version: w }];
    let e = seq![BoundModel { comparator: Comparator::Equal, version: w }];
    assert(all_bounds_match(g, v) <==> bound_matches(g[0], v));
    assert(all_bounds_match(ge, v) <==> bound_matches(ge[0], v));
    assert(all_bounds_match(l, v) <==> bound_matches(l[0], v));
    assert(all_bounds_match(le, v) <==> bound_matches(le[0], v));
    assert(all_bounds_match(e, v) <==> bound_matches(e[0], v));
}

/// A plain predicate accepts exactly the versions written as its text,
/// semantic or not; a predicate of bounds never accepts a plain version.
pub proof fn lemma_plain_predicates(expected: Seq<char>, bs: Seq<BoundModel>, v: VersionModel)
    ensures
        predicate_matches(PredicateModel::PlainEquals(expected), v) <==> render_version(v)
            == expected,
        v is Plain ==> !predicate_matches(PredicateModel::Bounds(bs), v),
{
}

} // verus!
