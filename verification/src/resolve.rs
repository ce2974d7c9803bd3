//! Dependency validation over a set of candidates plus the builtin mods the
//! runtime always provides (`minecraft`, `quilt_loader`, `java`), assuming a
//! single version per id: every non-optional `depends` clause must be
//! satisfied by a present provider, no `breaks` clause may match a present
//! provider, and no id may be defined twice.

use vstd::prelude::*;

use crate::constraint::{PredicateModel, VersionSpec, spec_matches};
use crate::metadata::{
    CandidateModel, Dependency, DependencyModel, ModCandidate, ProvidedModel,
    dependency_views, provided_views,
};
use crate::text::{
    chars_equal, chars_of, join, join_chars, push_quoted, push_str, quoted,
    string_of, views,
};
use crate::version::{Version, VersionModel, parse_version, render_version};

verus! {

/// A mod the runtime provides without a jar, such as the game itself.
#[derive(Clone, Debug)]
pub struct BuiltinMod {
    pub id: String,
    pub version: Version,
}

pub struct BuiltinModel {
    pub id: Seq<char>,
    pub version: VersionModel,
}

impl View for BuiltinMod {
    type V = BuiltinModel;

    open spec fn view(&self) -> BuiltinModel {
        BuiltinModel { id: self.id@, version: self.version@ }
    }
}

pub open spec fn builtin_views(v: Seq<BuiltinMod>) -> Seq<BuiltinModel> {
    v.map_values(|b: BuiltinMod| b@)
}

pub open spec fn candidate_views(v: Seq<ModCandidate>) -> Seq<CandidateModel> {
    v.map_values(|c: ModCandidate| c@)
}

impl BuiltinMod {
    pub fn new(id: &str, version: &str) -> (r: Self)
        ensures
            r@ == (BuiltinModel { id: id@, version: parse_version(version@) }),
    {
        BuiltinMod { id: id.to_owned(), version: Version::parse(version) }
    }
}

/// The builtins of the host environment: Pumpkin as the `minecraft` game
/// provider at 26.2, Quilt Loader 0.30.0, and Java 25.
pub fn default_builtins() -> (r: Vec<BuiltinMod>)
    ensures
        builtin_views(r@) == seq![
            BuiltinModel { id: "minecraft"@, version: parse_version("26.2"@) },
            BuiltinModel { id: "quilt_loader"@, version: parse_version("0.30.0"@) },
            BuiltinModel { id: "java"@, version: parse_version("25"@) },
        ],
{
    let r = vec![
        BuiltinMod::new("minecraft", "26.2"),
        BuiltinMod::new("quilt_loader", "0.30.0"),
        BuiltinMod::new("java", "25"),
    ];
    assert(builtin_views(r@) =~= seq![
        BuiltinModel { id: "minecraft"@, version: parse_version("26.2"@) },
        BuiltinModel { id: "quilt_loader"@, version: parse_version("0.30.0"@) },
        BuiltinModel { id: "java"@, version: parse_version("25"@) },
    ]);
    r
}

/// A single resolution failure with enough context to report to a user.
#[derive(Clone, Debug, PartialEq, Eq)]
pub enum ResolutionError {
    /// Two mods (or a mod and a builtin) claim the same id.
    DuplicateId { id: String },
    /// A required dependency is absent entirely.
    MissingDependency { mod_id: String, dependency: String, reason: Option<String> },
    /// A dependency exists but no available version satisfies the constraint.
    UnsatisfiedVersion { mod_id: String, dependency: String, available: String },
    /// A `breaks` clause matches a mod that is present.
    Breakage { mod_id: String, broken: String, version: String },
}

pub enum ErrorModel {
    DuplicateId { id: Seq<char> },
    MissingDependency { mod_id: Seq<char>, dependency: Seq<char>, reason: Option<Seq<char>> },
    UnsatisfiedVersion { mod_id: Seq<char>, dependency: Seq<char>, available: Seq<char> },
    Breakage { mod_id: Seq<char>, broken: Seq<char>, version: Seq<char> },
}

impl View for ResolutionError {
    type V = ErrorModel;

    open spec fn view(&self) -> ErrorModel {
        match self {
            ResolutionError::DuplicateId { id } => ErrorModel::DuplicateId { id: id@ },
            ResolutionError::MissingDependency { mod_id, dependency, reason } => {
                ErrorModel::MissingDependency {
                    mod_id: mod_id@,
                    dependency: dependency@,
                    reason: match reason {
                        Some(r) => Some(r@),
                        None => None,
                    },
                }
            },
            ResolutionError::UnsatisfiedVersion { mod_id, dependency, available } => {
                ErrorModel::UnsatisfiedVersion {
                    mod_id: mod_id@,
                    dependency: dependency@,
                    available: available@,
                }
            },
            ResolutionError::Breakage { mod_id, broken, version } => ErrorModel::Breakage {
                mod_id: mod_id@,
                broken: broken@,
                version: version@,
            },
        }
    }
}

pub open spec fn error_views(v: Seq<ResolutionError>) -> Seq<ErrorModel> {
    v.map_values(|e: ResolutionError| e@)
}

/// The one-line, user-facing description of an error.
pub open spec fn error_message(e: ErrorModel) -> Seq<char> {
    match e {
        ErrorModel::DuplicateId { id } => "mod id "@ + quoted(id) + " is defined more than once"@,
        ErrorModel::MissingDependency { mod_id, dependency, reason } => {
            let base = quoted(mod_id) + " requires "@ + quoted(dependency)
                + ", which is not installed"@;
            match reason {
                Some(why) => base + " ("@ + why + ")"@,
                None => base,
            }
        },
        ErrorModel::UnsatisfiedVersion { mod_id, dependency, available } => quoted(mod_id)
            + " requires a different version of "@ + quoted(dependency) + " (installed: "@
            + available + ")"@,
        ErrorModel::Breakage { mod_id, broken, version } => quoted(mod_id)
            + " is incompatible with "@ + quoted(broken) + " "@ + version,
    }
}

impl ResolutionError {
    /// A one-line, user-facing description.
    pub fn message(&self) -> (r: String)
        ensures
            r@ == error_message(self@),
    {
        let mut out: Vec<char> = Vec::new();
        match self {
            ResolutionError::DuplicateId { id } => {
                push_str(&mut out, "mod id ");
                let c = chars_of(id.as_str());
                push_quoted(&mut out, c.as_slice());
                push_str(&mut out, " is defined more than once");
            },
            ResolutionError::MissingDependency { mod_id, dependency, reason } => {
                let m = chars_of(mod_id.as_str());
                push_quoted(&mut out, m.as_slice());
                push_str(&mut out, " requires ");
                let d = chars_of(dependency.as_str());
                push_quoted(&mut out, d.as_slice());
                push_str(&mut out, ", which is not installed");
                if let Some(why) = reason {
                    push_str(&mut out, " (");
                    push_str(&mut out, why.as_str());
                    push_str(&mut out, ")");
                }
            },
            ResolutionError::UnsatisfiedVersion { mod_id, dependency, available } => {
                let m = chars_of(mod_id.as_str());
                push_quoted(&mut out, m.as_slice());
                push_str(&mut out, " requires a different version of ");
                let d = chars_of(dependency.as_str());
                push_quoted(&mut out, d.as_slice());
                push_str(&mut out, " (installed: ");
                push_str(&mut out, available.as_str());
                push_str(&mut out, ")");
            },
            ResolutionError::Breakage { mod_id, broken, version } => {
                let m = chars_of(mod_id.as_str());
                push_quoted(&mut out, m.as_slice());
                push_str(&mut out, " is incompatible with ");
                let b = chars_of(broken.as_str());
                push_quoted(&mut out, b.as_slice());
                push_str(&mut out, " ");
                push_str(&mut out, version.as_str());
            },
        }
        string_of(out.as_slice())
    }
}

/// The outcome of resolving a candidate set.
#[derive(Debug)]
pub struct Resolution {
    /// Candidates that participate in a valid graph, in input order.
    pub loaded: Vec<ModCandidate>,
    /// Every problem discovered; a non-empty list means resolution failed.
    pub errors: Vec<ResolutionError>,
}

impl Resolution {
    pub fn is_ok(&self) -> (r: bool)
        ensures
            r == (self.errors@.len() == 0),
    {
        self.errors.len() == 0
    }
}

// ---------------------------------------------------------------------------
// Providers: every id a builtin or a present candidate offers, with its
// versions in the order builtins first, then candidates in input order, each
// candidate's own id before the ids it provides.

pub open spec fn builtin_versions(bs: Seq<BuiltinModel>, id: Seq<char>) -> Seq<VersionModel>
    decreases bs.len(),
{
    if bs.len() == 0 {
        seq![]
    } else {
        builtin_versions(bs.drop_last(), id) + if bs.last().id == id {
            seq![bs.last().version]
        } else {
            seq![]
        }
    }
}

/// A provided id without its own version carries the providing mod's version.
pub open spec fn provided_versions(ps: Seq<ProvidedModel>, own: VersionModel, id: Seq<char>) -> Seq<
    VersionModel,
>
    decreases ps.len(),
{
    if ps.len() == 0 {
        seq![]
    } else {
        provided_versions(ps.drop_last(), own, id) + if ps.last().id == id {
            seq![
                match ps.last().version {
                    Some(v) => v,
                    None => own,
                },
            ]
        } else {
            seq![]
        }
    }
}

pub open spec fn candidate_versions(c: CandidateModel, id: Seq<char>) -> Seq<VersionModel> {
    (if c.id == id {
        seq![c.version]
    } else {
        seq![]
    }) + provided_versions(c.provides, c.version, id)
}

pub open spec fn candidates_versions(cs: Seq<CandidateModel>, id: Seq<char>) -> Seq<VersionModel>
    decreases cs.len(),
{
    if cs.len() == 0 {
        seq![]
    } else {
        candidates_versions(cs.drop_last(), id) + candidate_versions(cs.last(), id)
    }
}

/// Every version offered under `id`.
pub open spec fn versions_for(
    bs: Seq<BuiltinModel>,
    cs: Seq<CandidateModel>,
    id: Seq<char>,
) -> Seq<VersionModel> {
    builtin_versions(bs, id) + candidates_versions(cs, id)
}

pub open spec fn any_matches(spec: Seq<PredicateModel>, vs: Seq<VersionModel>) -> bool {
    exists|i: int| 0 <= i < vs.len() && spec_matches(spec, #[trigger] vs[i])
}

/// The first offered version a constraint matches.
pub open spec fn first_match(spec: Seq<PredicateModel>, vs: Seq<VersionModel>) -> Option<
    VersionModel,
>
    decreases vs.len(),
{
    if vs.len() == 0 {
        None
    } else if spec_matches(spec, vs[0]) {
        Some(vs[0])
    } else {
        first_match(spec, vs.drop_first())
    }
}

pub open spec fn rendered(vs: Seq<VersionModel>) -> Seq<Seq<char>> {
    vs.map_values(|v: VersionModel| render_version(v))
}

/// What a required dependency contributes: nothing when optional or
/// satisfied, a missing dependency when nothing offers its id, otherwise an
/// unsatisfied version listing what is installed.
pub open spec fn dependency_errors(
    mod_id: Seq<char>,
    d: DependencyModel,
    bs: Seq<BuiltinModel>,
    cs: Seq<CandidateModel>,
) -> Seq<ErrorModel> {
    let vs = versions_for(bs, cs, d.id);
    if d.optional {
        seq![]
    } else if vs.len() == 0 {
        seq![ErrorModel::MissingDependency { mod_id, dependency: d.id, reason: d.reason }]
    } else if !any_matches(d.versions, vs) {
        seq![
            ErrorModel::UnsatisfiedVersion {
                mod_id,
                dependency: d.id,
                available: join(rendered(vs), ", "@),
            },
        ]
    } else {
        seq![]
    }
}

/// A breaks clause reports the first offered version it matches.
pub open spec fn breakage_errors(
    mod_id: Seq<char>,
    b: DependencyModel,
    bs: Seq<BuiltinModel>,
    cs: Seq<CandidateModel>,
) -> Seq<ErrorModel> {
    match first_match(b.versions, versions_for(bs, cs, b.id)) {
        Some(v) => seq![
            ErrorModel::Breakage { mod_id, broken: b.id, version: render_version(v) },
        ],
        None => seq![],
    }
}

pub open spec fn depends_errors(
    mod_id: Seq<char>,
    ds: Seq<DependencyModel>,
    bs: Seq<BuiltinModel>,
    cs: Seq<CandidateModel>,
) -> Seq<ErrorModel>
    decreases ds.len(),
{
    if ds.len() == 0 {
        seq![]
    } else {
        depends_errors(mod_id, ds.drop_last(), bs, cs) + dependency_errors(
            mod_id,
            ds.last(),
            bs,
            cs,
        )
    }
}

pub open spec fn breaks_errors(
    mod_id: Seq<char>,
    ds: Seq<DependencyModel>,
    bs: Seq<BuiltinModel>,
    cs: Seq<CandidateModel>,
) -> Seq<ErrorModel>
    decreases ds.len(),
{
    if ds.len() == 0 {
        seq![]
    } else {
        breaks_errors(mod_id, ds.drop_last(), bs, cs) + breakage_errors(mod_id, ds.last(), bs, cs)
    }
}

/// The depends problems of each candidate, then its breaks problems.
pub open spec fn clause_errors(
    checked: Seq<CandidateModel>,
    bs: Seq<BuiltinModel>,
    cs: Seq<CandidateModel>,
) -> Seq<ErrorModel>
    decreases checked.len(),
{
    if checked.len() == 0 {
        seq![]
    } else {
        let c = checked.last();
        clause_errors(checked.drop_last(), bs, cs) + depends_errors(c.id, c.depends, bs, cs)
            + breaks_errors(c.id, c.breaks, bs, cs)
    }
}

pub open spec fn count_id(cs: Seq<CandidateModel>, id: Seq<char>) -> nat
    decreases cs.len(),
{
    if cs.len() == 0 {
        0
    } else {
        count_id(cs.drop_last(), id) + if cs.last().id == id {
            1nat
        } else {
            0nat
        }
    }
}

/// Whether a builtin has id `id`.
pub open spec fn builtin_has(bs: Seq<BuiltinModel>, id: Seq<char>) -> bool
    decreases bs.len(),
{
    bs.len() > 0 && (bs.last().id == id || builtin_has(bs.drop_last(), id))
}

/// How often `id` is claimed by the builtins (at most once, whatever their
/// number) and by the candidates `cs`.
pub open spec fn claims(bs: Seq<BuiltinModel>, cs: Seq<CandidateModel>, id: Seq<char>) -> nat {
    (if builtin_has(bs, id) {
        1nat
    } else {
        0nat
    }) + count_id(cs, id)
}

/// One duplicate error per id that a candidate claims a second time, after a
/// builtin or an earlier candidate, at the candidate that does so.
pub open spec fn duplicate_errors(cs: Seq<CandidateModel>, bs: Seq<BuiltinModel>) -> Seq<
    ErrorModel,
>
    decreases cs.len(),
{
    if cs.len() == 0 {
        seq![]
    } else {
        duplicate_errors(cs.drop_last(), bs) + if claims(bs, cs.drop_last(), cs.last().id) == 1 {
            seq![ErrorModel::DuplicateId { id: cs.last().id }]
        } else {
            seq![]
        }
    }
}

/// Every problem of a candidate set, duplicates first.
pub open spec fn resolve_errors(cs: Seq<CandidateModel>, bs: Seq<BuiltinModel>) -> Seq<
    ErrorModel,
> {
    duplicate_errors(cs, bs) + clause_errors(cs, bs, cs)
}

// ---------------------------------------------------------------------------
// Executable code.

pub open spec fn ref_views(v: Seq<&Version>) -> Seq<VersionModel> {
    v.map_values(|x: &Version| x@)
}

fn same_id(a: &String, b: &String) -> (r: bool)
    ensures
        r == (a@ == b@),
{
    let x = chars_of(a.as_str());
    let y = chars_of(b.as_str());
    chars_equal(x.as_slice(), y.as_slice())
}

/// The versions offered under `id` by `builtins` and the `present` candidates
/// (indices into `candidates`), in provider order.
pub fn offered_versions<'a>(
    builtins: &'a [BuiltinMod],
    candidates: &'a Vec<ModCandidate>,
    present: &Vec<usize>,
    id: &String,
) -> (r: Vec<&'a Version>)
    requires
        forall|k: int| 0 <= k < present@.len() ==> #[trigger] present@[k] < candidates@.len(),
    ensures
        ref_views(r@) == versions_for(
            builtin_views(builtins@),
            selected(candidate_views(candidates@), present@),
            id@,
        ),
{
    let ghost bs = builtin_views(builtins@);
    let ghost cs = selected(candidate_views(candidates@), present@);
    let mut out: Vec<&'a Version> = Vec::new();
    let mut i: usize = 0;
    while i < builtins.len()
        invariant
            i <= builtins@.len(),
            bs == builtin_views(builtins@),
            ref_views(out@) == builtin_versions(bs.take(i as int), id@),
        decreases builtins@.len() - i,
    {
        assert(bs.take(i + 1).drop_last() =~= bs.take(i as int));
        let ghost before = out@;
        if same_id(&builtins[i].id, id) {
            out.push(&builtins[i].version);
            assert(ref_views(out@) =~= ref_views(before) + seq![builtins@[i as int].version@]);
        } else {
            assert(ref_views(out@) =~= ref_views(before) + Seq::<VersionModel>::empty());
        }
        i = i + 1;
    }
    assert(bs.take(builtins@.len() as int) =~= bs);
    let mut j: usize = 0;
    while j < present.len()
        invariant
            j <= present@.len(),
            forall|k: int| 0 <= k < present@.len() ==> #[trigger] present@[k] < candidates@.len(),
            bs == builtin_views(builtins@),
            cs == selected(candidate_views(candidates@), present@),
            ref_views(out@) == builtin_versions(bs, id@) + candidates_versions(
                cs.take(j as int),
                id@,
            ),
        decreases present@.len() - j,
    {
        let c = &candidates[present[j]];
        assert(cs.take(j + 1).drop_last() =~= cs.take(j as int));
        assert(cs.take(j + 1).last() == c@);
        let ghost before = out@;
        if same_id(&c.id, id) {
            out.push(&c.version);
        }
        let ghost mid = out@;
        assert(ref_views(mid) =~= ref_views(before) + (if c@.id == id@ {
            seq![c@.version]
        } else {
            seq![]
        }));
        let mut k: usize = 0;
        while k < c.provides.len()
            invariant
                k <= c.provides@.len(),
                ref_views(out@) == ref_views(mid) + provided_versions(
                    provided_views(c.provides@).take(k as int),
                    c.version@,
                    id@,
                ),
            decreases c.provides@.len() - k,
        {
            let p = &c.provides[k];
            assert(provided_views(c.provides@).take(k + 1).drop_last() =~= provided_views(
                c.provides@,
            ).take(k as int));
            assert(provided_views(c.provides@).take(k + 1).last() == p@);
            let ghost step = out@;
            if same_id(&p.id, id) {
                match &p.version {
                    Some(v) => out.push(v),
                    None => out.push(&c.version),
                }
                assert(ref_views(out@) =~= ref_views(step) + seq![
                    match p@.version {
                        Some(v) => v,
                        None => c@.version,
                    },
                ]);
            } else {
                assert(ref_views(out@) =~= ref_views(step) + Seq::<VersionModel>::empty());
            }
            k = k + 1;
        }
        assert(provided_views(c.provides@).take(c.provides@.len() as int) =~= provided_views(
            c.provides@,
        ));
        assert(ref_views(out@) =~= ref_views(before) + candidate_versions(c@, id@));
        j = j + 1;
    }
    assert(cs.take(present@.len() as int) =~= cs);
    out
}

/// The candidates at the given indices, in that order.
pub open spec fn selected(cs: Seq<CandidateModel>, present: Seq<usize>) -> Seq<CandidateModel> {
    present.map_values(|i: usize| cs[i as int])
}

/// All indices of a list of the given length, in order.
pub open spec fn all_indices(n: nat) -> Seq<usize> {
    Seq::new(n, |i: int| i as usize)
}

pub fn index_list(n: usize) -> (r: Vec<usize>)
    ensures
        r@ == all_indices(n as nat),
{
    let mut r: Vec<usize> = Vec::new();
    let mut i: usize = 0;
    while i < n
        invariant
            i <= n,
            r@ == all_indices(i as nat),
        decreases n - i,
    {
        r.push(i);
        i = i + 1;
        assert(r@ =~= all_indices(i as nat));
    }
    r
}

pub proof fn lemma_select_all(cs: Seq<CandidateModel>)
    requires
        cs.len() <= usize::MAX,
    ensures
        selected(cs, all_indices(cs.len())) == cs,
{
    assert forall|i: int| 0 <= i < cs.len() implies #[trigger] selected(
        cs,
        all_indices(cs.len()),
    )[i] == cs[i] by {
        assert(all_indices(cs.len())[i] == i as usize);
    }
    assert(selected(cs, all_indices(cs.len())) =~= cs);
}

/// Whether `spec` matches any of `versions`.
pub fn any_version_matches(spec: &VersionSpec, versions: &Vec<&Version>) -> (r: bool)
    ensures
        r == any_matches(spec@, ref_views(versions@)),
{
    let mut i: usize = 0;
    while i < versions.len()
        invariant
            i <= versions@.len(),
            forall|k: int| 0 <= k < i ==> !spec_matches(spec@, #[trigger] ref_views(versions@)[k]),
        decreases versions@.len() - i,
    {
        if spec.matches(versions[i]) {
            assert(spec_matches(spec@, ref_views(versions@)[i as int]));
            return true;
        }
        i = i + 1;
    }
    false
}

fn first_matching_version<'a>(spec: &VersionSpec, versions: &Vec<&'a Version>) -> (r: Option<
    &'a Version,
>)
    ensures
        match r {
            Some(v) => first_match(spec@, ref_views(versions@)) == Some(v@),
            None => first_match(spec@, ref_views(versions@)) is None,
        },
{
    let ghost vs = ref_views(versions@);
    let mut i: usize = 0;
    assert(vs.skip(0) =~= vs);
    while i < versions.len()
        invariant
            i <= versions@.len(),
            vs == ref_views(versions@),
            first_match(spec@, vs) == first_match(spec@, vs.skip(i as int)),
        decreases versions@.len() - i,
    {
        assert(vs.skip(i as int)[0] == versions@[i as int]@);
        assert(vs.skip(i as int).drop_first() =~= vs.skip(i + 1));
        if spec.matches(versions[i]) {
            return Some(versions[i]);
        }
        i = i + 1;
    }
    assert(vs.skip(versions@.len() as int) =~= Seq::<VersionModel>::empty());
    None
}

/// The installed versions, rendered and joined with ", ".
fn join_versions(versions: &Vec<&Version>) -> (r: String)
    ensures
        r@ == join(rendered(ref_views(versions@)), ", "@),
{
    let mut parts: Vec<Vec<char>> = Vec::new();
    let mut i: usize = 0;
    while i < versions.len()
        invariant
            i <= versions@.len(),
            views(parts@) == rendered(ref_views(versions@)).take(i as int),
        decreases versions@.len() - i,
    {
        let r = versions[i].render();
        let ghost before = parts@;
        parts.push(r);
        assert(views(parts@) =~= views(before).push(r@));
        assert(rendered(ref_views(versions@)).take(i + 1) =~= rendered(ref_views(versions@)).take(
            i as int,
        ).push(r@));
        i = i + 1;
    }
    assert(rendered(ref_views(versions@)).take(versions@.len() as int) =~= rendered(
        ref_views(versions@),
    ));
    let sep = chars_of(", ");
    let joined = join_chars(&parts, sep.as_slice());
    string_of(joined.as_slice())
}

fn copy_reason(reason: &Option<String>) -> (r: Option<String>)
    ensures
        match r {
            Some(x) => reason matches Some(y) && x@ == y@,
            None => reason is None,
        },
{
    match reason {
        Some(x) => Some(x.clone()),
        None => None,
    }
}

/// Appends what `dependency` of the mod `mod_id` contributes.
fn check_dependency(
    mod_id: &String,
    dependency: &Dependency,
    builtins: &[BuiltinMod],
    candidates: &Vec<ModCandidate>,
    present: &Vec<usize>,
    errors: &mut Vec<ResolutionError>,
)
    requires
        forall|k: int| 0 <= k < present@.len() ==> #[trigger] present@[k] < candidates@.len(),
    ensures
        error_views(final(errors)@) == error_views(old(errors)@) + dependency_errors(
            mod_id@,
            dependency@,
            builtin_views(builtins@),
            selected(candidate_views(candidates@), present@),
        ),
{
    let ghost start = error_views(errors@);
    if dependency.optional {
        assert(error_views(errors@) =~= start + Seq::<ErrorModel>::empty());
        return;
    }
    let versions = offered_versions(builtins, candidates, present, &dependency.id);
    if versions.len() == 0 {
        let e = ResolutionError::MissingDependency {
            mod_id: mod_id.clone(),
            dependency: dependency.id.clone(),
            reason: copy_reason(&dependency.reason),
        };
        errors.push(e);
        assert(error_views(errors@) =~= start + seq![e@]);
    } else if !any_version_matches(&dependency.versions, &versions) {
        let e = ResolutionError::UnsatisfiedVersion {
            mod_id: mod_id.clone(),
            dependency: dependency.id.clone(),
            available: join_versions(&versions),
        };
        errors.push(e);
        assert(error_views(errors@) =~= start + seq![e@]);
    } else {
        assert(error_views(errors@) =~= start + Seq::<ErrorModel>::empty());
    }
}

/// Appends what the breaks clause `breakage` of the mod `mod_id` contributes.
fn check_breakage(
    mod_id: &String,
    breakage: &Dependency,
    builtins: &[BuiltinMod],
    candidates: &Vec<ModCandidate>,
    present: &Vec<usize>,
    errors: &mut Vec<ResolutionError>,
)
    requires
        forall|k: int| 0 <= k < present@.len() ==> #[trigger] present@[k] < candidates@.len(),
    ensures
        error_views(final(errors)@) == error_views(old(errors)@) + breakage_errors(
            mod_id@,
            breakage@,
            builtin_views(builtins@),
            selected(candidate_views(candidates@), present@),
        ),
{
    let ghost start = error_views(errors@);
    let versions = offered_versions(builtins, candidates, present, &breakage.id);
    match first_matching_version(&breakage.versions, &versions) {
        Some(v) => {
            let e = ResolutionError::Breakage {
                mod_id: mod_id.clone(),
                broken: breakage.id.clone(),
                version: v.to_string(),
            };
            errors.push(e);
            assert(error_views(errors@) =~= start + seq![e@]);
        },
        None => {
            assert(error_views(errors@) =~= start + Seq::<ErrorModel>::empty());
        },
    }
}

/// Appends the problems of every clause of the candidates listed in `checked`
/// (indices into `candidates`), judged against the `present` ones.
pub fn check_clauses(
    checked: &Vec<usize>,
    builtins: &[BuiltinMod],
    candidates: &Vec<ModCandidate>,
    present: &Vec<usize>,
    errors: &mut Vec<ResolutionError>,
)
    requires
        forall|k: int| 0 <= k < present@.len() ==> #[trigger] present@[k] < candidates@.len(),
        forall|k: int| 0 <= k < checked@.len() ==> #[trigger] checked@[k] < candidates@.len(),
    ensures
        error_views(final(errors)@) == error_views(old(errors)@) + clause_errors(
            selected(candidate_views(candidates@), checked@),
            builtin_views(builtins@),
            selected(candidate_views(candidates@), present@),
        ),
{
    let ghost start = error_views(errors@);
    let ghost bs = builtin_views(builtins@);
    let ghost cs = selected(candidate_views(candidates@), present@);
    let ghost chosen = selected(candidate_views(candidates@), checked@);
    let mut i: usize = 0;
    while i < checked.len()
        invariant
            i <= checked@.len(),
            forall|k: int| 0 <= k < present@.len() ==> #[trigger] present@[k] < candidates@.len(),
            forall|k: int| 0 <= k < checked@.len() ==> #[trigger] checked@[k] < candidates@.len(),
            bs == builtin_views(builtins@),
            cs == selected(candidate_views(candidates@), present@),
            chosen == selected(candidate_views(candidates@), checked@),
            error_views(errors@) == start + clause_errors(chosen.take(i as int), bs, cs),
        decreases checked@.len() - i,
    {
        let c = &candidates[checked[i]];
        assert(chosen.take(i + 1).drop_last() =~= chosen.take(i as int));
        assert(chosen.take(i + 1).last() == c@);
        let ghost before = error_views(errors@);
        let mut k: usize = 0;
        while k < c.depends.len()
            invariant
                k <= c.depends@.len(),
                forall|m: int|
                    0 <= m < present@.len() ==> #[trigger] present@[m] < candidates@.len(),
                bs == builtin_views(builtins@),
                cs == selected(candidate_views(candidates@), present@),
                error_views(errors@) == before + depends_errors(
                    c.id@,
                    dependency_views(c.depends@).take(k as int),
                    bs,
                    cs,
                ),
            decreases c.depends@.len() - k,
        {
            assert(dependency_views(c.depends@).take(k + 1).drop_last() =~= dependency_views(
                c.depends@,
            ).take(k as int));
            assert(dependency_views(c.depends@).take(k + 1).last() == c.depends@[k as int]@);
            let ghost step = error_views(errors@);
            check_dependency(&c.id, &c.depends[k], builtins, candidates, present, errors);
            assert(error_views(errors@) =~= before + depends_errors(
                c.id@,
                dependency_views(c.depends@).take(k + 1),
                bs,
                cs,
            ));
            k = k + 1;
        }
        assert(dependency_views(c.depends@).take(c.depends@.len() as int) =~= dependency_views(
            c.depends@,
        ));
        let ghost middle = error_views(errors@);
        let mut k: usize = 0;
        while k < c.breaks.len()
            invariant
                k <= c.breaks@.len(),
                forall|m: int|
                    0 <= m < present@.len() ==> #[trigger] present@[m] < candidates@.len(),
                bs == builtin_views(builtins@),
                cs == selected(candidate_views(candidates@), present@),
                error_views(errors@) == middle + breaks_errors(
                    c.id@,
                    dependency_views(c.breaks@).take(k as int),
                    bs,
                    cs,
                ),
            decreases c.breaks@.len() - k,
        {
            assert(dependency_views(c.breaks@).take(k + 1).drop_last() =~= dependency_views(
                c.breaks@,
            ).take(k as int));
            assert(dependency_views(c.breaks@).take(k + 1).last() == c.breaks@[k as int]@);
            check_breakage(&c.id, &c.breaks[k], builtins, candidates, present, errors);
            assert(error_views(errors@) =~= middle + breaks_errors(
                c.id@,
                dependency_views(c.breaks@).take(k + 1),
                bs,
                cs,
            ));
            k = k + 1;
        }
        assert(dependency_views(c.breaks@).take(c.breaks@.len() as int) =~= dependency_views(
            c.breaks@,
        ));
        assert(error_views(errors@) =~= start + clause_errors(chosen.take(i + 1), bs, cs));
        i = i + 1;
    }
    assert(chosen.take(checked@.len() as int) =~= chosen);
}

/// Appends one duplicate error per id, at its second occurrence.
fn builtin_has_exec(builtins: &[BuiltinMod], id: &String) -> (r: bool)
    ensures
        r == builtin_has(builtin_views(builtins@), id@),
{
    let ghost bs = builtin_views(builtins@);
    let mut found = false;
    let mut j: usize = 0;
    while j < builtins.len()
        invariant
            j <= builtins@.len(),
            bs == builtin_views(builtins@),
            found == builtin_has(bs.take(j as int), id@),
        decreases builtins@.len() - j,
    {
        assert(bs.take(j + 1).drop_last() =~= bs.take(j as int));
        assert(bs.take(j + 1).last() == builtins@[j as int]@);
        if same_id(&builtins[j].id, id) {
            found = true;
        }
        j = j + 1;
    }
    assert(bs.take(builtins@.len() as int) =~= bs);
    found
}

fn check_duplicates(
    candidates: &Vec<ModCandidate>,
    builtins: &[BuiltinMod],
    errors: &mut Vec<ResolutionError>,
)
    ensures
        error_views(final(errors)@) == error_views(old(errors)@) + duplicate_errors(
            candidate_views(candidates@),
            builtin_views(builtins@),
        ),
{
    let ghost bs = builtin_views(builtins@);
    let ghost start = error_views(errors@);
    let ghost cs = candidate_views(candidates@);
    let mut i: usize = 0;
    while i < candidates.len()
        invariant
            i <= candidates@.len(),
            cs == candidate_views(candidates@),
            bs == builtin_views(builtins@),
            error_views(errors@) == start + duplicate_errors(cs.take(i as int), bs),
        decreases candidates@.len() - i,
    {
        assert(cs.take(i + 1).drop_last() =~= cs.take(i as int));
        assert(cs.take(i + 1).last() == candidates@[i as int]@);
        let mut count: usize = 0;
        let mut j: usize = 0;
        while j < i
            invariant
                j <= i < candidates@.len(),
                cs == candidate_views(candidates@),
                count == count_id(cs.take(j as int), candidates@[i as int]@.id),
                count <= j,
            decreases i - j,
        {
            assert(cs.take(j + 1).drop_last() =~= cs.take(j as int));
            if same_id(&candidates[j].id, &candidates[i].id) {
                count = count + 1;
            }
            j = j + 1;
        }
        let ghost before = error_views(errors@);
        let in_builtins = builtin_has_exec(builtins, &candidates[i].id);
        if (in_builtins && count == 0) || (!in_builtins && count == 1) {
            let e = ResolutionError::DuplicateId { id: candidates[i].id.clone() };
            errors.push(e);
            assert(error_views(errors@) =~= before + seq![e@]);
        } else {
            assert(error_views(errors@) =~= before + Seq::<ErrorModel>::empty());
        }
        i = i + 1;
    }
    assert(cs.take(candidates@.len() as int) =~= cs);
}

/// Resolve `candidates` against the supplied builtins: the errors are
/// [`resolve_errors`]; the candidates load, in input order, exactly when
/// there are none.
pub fn resolve(candidates: Vec<ModCandidate>, builtins: &[BuiltinMod]) -> (r: Resolution)
    ensures
        error_views(r.errors@) == resolve_errors(
            candidate_views(candidates@),
            builtin_views(builtins@),
        ),
        r.loaded@ == (if r.errors@.len() == 0 {
            candidates@
        } else {
            Seq::<ModCandidate>::empty()
        }),
        forall|id: Seq<char>|
            #[trigger] duplicate_count(error_views(r.errors@), id) == (if claims(
                builtin_views(builtins@),
                candidate_views(candidates@),
                id,
            ) >= 2 {
                1nat
            } else {
                0nat
            }),
        r.errors@.len() == 0 <==> ids_unclaimed(candidate_views(candidates@), builtin_views(builtins@))
            && clauses_fine(
            candidate_views(candidates@),
            builtin_views(builtins@),
            candidate_views(candidates@),
        ),
{
    proof {
        lemma_resolve_clean_exactly_when(candidate_views(candidates@), builtin_views(builtins@));
        assert forall|id: Seq<char>|
            #[trigger] duplicate_count(
                resolve_errors(candidate_views(candidates@), builtin_views(builtins@)),
                id,
            ) == (if claims(builtin_views(builtins@), candidate_views(candidates@), id) >= 2 {
                1nat
            } else {
                0nat
            }) by {
            lemma_resolve_reports_each_duplicate_once(
                candidate_views(candidates@),
                builtin_views(builtins@),
                id,
            );
        }
    }
    let mut errors: Vec<ResolutionError> = Vec::new();
    assert(error_views(errors@) =~= Seq::<ErrorModel>::empty());
    check_duplicates(&candidates, builtins, &mut errors);
    let all = index_list(candidates.len());
    proof {
        lemma_select_all(candidate_views(candidates@));
    }
    check_clauses(&all, builtins, &candidates, &all, &mut errors);
    assert(error_views(errors@) =~= resolve_errors(
        candidate_views(candidates@),
        builtin_views(builtins@),
    ));
    let loaded = if errors.len() == 0 {
        candidates
    } else {
        Vec::new()
    };
    Resolution { loaded, errors }
}


// ---------------------------------------------------------------------------
// Laws.

/// How many `DuplicateId` errors for `id` `es` holds.
pub open spec fn duplicate_count(es: Seq<ErrorModel>, id: Seq<char>) -> nat
    decreases es.len(),
{
    if es.len() == 0 {
        0
    } else {
        duplicate_count(es.drop_last(), id) + if es.last() == (ErrorModel::DuplicateId { id }) {
            1nat
        } else {
            0nat
        }
    }
}

proof fn lemma_duplicate_count_concat(a: Seq<ErrorModel>, b: Seq<ErrorModel>, id: Seq<char>)
    ensures
        duplicate_count(a + b, id) == duplicate_count(a, id) + duplicate_count(b, id),
    decreases b.len(),
{
    if b.len() == 0 {
        assert(a + b =~= a);
    } else {
        lemma_duplicate_count_concat(a, b.drop_last(), id);
        assert((a + b).drop_last() =~= a + b.drop_last());
    }
}

/// An id claimed twice or more, by a builtin or by candidates, gets exactly
/// one `DuplicateId` error; any other id gets none.
pub proof fn lemma_one_duplicate_error_per_id(
    cs: Seq<CandidateModel>,
    bs: Seq<BuiltinModel>,
    id: Seq<char>,
)
    ensures
        duplicate_count(duplicate_errors(cs, bs), id) == (if claims(bs, cs, id) >= 2 {
            1nat
        } else {
            0nat
        }),
    decreases cs.len(),
{
    if cs.len() > 0 {
        let p = cs.drop_last();
        lemma_one_duplicate_error_per_id(p, bs, id);
        let extra = if claims(bs, p, cs.last().id) == 1 {
            seq![ErrorModel::DuplicateId { id: cs.last().id }]
        } else {
            seq![]
        };
        lemma_duplicate_count_concat(duplicate_errors(p, bs), extra, id);
        assert(duplicate_errors(cs, bs) == duplicate_errors(p, bs) + extra);
        assert(count_id(cs, id) == count_id(p, id) + (if cs.last().id == id {
            1nat
        } else {
            0nat
        }));
        if extra.len() == 1 {
            assert(extra.drop_last() =~= Seq::<ErrorModel>::empty());
            assert(duplicate_count(Seq::<ErrorModel>::empty(), id) == 0);
            if cs.last().id == id {
                assert(duplicate_count(extra, id) == 1);
            } else {
                assert(extra.last() != (ErrorModel::DuplicateId { id }));
                assert(duplicate_count(extra, id) == 0);
            }
        } else {
            assert(duplicate_count(extra, id) == 0);
        }
    } else {
        assert(duplicate_errors(cs, bs) =~= Seq::<ErrorModel>::empty());
    }
}

/// An optional dependency never causes an error: it can be dropped from a
/// mod's list without changing what the list reports.
pub proof fn lemma_optional_dependency_is_silent(
    mod_id: Seq<char>,
    a: Seq<DependencyModel>,
    d: DependencyModel,
    b: Seq<DependencyModel>,
    bs: Seq<BuiltinModel>,
    cs: Seq<CandidateModel>,
)
    requires
        d.optional,
    ensures
        depends_errors(mod_id, a.push(d) + b, bs, cs) == depends_errors(mod_id, a + b, bs, cs),
    decreases b.len(),
{
    if b.len() == 0 {
        assert(a.push(d) + b =~= a.push(d));
        assert(a + b =~= a);
        assert(a.push(d).drop_last() =~= a);
        assert(depends_errors(mod_id, a, bs, cs) + Seq::<ErrorModel>::empty() =~= depends_errors(
            mod_id,
            a,
            bs,
            cs,
        ));
    } else {
        lemma_optional_dependency_is_silent(mod_id, a, d, b.drop_last(), bs, cs);
        assert((a.push(d) + b).drop_last() =~= a.push(d) + b.drop_last());
        assert((a + b).drop_last() =~= a + b.drop_last());
        assert((a.push(d) + b).last() == b.last());
        assert((a + b).last() == b.last());
    }
}


proof fn lemma_depends_errors_no_duplicate(
    mod_id: Seq<char>,
    ds: Seq<DependencyModel>,
    bs: Seq<BuiltinModel>,
    cs: Seq<CandidateModel>,
    id: Seq<char>,
)
    ensures
        duplicate_count(depends_errors(mod_id, ds, bs, cs), id) == 0,
    decreases ds.len(),
{
    if ds.len() > 0 {
        lemma_depends_errors_no_duplicate(mod_id, ds.drop_last(), bs, cs, id);
        let e = dependency_errors(mod_id, ds.last(), bs, cs);
        lemma_duplicate_count_concat(depends_errors(mod_id, ds.drop_last(), bs, cs), e, id);
        if e.len() > 0 {
            assert(e.drop_last() =~= Seq::<ErrorModel>::empty());
            assert(duplicate_count(e.drop_last(), id) == 0);
            assert(e.last() != (ErrorModel::DuplicateId { id }));
        }
        assert(duplicate_count(e, id) == 0);
    } else {
        assert(depends_errors(mod_id, ds, bs, cs) =~= Seq::<ErrorModel>::empty());
    }
}

proof fn lemma_breaks_errors_no_duplicate(
    mod_id: Seq<char>,
    ds: Seq<DependencyModel>,
    bs: Seq<BuiltinModel>,
    cs: Seq<CandidateModel>,
    id: Seq<char>,
)
    ensures
        duplicate_count(breaks_errors(mod_id, ds, bs, cs), id) == 0,
    decreases ds.len(),
{
    if ds.len() > 0 {
        lemma_breaks_errors_no_duplicate(mod_id, ds.drop_last(), bs, cs, id);
        let e = breakage_errors(mod_id, ds.last(), bs, cs);
        lemma_duplicate_count_concat(breaks_errors(mod_id, ds.drop_last(), bs, cs), e, id);
        if e.len() > 0 {
            assert(e.drop_last() =~= Seq::<ErrorModel>::empty());
            assert(duplicate_count(e.drop_last(), id) == 0);
            assert(e.last() != (ErrorModel::DuplicateId { id }));
        }
        assert(duplicate_count(e, id) == 0);
    } else {
        assert(breaks_errors(mod_id, ds, bs, cs) =~= Seq::<ErrorModel>::empty());
    }
}

/// The clause problems (missing or unsatisfied dependencies, breakages) are
/// never duplicate-id errors.
proof fn lemma_clause_errors_no_duplicate(
    checked: Seq<CandidateModel>,
    bs: Seq<BuiltinModel>,
    cs: Seq<CandidateModel>,
    id: Seq<char>,
)
    ensures
        duplicate_count(clause_errors(checked, bs, cs), id) == 0,
    decreases checked.len(),
{
    if checked.len() > 0 {
        let c = checked.last();
        lemma_clause_errors_no_duplicate(checked.drop_last(), bs, cs, id);
        lemma_depends_errors_no_duplicate(c.id, c.depends, bs, cs, id);
        lemma_breaks_errors_no_duplicate(c.id, c.breaks, bs, cs, id);
        lemma_duplicate_count_concat(
            clause_errors(checked.drop_last(), bs, cs),
            depends_errors(c.id, c.depends, bs, cs),
            id,
        );
        lemma_duplicate_count_concat(
            clause_errors(checked.drop_last(), bs, cs) + depends_errors(c.id, c.depends, bs, cs),
            breaks_errors(c.id, c.breaks, bs, cs),
            id,
        );
    } else {
        assert(clause_errors(checked, bs, cs) =~= Seq::<ErrorModel>::empty());
    }
}

/// Among all of `resolve`'s errors, each id claimed two or more times (by
/// candidates, or by a candidate and a builtin) has exactly one
/// duplicate-id error, and any other id has none.
pub proof fn lemma_resolve_reports_each_duplicate_once(
    cs: Seq<CandidateModel>,
    bs: Seq<BuiltinModel>,
    id: Seq<char>,
)
    ensures
        duplicate_count(resolve_errors(cs, bs), id) == (if claims(bs, cs, id) >= 2 {
            1nat
        } else {
            0nat
        }),
{
    lemma_one_duplicate_error_per_id(cs, bs, id);
    lemma_clause_errors_no_duplicate(cs, bs, cs, id);
    lemma_duplicate_count_concat(duplicate_errors(cs, bs), clause_errors(cs, bs, cs), id);
}


/// The version a provides entry offers: its own, or the providing mod's.
pub open spec fn provided_version(p: ProvidedModel, own: VersionModel) -> VersionModel {
    match p.version {
        Some(v) => v,
        None => own,
    }
}

proof fn lemma_provided_versions_offer(ps: Seq<ProvidedModel>, own: VersionModel, j: int)
    requires
        0 <= j < ps.len(),
    ensures
        provided_versions(ps, own, ps[j].id).contains(provided_version(ps[j], own)),
    decreases ps.len(),
{
    let id = ps[j].id;
    let p = ps.drop_last();
    if j < ps.len() - 1 {
        lemma_provided_versions_offer(p, own, j);
        assert(p[j] == ps[j]);
        let x = provided_versions(p, own, id);
        let k = choose|k: int| 0 <= k < x.len() && x[k] == provided_version(ps[j], own);
        assert(provided_versions(ps, own, id)[k] == x[k]);
    } else {
        let x = provided_versions(p, own, id);
        assert(provided_versions(ps, own, id)[x.len() as int] == provided_version(ps[j], own));
    }
}

proof fn lemma_candidates_versions_offer(cs: Seq<CandidateModel>, k: int, id: Seq<char>, v: VersionModel)
    requires
        0 <= k < cs.len(),
        candidate_versions(cs[k], id).contains(v),
    ensures
        candidates_versions(cs, id).contains(v),
    decreases cs.len(),
{
    let p = cs.drop_last();
    if k < cs.len() - 1 {
        assert(p[k] == cs[k]);
        lemma_candidates_versions_offer(p, k, id, v);
        let x = candidates_versions(p, id);
        let i = choose|i: int| 0 <= i < x.len() && x[i] == v;
        assert(candidates_versions(cs, id)[i] == x[i]);
    } else {
        let x = candidates_versions(p, id);
        let y = candidate_versions(cs[k], id);
        let i = choose|i: int| 0 <= i < y.len() && y[i] == v;
        assert(candidates_versions(cs, id)[x.len() + i] == y[i]);
    }
}

/// What a set of mods offers: under its id, every builtin offers its
/// version and every mod its own version; under each id a mod provides, the
/// version given there or, when none is given, the mod's own version.
pub proof fn lemma_offered_versions(bs: Seq<BuiltinModel>, cs: Seq<CandidateModel>)
    ensures
        forall|i: int|
            0 <= i < bs.len() ==> versions_for(bs, cs, (#[trigger] bs[i]).id).contains(bs[i].version),
        forall|k: int|
            0 <= k < cs.len() ==> versions_for(bs, cs, (#[trigger] cs[k]).id).contains(cs[k].version),
        forall|k: int, j: int|
            0 <= k < cs.len() && 0 <= j < cs[k].provides.len() && (
            #[trigger] cs[k].provides[j]).version is None ==> versions_for(
                bs,
                cs,
                cs[k].provides[j].id,
            ).contains(cs[k].version),
        forall|k: int, j: int|
            0 <= k < cs.len() && 0 <= j < cs[k].provides.len() && (
            #[trigger] cs[k].provides[j]).version is Some ==> versions_for(
                bs,
                cs,
                cs[k].provides[j].id,
            ).contains(cs[k].provides[j].version->Some_0),
{
    assert forall|i: int| 0 <= i < bs.len() implies versions_for(
        bs,
        cs,
        (#[trigger] bs[i]).id,
    ).contains(bs[i].version) by {
        lemma_builtin_versions_offer(bs, i);
        let x = builtin_versions(bs, bs[i].id);
        let q = choose|q: int| 0 <= q < x.len() && x[q] == bs[i].version;
        assert(versions_for(bs, cs, bs[i].id)[q] == x[q]);
    }
    assert forall|k: int| 0 <= k < cs.len() implies versions_for(
        bs,
        cs,
        (#[trigger] cs[k]).id,
    ).contains(cs[k].version) by {
        let id = cs[k].id;
        assert(candidate_versions(cs[k], id)[0] == cs[k].version);
        lemma_candidates_versions_offer(cs, k, id, cs[k].version);
        let x = candidates_versions(cs, id);
        let q = choose|q: int| 0 <= q < x.len() && x[q] == cs[k].version;
        assert(versions_for(bs, cs, id)[builtin_versions(bs, id).len() + q] == x[q]);
    }
    assert forall|k: int, j: int|
        0 <= k < cs.len() && 0 <= j < cs[k].provides.len() implies versions_for(
        bs,
        cs,
        (#[trigger] cs[k].provides[j]).id,
    ).contains(provided_version(cs[k].provides[j], cs[k].version)) by {
        let c = cs[k];
        let id = c.provides[j].id;
        let v = provided_version(c.provides[j], c.version);
        lemma_provided_versions_offer(c.provides, c.version, j);
        let y = provided_versions(c.provides, c.version, id);
        let q = choose|q: int| 0 <= q < y.len() && y[q] == v;
        let head = if c.id == id { seq![c.version] } else { Seq::<VersionModel>::empty() };
        assert(candidate_versions(c, id)[head.len() + q] == y[q]);
        lemma_candidates_versions_offer(cs, k, id, v);
        let x = candidates_versions(cs, id);
        let r = choose|r: int| 0 <= r < x.len() && x[r] == v;
        assert(versions_for(bs, cs, id)[builtin_versions(bs, id).len() + r] == x[r]);
    }
}

proof fn lemma_builtin_versions_offer(bs: Seq<BuiltinModel>, i: int)
    requires
        0 <= i < bs.len(),
    ensures
        builtin_versions(bs, bs[i].id).contains(bs[i].version),
    decreases bs.len(),
{
    let id = bs[i].id;
    let p = bs.drop_last();
    if i < bs.len() - 1 {
        assert(p[i] == bs[i]);
        lemma_builtin_versions_offer(p, i);
        let x = builtin_versions(p, id);
        let q = choose|q: int| 0 <= q < x.len() && x[q] == bs[i].version;
        assert(builtin_versions(bs, id)[q] == x[q]);
    } else {
        let x = builtin_versions(p, id);
        assert(builtin_versions(bs, id)[x.len() as int] == bs[i].version);
    }
}


// ---------------------------------------------------------------------------
// When nothing is wrong.

proof fn lemma_builtin_has_exists(bs: Seq<BuiltinModel>, id: Seq<char>)
    ensures
        builtin_has(bs, id) <==> exists|i: int| 0 <= i < bs.len() && (#[trigger] bs[i]).id == id,
    decreases bs.len(),
{
    if bs.len() > 0 {
        let p = bs.drop_last();
        lemma_builtin_has_exists(p, id);
        if exists|i: int| 0 <= i < p.len() && (#[trigger] p[i]).id == id {
            let i = choose|i: int| 0 <= i < p.len() && (#[trigger] p[i]).id == id;
            assert(bs[i] == p[i]);
        }
        if exists|i: int| 0 <= i < bs.len() && (#[trigger] bs[i]).id == id {
            let i = choose|i: int| 0 <= i < bs.len() && (#[trigger] bs[i]).id == id;
            if i < p.len() {
                assert(p[i] == bs[i]);
            }
        }
    }
}

proof fn lemma_count_id_zero(cs: Seq<CandidateModel>, id: Seq<char>)
    ensures
        count_id(cs, id) == 0 <==> forall|k: int| 0 <= k < cs.len() ==> (#[trigger] cs[k]).id != id,
    decreases cs.len(),
{
    if cs.len() > 0 {
        let p = cs.drop_last();
        lemma_count_id_zero(p, id);
        if count_id(cs, id) == 0 {
            assert forall|k: int| 0 <= k < cs.len() implies (#[trigger] cs[k]).id != id by {
                if k < p.len() {
                    assert(p[k] == cs[k]);
                }
            }
        }
        if forall|k: int| 0 <= k < cs.len() ==> (#[trigger] cs[k]).id != id {
            assert forall|k: int| 0 <= k < p.len() implies (#[trigger] p[k]).id != id by {
                assert(p[k] == cs[k]);
            }
            assert(cs[cs.len() - 1].id != id);
        }
    }
}

proof fn lemma_count_id_two(cs: Seq<CandidateModel>, id: Seq<char>)
    requires
        count_id(cs, id) >= 2,
    ensures
        exists|k1: int, k2: int|
            0 <= k1 < k2 < cs.len() && (#[trigger] cs[k1]).id == id && (#[trigger] cs[k2]).id == id,
    decreases cs.len(),
{
    let p = cs.drop_last();
    if count_id(p, id) >= 2 {
        lemma_count_id_two(p, id);
        let (k1, k2) = choose|k1: int, k2: int|
            0 <= k1 < k2 < p.len() && (#[trigger] p[k1]).id == id && (#[trigger] p[k2]).id == id;
        assert(cs[k1] == p[k1] && cs[k2] == p[k2]);
    } else {
        assert(cs.last().id == id);
        assert(count_id(p, id) >= 1);
        lemma_count_id_zero(p, id);
        let k1 = choose|k: int| 0 <= k < p.len() && !((#[trigger] p[k]).id != id);
        assert(cs[k1] == p[k1]);
        assert(cs[cs.len() - 1].id == id);
    }
}

/// No candidate claims a builtin's id or another candidate's.
pub open spec fn ids_unclaimed(cs: Seq<CandidateModel>, bs: Seq<BuiltinModel>) -> bool {
    &&& forall|k: int, i: int|
        0 <= k < cs.len() && 0 <= i < bs.len() ==> (#[trigger] cs[k]).id != (#[trigger] bs[i]).id
    &&& forall|k1: int, k2: int|
        0 <= k1 < k2 < cs.len() ==> (#[trigger] cs[k1]).id != (#[trigger] cs[k2]).id
}

proof fn lemma_no_duplicate_errors(cs: Seq<CandidateModel>, bs: Seq<BuiltinModel>)
    ensures
        duplicate_errors(cs, bs).len() == 0 <==> ids_unclaimed(cs, bs),
    decreases cs.len(),
{
    if cs.len() > 0 {
        let p = cs.drop_last();
        let id = cs.last().id;
        lemma_no_duplicate_errors(p, bs);
        lemma_builtin_has_exists(bs, id);
        lemma_count_id_zero(p, id);
        let extra = if claims(bs, p, id) == 1 {
            seq![ErrorModel::DuplicateId { id }]
        } else {
            Seq::<ErrorModel>::empty()
        };
        assert(duplicate_errors(cs, bs) == duplicate_errors(p, bs) + extra);
        if ids_unclaimed(cs, bs) {
            assert(ids_unclaimed(p, bs)) by {
                assert forall|k: int, i: int| 0 <= k < p.len() && 0 <= i < bs.len() implies (
                #[trigger] p[k]).id != (#[trigger] bs[i]).id by {
                    assert(p[k] == cs[k]);
                }
                assert forall|k1: int, k2: int| 0 <= k1 < k2 < p.len() implies (
                #[trigger] p[k1]).id != (#[trigger] p[k2]).id by {
                    assert(p[k1] == cs[k1] && p[k2] == cs[k2]);
                }
            }
            assert forall|i: int| 0 <= i < bs.len() implies !((#[trigger] bs[i]).id == id) by {
                assert(cs[cs.len() - 1].id != bs[i].id);
            }
            assert forall|k: int| 0 <= k < p.len() implies (#[trigger] p[k]).id != id by {
                assert(p[k] == cs[k]);
                assert(cs[k].id != cs[cs.len() - 1].id);
            }
            assert(claims(bs, p, id) == 0);
        }
        if duplicate_errors(cs, bs).len() == 0 {
            assert(duplicate_errors(p, bs).len() == 0);
            assert(ids_unclaimed(p, bs));
            if claims(bs, p, id) >= 2 {
                if builtin_has(bs, id) {
                    assert(count_id(p, id) >= 1);
                    let k = choose|k: int| 0 <= k < p.len() && !((#[trigger] p[k]).id != id);
                    let i = choose|i: int| 0 <= i < bs.len() && (#[trigger] bs[i]).id == id;
                    assert(p[k].id != bs[i].id);
                } else {
                    lemma_count_id_two(p, id);
                    let (k1, k2) = choose|k1: int, k2: int|
                        0 <= k1 < k2 < p.len() && (#[trigger] p[k1]).id == id && (#[trigger] p[k2]).id
                            == id;
                    assert(p[k1].id != p[k2].id);
                }
            }
            assert(claims(bs, p, id) == 0);
            assert(!builtin_has(bs, id));
            assert forall|k: int, i: int| 0 <= k < cs.len() && 0 <= i < bs.len() implies (
            #[trigger] cs[k]).id != (#[trigger] bs[i]).id by {
                if k < p.len() {
                    assert(p[k] == cs[k]);
                } else if cs[k].id == bs[i].id {
                    assert(bs[i].id == id);
                }
            }
            assert forall|k1: int, k2: int| 0 <= k1 < k2 < cs.len() implies (
            #[trigger] cs[k1]).id != (#[trigger] cs[k2]).id by {
                assert(p[k1] == cs[k1]);
                if k2 < p.len() {
                    assert(p[k2] == cs[k2]);
                } else {
                    assert(p[k1].id != id);
                }
            }
        }
    } else {
        assert(duplicate_errors(cs, bs) =~= Seq::<ErrorModel>::empty());
    }
}

/// A required dependency is met when the set offers, under its id, a
/// version its constraint accepts.
pub open spec fn requirement_met(d: DependencyModel, bs: Seq<BuiltinModel>, cs: Seq<CandidateModel>) -> bool {
    d.optional || exists|v: VersionModel|
        versions_for(bs, cs, d.id).contains(v) && #[trigger] spec_matches(d.versions, v)
}

/// A breaks clause is hit when the set offers, under its id, a version its
/// constraint accepts.
pub open spec fn breakage_present(b: DependencyModel, bs: Seq<BuiltinModel>, cs: Seq<CandidateModel>) -> bool {
    exists|v: VersionModel|
        versions_for(bs, cs, b.id).contains(v) && #[trigger] spec_matches(b.versions, v)
}

proof fn lemma_first_match_none(spec: Seq<PredicateModel>, vs: Seq<VersionModel>)
    ensures
        first_match(spec, vs) is None <==> !exists|v: VersionModel|
            vs.contains(v) && #[trigger] spec_matches(spec, v),
    decreases vs.len(),
{
    if vs.len() > 0 {
        let r = vs.drop_first();
        lemma_first_match_none(spec, r);
        if exists|v: VersionModel| r.contains(v) && #[trigger] spec_matches(spec, v) {
            let v = choose|v: VersionModel| r.contains(v) && #[trigger] spec_matches(spec, v);
            let i = choose|i: int| 0 <= i < r.len() && r[i] == v;
            assert(vs[i + 1] == v);
        }
        if exists|v: VersionModel| vs.contains(v) && #[trigger] spec_matches(spec, v) {
            let v = choose|v: VersionModel| vs.contains(v) && #[trigger] spec_matches(spec, v);
            let i = choose|i: int| 0 <= i < vs.len() && vs[i] == v;
            if i > 0 {
                assert(r[i - 1] == v);
            }
        }
    }
}

proof fn lemma_dependency_errors_empty(mod_id: Seq<char>, d: DependencyModel, bs: Seq<BuiltinModel>, cs: Seq<CandidateModel>)
    ensures
        dependency_errors(mod_id, d, bs, cs).len() == 0 <==> requirement_met(d, bs, cs),
{
    let vs = versions_for(bs, cs, d.id);
    if any_matches(d.versions, vs) {
        let i = choose|i: int| 0 <= i < vs.len() && spec_matches(d.versions, #[trigger] vs[i]);
        assert(vs.contains(vs[i]));
    }
    if exists|v: VersionModel| vs.contains(v) && #[trigger] spec_matches(d.versions, v) {
        let v = choose|v: VersionModel| vs.contains(v) && #[trigger] spec_matches(d.versions, v);
        let i = choose|i: int| 0 <= i < vs.len() && vs[i] == v;
        assert(spec_matches(d.versions, vs[i]));
    }
}

proof fn lemma_depends_errors_empty(mod_id: Seq<char>, ds: Seq<DependencyModel>, bs: Seq<BuiltinModel>, cs: Seq<CandidateModel>)
    ensures
        depends_errors(mod_id, ds, bs, cs).len() == 0 <==> forall|m: int|
            0 <= m < ds.len() ==> requirement_met(#[trigger] ds[m], bs, cs),
    decreases ds.len(),
{
    if ds.len() > 0 {
        let p = ds.drop_last();
        lemma_depends_errors_empty(mod_id, p, bs, cs);
        lemma_dependency_errors_empty(mod_id, ds.last(), bs, cs);
        if forall|m: int| 0 <= m < ds.len() ==> requirement_met(#[trigger] ds[m], bs, cs) {
            assert forall|m: int| 0 <= m < p.len() implies requirement_met(#[trigger] p[m], bs, cs) by {
                assert(p[m] == ds[m]);
            }
            assert(requirement_met(ds[ds.len() - 1], bs, cs));
        }
        if depends_errors(mod_id, ds, bs, cs).len() == 0 {
            assert forall|m: int| 0 <= m < ds.len() implies requirement_met(#[trigger] ds[m], bs, cs) by {
                if m < p.len() {
                    assert(p[m] == ds[m]);
                }
            }
        }
    }
}

proof fn lemma_breaks_errors_empty(mod_id: Seq<char>, ds: Seq<DependencyModel>, bs: Seq<BuiltinModel>, cs: Seq<CandidateModel>)
    ensures
        breaks_errors(mod_id, ds, bs, cs).len() == 0 <==> forall|m: int|
            0 <= m < ds.len() ==> !breakage_present(#[trigger] ds[m], bs, cs),
    decreases ds.len(),
{
    if ds.len() > 0 {
        let p = ds.drop_last();
        lemma_breaks_errors_empty(mod_id, p, bs, cs);
        lemma_first_match_none(ds.last().versions, versions_for(bs, cs, ds.last().id));
        if forall|m: int| 0 <= m < ds.len() ==> !breakage_present(#[trigger] ds[m], bs, cs) {
            assert forall|m: int| 0 <= m < p.len() implies !breakage_present(#[trigger] p[m], bs, cs) by {
                assert(p[m] == ds[m]);
            }
            assert(!breakage_present(ds[ds.len() - 1], bs, cs));
        }
        if breaks_errors(mod_id, ds, bs, cs).len() == 0 {
            assert forall|m: int| 0 <= m < ds.len() implies !breakage_present(#[trigger] ds[m], bs, cs) by {
                if m < p.len() {
                    assert(p[m] == ds[m]);
                }
            }
        }
    }
}

/// Every clause of every checked mod is fine.
pub open spec fn clauses_fine(checked: Seq<CandidateModel>, bs: Seq<BuiltinModel>, cs: Seq<CandidateModel>) -> bool {
    &&& forall|k: int, m: int|
        0 <= k < checked.len() && 0 <= m < checked[k].depends.len() ==> requirement_met(
            #[trigger] checked[k].depends[m],
            bs,
            cs,
        )
    &&& forall|k: int, m: int|
        0 <= k < checked.len() && 0 <= m < checked[k].breaks.len() ==> !breakage_present(
            #[trigger] checked[k].breaks[m],
            bs,
            cs,
        )
}

proof fn lemma_clause_errors_empty(checked: Seq<CandidateModel>, bs: Seq<BuiltinModel>, cs: Seq<CandidateModel>)
    ensures
        clause_errors(checked, bs, cs).len() == 0 <==> clauses_fine(checked, bs, cs),
    decreases checked.len(),
{
    if checked.len() > 0 {
        let p = checked.drop_last();
        let c = checked.last();
        lemma_clause_errors_empty(p, bs, cs);
        lemma_depends_errors_empty(c.id, c.depends, bs, cs);
        lemma_breaks_errors_empty(c.id, c.breaks, bs, cs);
        if clauses_fine(checked, bs, cs) {
            assert forall|k: int, m: int| 0 <= k < p.len() && 0 <= m < p[k].depends.len() implies requirement_met(
                #[trigger] p[k].depends[m],
                bs,
                cs,
            ) by {
                assert(p[k] == checked[k]);
            }
            assert forall|k: int, m: int| 0 <= k < p.len() && 0 <= m < p[k].breaks.len() implies !breakage_present(
                #[trigger] p[k].breaks[m],
                bs,
                cs,
            ) by {
                assert(p[k] == checked[k]);
            }
            assert forall|m: int| 0 <= m < c.depends.len() implies requirement_met(#[trigger] c.depends[m], bs, cs) by {
                assert(checked[checked.len() - 1].depends[m] == c.depends[m]);
            }
            assert forall|m: int| 0 <= m < c.breaks.len() implies !breakage_present(#[trigger] c.breaks[m], bs, cs) by {
                assert(checked[checked.len() - 1].breaks[m] == c.breaks[m]);
            }
        }
        if clause_errors(checked, bs, cs).len() == 0 {
            assert forall|k: int, m: int|
                0 <= k < checked.len() && 0 <= m < checked[k].depends.len() implies requirement_met(
                #[trigger] checked[k].depends[m],
                bs,
                cs,
            ) by {
                if k < p.len() {
                    assert(p[k] == checked[k]);
                }
            }
            assert forall|k: int, m: int|
                0 <= k < checked.len() && 0 <= m < checked[k].breaks.len() implies !breakage_present(
                #[trigger] checked[k].breaks[m],
                bs,
                cs,
            ) by {
                if k < p.len() {
                    assert(p[k] == checked[k]);
                }
            }
        }
    }
}

/// `resolve` finds nothing wrong exactly when no candidate claims a
/// builtin's id or another candidate's, every required dependency of every
/// candidate is offered (by a builtin, a candidate or something a candidate
/// provides) in a version its constraint accepts, and no breaks clause
/// accepts an offered version.
pub proof fn lemma_resolve_clean_exactly_when(cs: Seq<CandidateModel>, bs: Seq<BuiltinModel>)
    ensures
        resolve_errors(cs, bs).len() == 0 <==> ids_unclaimed(cs, bs) && clauses_fine(cs, bs, cs),
{
    lemma_no_duplicate_errors(cs, bs);
    lemma_clause_errors_empty(cs, bs, cs);
}


/// What one dependency clause reports: nothing when it is met; when it is
/// required and nothing offers its id, one missing-dependency error naming
/// the mod, the id and the clause's reason; when versions are offered but
/// its constraint accepts none of them, one unsatisfied-version error naming
/// the mod and the id. A breaks clause reports one breakage, naming the mod,
/// the id and an offered version the clause accepts, exactly when there is
/// one.
pub proof fn lemma_clause_reports(
    mod_id: Seq<char>,
    d: DependencyModel,
    bs: Seq<BuiltinModel>,
    cs: Seq<CandidateModel>,
)
    ensures
        requirement_met(d, bs, cs) ==> dependency_errors(mod_id, d, bs, cs).len() == 0,
        !d.optional && versions_for(bs, cs, d.id).len() == 0 ==> dependency_errors(
            mod_id,
            d,
            bs,
            cs,
        ) == seq![ErrorModel::MissingDependency { mod_id, dependency: d.id, reason: d.reason }],
        !requirement_met(d, bs, cs) && versions_for(bs, cs, d.id).len() > 0 ==> {
            &&& dependency_errors(mod_id, d, bs, cs).len() == 1
            &&& dependency_errors(mod_id, d, bs, cs)[0] matches ErrorModel::UnsatisfiedVersion {
                mod_id: m,
                dependency: dep,
                ..
            } && m == mod_id && dep == d.id
        },
        breakage_errors(mod_id, d, bs, cs).len() > 0 <==> breakage_present(d, bs, cs),
        breakage_errors(mod_id, d, bs, cs).len() > 0 ==> {
            &&& breakage_errors(mod_id, d, bs, cs).len() == 1
            &&& exists|v: VersionModel|
                versions_for(bs, cs, d.id).contains(v) && spec_matches(d.versions, v)
                    && #[trigger] breakage_errors(mod_id, d, bs, cs)[0] == (ErrorModel::Breakage {
                    mod_id,
                    broken: d.id,
                    version: render_version(v),
                })
        },
{
    lemma_dependency_errors_empty(mod_id, d, bs, cs);
    let vs = versions_for(bs, cs, d.id);
    lemma_first_match_none(d.versions, vs);
    lemma_first_match_found(d.versions, vs);
    if !requirement_met(d, bs, cs) && vs.len() > 0 {
        assert(!d.optional);
        if any_matches(d.versions, vs) {
            let i = choose|i: int| 0 <= i < vs.len() && spec_matches(d.versions, #[trigger] vs[i]);
            assert(vs.contains(vs[i]));
        }
    }
    if let Some(v) = first_match(d.versions, vs) {
        assert(breakage_errors(mod_id, d, bs, cs)[0] == (ErrorModel::Breakage {
            mod_id,
            broken: d.id,
            version: render_version(v),
        }));
    }
}

proof fn lemma_first_match_found(spec: Seq<PredicateModel>, vs: Seq<VersionModel>)
    ensures
        first_match(spec, vs) matches Some(v) ==> vs.contains(v) && spec_matches(spec, v),
    decreases vs.len(),
{
    if vs.len() > 0 && !spec_matches(spec, vs[0]) {
        lemma_first_match_found(spec, vs.drop_first());
        if let Some(v) = first_match(spec, vs) {
            let i = choose|i: int| 0 <= i < vs.drop_first().len() && vs.drop_first()[i] == v;
            assert(vs[i + 1] == v);
        }
    } else if vs.len() > 0 {
        assert(vs.contains(vs[0]));
    }
}

} // verus!
