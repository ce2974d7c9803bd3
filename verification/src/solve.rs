//! Multi-version dependency selection.
//!
//! Candidates are grouped by id (groups in ascending id order); each group is
//! a variable whose domain is its candidates ordered newest-first. A
//! depth-first search returns the first complete selection, in the
//! lexicographic order of those domains, in which every non-optional
//! `depends` clause is satisfied and no `breaks` clause matches. Because each
//! domain lists newer versions first, that is the highest-version selection
//! consistent with the graph. When no selection works, the per-clause
//! diagnostics of [`crate::resolve::resolve`] explain what is missing.

use vstd::prelude::*;

use crate::constraint::{PredicateModel, spec_matches};
use crate::metadata::{CandidateModel, DependencyModel, ModCandidate};
use crate::resolve::{
    BuiltinMod, BuiltinModel, ErrorModel, Resolution, ResolutionError, any_matches,
    any_version_matches, builtin_versions, builtin_views, candidate_versions, candidate_views,
    candidates_versions, error_views, clauses_fine, requirement_met, breakage_present,
    offered_versions, resolve, resolve_errors, selected, versions_for,
};
use crate::text::{chars_equal, chars_of, string_of, views};
use crate::version::{
    SemModel, VersionModel, compare_chars, compare_semantic, compare_text, lemma_text_laws, render_version,
};

verus! {

// ---------------------------------------------------------------------------
// Exact duplicates: the same id and the same rendered version.

pub open spec fn same_key(a: CandidateModel, b: CandidateModel) -> bool {
    a.id == b.id && render_version(a.version) == render_version(b.version)
}

pub open spec fn repeats_earlier(cs: Seq<CandidateModel>, i: int) -> bool {
    exists|j: int| 0 <= j < i && same_key(#[trigger] cs[j], cs[i])
}

/// The id of the first candidate whose id and version an earlier one shares.
pub open spec fn first_duplicate_from(cs: Seq<CandidateModel>, i: int) -> Option<Seq<char>>
    decreases cs.len() - i,
{
    if i < 0 || i >= cs.len() {
        None
    } else if repeats_earlier(cs, i) {
        Some(cs[i].id)
    } else {
        first_duplicate_from(cs, i + 1)
    }
}

pub open spec fn first_duplicate(cs: Seq<CandidateModel>) -> Option<Seq<char>> {
    first_duplicate_from(cs, 0)
}

// ---------------------------------------------------------------------------
// Groups and their domains.

/// Adds `x` to an ascending list of distinct ids.
pub open spec fn insert_sorted(s: Seq<Seq<char>>, x: Seq<char>) -> Seq<Seq<char>>
    decreases s.len(),
{
    if s.len() == 0 {
        seq![x]
    } else if compare_text(x, s[0]) == 0 {
        s
    } else if compare_text(x, s[0]) < 0 {
        seq![x] + s
    } else {
        seq![s[0]] + insert_sorted(s.drop_first(), x)
    }
}

/// The distinct ids of the candidates, ascending.
pub open spec fn sorted_ids(cs: Seq<CandidateModel>) -> Seq<Seq<char>>
    decreases cs.len(),
{
    if cs.len() == 0 {
        seq![]
    } else {
        insert_sorted(sorted_ids(cs.drop_last()), cs.last().id)
    }
}

/// The indices below `n` of the candidates with id `id`, ascending.
pub open spec fn indices_with(cs: Seq<CandidateModel>, id: Seq<char>, n: int) -> Seq<usize>
    decreases n,
{
    if n <= 0 {
        seq![]
    } else if cs[n - 1].id == id {
        indices_with(cs, id, n - 1).push((n - 1) as usize)
    } else {
        indices_with(cs, id, n - 1)
    }
}

/// Whether candidate `x` sorts before candidate `y`: both versions are
/// semantic and `x`'s is newer. Non-semantic versions never move.
pub open spec fn newer(cs: Seq<CandidateModel>, x: usize, y: usize) -> bool {
    match (cs[x as int].version, cs[y as int].version) {
        (VersionModel::Semantic(a), VersionModel::Semantic(b)) => compare_semantic(b, a) < 0,
        _ => false,
    }
}

/// Inserts `x` into a sorted list from the right, passing the elements it is
/// newer than (one step of a stable insertion sort).
pub open spec fn insert_back(cs: Seq<CandidateModel>, s: Seq<usize>, x: usize) -> Seq<usize>
    decreases s.len(),
{
    if s.len() == 0 {
        seq![x]
    } else if newer(cs, x, s.last()) {
        insert_back(cs, s.drop_last(), x).push(s.last())
    } else {
        s.push(x)
    }
}

/// The stable newest-first order of `s`.
pub open spec fn newest_first(cs: Seq<CandidateModel>, s: Seq<usize>) -> Seq<usize>
    decreases s.len(),
{
    if s.len() == 0 {
        seq![]
    } else {
        insert_back(cs, newest_first(cs, s.drop_last()), s.last())
    }
}

/// One domain per id, ids ascending, each newest first.
pub open spec fn domains_of(cs: Seq<CandidateModel>) -> Seq<Seq<usize>> {
    sorted_ids(cs).map_values(
        |id: Seq<char>| newest_first(cs, indices_with(cs, id, cs.len() as int)),
    )
}

// ---------------------------------------------------------------------------
// Selections.

/// A choice picks a position in every domain.
pub open spec fn valid_choice(domains: Seq<Seq<usize>>, c: Seq<int>) -> bool {
    &&& c.len() == domains.len()
    &&& forall|k: int| 0 <= k < c.len() ==> 0 <= #[trigger] c[k] < domains[k].len()
}

/// The candidate indices a (partial) choice selects.
pub open spec fn assign(domains: Seq<Seq<usize>>, c: Seq<int>) -> Seq<usize> {
    Seq::new(c.len(), |k: int| domains[k][c[k]])
}

/// `c` is a complete choice that starts with `p`.
pub open spec fn completes(domains: Seq<Seq<usize>>, p: Seq<int>, c: Seq<int>) -> bool {
    valid_choice(domains, c) && p.len() <= c.len() && c.take(p.len() as int) == p
}

/// `a` comes before `b` in the lexicographic order of positions.
pub open spec fn lex_less(a: Seq<int>, b: Seq<int>) -> bool {
    exists|k: int|
        0 <= k < a.len() && k < b.len() && a.take(k) == b.take(k) && #[trigger] a[k] < b[k]
}

pub open spec fn dependency_met(
    d: DependencyModel,
    bs: Seq<BuiltinModel>,
    sel: Seq<CandidateModel>,
) -> bool {
    d.optional || any_matches(d.versions, versions_for(bs, sel, d.id))
}

pub open spec fn breakage_hit(
    b: DependencyModel,
    bs: Seq<BuiltinModel>,
    sel: Seq<CandidateModel>,
) -> bool {
    any_matches(b.versions, versions_for(bs, sel, b.id))
}

/// Every required dependency of every selected mod is met by the builtins
/// and the selected mods.
pub open spec fn depends_met(cs: Seq<CandidateModel>, bs: Seq<BuiltinModel>, a: Seq<usize>) -> bool {
    forall|k: int, m: int|
        0 <= k < a.len() && 0 <= m < cs[a[k] as int].depends.len() ==> dependency_met(
            #[trigger] cs[a[k] as int].depends[m],
            bs,
            selected(cs, a),
        )
}

/// Some selected mod breaks a present provider.
pub open spec fn breaks_conflict(cs: Seq<CandidateModel>, bs: Seq<BuiltinModel>, a: Seq<usize>) -> bool {
    exists|k: int, m: int|
        0 <= k < a.len() && 0 <= m < cs[a[k] as int].breaks.len() && breakage_hit(
            #[trigger] cs[a[k] as int].breaks[m],
            bs,
            selected(cs, a),
        )
}

pub open spec fn consistent(cs: Seq<CandidateModel>, bs: Seq<BuiltinModel>, a: Seq<usize>) -> bool {
    depends_met(cs, bs, a) && !breaks_conflict(cs, bs, a)
}

/// `c` is consistent and no earlier complete choice is.
pub open spec fn first_solution(
    cs: Seq<CandidateModel>,
    bs: Seq<BuiltinModel>,
    domains: Seq<Seq<usize>>,
    c: Seq<int>,
) -> bool {
    &&& valid_choice(domains, c)
    &&& consistent(cs, bs, assign(domains, c))
    &&& forall|c2: Seq<int>|
        #![trigger lex_less(c2, c)]
        valid_choice(domains, c2) && lex_less(c2, c) ==> !consistent(cs, bs, assign(domains, c2))
}

pub open spec fn has_solution(
    cs: Seq<CandidateModel>,
    bs: Seq<BuiltinModel>,
    domains: Seq<Seq<usize>>,
) -> bool {
    exists|c: Seq<int>| valid_choice(domains, c) && consistent(cs, bs, #[trigger] assign(domains, c))
}

/// The candidates whose indices are selected, in input order.
pub open spec fn kept(v: Seq<ModCandidate>, a: Seq<usize>) -> Seq<ModCandidate>
    decreases v.len(),
{
    if v.len() == 0 {
        seq![]
    } else if a.contains((v.len() - 1) as usize) {
        kept(v.drop_last(), a).push(v.last())
    } else {
        kept(v.drop_last(), a)
    }
}

/// The diagnostics when no selection is consistent: the single-version
/// problems, or a version conflict when there are none.
pub open spec fn fallback_errors(cs: Seq<CandidateModel>, bs: Seq<BuiltinModel>) -> Seq<ErrorModel> {
    let e = resolve_errors(cs, bs);
    if e.len() == 0 {
        seq![ErrorModel::DuplicateId { id: "<conflicting versions>"@ }]
    } else {
        e
    }
}

// ---------------------------------------------------------------------------
// Executable code: duplicates and domains.

fn same_chars_id(a: &ModCandidate, b: &ModCandidate) -> (r: bool)
    ensures
        r == (a@.id == b@.id),
{
    let x = chars_of(a.id.as_str());
    let y = chars_of(b.id.as_str());
    chars_equal(x.as_slice(), y.as_slice())
}

fn find_exact_duplicate(candidates: &Vec<ModCandidate>) -> (r: Option<String>)
    ensures
        match r {
            Some(id) => first_duplicate(candidate_views(candidates@)) == Some(id@),
            None => first_duplicate(candidate_views(candidates@)) is None,
        },
{
    let ghost cs = candidate_views(candidates@);
    let mut keys: Vec<Vec<char>> = Vec::new();
    let mut i: usize = 0;
    while i < candidates.len()
        invariant
            i <= candidates@.len(),
            cs == candidate_views(candidates@),
            keys@.len() == i,
            forall|k: int| 0 <= k < i ==> #[trigger] keys@[k]@ == render_version(cs[k].version),
        decreases candidates@.len() - i,
    {
        keys.push(candidates[i].version.render());
        i = i + 1;
    }
    let mut i: usize = 0;
    while i < candidates.len()
        invariant
            i <= candidates@.len(),
            cs == candidate_views(candidates@),
            keys@.len() == candidates@.len(),
            forall|k: int| 0 <= k < keys@.len() ==> #[trigger] keys@[k]@ == render_version(cs[k].version),
            first_duplicate(cs) == first_duplicate_from(cs, i as int),
        decreases candidates@.len() - i,
    {
        let mut j: usize = 0;
        while j < i
            invariant
                j <= i < candidates@.len(),
                cs == candidate_views(candidates@),
                keys@.len() == candidates@.len(),
                forall|k: int| 0 <= k < keys@.len() ==> #[trigger] keys@[k]@ == render_version(cs[k].version),
                forall|k: int| 0 <= k < j ==> !same_key(#[trigger] cs[k], cs[i as int]),
                first_duplicate(cs) == first_duplicate_from(cs, i as int),
            decreases i - j,
        {
            if same_chars_id(&candidates[j], &candidates[i]) && chars_equal(
                keys[j].as_slice(),
                keys[i].as_slice(),
            ) {
                assert(same_key(cs[j as int], cs[i as int]));
                return Some(candidates[i].id.clone());
            }
            j = j + 1;
        }
        i = i + 1;
    }
    None
}

fn insert_sorted_exec(ids: &mut Vec<Vec<char>>, x: Vec<char>)
    ensures
        views(final(ids)@) == insert_sorted(views(old(ids)@), x@),
{
    let ghost s = views(ids@);
    let mut p: usize = 0;
    assert(s.take(0) + s.skip(0) =~= s);
    loop
        invariant
            p <= ids@.len(),
            s == views(ids@),
            s == views(old(ids)@),
            insert_sorted(s, x@) == s.take(p as int) + insert_sorted(s.skip(p as int), x@),
        decreases ids@.len() - p,
    {
        if p == ids.len() {
            assert(s.skip(p as int) =~= Seq::<Seq<char>>::empty());
            ids.push(x);
            assert(views(ids@) =~= s.take(p as int) + seq![x@]);
            assert(s.take(p as int) =~= s);
            return;
        }
        let c = compare_chars(x.as_slice(), ids[p].as_slice());
        assert(s.skip(p as int)[0] == ids@[p as int]@);
        if c == 0 {
            assert(s.take(p as int) + s.skip(p as int) =~= s);
            return;
        }
        if c < 0 {
            ids.insert(p, x);
            assert(views(ids@) =~= s.take(p as int) + (seq![x@] + s.skip(p as int)));
            return;
        }
        assert(s.skip(p as int).drop_first() =~= s.skip(p + 1));
        assert(s.take(p as int) + (seq![s[p as int]] + insert_sorted(s.skip(p + 1), x@))
            =~= s.take(p + 1) + insert_sorted(s.skip(p + 1), x@));
        p = p + 1;
    }
}

fn sorted_ids_exec(candidates: &Vec<ModCandidate>) -> (r: Vec<Vec<char>>)
    ensures
        views(r@) == sorted_ids(candidate_views(candidates@)),
{
    let ghost cs = candidate_views(candidates@);
    let mut ids: Vec<Vec<char>> = Vec::new();
    let mut i: usize = 0;
    assert(views(ids@) =~= Seq::<Seq<char>>::empty());
    while i < candidates.len()
        invariant
            i <= candidates@.len(),
            cs == candidate_views(candidates@),
            views(ids@) == sorted_ids(cs.take(i as int)),
        decreases candidates@.len() - i,
    {
        assert(cs.take(i + 1).drop_last() =~= cs.take(i as int));
        let x = chars_of(candidates[i].id.as_str());
        insert_sorted_exec(&mut ids, x);
        i = i + 1;
    }
    assert(cs.take(candidates@.len() as int) =~= cs);
    ids
}

fn indices_with_exec(candidates: &Vec<ModCandidate>, id: &Vec<char>) -> (r: Vec<usize>)
    ensures
        r@ == indices_with(candidate_views(candidates@), id@, candidates@.len() as int),
        forall|k: int| 0 <= k < r@.len() ==> #[trigger] r@[k] < candidates@.len(),
{
    let ghost cs = candidate_views(candidates@);
    let mut out: Vec<usize> = Vec::new();
    let mut i: usize = 0;
    while i < candidates.len()
        invariant
            i <= candidates@.len(),
            cs == candidate_views(candidates@),
            out@ == indices_with(cs, id@, i as int),
            forall|k: int| 0 <= k < out@.len() ==> #[trigger] out@[k] < i,
        decreases candidates@.len() - i,
    {
        let c = chars_of(candidates[i].id.as_str());
        if chars_equal(c.as_slice(), id.as_slice()) {
            out.push(i);
        }
        i = i + 1;
    }
    out
}

fn newer_exec(candidates: &Vec<ModCandidate>, x: usize, y: usize) -> (r: bool)
    requires
        x < candidates@.len(),
        y < candidates@.len(),
    ensures
        r == newer(candidate_views(candidates@), x, y),
{
    match (candidates[x].version.as_semantic(), candidates[y].version.as_semantic()) {
        (Some(a), Some(b)) => b.compare(a) < 0,
        _ => false,
    }
}

fn insert_position(candidates: &Vec<ModCandidate>, sorted: &Vec<usize>, x: usize) -> (j: usize)
    requires
        x < candidates@.len(),
        forall|k: int| 0 <= k < sorted@.len() ==> #[trigger] sorted@[k] < candidates@.len(),
    ensures
        j <= sorted@.len(),
        insert_back(candidate_views(candidates@), sorted@, x) == sorted@.take(j as int).push(x)
            + sorted@.skip(j as int),
{
    let ghost cs = candidate_views(candidates@);
    let ghost s = sorted@;
    let mut j: usize = sorted.len();
    assert(s.take(j as int) =~= s);
    assert(s.skip(j as int) =~= Seq::<usize>::empty());
    while j > 0 && newer_exec(candidates, x, sorted[j - 1])
        invariant
            j <= s.len(),
            s == sorted@,
            cs == candidate_views(candidates@),
            x < candidates@.len(),
            forall|k: int| 0 <= k < sorted@.len() ==> #[trigger] sorted@[k] < candidates@.len(),
            insert_back(cs, s, x) == insert_back(cs, s.take(j as int), x) + s.skip(j as int),
        decreases j,
    {
        proof {
            lemma_insert_back_step(cs, s, x, j as int);
        }
        j = j - 1;
    }
    proof {
        if j > 0 {
            assert(s.take(j as int).drop_last() =~= s.take(j - 1));
            assert(s.take(j as int).last() == s[j - 1]);
        } else {
            assert(s.take(0) =~= Seq::<usize>::empty());
            assert(insert_back(cs, s.take(0), x) =~= s.take(0).push(x));
        }
    }
    j
}

proof fn lemma_insert_back_step(cs: Seq<CandidateModel>, s: Seq<usize>, x: usize, j: int)
    requires
        0 < j <= s.len(),
        newer(cs, x, s[j - 1]),
        insert_back(cs, s, x) == insert_back(cs, s.take(j), x) + s.skip(j),
    ensures
        insert_back(cs, s, x) == insert_back(cs, s.take(j - 1), x) + s.skip(j - 1),
{
    assert(s.take(j).drop_last() =~= s.take(j - 1));
    assert(s.take(j).last() == s[j - 1]);
    assert(seq![s[j - 1]] + s.skip(j) =~= s.skip(j - 1));
    assert(insert_back(cs, s.take(j - 1), x).push(s[j - 1]) + s.skip(j) =~= insert_back(
        cs,
        s.take(j - 1),
        x,
    ) + s.skip(j - 1));
}

fn insert_back_exec(candidates: &Vec<ModCandidate>, sorted: &Vec<usize>, x: usize) -> (r: Vec<usize>)
    requires
        x < candidates@.len(),
        forall|k: int| 0 <= k < sorted@.len() ==> #[trigger] sorted@[k] < candidates@.len(),
    ensures
        r@ == insert_back(candidate_views(candidates@), sorted@, x),
        forall|k: int| 0 <= k < r@.len() ==> #[trigger] r@[k] < candidates@.len(),
{
    let ghost s = sorted@;
    let j = insert_position(candidates, sorted, x);
    let mut out: Vec<usize> = Vec::new();
    let mut k: usize = 0;
    while k < j
        invariant
            k <= j <= s.len(),
            s == sorted@,
            out@ == s.take(k as int),
        decreases j - k,
    {
        out.push(sorted[k]);
        k = k + 1;
        assert(out@ =~= s.take(k as int));
    }
    out.push(x);
    let mut k = j;
    while k < sorted.len()
        invariant
            j <= k <= s.len(),
            s == sorted@,
            out@ == s.take(j as int).push(x) + s.subrange(j as int, k as int),
        decreases s.len() - k,
    {
        out.push(sorted[k]);
        k = k + 1;
        assert(out@ =~= s.take(j as int).push(x) + s.subrange(j as int, k as int));
    }
    assert(s.subrange(j as int, s.len() as int) =~= s.skip(j as int));
    out
}

fn newest_first_exec(candidates: &Vec<ModCandidate>, members: &Vec<usize>) -> (r: Vec<usize>)
    requires
        forall|k: int| 0 <= k < members@.len() ==> #[trigger] members@[k] < candidates@.len(),
    ensures
        r@ == newest_first(candidate_views(candidates@), members@),
        forall|k: int| 0 <= k < r@.len() ==> #[trigger] r@[k] < candidates@.len(),
{
    let ghost cs = candidate_views(candidates@);
    let mut sorted: Vec<usize> = Vec::new();
    let mut i: usize = 0;
    while i < members.len()
        invariant
            i <= members@.len(),
            cs == candidate_views(candidates@),
            forall|k: int| 0 <= k < members@.len() ==> #[trigger] members@[k] < candidates@.len(),
            forall|k: int| 0 <= k < sorted@.len() ==> #[trigger] sorted@[k] < candidates@.len(),
            sorted@ == newest_first(cs, members@.take(i as int)),
        decreases members@.len() - i,
    {
        assert(members@.take(i + 1).drop_last() =~= members@.take(i as int));
        sorted = insert_back_exec(candidates, &sorted, members[i]);
        i = i + 1;
    }
    assert(members@.take(members@.len() as int) =~= members@);
    sorted
}

/// The search domains: one per id, ids ascending, each newest first.
fn domains_exec(candidates: &Vec<ModCandidate>) -> (r: Vec<Vec<usize>>)
    ensures
        domain_views(r@) == domains_of(candidate_views(candidates@)),
        forall|k: int, m: int|
            0 <= k < r@.len() && 0 <= m < r@[k]@.len() ==> #[trigger] r@[k]@[m]
                < candidates@.len(),
{
    let ghost cs = candidate_views(candidates@);
    let ids = sorted_ids_exec(candidates);
    let mut domains: Vec<Vec<usize>> = Vec::new();
    let mut k: usize = 0;
    while k < ids.len()
        invariant
            k <= ids@.len(),
            cs == candidate_views(candidates@),
            views(ids@) == sorted_ids(cs),
            domain_views(domains@) == domains_of(cs).take(k as int),
            forall|a: int, m: int|
                0 <= a < domains@.len() && 0 <= m < domains@[a]@.len() ==> #[trigger] domains@[a]@[m]
                    < candidates@.len(),
        decreases ids@.len() - k,
    {
        let members = indices_with_exec(candidates, &ids[k]);
        let d = newest_first_exec(candidates, &members);
        let ghost before = domains@;
        domains.push(d);
        assert(domain_views(domains@) =~= domain_views(before).push(d@));
        assert(views(ids@)[k as int] == ids@[k as int]@);
        assert(domains_of(cs).take(k + 1) =~= domains_of(cs).take(k as int).push(d@));
        k = k + 1;
    }
    assert(domains_of(cs).take(ids@.len() as int) =~= domains_of(cs));
    domains
}

pub open spec fn domain_views(v: Seq<Vec<usize>>) -> Seq<Seq<usize>> {
    v.map_values(|d: Vec<usize>| d@)
}

// ---------------------------------------------------------------------------
// Executable code: consistency and search.

pub open spec fn indices_below(a: Seq<usize>, n: int) -> bool {
    forall|k: int| 0 <= k < a.len() ==> #[trigger] a[k] < n
}

fn breaks_conflict_exec(
    candidates: &Vec<ModCandidate>,
    builtins: &[BuiltinMod],
    assignment: &Vec<usize>,
) -> (r: bool)
    requires
        indices_below(assignment@, candidates@.len() as int),
    ensures
        r == breaks_conflict(candidate_views(candidates@), builtin_views(builtins@), assignment@),
{
    let ghost cs = candidate_views(candidates@);
    let ghost bs = builtin_views(builtins@);
    let ghost a = assignment@;
    let mut k: usize = 0;
    while k < assignment.len()
        invariant
            k <= a.len(),
            a == assignment@,
            cs == candidate_views(candidates@),
            bs == builtin_views(builtins@),
            indices_below(a, candidates@.len() as int),
            forall|k2: int, m: int|
                0 <= k2 < k && 0 <= m < cs[a[k2] as int].breaks.len() ==> !breakage_hit(
                    #[trigger] cs[a[k2] as int].breaks[m],
                    bs,
                    selected(cs, a),
                ),
        decreases a.len() - k,
    {
        let c = &candidates[assignment[k]];
        let mut m: usize = 0;
        while m < c.breaks.len()
            invariant
                k < a.len(),
                m <= c.breaks@.len(),
                a == assignment@,
                cs == candidate_views(candidates@),
                bs == builtin_views(builtins@),
                indices_below(a, candidates@.len() as int),
                c@ == cs[a[k as int] as int],
                forall|k2: int, m2: int|
                    0 <= k2 < k && 0 <= m2 < cs[a[k2] as int].breaks.len() ==> !breakage_hit(
                        #[trigger] cs[a[k2] as int].breaks[m2],
                        bs,
                        selected(cs, a),
                    ),
                forall|m2: int|
                    0 <= m2 < m ==> !breakage_hit(
                        #[trigger] cs[a[k as int] as int].breaks[m2],
                        bs,
                        selected(cs, a),
                    ),
            decreases c.breaks@.len() - m,
        {
            let b = &c.breaks[m];
            assert(cs[a[k as int] as int].breaks[m as int] == b@);
            let versions = offered_versions(builtins, candidates, assignment, &b.id);
            if any_version_matches(&b.versions, &versions) {
                assert(breakage_hit(cs[a[k as int] as int].breaks[m as int], bs, selected(cs, a)));
                return true;
            }
            m = m + 1;
        }
        k = k + 1;
    }
    false
}

fn depends_met_exec(
    candidates: &Vec<ModCandidate>,
    builtins: &[BuiltinMod],
    assignment: &Vec<usize>,
) -> (r: bool)
    requires
        indices_below(assignment@, candidates@.len() as int),
    ensures
        r == depends_met(candidate_views(candidates@), builtin_views(builtins@), assignment@),
{
    let ghost cs = candidate_views(candidates@);
    let ghost bs = builtin_views(builtins@);
    let ghost a = assignment@;
    let mut k: usize = 0;
    while k < assignment.len()
        invariant
            k <= a.len(),
            a == assignment@,
            cs == candidate_views(candidates@),
            bs == builtin_views(builtins@),
            indices_below(a, candidates@.len() as int),
            forall|k2: int, m: int|
                0 <= k2 < k && 0 <= m < cs[a[k2] as int].depends.len() ==> dependency_met(
                    #[trigger] cs[a[k2] as int].depends[m],
                    bs,
                    selected(cs, a),
                ),
        decreases a.len() - k,
    {
        let c = &candidates[assignment[k]];
        let mut m: usize = 0;
        while m < c.depends.len()
            invariant
                k < a.len(),
                m <= c.depends@.len(),
                a == assignment@,
                cs == candidate_views(candidates@),
                bs == builtin_views(builtins@),
                indices_below(a, candidates@.len() as int),
                c@ == cs[a[k as int] as int],
                forall|k2: int, m2: int|
                    0 <= k2 < k && 0 <= m2 < cs[a[k2] as int].depends.len() ==> dependency_met(
                        #[trigger] cs[a[k2] as int].depends[m2],
                        bs,
                        selected(cs, a),
                    ),
                forall|m2: int|
                    0 <= m2 < m ==> dependency_met(
                        #[trigger] cs[a[k as int] as int].depends[m2],
                        bs,
                        selected(cs, a),
                    ),
            decreases c.depends@.len() - m,
        {
            let d = &c.depends[m];
            assert(cs[a[k as int] as int].depends[m as int] == d@);
            if !d.optional {
                let versions = offered_versions(builtins, candidates, assignment, &d.id);
                if !any_version_matches(&d.versions, &versions) {
                    assert(!dependency_met(cs[a[k as int] as int].depends[m as int], bs, selected(cs, a)));
                    return false;
                }
            }
            m = m + 1;
        }
        k = k + 1;
    }
    true
}

proof fn lemma_candidates_versions_concat(x: Seq<CandidateModel>, y: Seq<CandidateModel>, id: Seq<char>)
    ensures
        candidates_versions(x + y, id) == candidates_versions(x, id) + candidates_versions(y, id),
    decreases y.len(),
{
    if y.len() == 0 {
        assert(x + y =~= x);
        assert(candidates_versions(x, id) + candidates_versions(y, id) =~= candidates_versions(
            x,
            id,
        ));
    } else {
        lemma_candidates_versions_concat(x, y.drop_last(), id);
        assert((x + y).drop_last() =~= x + y.drop_last());
        assert((x + y).last() == y.last());
        assert(candidates_versions(x + y, id) =~= candidates_versions(x, id) + candidates_versions(
            y,
            id,
        ));
    }
}

/// A breakage among the mods of a selection persists in every larger selection.
proof fn lemma_conflict_extends(
    cs: Seq<CandidateModel>,
    bs: Seq<BuiltinModel>,
    a: Seq<usize>,
    a2: Seq<usize>,
)
    requires
        a.len() <= a2.len(),
        a2.take(a.len() as int) == a,
        breaks_conflict(cs, bs, a),
    ensures
        breaks_conflict(cs, bs, a2),
{
    let e = a2.skip(a.len() as int);
    assert(a2 =~= a + e);
    assert(selected(cs, a2) =~= selected(cs, a) + selected(cs, e));
    let (k, m) = choose|k: int, m: int|
        0 <= k < a.len() && 0 <= m < cs[a[k] as int].breaks.len() && breakage_hit(
            #[trigger] cs[a[k] as int].breaks[m],
            bs,
            selected(cs, a),
        );
    let b = cs[a[k] as int].breaks[m];
    lemma_candidates_versions_concat(selected(cs, a), selected(cs, e), b.id);
    let vs = versions_for(bs, selected(cs, a), b.id);
    let vs2 = versions_for(bs, selected(cs, a2), b.id);
    assert(vs2 =~= vs + candidates_versions(selected(cs, e), b.id));
    let i = choose|i: int| 0 <= i < vs.len() && crate::constraint::spec_matches(
        b.versions,
        #[trigger] vs[i],
    );
    assert(vs2[i] == vs[i]);
    assert(breakage_hit(b, bs, selected(cs, a2)));
    assert(a2[k] == a[k]);
    assert(breakage_hit(cs[a2[k] as int].breaks[m], bs, selected(cs, a2)));
}

proof fn lemma_lex_cases(dv: Seq<Seq<usize>>, p: Seq<int>, pos: int, c: Seq<int>, c2: Seq<int>)
    requires
        completes(dv, p.push(pos), c),
        completes(dv, p, c2),
        lex_less(c2, c),
    ensures
        c2[p.len() as int] < pos || (completes(dv, p.push(pos), c2) && lex_less(c2, c)),
{
    let d = p.len() as int;
    let k = choose|k: int| 0 <= k < c2.len() && k < c.len() && c2.take(k) == c.take(k) && #[trigger] c2[k] < c[k];
    assert(c.take(d + 1)[d] == pos);
    assert(c[d] == pos);
    if k < d {
        assert(c2.take(d)[k] == p[k]);
        assert(c.take(d + 1)[k] == p.push(pos)[k]);
        assert(c2[k] == c[k]);
    } else if k > d {
        assert(c2.take(k)[d] == c.take(k)[d]);
        assert(c2.take(d + 1) =~= p.push(pos));
    }
}

proof fn lemma_completes_parent(dv: Seq<Seq<usize>>, p: Seq<int>, pos: int, c: Seq<int>)
    requires
        completes(dv, p.push(pos), c),
    ensures
        completes(dv, p, c),
        c[p.len() as int] == pos,
{
    assert(c.take(p.len() as int) =~= c.take(p.len() as int + 1).take(p.len() as int));
    assert(p.push(pos).take(p.len() as int) =~= p);
    assert(c.take(p.len() as int + 1)[p.len() as int] == pos);
}

proof fn lemma_completes_child(dv: Seq<Seq<usize>>, p: Seq<int>, c: Seq<int>)
    requires
        completes(dv, p, c),
        p.len() < c.len(),
    ensures
        completes(dv, p.push(c[p.len() as int]), c),
{
    assert(c.take(p.len() as int + 1) =~= c.take(p.len() as int).push(c[p.len() as int]));
}

proof fn lemma_assign_prefix(dv: Seq<Seq<usize>>, p: Seq<int>, c: Seq<int>)
    requires
        completes(dv, p, c),
    ensures
        assign(dv, c).take(p.len() as int) == assign(dv, p),
{
    assert forall|k: int| 0 <= k < p.len() implies assign(dv, c)[k] == #[trigger] assign(dv, p)[k] by {
        assert(c.take(p.len() as int)[k] == c[k]);
    }
    assert(assign(dv, c).take(p.len() as int) =~= assign(dv, p));
}

/// Depth-first assignment of one candidate per domain, first in the
/// lexicographic order of domain positions.
fn search(
    domains: &Vec<Vec<usize>>,
    depth: usize,
    candidates: &Vec<ModCandidate>,
    builtins: &[BuiltinMod],
    assignment: &mut Vec<usize>,
    Ghost(p): Ghost<Seq<int>>,
) -> (r: (bool, Ghost<Seq<int>>))
    requires
        depth <= domains@.len(),
        p.len() == depth,
        forall|k: int| 0 <= k < depth ==> 0 <= #[trigger] p[k] < domains@[k]@.len(),
        old(assignment)@ == assign(domain_views(domains@), p),
        forall|k: int, m: int|
            0 <= k < domains@.len() && 0 <= m < domains@[k]@.len() ==> #[trigger] domains@[k]@[m]
                < candidates@.len(),
    ensures
        r.0 ==> completes(domain_views(domains@), p, r.1@) && consistent(
            candidate_views(candidates@),
            builtin_views(builtins@),
            assign(domain_views(domains@), r.1@),
        ) && final(assignment)@ == assign(domain_views(domains@), r.1@) && forall|c2: Seq<int>|
            #![trigger lex_less(c2, r.1@)]
            completes(domain_views(domains@), p, c2) && lex_less(c2, r.1@) ==> !consistent(
                candidate_views(candidates@),
                builtin_views(builtins@),
                assign(domain_views(domains@), c2),
            ),
        !r.0 ==> final(assignment)@ == old(assignment)@ && forall|c: Seq<int>|
            #[trigger] completes(domain_views(domains@), p, c) ==> !consistent(
                candidate_views(candidates@),
                builtin_views(builtins@),
                assign(domain_views(domains@), c),
            ),
    decreases domains@.len() - depth,
{
    let ghost dv = domain_views(domains@);
    let ghost cs = candidate_views(candidates@);
    let ghost bs = builtin_views(builtins@);
    proof {
        assert forall|k: int| 0 <= k < assignment@.len() implies #[trigger] assignment@[k]
            < candidates@.len() by {
            assert(assignment@[k] == domains@[k]@[p[k]]);
        }
    }
    if depth == domains.len() {
        let ok = depends_met_exec(candidates, builtins, assignment) && !breaks_conflict_exec(
            candidates,
            builtins,
            assignment,
        );
        proof {
            assert(p.take(p.len() as int) =~= p);
            assert forall|c: Seq<int>| #[trigger] completes(dv, p, c) implies c == p by {
                assert(c.take(p.len() as int) =~= c);
            }
            assert forall|c2: Seq<int>| #![trigger lex_less(c2, p)] completes(dv, p, c2)
                && lex_less(c2, p) implies !consistent(cs, bs, assign(dv, c2)) by {
                assert(c2 == p);
            }
        }
        return (ok, Ghost(p));
    }
    let n = domains.len();
    let mut pos: usize = 0;
    while pos < domains[depth].len()
        invariant
            n == domains@.len(),
            depth < n,
            p.len() == depth,
            dv == domain_views(domains@),
            cs == candidate_views(candidates@),
            bs == builtin_views(builtins@),
            forall|k: int| 0 <= k < depth ==> 0 <= #[trigger] p[k] < domains@[k]@.len(),
            pos <= domains@[depth as int]@.len(),
            assignment@ == assign(dv, p),
            assignment@ == old(assignment)@,
            forall|k: int, m: int|
                0 <= k < domains@.len() && 0 <= m < domains@[k]@.len() ==> #[trigger] domains@[k]@[m]
                    < candidates@.len(),
            forall|c: Seq<int>|
                #[trigger] completes(dv, p, c) && c[depth as int] < pos ==> !consistent(
                    cs,
                    bs,
                    assign(dv, c),
                ),
        decreases domains@[depth as int]@.len() - pos,
    {
        let index = domains[depth][pos];
        assignment.push(index);
        let ghost p2 = p.push(pos as int);
        assert(assignment@ =~= assign(dv, p2));
        proof {
            assert forall|k: int| 0 <= k < assignment@.len() implies #[trigger] assignment@[k]
                < candidates@.len() by {
                assert(assignment@[k] == domains@[k]@[p2[k]]);
            }
        }
        if !breaks_conflict_exec(candidates, builtins, assignment) {
            let (found, Ghost(c)) = search(
                domains,
                depth + 1,
                candidates,
                builtins,
                assignment,
                Ghost(p2),
            );
            if found {
                proof {
                    lemma_completes_parent(dv, p, pos as int, c);
                    assert forall|c2: Seq<int>| #![trigger lex_less(c2, c)] completes(dv, p, c2)
                        && lex_less(c2, c) implies !consistent(cs, bs, assign(dv, c2)) by {
                        lemma_lex_cases(dv, p, pos as int, c, c2);
                    }
                }
                return (true, Ghost(c));
            }
        } else {
            proof {
                assert forall|c: Seq<int>| #[trigger] completes(dv, p2, c) implies !consistent(
                    cs,
                    bs,
                    assign(dv, c),
                ) by {
                    lemma_assign_prefix(dv, p2, c);
                    lemma_conflict_extends(cs, bs, assign(dv, p2), assign(dv, c));
                }
            }
        }
        assignment.pop();
        assert(assignment@ =~= assign(dv, p));
        proof {
            assert forall|c: Seq<int>| #[trigger] completes(dv, p, c) && c[depth as int] < pos
                + 1 implies !consistent(cs, bs, assign(dv, c)) by {
                if c[depth as int] == pos {
                    lemma_completes_child(dv, p, c);
                }
            }
        }
        pos = pos + 1;
    }
    proof {
        assert forall|c: Seq<int>| #[trigger] completes(dv, p, c) implies !consistent(
            cs,
            bs,
            assign(dv, c),
        ) by {
            assert(0 <= c[depth as int] < dv[depth as int].len());
        }
    }
    (false, Ghost(p))
}

/// The candidates whose indices `a` selects, moved out in input order.
fn keep_selected(candidates: Vec<ModCandidate>, a: &Vec<usize>) -> (r: Vec<ModCandidate>)
    requires
        indices_below(a@, candidates@.len() as int),
    ensures
        r@ == kept(candidates@, a@),
{
    let n = candidates.len();
    let mut mask: Vec<bool> = Vec::new();
    let mut i: usize = 0;
    while i < n
        invariant
            i <= n,
            mask@.len() == i,
            forall|j: int| 0 <= j < i ==> !#[trigger] mask@[j],
        decreases n - i,
    {
        mask.push(false);
        i = i + 1;
    }
    let mut k: usize = 0;
    while k < a.len()
        invariant
            k <= a@.len(),
            mask@.len() == n,
            n == candidates@.len(),
            indices_below(a@, n as int),
            forall|j: int|
                0 <= j < n ==> (#[trigger] mask@[j] <==> exists|k2: int| 0 <= k2 < k && a@[k2] == j),
        decreases a@.len() - k,
    {
        mask.set(a[k], true);
        proof {
            assert forall|j: int| 0 <= j < n implies (#[trigger] mask@[j] <==> exists|k2: int|
                0 <= k2 < k + 1 && a@[k2] == j) by {
                if j == a@[k as int] {
                    assert(a@[k as int] == j);
                }
            }
        }
        k = k + 1;
    }
    let ghost orig = candidates@;
    let mut out: Vec<ModCandidate> = Vec::new();
    let mut idx: usize = 0;
    for c in it: candidates.into_iter()
        invariant
            it.seq() == orig,
            idx == it.index(),
            mask@.len() == n,
            n == orig.len(),
            forall|j: int|
                0 <= j < n ==> (#[trigger] mask@[j] <==> exists|k2: int|
                    0 <= k2 < a@.len() && a@[k2] == j),
            out@ == kept(orig.take(idx as int), a@),
    {
        assert(orig.take(idx + 1).drop_last() =~= orig.take(idx as int));
        assert(orig.take(idx + 1).last() == c);
        proof {
            if mask@[idx as int] {
                let k2 = choose|k2: int| 0 <= k2 < a@.len() && a@[k2] == idx;
                assert(a@[k2] == idx);
                assert(a@.contains(idx));
            } else {
                assert(!a@.contains(idx));
            }
        }
        if mask[idx] {
            out.push(c);
        }
        idx = idx + 1;
    }
    assert(orig.take(orig.len() as int) =~= orig);
    out
}

/// What [`solve`] answers for `candidates` against `builtins`: a duplicate
/// is reported alone; otherwise the first consistent selection loads, with no
/// errors; and when there is none, [`fallback_errors`] and nothing loads.
pub open spec fn solved(candidates: Seq<ModCandidate>, builtins: Seq<BuiltinMod>, r: Resolution) -> bool {
    let cs = candidate_views(candidates);
    let bs = builtin_views(builtins);
    &&& first_duplicate(cs) matches Some(id) ==> error_views(r.errors@) == seq![
        ErrorModel::DuplicateId { id },
    ] && r.loaded@.len() == 0
    &&& first_duplicate(cs) is None && has_solution(cs, bs, domains_of(cs)) ==> r.errors@.len()
        == 0 && exists|c: Seq<int>|
        first_solution(cs, bs, domains_of(cs), c) && r.loaded@ == kept(
            candidates,
            #[trigger] assign(domains_of(cs), c),
        )
    &&& first_duplicate(cs) is None && !has_solution(cs, bs, domains_of(cs)) ==> error_views(
        r.errors@,
    ) == fallback_errors(cs, bs) && r.loaded@.len() == 0
}

/// Select a loadable subset of `candidates`, picking one version per id.
///
/// Two candidates with the same id and version are rejected as a duplicate.
/// Otherwise the first consistent selection over [`domains_of`], in the
/// lexicographic order of domain positions, loads in input order; when there
/// is none, [`fallback_errors`] explain why and nothing loads.
pub fn solve(candidates: Vec<ModCandidate>, builtins: &[BuiltinMod]) -> (r: Resolution)
    ensures
        solved(candidates@, builtins@, r),
        r.errors@.len() == 0 <==> (first_duplicate(candidate_views(candidates@)) is None
            && has_solution(
            candidate_views(candidates@),
            builtin_views(builtins@),
            domains_of(candidate_views(candidates@)),
        )),
        r.errors@.len() > 0 ==> r.loaded@.len() == 0,
        ids_distinct(r.loaded@),
        loaded_consistent(r.loaded@, builtins@),
        clauses_fine(
            candidate_views(r.loaded@),
            builtin_views(builtins@),
            candidate_views(r.loaded@),
        ),
        r.errors@.len() == 0 ==> forall|i: int|
            0 <= i < candidates@.len() ==> exists|j: int|
                0 <= j < r.loaded@.len() && (#[trigger] r.loaded@[j]).id@ == (
                #[trigger] candidates@[i]).id@,
        r.errors@.len() == 0 ==> exists|idx: Seq<int>|
            #[trigger] in_input_order(r.loaded@, candidates@, idx),
        r.errors@.len() == 0 && all_semantic(candidate_views(candidates@)) ==> exists|c: Seq<int>|
            {
                &&& first_solution(
                    candidate_views(candidates@),
                    builtin_views(builtins@),
                    domains_of(candidate_views(candidates@)),
                    c,
                )
                &&& r.loaded@ == kept(
                    candidates@,
                    #[trigger] assign(domains_of(candidate_views(candidates@)), c),
                )
                &&& no_newer_choice(candidate_views(candidates@), builtin_views(builtins@), c)
                &&& no_newer_version(candidate_views(candidates@), builtin_views(builtins@), c)
            },
{
    let ghost given = candidates@;
    let count = candidates.len();
    assert(given.len() == count);
    let r = select(candidates, builtins);
    proof {
        lemma_solve_succeeds_exactly_when_solvable(given, builtins@, r);
        lemma_solve_loads_one_version_per_id(given, builtins@, r);
        lemma_solve_loads_a_consistent_set(given, builtins@, r);
        lemma_consistent_set_is_clean(r.loaded@, builtins@);
        if r.errors@.len() == 0 {
            lemma_solve_loads_every_id_once_in_order(given, builtins@, r);
            if all_semantic(candidate_views(given)) {
                lemma_solve_prefers_newest(given, builtins@, r);
            }
        }
    }
    r
}

/// The search behind [`solve`].
fn select(candidates: Vec<ModCandidate>, builtins: &[BuiltinMod]) -> (r: Resolution)
    ensures
        solved(candidates@, builtins@, r),
{
    let ghost cs = candidate_views(candidates@);
    let ghost bs = builtin_views(builtins@);
    if let Some(duplicate) = find_exact_duplicate(&candidates) {
        let e = ResolutionError::DuplicateId { id: duplicate };
        let errors = vec![e];
        assert(error_views(errors@) =~= seq![e@]);
        return Resolution { loaded: Vec::new(), errors };
    }
    let domains = domains_exec(&candidates);
    let ghost dv = domains_of(cs);
    let mut assignment: Vec<usize> = Vec::new();
    assert(assignment@ =~= assign(dv, Seq::<int>::empty()));
    let (found, Ghost(c)) = search(
        &domains,
        0,
        &candidates,
        builtins,
        &mut assignment,
        Ghost(Seq::<int>::empty()),
    );
    if found {
        proof {
            assert(c.take(0) =~= Seq::<int>::empty());
            assert forall|c2: Seq<int>| #![trigger lex_less(c2, c)] valid_choice(dv, c2)
                && lex_less(c2, c) implies !consistent(cs, bs, assign(dv, c2)) by {
                assert(c2.take(0) =~= Seq::<int>::empty());
                assert(completes(dv, Seq::<int>::empty(), c2));
            }
            assert(first_solution(cs, bs, dv, c));
            assert forall|k: int| 0 <= k < assignment@.len() implies #[trigger] assignment@[k]
                < candidates@.len() by {
                assert(assignment@[k] == domains@[k]@[c[k]]);
            }
        }
        let loaded = keep_selected(candidates, &assignment);
        let errors: Vec<ResolutionError> = Vec::new();
        return Resolution { loaded, errors };
    }
    proof {
        assert forall|c2: Seq<int>| valid_choice(dv, c2) implies !consistent(
            cs,
            bs,
            #[trigger] assign(dv, c2),
        ) by {
            assert(c2.take(0) =~= Seq::<int>::empty());
            assert(completes(dv, Seq::<int>::empty(), c2));
        }
    }
    let mut diagnostic = resolve(candidates, builtins);
    if diagnostic.errors.len() == 0 {
        let ghost before = diagnostic.errors@;
        let e = ResolutionError::DuplicateId { id: string_of(&chars_of("<conflicting versions>")) };
        diagnostic.errors.push(e);
        assert(error_views(diagnostic.errors@) =~= seq![e@]);
    }
    diagnostic.loaded.clear();
    diagnostic
}


// ---------------------------------------------------------------------------
// One version per id.

/// Whether no two mods of `v` share an id.
pub open spec fn ids_distinct(v: Seq<ModCandidate>) -> bool {
    forall|i: int, j: int| 0 <= i < j < v.len() ==> (#[trigger] v[i]).id@ != (#[trigger] v[j]).id@
}

proof fn lemma_insert_sorted_members(s: Seq<Seq<char>>, x: Seq<char>)
    ensures
        forall|y: Seq<char>| #[trigger] insert_sorted(s, x).contains(y) <==> (s.contains(y) || y == x),
    decreases s.len(),
{
    if s.len() == 0 {
        assert forall|y: Seq<char>| #[trigger] insert_sorted(s, x).contains(y) <==> (s.contains(y) || y == x) by {
            if y == x {
                assert(insert_sorted(s, x)[0] == x);
            }
        }
    } else if compare_text(x, s[0]) == 0 {
        lemma_text_laws(x, s[0], s[0]);
        assert(s.contains(x)) by {
            assert(s[0] == x);
        }
    } else if compare_text(x, s[0]) < 0 {
        let r = seq![x] + s;
        assert forall|y: Seq<char>| #[trigger] r.contains(y) <==> (s.contains(y) || y == x) by {
            if r.contains(y) {
                let k = choose|k: int| 0 <= k < r.len() && r[k] == y;
                if k > 0 {
                    assert(s[k - 1] == y);
                }
            }
            if s.contains(y) {
                let k = choose|k: int| 0 <= k < s.len() && s[k] == y;
                assert(r[k + 1] == y);
            }
            if y == x {
                assert(r[0] == y);
            }
        }
    } else {
        let t = s.drop_first();
        lemma_insert_sorted_members(t, x);
        let r = seq![s[0]] + insert_sorted(t, x);
        assert forall|y: Seq<char>| #[trigger] r.contains(y) <==> (s.contains(y) || y == x) by {
            if r.contains(y) {
                let k = choose|k: int| 0 <= k < r.len() && r[k] == y;
                if k > 0 {
                    assert(insert_sorted(t, x)[k - 1] == y);
                    assert(insert_sorted(t, x).contains(y));
                    if t.contains(y) {
                        let m = choose|m: int| 0 <= m < t.len() && t[m] == y;
                        assert(s[m + 1] == y);
                    }
                } else {
                    assert(s[0] == y);
                }
            }
            if s.contains(y) {
                let k = choose|k: int| 0 <= k < s.len() && s[k] == y;
                if k == 0 {
                    assert(r[0] == y);
                } else {
                    assert(t[k - 1] == y);
                    assert(insert_sorted(t, x).contains(y));
                    let m = choose|m: int| 0 <= m < insert_sorted(t, x).len() && insert_sorted(t, x)[m] == y;
                    assert(r[m + 1] == y);
                }
            }
            if y == x {
                assert(insert_sorted(t, x).contains(y));
                let m = choose|m: int| 0 <= m < insert_sorted(t, x).len() && insert_sorted(t, x)[m] == y;
                assert(r[m + 1] == y);
            }
        }
    }
}

/// Whether `s` is strictly ascending.
spec fn ascending(s: Seq<Seq<char>>) -> bool {
    forall|i: int, j: int| 0 <= i < j < s.len() ==> compare_text(#[trigger] s[i], #[trigger] s[j]) < 0
}

proof fn lemma_insert_sorted_ascending(s: Seq<Seq<char>>, x: Seq<char>)
    requires
        ascending(s),
    ensures
        ascending(insert_sorted(s, x)),
    decreases s.len(),
{
    if s.len() == 0 {
    } else if compare_text(x, s[0]) == 0 {
    } else if compare_text(x, s[0]) < 0 {
        let r = seq![x] + s;
        assert forall|i: int, j: int| 0 <= i < j < r.len() implies compare_text(
            #[trigger] r[i],
            #[trigger] r[j],
        ) < 0 by {
            if i == 0 {
                if j > 1 {
                    lemma_text_laws(x, s[0], s[j - 1]);
                }
            } else {
                assert(r[i] == s[i - 1] && r[j] == s[j - 1]);
            }
        }
    } else {
        let t = s.drop_first();
        assert(ascending(t)) by {
            assert forall|i: int, j: int| 0 <= i < j < t.len() implies compare_text(
                #[trigger] t[i],
                #[trigger] t[j],
            ) < 0 by {
                assert(t[i] == s[i + 1] && t[j] == s[j + 1]);
            }
        }
        lemma_insert_sorted_ascending(t, x);
        lemma_insert_sorted_members(t, x);
        let q = insert_sorted(t, x);
        let r = seq![s[0]] + q;
        assert forall|i: int, j: int| 0 <= i < j < r.len() implies compare_text(
            #[trigger] r[i],
            #[trigger] r[j],
        ) < 0 by {
            if i == 0 {
                assert(r[j] == q[j - 1]);
                assert(q.contains(q[j - 1]));
                if t.contains(q[j - 1]) {
                    let m = choose|m: int| 0 <= m < t.len() && t[m] == q[j - 1];
                    assert(s[m + 1] == t[m]);
                } else {
                    lemma_text_laws(x, s[0], s[0]);
                }
            } else {
                assert(r[i] == q[i - 1] && r[j] == q[j - 1]);
            }
        }
    }
}

proof fn lemma_sorted_ids(cs: Seq<CandidateModel>)
    ensures
        ascending(sorted_ids(cs)),
        forall|y: Seq<char>| #[trigger] sorted_ids(cs).contains(y) ==> exists|i: int|
            0 <= i < cs.len() && cs[i].id == y,
    decreases cs.len(),
{
    if cs.len() > 0 {
        let p = cs.drop_last();
        lemma_sorted_ids(p);
        lemma_insert_sorted_ascending(sorted_ids(p), cs.last().id);
        lemma_insert_sorted_members(sorted_ids(p), cs.last().id);
        assert forall|y: Seq<char>| #[trigger] sorted_ids(cs).contains(y) implies exists|i: int|
            0 <= i < cs.len() && cs[i].id == y by {
            if sorted_ids(p).contains(y) {
                let i = choose|i: int| 0 <= i < p.len() && p[i].id == y;
                assert(cs[i] == p[i]);
            } else {
                assert(cs[cs.len() - 1].id == y);
            }
        }
    }
}

proof fn lemma_indices_with(cs: Seq<CandidateModel>, id: Seq<char>, n: int)
    requires
        0 <= n <= cs.len(),
        cs.len() <= usize::MAX,
    ensures
        forall|m: usize| #[trigger] indices_with(cs, id, n).contains(m) ==> m < n && cs[m as int].id == id,
    decreases n,
{
    if n > 0 {
        lemma_indices_with(cs, id, n - 1);
        let r = indices_with(cs, id, n - 1);
        if cs[n - 1].id == id {
            let rp = r.push((n - 1) as usize);
            assert(indices_with(cs, id, n) == rp);
            assert forall|m: usize| #[trigger] rp.contains(m) implies m < n && cs[m as int].id
                == id by {
                let k = choose|k: int| 0 <= k < rp.len() && #[trigger] rp[k] == m;
                if k < r.len() {
                    assert(r[k] == m);
                    assert(r.contains(m));
                } else {
                    assert(m == n - 1);
                }
            }
        } else {
            assert(indices_with(cs, id, n) == r);
        }
    }
}

proof fn lemma_insert_back_members(cs: Seq<CandidateModel>, s: Seq<usize>, x: usize)
    ensures
        forall|y: usize| #[trigger] insert_back(cs, s, x).contains(y) ==> (s.contains(y) || y == x),
    decreases s.len(),
{
    if s.len() > 0 && newer(cs, x, s.last()) {
        let p = s.drop_last();
        lemma_insert_back_members(cs, p, x);
        let q = insert_back(cs, p, x);
        assert forall|y: usize| #[trigger] insert_back(cs, s, x).contains(y) implies (s.contains(y)
            || y == x) by {
            let r = q.push(s.last());
            let k = choose|k: int| 0 <= k < r.len() && r[k] == y;
            if k < q.len() {
                assert(q[k] == y);
                assert(q.contains(y));
                if p.contains(y) {
                    let m = choose|m: int| 0 <= m < p.len() && p[m] == y;
                    assert(s[m] == y);
                }
            } else {
                assert(s[s.len() - 1] == y);
            }
        }
    } else if s.len() > 0 {
        assert forall|y: usize| #[trigger] insert_back(cs, s, x).contains(y) implies (s.contains(y)
            || y == x) by {
            let r = s.push(x);
            let k = choose|k: int| 0 <= k < r.len() && r[k] == y;
            if k < s.len() {
                assert(s[k] == y);
            }
        }
    }
}

proof fn lemma_newest_first_members(cs: Seq<CandidateModel>, s: Seq<usize>)
    ensures
        forall|y: usize| #[trigger] newest_first(cs, s).contains(y) ==> s.contains(y),
    decreases s.len(),
{
    if s.len() > 0 {
        let p = s.drop_last();
        lemma_newest_first_members(cs, p);
        lemma_insert_back_members(cs, newest_first(cs, p), s.last());
        assert forall|y: usize| #[trigger] newest_first(cs, s).contains(y) implies s.contains(y) by {
            if newest_first(cs, p).contains(y) {
                let m = choose|m: int| 0 <= m < p.len() && p[m] == y;
                assert(s[m] == y);
            } else {
                assert(s[s.len() - 1] == y);
            }
        }
    }
}

/// Every index in domain `k` names a candidate whose id is the `k`-th id.
proof fn lemma_domain_ids(cs: Seq<CandidateModel>, k: int, m: usize)
    requires
        cs.len() <= usize::MAX,
        0 <= k < domains_of(cs).len(),
        domains_of(cs)[k].contains(m),
    ensures
        m < cs.len(),
        cs[m as int].id == sorted_ids(cs)[k],
{
    let id = sorted_ids(cs)[k];
    lemma_newest_first_members(cs, indices_with(cs, id, cs.len() as int));
    lemma_indices_with(cs, id, cs.len() as int);
}

/// Whether `x` is a candidate of `v` at a position that `a` selects.
spec fn selected_from(v: Seq<ModCandidate>, a: Seq<usize>, x: ModCandidate) -> bool {
    exists|q: usize| q < v.len() && a.contains(q) && x == #[trigger] v[q as int]
}

proof fn lemma_kept_distinct(v: Seq<ModCandidate>, a: Seq<usize>)
    requires
        v.len() <= usize::MAX,
        forall|q1: usize, q2: usize|
            q1 < q2 < v.len() && #[trigger] a.contains(q1) && #[trigger] a.contains(q2) ==> v[q1 as int].id@
                != v[q2 as int].id@,
    ensures
        ids_distinct(kept(v, a)),
        forall|p: int| 0 <= p < kept(v, a).len() ==> selected_from(v, a, #[trigger] kept(v, a)[p]),
    decreases v.len(),
{
    if v.len() > 0 {
        let w = v.drop_last();
        assert forall|q1: usize, q2: usize|
            q1 < q2 < w.len() && #[trigger] a.contains(q1) && #[trigger] a.contains(q2) implies w[q1 as int].id@
                != w[q2 as int].id@ by {
            assert(w[q1 as int] == v[q1 as int] && w[q2 as int] == v[q2 as int]);
        }
        lemma_kept_distinct(w, a);
        let k = kept(w, a);
        let last = (v.len() - 1) as usize;
        assert forall|p: int| 0 <= p < k.len() implies selected_from(v, a, #[trigger] k[p]) by {
            assert(selected_from(w, a, k[p]));
            let q = choose|q: usize| q < w.len() && a.contains(q) && k[p] == #[trigger] w[q as int];
            assert(v[q as int] == w[q as int]);
        }
        if a.contains(last) {
            let r = k.push(v.last());
            assert(kept(v, a) == r);
            assert forall|p: int| 0 <= p < r.len() implies selected_from(v, a, #[trigger] r[p]) by {
                if p < k.len() {
                    assert(r[p] == k[p]);
                } else {
                    assert(r[p] == v[last as int]);
                }
            }
            assert forall|i: int, j: int| 0 <= i < j < r.len() implies (#[trigger] r[i]).id@
                != (#[trigger] r[j]).id@ by {
                if j < k.len() {
                    assert(r[i] == k[i] && r[j] == k[j]);
                } else {
                    assert(r[i] == k[i]);
                    assert(selected_from(w, a, k[i]));
                    let q = choose|q: usize| q < w.len() && a.contains(q) && k[i] == #[trigger] w[q as int];
                    assert(v[q as int] == w[q as int]);
                }
            }
        } else {
            assert(kept(v, a) == k);
        }
    }
}

/// Two positions a choice selects name different mod ids.
proof fn lemma_assigned_ids_distinct(candidates: Seq<ModCandidate>, c: Seq<int>)
    requires
        candidates.len() <= usize::MAX,
        valid_choice(domains_of(candidate_views(candidates)), c),
    ensures
        forall|q1: usize, q2: usize|
            q1 < q2 < candidates.len() && #[trigger] assign(
                domains_of(candidate_views(candidates)),
                c,
            ).contains(q1) && #[trigger] assign(domains_of(candidate_views(candidates)), c).contains(
                q2,
            ) ==> candidates[q1 as int].id@ != candidates[q2 as int].id@,
{
    let cs = candidate_views(candidates);
    let d = domains_of(cs);
    let a = assign(d, c);
    lemma_sorted_ids(cs);
    assert forall|q1: usize, q2: usize|
        q1 < q2 < candidates.len() && #[trigger] a.contains(q1) && #[trigger] a.contains(q2) implies candidates[q1 as int].id@
            != candidates[q2 as int].id@ by {
        let k1 = choose|k: int| 0 <= k < a.len() && a[k] == q1;
        let k2 = choose|k: int| 0 <= k < a.len() && a[k] == q2;
        assert(d[k1][c[k1]] == q1);
        assert(d[k1].contains(q1));
        assert(d[k2][c[k2]] == q2);
        assert(d[k2].contains(q2));
        lemma_domain_ids(cs, k1, q1);
        lemma_domain_ids(cs, k2, q2);
        assert(cs[q1 as int].id == candidates[q1 as int].id@);
        assert(cs[q2 as int].id == candidates[q2 as int].id@);
        if k1 != k2 {
            let ids = sorted_ids(cs);
            if k1 < k2 {
                assert(compare_text(ids[k1], ids[k2]) < 0);
            } else {
                assert(compare_text(ids[k2], ids[k1]) < 0);
            }
            lemma_text_laws(ids[k1], ids[k2], ids[k2]);
        }
    }
}

/// Whatever choice the search makes, at most one jar of each mod id is kept.
pub proof fn lemma_choice_keeps_one_version_per_id(candidates: Seq<ModCandidate>, c: Seq<int>)
    requires
        candidates.len() <= usize::MAX,
        valid_choice(domains_of(candidate_views(candidates)), c),
    ensures
        ids_distinct(kept(candidates, assign(domains_of(candidate_views(candidates)), c))),
{
    lemma_assigned_ids_distinct(candidates, c);
    lemma_kept_distinct(candidates, assign(domains_of(candidate_views(candidates)), c));
}

/// However the search ends, the mods it loads all have different ids: several
/// jars sharing a mod id resolve to a single chosen version.
pub proof fn lemma_solve_loads_one_version_per_id(
    candidates: Seq<ModCandidate>,
    builtins: Seq<BuiltinMod>,
    r: Resolution,
)
    requires
        candidates.len() <= usize::MAX,
        solved(candidates, builtins, r),
    ensures
        ids_distinct(r.loaded@),
{
    let cs = candidate_views(candidates);
    let bs = builtin_views(builtins);
    if first_duplicate(cs) is None && has_solution(cs, bs, domains_of(cs)) {
        let c = choose|c: Seq<int>|
            first_solution(cs, bs, domains_of(cs), c) && r.loaded@ == kept(
                candidates,
                #[trigger] assign(domains_of(cs), c),
            );
        lemma_choice_keeps_one_version_per_id(candidates, c);
    }
}


/// The search succeeds, with no errors, exactly when no two jars share both
/// id and version and some selection of one jar per id meets every required
/// dependency and no `breaks` clause; whenever it reports an error, nothing
/// loads.
pub proof fn lemma_solve_succeeds_exactly_when_solvable(
    candidates: Seq<ModCandidate>,
    builtins: Seq<BuiltinMod>,
    r: Resolution,
)
    requires
        solved(candidates, builtins, r),
    ensures
        r.errors@.len() == 0 <==> (first_duplicate(candidate_views(candidates)) is None
            && has_solution(
            candidate_views(candidates),
            builtin_views(builtins),
            domains_of(candidate_views(candidates)),
        )),
        r.errors@.len() > 0 ==> r.loaded@.len() == 0,
{
    let cs = candidate_views(candidates);
    let bs = builtin_views(builtins);
    if first_duplicate(cs) is Some {
        assert(error_views(r.errors@).len() == 1);
    } else if !has_solution(cs, bs, domains_of(cs)) {
        assert(fallback_errors(cs, bs).len() > 0);
        assert(error_views(r.errors@).len() == r.errors@.len());
    }
}


/// Whether every mod of `loaded` has each of its required dependencies met,
/// and none of its `breaks` clauses hit, by the builtins and `loaded` itself.
pub open spec fn loaded_consistent(loaded: Seq<ModCandidate>, builtins: Seq<BuiltinMod>) -> bool {
    let ls = candidate_views(loaded);
    let bs = builtin_views(builtins);
    &&& forall|k: int, m: int|
        0 <= k < ls.len() && 0 <= m < ls[k].depends.len() ==> dependency_met(
            #[trigger] ls[k].depends[m],
            bs,
            ls,
        )
    &&& forall|k: int, m: int|
        0 <= k < ls.len() && 0 <= m < ls[k].breaks.len() ==> !breakage_hit(
            #[trigger] ls[k].breaks[m],
            bs,
            ls,
        )
}

proof fn lemma_candidates_versions_member(x: Seq<CandidateModel>, id: Seq<char>, v: VersionModel)
    ensures
        candidates_versions(x, id).contains(v) <==> exists|j: int|
            0 <= j < x.len() && #[trigger] candidate_versions(x[j], id).contains(v),
    decreases x.len(),
{
    if x.len() > 0 {
        let p = x.drop_last();
        lemma_candidates_versions_member(p, id, v);
        let a = candidates_versions(p, id);
        let b = candidate_versions(x.last(), id);
        assert(candidates_versions(x, id) == a + b);
        if (a + b).contains(v) {
            let i = choose|i: int| 0 <= i < (a + b).len() && (a + b)[i] == v;
            if i < a.len() {
                assert(a[i] == v);
                assert(a.contains(v));
                let j = choose|j: int| 0 <= j < p.len() && #[trigger] candidate_versions(p[j], id).contains(v);
                assert(x[j] == p[j]);
            } else {
                assert(b[i - a.len()] == v);
                assert(b.contains(v));
                assert(x[x.len() - 1] == x.last());
            }
        }
        if exists|j: int| 0 <= j < x.len() && #[trigger] candidate_versions(x[j], id).contains(v) {
            let j = choose|j: int| 0 <= j < x.len() && #[trigger] candidate_versions(x[j], id).contains(v);
            if j < p.len() {
                assert(x[j] == p[j]);
                assert(a.contains(v));
                let i = choose|i: int| 0 <= i < a.len() && a[i] == v;
                assert((a + b)[i] == v);
            } else {
                assert(b.contains(v));
                let i = choose|i: int| 0 <= i < b.len() && b[i] == v;
                assert((a + b)[a.len() + i] == v);
            }
        }
    }
}

proof fn lemma_any_matches_transfer(
    spec: Seq<PredicateModel>,
    bs: Seq<BuiltinModel>,
    x: Seq<CandidateModel>,
    y: Seq<CandidateModel>,
    id: Seq<char>,
)
    requires
        forall|c: CandidateModel| #[trigger] x.contains(c) ==> y.contains(c),
        any_matches(spec, versions_for(bs, x, id)),
    ensures
        any_matches(spec, versions_for(bs, y, id)),
{
    let bv = builtin_versions(bs, id);
    let vx = versions_for(bs, x, id);
    let vy = versions_for(bs, y, id);
    let i = choose|i: int| 0 <= i < vx.len() && spec_matches(spec, #[trigger] vx[i]);
    let v = vx[i];
    if i < bv.len() {
        assert(vy[i] == v);
    } else {
        let cx = candidates_versions(x, id);
        assert(cx[i - bv.len()] == v);
        assert(cx.contains(v));
        lemma_candidates_versions_member(x, id, v);
        let j = choose|j: int| 0 <= j < x.len() && #[trigger] candidate_versions(x[j], id).contains(v);
        assert(x.contains(x[j]));
        assert(y.contains(x[j]));
        let j2 = choose|j2: int| 0 <= j2 < y.len() && y[j2] == x[j];
        assert(candidate_versions(y[j2], id).contains(v));
        lemma_candidates_versions_member(y, id, v);
        let cy = candidates_versions(y, id);
        let t = choose|t: int| 0 <= t < cy.len() && cy[t] == v;
        assert(vy[bv.len() + t] == v);
    }
}

proof fn lemma_kept_contains(v: Seq<ModCandidate>, a: Seq<usize>, q: int)
    requires
        v.len() <= usize::MAX,
        0 <= q < v.len(),
        a.contains(q as usize),
    ensures
        kept(v, a).contains(v[q]),
    decreases v.len(),
{
    let w = v.drop_last();
    if q == v.len() - 1 {
        assert(kept(v, a) == kept(w, a).push(v.last()));
        assert(kept(v, a)[kept(w, a).len() as int] == v[q]);
    } else {
        lemma_kept_contains(w, a, q);
        assert(w[q] == v[q]);
        let k = kept(w, a);
        let p = choose|p: int| 0 <= p < k.len() && k[p] == v[q];
        if a.contains((v.len() - 1) as usize) {
            assert(kept(v, a) == k.push(v.last()));
            assert(kept(v, a)[p] == v[q]);
        } else {
            assert(kept(v, a) == k);
        }
    }
}

/// The mods that a successful search loads meet each other's requirements:
/// every required dependency of a loaded mod is provided, at a matching
/// version, by a builtin or a loaded mod, and no `breaks` clause of a loaded
/// mod matches any of them.
pub proof fn lemma_solve_loads_a_consistent_set(
    candidates: Seq<ModCandidate>,
    builtins: Seq<BuiltinMod>,
    r: Resolution,
)
    requires
        candidates.len() <= usize::MAX,
        solved(candidates, builtins, r),
    ensures
        loaded_consistent(r.loaded@, builtins),
{
    let cs = candidate_views(candidates);
    let bs = builtin_views(builtins);
    if first_duplicate(cs) is None && has_solution(cs, bs, domains_of(cs)) {
        let d = domains_of(cs);
        let c = choose|c: Seq<int>|
            first_solution(cs, bs, d, c) && r.loaded@ == kept(candidates, #[trigger] assign(d, c));
        let a = assign(d, c);
        let sel = selected(cs, a);
        let ls = candidate_views(r.loaded@);
        lemma_sorted_ids(cs);
        // Every assigned index names a candidate.
        assert forall|k: int| 0 <= k < a.len() implies (#[trigger] a[k]) < candidates.len() by {
            assert(d[k][c[k]] == a[k]);
            assert(d[k].contains(a[k]));
            lemma_domain_ids(cs, k, a[k]);
        }
        // The loaded mods are exactly the selected ones.
        lemma_assigned_ids_distinct(candidates, c);
        lemma_kept_distinct(candidates, a);
        assert forall|x: CandidateModel| #[trigger] ls.contains(x) implies sel.contains(x) by {
            let p = choose|p: int| 0 <= p < ls.len() && ls[p] == x;
            assert(selected_from(candidates, a, r.loaded@[p]));
            let q = choose|q: usize|
                q < candidates.len() && a.contains(q) && r.loaded@[p] == #[trigger] candidates[q as int];
            let k = choose|k: int| 0 <= k < a.len() && a[k] == q;
            assert(sel[k] == cs[q as int]);
        }
        assert forall|x: CandidateModel| #[trigger] sel.contains(x) implies ls.contains(x) by {
            let k = choose|k: int| 0 <= k < sel.len() && sel[k] == x;
            let q = a[k];
            lemma_kept_contains(candidates, a, q as int);
            let p = choose|p: int| 0 <= p < r.loaded@.len() && r.loaded@[p] == candidates[q as int];
            assert(ls[p] == x);
        }
        assert forall|k: int, m: int|
            0 <= k < ls.len() && 0 <= m < ls[k].depends.len() implies dependency_met(
            #[trigger] ls[k].depends[m],
            bs,
            ls,
        ) by {
            assert(ls.contains(ls[k]));
            let j = choose|j: int| 0 <= j < sel.len() && sel[j] == ls[k];
            assert(cs[a[j] as int] == ls[k]);
            let dep = ls[k].depends[m];
            assert(dependency_met(cs[a[j] as int].depends[m], bs, sel));
            if !dep.optional {
                lemma_any_matches_transfer(dep.versions, bs, sel, ls, dep.id);
            }
        }
        assert forall|k: int, m: int|
            0 <= k < ls.len() && 0 <= m < ls[k].breaks.len() implies !breakage_hit(
            #[trigger] ls[k].breaks[m],
            bs,
            ls,
        ) by {
            assert(ls.contains(ls[k]));
            let j = choose|j: int| 0 <= j < sel.len() && sel[j] == ls[k];
            assert(cs[a[j] as int] == ls[k]);
            let b = ls[k].breaks[m];
            if breakage_hit(b, bs, ls) {
                lemma_any_matches_transfer(b.versions, bs, ls, sel, b.id);
                assert(breakage_hit(cs[a[j] as int].breaks[m], bs, sel));
                assert(breaks_conflict(cs, bs, a));
            }
        }
    } else {
        assert(candidate_views(r.loaded@) =~= Seq::<CandidateModel>::empty());
    }
}


// ---------------------------------------------------------------------------
// Newest versions first.

/// Whether every candidate's version is a semantic one.
pub open spec fn all_semantic(cs: Seq<CandidateModel>) -> bool {
    forall|i: int| 0 <= i < cs.len() ==> (#[trigger] cs[i]).version is Semantic
}

/// No position of `d` names a strictly newer candidate than an earlier one.
spec fn sorted_newest(cs: Seq<CandidateModel>, d: Seq<usize>) -> bool {
    forall|i: int, j: int| 0 <= i < j < d.len() ==> !newer(cs, #[trigger] d[j], #[trigger] d[i])
}

/// Every position of `d` names a candidate of `cs`.
spec fn in_range(cs: Seq<CandidateModel>, d: Seq<usize>) -> bool {
    forall|i: int| 0 <= i < d.len() ==> (#[trigger] d[i] as int) < cs.len()
}

proof fn lemma_not_newer_transitive(cs: Seq<CandidateModel>, x: usize, y: usize, z: usize)
    requires
        all_semantic(cs),
        x < cs.len(),
        y < cs.len(),
        z < cs.len(),
        !newer(cs, x, y),
        !newer(cs, y, z),
    ensures
        !newer(cs, x, z),
{
    let vx = cs[x as int].version->Semantic_0;
    let vy = cs[y as int].version->Semantic_0;
    let vz = cs[z as int].version->Semantic_0;
    assert(cs[x as int].version is Semantic);
    assert(cs[y as int].version is Semantic);
    assert(cs[z as int].version is Semantic);
    crate::version::lemma_precedence_total_preorder(vx, vy, vz);
    crate::version::lemma_precedence_total_preorder(vy, vz, vx);
    crate::version::lemma_precedence_total_preorder(vz, vx, vy);
}

proof fn lemma_newer_asymmetric(cs: Seq<CandidateModel>, x: usize, y: usize)
    requires
        all_semantic(cs),
        x < cs.len(),
        y < cs.len(),
        newer(cs, x, y),
    ensures
        !newer(cs, y, x),
{
    let vx = cs[x as int].version->Semantic_0;
    let vy = cs[y as int].version->Semantic_0;
    assert(cs[x as int].version is Semantic);
    assert(cs[y as int].version is Semantic);
    crate::version::lemma_precedence_total_preorder(vx, vy, vy);
}

proof fn lemma_insert_back_sorted(cs: Seq<CandidateModel>, s: Seq<usize>, x: usize)
    requires
        all_semantic(cs),
        in_range(cs, s),
        x < cs.len(),
        sorted_newest(cs, s),
    ensures
        insert_back(cs, s, x).len() == s.len() + 1,
        forall|i: int|
            0 <= i < insert_back(cs, s, x).len() ==> #[trigger] insert_back(cs, s, x)[i] == x
                || s.contains(insert_back(cs, s, x)[i]),
        in_range(cs, insert_back(cs, s, x)),
        sorted_newest(cs, insert_back(cs, s, x)),
    decreases s.len(),
{
    let r = insert_back(cs, s, x);
    if s.len() > 0 {
        let last = s.last();
        let p = s.drop_last();
        if newer(cs, x, last) {
            lemma_insert_back_sorted(cs, p, x);
            let inner = insert_back(cs, p, x);
            assert(r == inner.push(last));
            assert forall|i: int| 0 <= i < r.len() implies #[trigger] r[i] == x || s.contains(r[i]) by {
                if i < inner.len() {
                    if inner[i] != x {
                        let q = choose|q: int| 0 <= q < p.len() && p[q] == inner[i];
                        assert(s[q] == inner[i]);
                    }
                } else {
                    assert(s[s.len() - 1] == last);
                }
            }
            assert forall|i: int, j: int| 0 <= i < j < r.len() implies !newer(cs, #[trigger] r[j], #[trigger] r[i]) by {
                if j == r.len() - 1 {
                    assert(r[j] == last);
                    assert(r[i] == inner[i]);
                    if inner[i] == x {
                        lemma_newer_asymmetric(cs, x, last);
                    } else {
                        let q = choose|q: int| 0 <= q < p.len() && p[q] == inner[i];
                        assert(s[q] == inner[i]);
                        assert(s[s.len() - 1] == last);
                    }
                } else {
                    assert(r[i] == inner[i] && r[j] == inner[j]);
                }
            }
        } else {
            assert(r == s.push(x));
            assert forall|i: int, j: int| 0 <= i < j < r.len() implies !newer(cs, #[trigger] r[j], #[trigger] r[i]) by {
                if j == r.len() - 1 {
                    if i < s.len() - 1 {
                        assert(s[s.len() - 1] == last);
                        lemma_not_newer_transitive(cs, x, last, s[i]);
                    }
                } else {
                    assert(r[i] == s[i] && r[j] == s[j]);
                }
            }
            assert forall|i: int| 0 <= i < r.len() implies #[trigger] r[i] == x || s.contains(r[i]) by {
                if i < s.len() {
                    assert(s[i] == r[i]);
                }
            }
        }
    } else {
        assert(r == seq![x]);
    }
}

proof fn lemma_newest_first_sorted(cs: Seq<CandidateModel>, s: Seq<usize>)
    requires
        all_semantic(cs),
        in_range(cs, s),
    ensures
        newest_first(cs, s).len() == s.len(),
        in_range(cs, newest_first(cs, s)),
        sorted_newest(cs, newest_first(cs, s)),
    decreases s.len(),
{
    if s.len() > 0 {
        let p = s.drop_last();
        assert(in_range(cs, p)) by {
            assert forall|i: int| 0 <= i < p.len() implies (#[trigger] p[i] as int) < cs.len() by {
                assert(p[i] == s[i]);
            }
        }
        lemma_newest_first_sorted(cs, p);
        assert((s.last() as int) < cs.len()) by {
            assert(s[s.len() - 1] == s.last());
        }
        lemma_insert_back_sorted(cs, newest_first(cs, p), s.last());
    }
}

proof fn lemma_indices_with_in_range(cs: Seq<CandidateModel>, id: Seq<char>, n: int)
    requires
        n <= cs.len(),
    ensures
        in_range(cs, indices_with(cs, id, n)),
    decreases n,
{
    if n > 0 {
        lemma_indices_with_in_range(cs, id, n - 1);
    }
}

/// `solve` prefers newer versions: when every version is semantic and `c` is
/// the first consistent choice, any other consistent choice, at the first id
/// (in ascending order) where the two pick different candidates, picks one
/// that is not strictly newer than the one `c` picks there.
pub proof fn lemma_first_solution_prefers_newest(
    cs: Seq<CandidateModel>,
    bs: Seq<BuiltinModel>,
    c: Seq<int>,
    c2: Seq<int>,
    k: int,
)
    requires
        all_semantic(cs),
        first_solution(cs, bs, domains_of(cs), c),
        valid_choice(domains_of(cs), c2),
        consistent(cs, bs, assign(domains_of(cs), c2)),
        0 <= k < c.len(),
        c.take(k) == c2.take(k),
        c[k] != c2[k],
    ensures
        !newer(cs, assign(domains_of(cs), c2)[k], assign(domains_of(cs), c)[k]),
        compare_semantic(
            semantic_of(cs, assign(domains_of(cs), c)[k]),
            semantic_of(cs, assign(domains_of(cs), c2)[k]),
        ) >= 0,
{
    let d = domains_of(cs);
    if c2[k] < c[k] {
        assert(lex_less(c2, c));
        assert(false);
    }
    let id = sorted_ids(cs)[k];
    let s = indices_with(cs, id, cs.len() as int);
    lemma_indices_with_in_range(cs, id, cs.len() as int);
    lemma_newest_first_sorted(cs, s);
    assert(d[k] == newest_first(cs, s));
    assert(assign(d, c)[k] == d[k][c[k]]);
    assert(assign(d, c2)[k] == d[k][c2[k]]);
    lemma_domains_newest_first(cs);
}

/// The semantic version of candidate `x`.
pub open spec fn semantic_of(cs: Seq<CandidateModel>, x: usize) -> SemModel {
    cs[x as int].version->Semantic_0
}

/// Each domain lists its candidates newest first by version precedence:
/// when every version is semantic, no candidate of a domain ranks above one
/// listed before it.
pub proof fn lemma_domains_newest_first(cs: Seq<CandidateModel>)
    requires
        all_semantic(cs),
    ensures
        forall|k: int, i: int, j: int|
            0 <= k < domains_of(cs).len() && 0 <= i < j < domains_of(cs)[k].len() ==> compare_semantic(
                semantic_of(cs, #[trigger] domains_of(cs)[k][i]),
                semantic_of(cs, #[trigger] domains_of(cs)[k][j]),
            ) >= 0,
{
    let d = domains_of(cs);
    assert forall|k: int, i: int, j: int|
        0 <= k < d.len() && 0 <= i < j < d[k].len() implies compare_semantic(
        semantic_of(cs, #[trigger] d[k][i]),
        semantic_of(cs, #[trigger] d[k][j]),
    ) >= 0 by {
        let id = sorted_ids(cs)[k];
        let s = indices_with(cs, id, cs.len() as int);
        lemma_indices_with_in_range(cs, id, cs.len() as int);
        lemma_newest_first_sorted(cs, s);
        assert(d[k] == newest_first(cs, s));
        let x = d[k][i];
        let y = d[k][j];
        assert(!newer(cs, y, x));
        assert(cs[x as int].version is Semantic);
        assert(cs[y as int].version is Semantic);
    }
}


/// No consistent choice is preferred to `c`: at the first id where another
/// consistent choice picks a different candidate, that candidate is not
/// strictly newer than the one `c` picks.
pub open spec fn no_newer_choice(cs: Seq<CandidateModel>, bs: Seq<BuiltinModel>, c: Seq<int>) -> bool {
    forall|c2: Seq<int>, k: int|
        valid_choice(domains_of(cs), c2) && consistent(cs, bs, assign(domains_of(cs), c2)) && 0 <= k
            < c.len() && c.take(k) == c2.take(k) && c[k] != c2[k] ==> !newer(
            cs,
            #[trigger] assign(domains_of(cs), c2)[k],
            assign(domains_of(cs), c)[k],
        )
}

/// No consistent choice picks a newer version than `c` where it first
/// differs from it: at the first id where another consistent choice picks a
/// different candidate, `c`'s version ranks at least as high by precedence.
pub open spec fn no_newer_version(cs: Seq<CandidateModel>, bs: Seq<BuiltinModel>, c: Seq<int>) -> bool {
    forall|c2: Seq<int>, k: int|
        valid_choice(domains_of(cs), c2) && consistent(cs, bs, assign(domains_of(cs), c2)) && 0 <= k
            < c.len() && c.take(k) == c2.take(k) && c[k] != c2[k] ==> compare_semantic(
            semantic_of(cs, assign(domains_of(cs), c)[k]),
            semantic_of(cs, #[trigger] assign(domains_of(cs), c2)[k]),
        ) >= 0
}

/// When every version is semantic and `solve` loads without errors, what it
/// loads is the first consistent choice `c`, and no consistent choice is
/// preferred to it: at the first id where another one picks differently, it
/// picks a version that is not strictly newer than the one `c` picks.
pub proof fn lemma_solve_prefers_newest(
    candidates: Seq<ModCandidate>,
    builtins: Seq<BuiltinMod>,
    r: Resolution,
)
    requires
        solved(candidates, builtins, r),
        r.errors@.len() == 0,
        all_semantic(candidate_views(candidates)),
    ensures
        exists|c: Seq<int>|
            {
                &&& first_solution(
                    candidate_views(candidates),
                    builtin_views(builtins),
                    domains_of(candidate_views(candidates)),
                    c,
                )
                &&& r.loaded@ == kept(
                    candidates,
                    #[trigger] assign(domains_of(candidate_views(candidates)), c),
                )
                &&& no_newer_choice(candidate_views(candidates), builtin_views(builtins), c)
                &&& no_newer_version(candidate_views(candidates), builtin_views(builtins), c)
            },
{
    let cs = candidate_views(candidates);
    let bs = builtin_views(builtins);
    let d = domains_of(cs);
    lemma_solve_succeeds_exactly_when_solvable(candidates, builtins, r);
    let c = choose|c: Seq<int>|
        first_solution(cs, bs, d, c) && r.loaded@ == kept(candidates, #[trigger] assign(d, c));
    assert forall|c2: Seq<int>, k: int|
        valid_choice(d, c2) && consistent(cs, bs, assign(d, c2)) && 0 <= k < c.len() && c.take(k)
            == c2.take(k) && c[k] != c2[k] implies !newer(
        cs,
        #[trigger] assign(d, c2)[k],
        assign(d, c)[k],
    ) by {
        lemma_first_solution_prefers_newest(cs, bs, c, c2, k);
    }
    assert forall|c2: Seq<int>, k: int|
        valid_choice(d, c2) && consistent(cs, bs, assign(d, c2)) && 0 <= k < c.len() && c.take(k)
            == c2.take(k) && c[k] != c2[k] implies compare_semantic(
        semantic_of(cs, assign(d, c)[k]),
        semantic_of(cs, #[trigger] assign(d, c2)[k]),
    ) >= 0 by {
        lemma_first_solution_prefers_newest(cs, bs, c, c2, k);
    }
}


// ---------------------------------------------------------------------------
// Every id, once, in input order.

/// `l` lists elements of `v` in the order they stand in `v`: positions
/// `idx`, strictly increasing, with `l[k] == v[idx[k]]`.
pub open spec fn in_input_order(l: Seq<ModCandidate>, v: Seq<ModCandidate>, idx: Seq<int>) -> bool {
    &&& idx.len() == l.len()
    &&& forall|k: int| 0 <= k < idx.len() ==> 0 <= #[trigger] idx[k] < v.len() && l[k] == v[idx[k]]
    &&& forall|k1: int, k2: int| 0 <= k1 < k2 < idx.len() ==> #[trigger] idx[k1] < #[trigger] idx[k2]
}

proof fn lemma_kept_in_order(v: Seq<ModCandidate>, a: Seq<usize>) -> (idx: Seq<int>)
    ensures
        in_input_order(kept(v, a), v, idx),
    decreases v.len(),
{
    if v.len() == 0 {
        seq![]
    } else {
        let w = v.drop_last();
        let i0 = lemma_kept_in_order(w, a);
        assert forall|k: int| 0 <= k < i0.len() implies 0 <= #[trigger] i0[k] < v.len() && kept(
            w,
            a,
        )[k] == v[i0[k]] by {
            assert(w[i0[k]] == v[i0[k]]);
        }
        if a.contains((v.len() - 1) as usize) {
            let idx = i0.push(v.len() - 1);
            let l = kept(v, a);
            assert(l == kept(w, a).push(v.last()));
            assert forall|k: int| 0 <= k < idx.len() implies 0 <= #[trigger] idx[k] < v.len() && l[k]
                == v[idx[k]] by {
                if k < i0.len() {
                    assert(idx[k] == i0[k]);
                }
            }
            assert forall|k1: int, k2: int| 0 <= k1 < k2 < idx.len() implies #[trigger] idx[k1]
                < #[trigger] idx[k2] by {
                if k2 < i0.len() {
                    assert(idx[k1] == i0[k1] && idx[k2] == i0[k2]);
                } else {
                    assert(idx[k1] == i0[k1]);
                }
            }
            idx
        } else {
            i0
        }
    }
}

proof fn lemma_sorted_ids_cover(cs: Seq<CandidateModel>)
    ensures
        forall|i: int| 0 <= i < cs.len() ==> sorted_ids(cs).contains(#[trigger] cs[i].id),
    decreases cs.len(),
{
    if cs.len() > 0 {
        let p = cs.drop_last();
        lemma_sorted_ids_cover(p);
        lemma_insert_sorted_members(sorted_ids(p), cs.last().id);
        assert forall|i: int| 0 <= i < cs.len() implies sorted_ids(cs).contains(#[trigger] cs[i].id) by {
            if i < p.len() {
                assert(p[i] == cs[i]);
                assert(sorted_ids(p).contains(p[i].id));
            }
        }
    }
}

/// When `solve` succeeds, it loads each candidate id exactly once (some
/// candidate of every id, and no id twice), and the loaded mods stand in the
/// order the candidates were given.
pub proof fn lemma_solve_loads_every_id_once_in_order(
    candidates: Seq<ModCandidate>,
    builtins: Seq<BuiltinMod>,
    r: Resolution,
)
    requires
        candidates.len() <= usize::MAX,
        solved(candidates, builtins, r),
        r.errors@.len() == 0,
    ensures
        ids_distinct(r.loaded@),
        forall|i: int|
            0 <= i < candidates.len() ==> exists|j: int|
                0 <= j < r.loaded@.len() && (#[trigger] r.loaded@[j]).id@ == (
                #[trigger] candidates[i]).id@,
        exists|idx: Seq<int>| #[trigger] in_input_order(r.loaded@, candidates, idx),
{
    let cs = candidate_views(candidates);
    let bs = builtin_views(builtins);
    let d = domains_of(cs);
    lemma_solve_succeeds_exactly_when_solvable(candidates, builtins, r);
    lemma_solve_loads_one_version_per_id(candidates, builtins, r);
    let c = choose|c: Seq<int>|
        first_solution(cs, bs, d, c) && r.loaded@ == kept(candidates, #[trigger] assign(d, c));
    let a = assign(d, c);
    let idx = lemma_kept_in_order(candidates, a);
    assert(in_input_order(r.loaded@, candidates, idx));
    lemma_sorted_ids_cover(cs);
    assert forall|i: int| 0 <= i < candidates.len() implies exists|j: int|
        0 <= j < r.loaded@.len() && (#[trigger] r.loaded@[j]).id@ == (
        #[trigger] candidates[i]).id@ by {
        assert(cs[i].id == candidates[i].id@);
        assert(sorted_ids(cs).contains(cs[i].id));
        let k = choose|k: int| 0 <= k < sorted_ids(cs).len() && sorted_ids(cs)[k] == cs[i].id;
        assert(d.len() == sorted_ids(cs).len());
        let m = d[k][c[k]];
        assert(d[k].contains(m));
        lemma_domain_ids(cs, k, m);
        assert(a[k] == m);
        assert(a.contains(m));
        lemma_kept_contains(candidates, a, m as int);
        let j = choose|j: int| 0 <= j < r.loaded@.len() && r.loaded@[j] == candidates[m as int];
        assert(cs[m as int].id == candidates[m as int].id@);
    }
}


/// A loaded set that is consistent meets, in the terms `resolve` checks,
/// every required dependency and no breaks clause of its mods.
pub proof fn lemma_consistent_set_is_clean(loaded: Seq<ModCandidate>, builtins: Seq<BuiltinMod>)
    requires
        loaded_consistent(loaded, builtins),
    ensures
        clauses_fine(candidate_views(loaded), builtin_views(builtins), candidate_views(loaded)),
{
    let ls = candidate_views(loaded);
    let bs = builtin_views(builtins);
    assert forall|k: int, m: int| 0 <= k < ls.len() && 0 <= m < ls[k].depends.len() implies requirement_met(
        #[trigger] ls[k].depends[m],
        bs,
        ls,
    ) by {
        let d = ls[k].depends[m];
        assert(dependency_met(d, bs, ls));
        if !d.optional {
            let vs = versions_for(bs, ls, d.id);
            let i = choose|i: int| 0 <= i < vs.len() && spec_matches(d.versions, #[trigger] vs[i]);
            assert(vs.contains(vs[i]));
        }
    }
    assert forall|k: int, m: int| 0 <= k < ls.len() && 0 <= m < ls[k].breaks.len() implies !breakage_present(
        #[trigger] ls[k].breaks[m],
        bs,
        ls,
    ) by {
        let b = ls[k].breaks[m];
        assert(!breakage_hit(b, bs, ls));
        let vs = versions_for(bs, ls, b.id);
        if exists|v: VersionModel| vs.contains(v) && #[trigger] spec_matches(b.versions, v) {
            let v = choose|v: VersionModel| vs.contains(v) && #[trigger] spec_matches(b.versions, v);
            let i = choose|i: int| 0 <= i < vs.len() && vs[i] == v;
            assert(spec_matches(b.versions, vs[i]));
        }
    }
}


proof fn lemma_insert_back_keeps(cs: Seq<CandidateModel>, s: Seq<usize>, x: usize)
    ensures
        insert_back(cs, s, x).contains(x),
        forall|y: usize| s.contains(y) ==> #[trigger] insert_back(cs, s, x).contains(y),
    decreases s.len(),
{
    let r = insert_back(cs, s, x);
    if s.len() == 0 {
        assert(r[0] == x);
    } else if newer(cs, x, s.last()) {
        let p = s.drop_last();
        lemma_insert_back_keeps(cs, p, x);
        let q = insert_back(cs, p, x);
        assert(r == q.push(s.last()));
        let i = choose|i: int| 0 <= i < q.len() && q[i] == x;
        assert(r[i] == x);
        assert forall|y: usize| s.contains(y) implies #[trigger] r.contains(y) by {
            let k = choose|k: int| 0 <= k < s.len() && s[k] == y;
            if k < p.len() {
                assert(p[k] == y);
                assert(q.contains(y));
                let j = choose|j: int| 0 <= j < q.len() && q[j] == y;
                assert(r[j] == y);
            } else {
                assert(r[q.len() as int] == y);
            }
        }
    } else {
        assert(r == s.push(x));
        assert(r[s.len() as int] == x);
        assert forall|y: usize| s.contains(y) implies #[trigger] r.contains(y) by {
            let k = choose|k: int| 0 <= k < s.len() && s[k] == y;
            assert(r[k] == y);
        }
    }
}

proof fn lemma_newest_first_keeps(cs: Seq<CandidateModel>, s: Seq<usize>)
    ensures
        forall|y: usize| s.contains(y) ==> #[trigger] newest_first(cs, s).contains(y),
    decreases s.len(),
{
    if s.len() > 0 {
        let p = s.drop_last();
        lemma_newest_first_keeps(cs, p);
        lemma_insert_back_keeps(cs, newest_first(cs, p), s.last());
        assert forall|y: usize| s.contains(y) implies #[trigger] newest_first(cs, s).contains(y) by {
            let k = choose|k: int| 0 <= k < s.len() && s[k] == y;
            if k < p.len() {
                assert(p[k] == y);
            }
        }
    }
}

proof fn lemma_indices_with_keeps(cs: Seq<CandidateModel>, id: Seq<char>, n: int, m: int)
    requires
        0 <= m < n <= cs.len(),
        cs[m].id == id,
    ensures
        indices_with(cs, id, n).contains(m as usize),
    decreases n,
{
    let r = indices_with(cs, id, n - 1);
    if m < n - 1 {
        lemma_indices_with_keeps(cs, id, n - 1, m);
        let i = choose|i: int| 0 <= i < r.len() && r[i] == m as usize;
        if cs[n - 1].id == id {
            assert(indices_with(cs, id, n)[i] == m as usize);
        }
    } else {
        assert(indices_with(cs, id, n) == r.push((n - 1) as usize));
        assert(indices_with(cs, id, n)[r.len() as int] == m as usize);
    }
}

/// The domains hold every candidate, each in the domain of its own id: the
/// ids of the domains are exactly the candidates' ids, and a domain holds
/// exactly the candidates with its id.
pub proof fn lemma_domains_partition(cs: Seq<CandidateModel>)
    requires
        cs.len() <= usize::MAX,
    ensures
        domains_of(cs).len() == sorted_ids(cs).len(),
        forall|m: int|
            0 <= m < cs.len() ==> exists|k: int|
                0 <= k < domains_of(cs).len() && sorted_ids(cs)[k] == (#[trigger] cs[m]).id
                    && domains_of(cs)[k].contains(m as usize),
        forall|k: int, m: usize|
            0 <= k < domains_of(cs).len() && #[trigger] domains_of(cs)[k].contains(m) ==> m
                < cs.len() && cs[m as int].id == sorted_ids(cs)[k],
{
    let d = domains_of(cs);
    lemma_sorted_ids_cover(cs);
    assert forall|m: int| 0 <= m < cs.len() implies exists|k: int|
        0 <= k < d.len() && sorted_ids(cs)[k] == (#[trigger] cs[m]).id && d[k].contains(
            m as usize,
        ) by {
        let ids = sorted_ids(cs);
        assert(ids.contains(cs[m].id));
        let k = choose|k: int| 0 <= k < ids.len() && ids[k] == cs[m].id;
        lemma_indices_with_keeps(cs, cs[m].id, cs.len() as int, m);
        lemma_newest_first_keeps(cs, indices_with(cs, cs[m].id, cs.len() as int));
        assert(d[k] == newest_first(cs, indices_with(cs, cs[m].id, cs.len() as int)));
    }
    assert forall|k: int, m: usize|
        0 <= k < d.len() && #[trigger] d[k].contains(m) implies m < cs.len() && cs[m as int].id
        == sorted_ids(cs)[k] by {
        lemma_domain_ids(cs, k, m);
    }
}

} // verus!
