//! Planning a mods directory: the jars that parsed are resolved with the
//! multi-version search; the ones that did not are reported beside the
//! resolution.

use vstd::prelude::*;

use crate::discovery::DiscoveredMod;
use crate::metadata::ModCandidate;
use crate::resolve::{error_message, error_views, BuiltinMod, Resolution};
use crate::solve::{solve, solved};
use crate::text::{texts, push_str, string_of};

verus! {

/// A discovered jar that could not be parsed, kept alongside the resolution so
/// callers can surface both classes of problem together.
#[derive(Debug)]
pub struct MalformedMod {
    pub path: String,
    pub error: String,
}

/// The full outcome of planning a mods directory.
#[derive(Debug)]
pub struct LoadPlan {
    /// Jars that produced valid metadata but may still fail resolution.
    pub resolution: Resolution,
    /// Jars that could not be read or parsed at all.
    pub malformed: Vec<MalformedMod>,
}

/// The line reporting a malformed jar.
pub open spec fn malformed_line(m: MalformedMod) -> Seq<char> {
    m.path@ + ": "@ + m.error@
}

/// Every problem of a plan as a line: malformed jars first, then the
/// resolution errors.
pub open spec fn problem_lines(plan: LoadPlan) -> Seq<Seq<char>> {
    plan.malformed@.map_values(|m: MalformedMod| malformed_line(m)) + error_views(
        plan.resolution.errors@,
    ).map_values(|e| error_message(e))
}

/// The candidates among discovered jars, in order.
pub open spec fn parsed_candidates(ds: Seq<DiscoveredMod>) -> Seq<ModCandidate>
    decreases ds.len(),
{
    if ds.len() == 0 {
        seq![]
    } else {
        let rest = parsed_candidates(ds.drop_last());
        match ds.last().result {
            Ok(c) => rest.push(c),
            Err(_) => rest,
        }
    }
}

/// The jars that failed, with their errors, in order.
pub open spec fn malformed_jars(ds: Seq<DiscoveredMod>) -> Seq<(Seq<char>, Seq<char>)>
    decreases ds.len(),
{
    if ds.len() == 0 {
        seq![]
    } else {
        let rest = malformed_jars(ds.drop_last());
        match ds.last().result {
            Ok(_) => rest,
            Err(e) => rest.push((ds.last().path@, e@)),
        }
    }
}

/// The (path, error) pairs of malformed jars.
pub open spec fn malformed_views(v: Seq<MalformedMod>) -> Seq<(Seq<char>, Seq<char>)> {
    v.map_values(|m: MalformedMod| (m.path@, m.error@))
}

impl LoadPlan {
    /// Whether every jar parsed and the resolved graph is internally consistent.
    pub fn is_ok(&self) -> (r: bool)
        ensures
            r == (self.malformed@.len() == 0 && self.resolution.errors@.len() == 0),
    {
        self.malformed.len() == 0 && self.resolution.is_ok()
    }

    /// All problems as user-facing lines, malformed jars first.
    pub fn problems(&self) -> (r: Vec<String>)
        ensures
            texts(r@) == problem_lines(*self),
    {
        let mut lines: Vec<String> = Vec::new();
        let mut i: usize = 0;
        let ghost ms = self.malformed@.map_values(|m: MalformedMod| malformed_line(m));
        let ghost es = error_views(self.resolution.errors@).map_values(|e| error_message(e));
        while i < self.malformed.len()
            invariant
                i <= self.malformed@.len(),
                ms == self.malformed@.map_values(|m: MalformedMod| malformed_line(m)),
                texts(lines@) == ms.take(i as int),
            decreases self.malformed@.len() - i,
        {
            let m = &self.malformed[i];
            let mut out: Vec<char> = Vec::new();
            push_str(&mut out, m.path.as_str());
            push_str(&mut out, ": ");
            push_str(&mut out, m.error.as_str());
            let ghost before = lines@;
            lines.push(string_of(out.as_slice()));
            assert(texts(lines@) =~= texts(before).push(malformed_line(self.malformed@[i as int])));
            assert(ms.take(i + 1) =~= ms.take(i as int).push(ms[i as int]));
            i = i + 1;
        }
        assert(ms.take(ms.len() as int) =~= ms);
        let mut k: usize = 0;
        while k < self.resolution.errors.len()
            invariant
                k <= self.resolution.errors@.len(),
                ms == self.malformed@.map_values(|m: MalformedMod| malformed_line(m)),
                es == error_views(self.resolution.errors@).map_values(|e| error_message(e)),
                texts(lines@) == ms + es.take(k as int),
            decreases self.resolution.errors@.len() - k,
        {
            let ghost before = lines@;
            lines.push(self.resolution.errors[k].message());
            assert(texts(lines@) =~= texts(before).push(es[k as int]));
            assert(es.take(k + 1) =~= es.take(k as int).push(es[k as int]));
            k = k + 1;
        }
        assert(es.take(es.len() as int) =~= es);
        lines
    }
}

/// Parses and resolves a discovered mods directory against `builtins`: jars
/// with metadata go to the multi-version [`solve`] search, so several jars
/// sharing a mod id resolve to a single chosen version; the others are
/// reported as malformed. An error listing the directory is passed on.
pub fn plan_mods(discovered: Result<Vec<DiscoveredMod>, String>, builtins: &[BuiltinMod]) -> (r:
    Result<LoadPlan, String>)
    ensures
        match discovered {
            Err(e) => r matches Err(e2) && e2@ == e@,
            Ok(ds) => r matches Ok(plan) && malformed_views(plan.malformed@) == malformed_jars(ds@)
                && solved(parsed_candidates(ds@), builtins@, plan.resolution),
        },
{
    let discovered = match discovered {
        Ok(ds) => ds,
        Err(e) => return Err(e),
    };
    let ghost orig = discovered@;
    let n = discovered.len();
    let mut candidates: Vec<ModCandidate> = Vec::new();
    let mut malformed: Vec<MalformedMod> = Vec::new();
    let mut k: usize = 0;
    assert(malformed_views(malformed@) =~= malformed_jars(orig.take(0)));
    assert(candidates@ =~= parsed_candidates(orig.take(0)));
    for entry in it: discovered.into_iter()
        invariant
            it.seq() == orig,
            k == it.index(),
            n == orig.len(),
            candidates@ == parsed_candidates(orig.take(k as int)),
            malformed_views(malformed@) == malformed_jars(orig.take(k as int)),
    {
        assert(orig.take(k + 1).drop_last() =~= orig.take(k as int));
        assert(orig.take(k + 1).last() == entry);
        let ghost before = malformed@;
        match entry.result {
            Ok(candidate) => {
                candidates.push(candidate);
            },
            Err(error) => {
                malformed.push(MalformedMod { path: entry.path, error });
                assert(malformed_views(malformed@) =~= malformed_views(before).push(
                    (entry.path@, error@),
                ));
            },
        }
        k = k + 1;
    }
    assert(orig.take(n as int) =~= orig);
    let resolution = solve(candidates, builtins);
    Ok(LoadPlan { resolution, malformed })
}


/// One broken jar does not hide the jars around it: every discovered jar is
/// either a candidate or reported as malformed, never both, never neither.
pub proof fn lemma_every_jar_is_accounted_for(ds: Seq<DiscoveredMod>)
    ensures
        parsed_candidates(ds).len() + malformed_jars(ds).len() == ds.len(),
    decreases ds.len(),
{
    if ds.len() > 0 {
        lemma_every_jar_is_accounted_for(ds.drop_last());
    }
}

} // verus!
