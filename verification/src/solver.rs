use vstd::prelude::*;

use crate::poetry_provider::{provider_deps, provider_versions, Dependencies, PoetryProvider};
use crate::ranges::{lemma_contains_key_eq, VersionRange};
use crate::version::{key_eq, PEP440Version, VersionParseError};

verus! {

/// How a resolution can fail.
#[derive(Debug)]
pub enum ResolveError {
    /// A version string handed to the resolver does not parse.
    InvalidVersion(VersionParseError),
    /// A requirement line handed to the resolver does not parse.
    InvalidRequirement(String),
    /// No candidate assignment satisfies every constraint; the terminal
    /// incompatibility explains why.
    NoSolution(Incompatibility),
    /// The registry store holds no version list for a package the search
    /// needs; a driver can fetch one and retry.
    MissingVersions(String),
    /// The registry store holds no dependency entry for a package version
    /// the search needs; a driver can fetch one and retry.
    MissingDependencies(String, PEP440Version),
    /// A package declares a dependency on itself.
    SelfDependency(String, PEP440Version),
    /// A package declares a dependency whose range is empty.
    DependencyOnEmptySet(String, PEP440Version, String),
    /// The search budget ran out before the search settled.
    Exhausted,
    /// An internal consistency check failed; not expected to occur.
    Inconsistent,
}

/// A statement about one package: a positive term demands a selected
/// version inside its range, a negative term forbids one.
#[derive(Debug)]
pub struct Term {
    pub positive: bool,
    pub range: VersionRange,
}

/// Does an assignment of the term's package satisfy the term?  `None`
/// stands for a package with no selected version.
pub open spec fn term_sat(t: Term, sel: Option<PEP440Version>) -> bool {
    match sel {
        Some(v) => if t.positive {
            t.range.contains_spec(v)
        } else {
            !t.range.contains_spec(v)
        },
        None => !t.positive,
    }
}

pub open spec fn term_wf(t: Term) -> bool {
    t.range.wf()
}

fn term_clone(t: &Term) -> (r: Term)
    ensures
        r.positive == t.positive,
        r.range.segments@ == t.range.segments@,
        term_wf(r) == term_wf(*t),
        forall|sel: Option<PEP440Version>| term_sat(r, sel) == term_sat(*t, sel),
{
    Term { positive: t.positive, range: t.range.clone() }
}

/// The negation of a term: flip its polarity.
fn term_negate(t: &Term) -> (r: Term)
    ensures
        term_wf(r) == term_wf(*t),
        forall|sel: Option<PEP440Version>| term_sat(r, sel) == !term_sat(*t, sel),
{
    Term { positive: !t.positive, range: t.range.clone() }
}

/// The conjunction of two terms about the same package.
fn term_intersection(a: &Term, b: &Term) -> (r: Term)
    requires
        term_wf(*a),
        term_wf(*b),
    ensures
        term_wf(r),
        forall|sel: Option<PEP440Version>|
            term_sat(r, sel) == (term_sat(*a, sel) && term_sat(*b, sel)),
{
    if a.positive {
        if b.positive {
            Term { positive: true, range: a.range.intersection(&b.range) }
        } else {
            Term { positive: true, range: a.range.intersection(&b.range.negate()) }
        }
    } else {
        if b.positive {
            Term { positive: true, range: a.range.negate().intersection(&b.range) }
        } else {
            Term { positive: false, range: a.range.union(&b.range) }
        }
    }
}

/// The disjunction of two terms about the same package.
fn term_union(a: &Term, b: &Term) -> (r: Term)
    requires
        term_wf(*a),
        term_wf(*b),
    ensures
        term_wf(r),
        forall|sel: Option<PEP440Version>|
            term_sat(r, sel) == (term_sat(*a, sel) || term_sat(*b, sel)),
{
    let na = term_negate(a);
    let nb = term_negate(b);
    let both = term_intersection(&na, &nb);
    term_negate(&both)
}

/// Is the term satisfied by no assignment at all?
fn term_no_sat(t: &Term) -> (r: bool)
    ensures
        r == !(exists|sel: Option<PEP440Version>| term_sat(*t, sel)),
{
    if t.positive {
        let e = t.range.is_empty();
        proof {
            if !e {
                let w = choose|v: PEP440Version| t.range.contains_spec(v);
                assert(term_sat(*t, Some(w)));
            } else {
                assert forall|sel: Option<PEP440Version>| !term_sat(*t, sel) by {}
            }
        }
        e
    } else {
        proof {
            assert(term_sat(*t, None::<PEP440Version>));
        }
        false
    }
}

/// Is the term satisfied by every assignment?
fn term_is_any(t: &Term) -> (r: bool)
    ensures
        r == (forall|sel: Option<PEP440Version>| term_sat(*t, sel)),
{
    if !t.positive {
        let e = t.range.is_empty();
        proof {
            if !e {
                let w = choose|v: PEP440Version| t.range.contains_spec(v);
                assert(!term_sat(*t, Some(w)));
            }
        }
        e
    } else {
        proof {
            assert(!term_sat(*t, None::<PEP440Version>));
        }
        false
    }
}

/// How one term stands to another.
pub enum TermRelation {
    Satisfied,
    Contradicted,
    Inconclusive,
}

/// Whatever satisfies `pt` also satisfies `t` (satisfied), or refutes `t`
/// (contradicted), or neither is decided yet.
fn term_relation(pt: &Term, t: &Term) -> (r: TermRelation)
    requires
        term_wf(*pt),
        term_wf(*t),
    ensures
        r is Satisfied ==> forall|sel: Option<PEP440Version>|
            term_sat(*pt, sel) ==> term_sat(*t, sel),
        r is Contradicted ==> forall|sel: Option<PEP440Version>|
            term_sat(*pt, sel) ==> !term_sat(*t, sel),
{
    let nt = term_negate(t);
    let x = term_intersection(pt, &nt);
    if term_no_sat(&x) {
        return TermRelation::Satisfied;
    }
    let y = term_intersection(pt, t);
    if term_no_sat(&y) {
        return TermRelation::Contradicted;
    }
    TermRelation::Inconclusive
}

/// Does every assignment satisfying `a` satisfy `b`?
fn term_subset(a: &Term, b: &Term) -> (r: bool)
    requires
        term_wf(*a),
        term_wf(*b),
    ensures
        r ==> forall|sel: Option<PEP440Version>| term_sat(*a, sel) ==> term_sat(*b, sel),
{
    let nb = term_negate(b);
    let x = term_intersection(a, &nb);
    term_no_sat(&x)
}

/// Why an incompatibility exists.
#[derive(Debug, Clone, Copy)]
pub enum Cause {
    /// The synthetic statement that the root cannot be anything but its
    /// pinned version.
    Root,
    /// A package has no acceptable version in a range.
    NoVersions,
    /// A package version whose dependencies are unavailable.
    UnavailableDependencies,
    /// A dependency edge between a package version and a range of another
    /// package.
    Dependency,
    /// Combined from two prior incompatibilities during conflict
    /// resolution.
    Derived(usize, usize),
}

/// A set of package terms that no solution may satisfy all together.
#[derive(Debug)]
pub struct Incompatibility {
    pub terms: Vec<(String, Term)>,
    pub cause: Cause,
}

pub open spec fn incompat_wf(inc: Incompatibility) -> bool {
    forall|i: int| 0 <= i < inc.terms@.len() ==> term_wf(#[trigger] inc.terms@[i].1)
}

fn incompat_clone(inc: &Incompatibility, cause: Cause) -> (r: Incompatibility)
    requires
        incompat_wf(*inc),
    ensures
        incompat_wf(r),
{
    let mut terms: Vec<(String, Term)> = Vec::new();
    let n = inc.terms.len();
    let mut i: usize = 0;
    while i < n
        invariant
            n == inc.terms@.len(),
            0 <= i <= n,
            incompat_wf(*inc),
            forall|j: int| 0 <= j < terms@.len() ==> term_wf(#[trigger] terms@[j].1),
        decreases n - i,
    {
        let t = term_clone(&inc.terms[i].1);
        terms.push((inc.terms[i].0.clone(), t));
        i = i + 1;
    }
    Incompatibility { terms, cause }
}

/// The term an incompatibility holds about a package, if any.
fn incompat_get<'a>(inc: &'a Incompatibility, package: &String) -> (r: Option<&'a Term>)
    requires
        incompat_wf(*inc),
    ensures
        r is Some ==> term_wf(*r->0),
{
    let n = inc.terms.len();
    let mut i: usize = 0;
    while i < n
        invariant
            n == inc.terms@.len(),
            0 <= i <= n,
            incompat_wf(*inc),
        decreases n - i,
    {
        if inc.terms[i].0 == *package {
            return Some(&inc.terms[i].1);
        }
        i = i + 1;
    }
    None
}

/// Would satisfying this incompatibility alone end the search?  It does
/// when it has no terms, or only a term the pinned root satisfies.
fn is_terminal(inc: &Incompatibility, root_package: &String, root_version: &PEP440Version) -> (r:
    bool)
    requires
        incompat_wf(*inc),
    ensures
        r ==> inc.terms@.len() == 0 || (inc.terms@.len() == 1 && inc.terms@[0].0@
            == root_package@ && term_sat(inc.terms@[0].1, Some(*root_version))),
{
    if inc.terms.len() == 0 {
        return true;
    }
    if inc.terms.len() > 1 {
        return false;
    }
    if inc.terms[0].0 == *root_package {
        let t = &inc.terms[0].1;
        let inside = t.range.contains(root_version);
        if t.positive {
            inside
        } else {
            !inside
        }
    } else {
        false
    }
}

/// One recorded derivation: which incompatibility forced it, and when.
#[derive(Debug, Clone, Copy)]
pub struct Derivation {
    pub global_index: usize,
    pub decision_level: usize,
    pub cause: usize,
}

/// Everything the partial solution knows about one package.
pub struct PackageAssignment {
    pub package: String,
    pub smallest_level: usize,
    pub highest_level: usize,
    pub derivations: Vec<Derivation>,
    pub decision: Option<(usize, PEP440Version)>,
    pub derived: Term,
}

/// The partial solution: per-package assignments, appended during
/// propagation and decision making, truncated on backtracking.
pub struct PartialSolution {
    pub next_global_index: usize,
    pub decision_level: usize,
    pub assignments: Vec<PackageAssignment>,
}

pub open spec fn pa_wf(pa: PackageAssignment, nstore: int) -> bool {
    &&& term_wf(pa.derived)
    &&& forall|j: int| 0 <= j < pa.derivations@.len() ==> (#[trigger] pa.derivations@[j]).cause
        < nstore
}

pub open spec fn ps_wf(ps: PartialSolution, nstore: int) -> bool {
    forall|i: int| 0 <= i < ps.assignments@.len() ==> pa_wf(#[trigger] ps.assignments@[i], nstore)
}

/// The index of a package's assignment.
fn pa_index(ps: &PartialSolution, package: &String) -> (r: Option<usize>)
    ensures
        r is Some ==> r->0 < ps.assignments@.len(),
{
    let n = ps.assignments.len();
    let mut i: usize = 0;
    while i < n
        invariant
            n == ps.assignments@.len(),
            0 <= i <= n,
        decreases n - i,
    {
        if ps.assignments[i].package == *package {
            return Some(i);
        }
        i = i + 1;
    }
    None
}

/// The term the partial solution currently holds about an assignment: the
/// pinned version once decided, the intersection of its derivations before.
fn pa_current_term(pa: &PackageAssignment) -> (r: Term)
    requires
        term_wf(pa.derived),
    ensures
        term_wf(r),
{
    match &pa.decision {
        Some((_, v)) => Term { positive: true, range: VersionRange::exact(*v) },
        None => term_clone(&pa.derived),
    }
}

/// How an incompatibility stands to the partial solution.
pub enum IncompatRelation {
    /// Every term holds: the incompatibility is violated.
    Satisfied,
    /// Every term but the named one holds, and that one is open: its
    /// negation can be derived.
    AlmostSatisfied(usize),
    /// Some term cannot hold any more.
    Contradicted,
    /// Nothing is decided yet.
    Inconclusive,
}

fn relation(ps: &PartialSolution, inc: &Incompatibility, nstore: usize) -> (r: IncompatRelation)
    requires
        incompat_wf(*inc),
        ps_wf(*ps, nstore as int),
    ensures
        r is AlmostSatisfied ==> r->AlmostSatisfied_0 < inc.terms@.len(),
{
    let n = inc.terms.len();
    let mut almost: Option<usize> = None;
    let mut i: usize = 0;
    while i < n
        invariant
            n == inc.terms@.len(),
            0 <= i <= n,
            incompat_wf(*inc),
            ps_wf(*ps, nstore as int),
            match almost {
                Some(k) => k < n,
                None => true,
            },
        decreases n - i,
    {
        let t = &inc.terms[i].1;
        let undecided = match pa_index(ps, &inc.terms[i].0) {
            Some(ai) => {
                let cur = pa_current_term(&ps.assignments[ai]);
                match term_relation(&cur, t) {
                    TermRelation::Satisfied => false,
                    TermRelation::Contradicted => {
                        return IncompatRelation::Contradicted;
                    },
                    TermRelation::Inconclusive => true,
                }
            },
            None => true,
        };
        if undecided {
            if almost.is_some() {
                return IncompatRelation::Inconclusive;
            }
            almost = Some(i);
        }
        i = i + 1;
    }
    match almost {
        Some(k) => IncompatRelation::AlmostSatisfied(k),
        None => IncompatRelation::Satisfied,
    }
}

/// Every incompatibility in a store is well formed.
pub open spec fn store_wf(store: Seq<Incompatibility>) -> bool {
    forall|i: int| 0 <= i < store.len() ==> incompat_wf(#[trigger] store[i])
}

/// The neutral term, satisfied by every assignment.
fn term_any() -> (r: Term)
    ensures
        term_wf(r),
        forall|sel: Option<PEP440Version>| term_sat(r, sel),
{
    Term { positive: false, range: VersionRange::none() }
}

/// The intersection of the negated causes of a package's derivations.
fn recompute_derived(ds: &Vec<Derivation>, package: &String, store: &Vec<Incompatibility>) -> (r:
    Term)
    requires
        store_wf(store@),
        forall|j: int| 0 <= j < ds@.len() ==> (#[trigger] ds@[j]).cause < store@.len(),
    ensures
        term_wf(r),
{
    let mut accum = term_any();
    let n = ds.len();
    let mut i: usize = 0;
    while i < n
        invariant
            n == ds@.len(),
            0 <= i <= n,
            term_wf(accum),
            store_wf(store@),
            forall|j: int| 0 <= j < ds@.len() ==> (#[trigger] ds@[j]).cause < store@.len(),
        decreases n - i,
    {
        let c = ds[i].cause;
        let t = match incompat_get(&store[c], package) {
            Some(t) => term_negate(t),
            None => term_any(),
        };
        accum = term_intersection(&accum, &t);
        i = i + 1;
    }
    accum
}

/// Record a derivation: the package must now satisfy the negation of what
/// the causing incompatibility says about it.
fn add_derivation(
    ps: &mut PartialSolution,
    package: &String,
    cause: usize,
    store: &Vec<Incompatibility>,
) -> (r: Result<(), ()>)
    requires
        cause < store@.len(),
        store_wf(store@),
        ps_wf(*old(ps), store@.len() as int),
    ensures
        ps_wf(*final(ps), store@.len() as int),
{
    if ps.next_global_index == usize::MAX {
        return Err(());
    }
    let t = match incompat_get(&store[cause], package) {
        Some(t) => term_negate(t),
        None => term_any(),
    };
    let d = Derivation {
        global_index: ps.next_global_index,
        decision_level: ps.decision_level,
        cause,
    };
    ps.next_global_index = ps.next_global_index + 1;
    match pa_index(ps, package) {
        Some(i) => {
            let merged = term_intersection(&ps.assignments[i].derived, &t);
            let pa = &mut ps.assignments[i];
            pa.highest_level = ps.decision_level;
            pa.derivations.push(d);
            pa.derived = merged;
            proof {
                assert forall|k: int|
                    0 <= k < ps.assignments@.len() implies pa_wf(
                    #[trigger] ps.assignments@[k],
                    store@.len() as int,
                ) by {
                    assert(pa_wf(old(ps).assignments@[k], store@.len() as int));
                }
            }
            Ok(())
        },
        None => {
            let mut derivations: Vec<Derivation> = Vec::new();
            derivations.push(d);
            ps.assignments.push(
                PackageAssignment {
                    package: package.clone(),
                    smallest_level: ps.decision_level,
                    highest_level: ps.decision_level,
                    derivations,
                    decision: None,
                    derived: t,
                },
            );
            proof {
                assert forall|k: int|
                    0 <= k < ps.assignments@.len() implies pa_wf(
                    #[trigger] ps.assignments@[k],
                    store@.len() as int,
                ) by {
                    if k < ps.assignments@.len() - 1 {
                        assert(pa_wf(old(ps).assignments@[k], store@.len() as int));
                    }
                }
            }
            Ok(())
        },
    }
}

/// Pin a package to a version at a fresh decision level.
fn add_decision(ps: &mut PartialSolution, package: &String, version: PEP440Version) -> (r: Result<
    (),
    (),
>)
    ensures
        forall|n: int| ps_wf(*old(ps), n) ==> ps_wf(*final(ps), n),
{
    if ps.next_global_index == usize::MAX || ps.decision_level == usize::MAX {
        return Err(());
    }
    match pa_index(ps, package) {
        None => Err(()),
        Some(i) => {
            ps.decision_level = ps.decision_level + 1;
            let gidx = ps.next_global_index;
            ps.next_global_index = gidx + 1;
            let pa = &mut ps.assignments[i];
            pa.highest_level = ps.decision_level;
            pa.decision = Some((gidx, version));
            proof {
                assert forall|n: int| ps_wf(*old(ps), n) implies ps_wf(*ps, n) by {
                    assert forall|k: int|
                        0 <= k < ps.assignments@.len() implies pa_wf(
                        #[trigger] ps.assignments@[k],
                        n,
                    ) by {
                        assert(pa_wf(old(ps).assignments@[k], n));
                    }
                }
            }
            Ok(())
        },
    }
}

/// Truncate the partial solution to a decision level.
fn backtrack(ps: &mut PartialSolution, level: usize, store: &Vec<Incompatibility>)
    requires
        store_wf(store@),
        ps_wf(*old(ps), store@.len() as int),
    ensures
        ps_wf(*final(ps), store@.len() as int),
{
    ps.decision_level = level;
    let mut kept: Vec<PackageAssignment> = Vec::new();
    loop
        invariant
            store_wf(store@),
            forall|k: int|
                0 <= k < ps.assignments@.len() ==> pa_wf(
                    #[trigger] ps.assignments@[k],
                    store@.len() as int,
                ),
            forall|k: int|
                0 <= k < kept@.len() ==> pa_wf(#[trigger] kept@[k], store@.len() as int),
        decreases ps.assignments@.len(),
    {
        let pa = match ps.assignments.pop() {
            Some(pa) => pa,
            None => {
                break ;
            },
        };
        proof {
            assert(pa_wf(pa, store@.len() as int));
        }
        if pa.smallest_level > level {
            // Entirely newer than the target: dropped.
        } else if pa.highest_level <= level {
            kept.push(pa);
        } else {
            let mut pa = pa;
            loop
                invariant
                    pa_wf(pa, store@.len() as int),
                decreases pa.derivations@.len(),
            {
                let m = pa.derivations.len();
                if m == 0 {
                    break ;
                }
                if pa.derivations[m - 1].decision_level > level {
                    pa.derivations.pop();
                } else {
                    break ;
                }
            }
            let m = pa.derivations.len();
            if m > 0 {
                pa.highest_level = pa.derivations[m - 1].decision_level;
                pa.decision = None;
                pa.derived = recompute_derived(&pa.derivations, &pa.package, store);
                kept.push(pa);
            }
        }
    }
    ps.assignments = kept;
}

/// The earliest point of a package's history at which an incompatibility
/// term became satisfied, as derivation index, global index and decision
/// level.
fn satisfier(
    pa: &PackageAssignment,
    package: &String,
    incompat_term: &Term,
    start: Term,
    store: &Vec<Incompatibility>,
) -> (r: Result<(usize, usize, usize), ()>)
    requires
        term_wf(start),
        term_wf(*incompat_term),
        pa_wf(*pa, store@.len() as int),
        store_wf(store@),
{
    let mut accum = start;
    let n = pa.derivations.len();
    let mut i: usize = 0;
    while i < n
        invariant
            n == pa.derivations@.len(),
            0 <= i <= n,
            term_wf(accum),
            term_wf(*incompat_term),
            pa_wf(*pa, store@.len() as int),
            store_wf(store@),
        decreases n - i,
    {
        let c = pa.derivations[i].cause;
        let t = match incompat_get(&store[c], package) {
            Some(t) => term_negate(t),
            None => term_any(),
        };
        accum = term_intersection(&accum, &t);
        if term_subset(&accum, incompat_term) {
            return Ok((i, pa.derivations[i].global_index, pa.derivations[i].decision_level));
        }
        i = i + 1;
    }
    match &pa.decision {
        Some((gidx, _)) => Ok((n, *gidx, pa.highest_level)),
        None => Err(()),
    }
}

/// What the satisfier search decides: backtrack, or combine with a cause.
pub enum SatisfierSearch {
    DifferentDecisionLevels { previous_level: usize, term_index: usize },
    SameDecisionLevels { cause: usize, term_index: usize },
}

/// Find the assignment that made the incompatibility satisfied, and how its
/// level compares with the rest of the history.
fn satisfier_search(
    inc: &Incompatibility,
    ps: &PartialSolution,
    store: &Vec<Incompatibility>,
) -> (r: Result<SatisfierSearch, ()>)
    requires
        incompat_wf(*inc),
        ps_wf(*ps, store@.len() as int),
        store_wf(store@),
    ensures
        r is Ok ==> match r->Ok_0 {
            SatisfierSearch::DifferentDecisionLevels { previous_level, term_index } => term_index
                < inc.terms@.len(),
            SatisfierSearch::SameDecisionLevels { cause, term_index } => cause < store@.len()
                && term_index < inc.terms@.len(),
        },
{
    let n = inc.terms.len();
    if n == 0 {
        return Err(());
    }
    let mut found: Vec<(usize, usize, usize)> = Vec::new();
    let mut ti: usize = 0;
    while ti < n
        invariant
            n == inc.terms@.len(),
            0 <= ti <= n,
            found@.len() == ti,
            incompat_wf(*inc),
            ps_wf(*ps, store@.len() as int),
            store_wf(store@),
        decreases n - ti,
    {
        let ai = match pa_index(ps, &inc.terms[ti].0) {
            Some(ai) => ai,
            None => {
                return Err(());
            },
        };
        proof {
            assert(pa_wf(ps.assignments@[ai as int], store@.len() as int));
        }
        let s = satisfier(&ps.assignments[ai], &inc.terms[ti].0, &inc.terms[ti].1, term_any(), store);
        match s {
            Ok(v) => {
                found.push(v);
            },
            Err(()) => {
                return Err(());
            },
        }
        ti = ti + 1;
    }
    // The satisfier is the latest of the per-term satisfiers.
    let mut mi: usize = 0;
    let mut k: usize = 1;
    while k < n
        invariant
            n == found@.len(),
            1 <= k <= n,
            mi < k,
        decreases n - k,
    {
        if found[k].1 > found[mi].1 {
            mi = k;
        }
        k = k + 1;
    }
    let (s_idx, s_gidx, s_dl) = (found[mi].0, found[mi].1, found[mi].2);
    // The previous satisfier: the rest of the history, plus the satisfier's
    // own term re-satisfied starting from the satisfier itself.
    let ai = match pa_index(ps, &inc.terms[mi].0) {
        Some(ai) => ai,
        None => {
            return Err(());
        },
    };
    proof {
        assert(pa_wf(ps.assignments@[ai as int], store@.len() as int));
    }
    let pa = &ps.assignments[ai];
    let start: Term = if s_idx == pa.derivations.len() {
        match &pa.decision {
            Some((_, v)) => Term { positive: true, range: VersionRange::exact(*v) },
            None => {
                return Err(());
            },
        }
    } else {
        if s_idx >= pa.derivations.len() {
            return Err(());
        }
        let c = pa.derivations[s_idx].cause;
        match incompat_get(&store[c], &inc.terms[mi].0) {
            Some(t) => term_negate(t),
            None => term_any(),
        }
    };
    let prev = satisfier(pa, &inc.terms[mi].0, &inc.terms[mi].1, start, store);
    let p_dl = match prev {
        Ok((_, _, dl)) => dl,
        Err(()) => {
            return Err(());
        },
    };
    let mut prev_level: usize = p_dl;
    let mut k2: usize = 0;
    while k2 < n
        invariant
            n == found@.len(),
            0 <= k2 <= n,
            mi < n,
        decreases n - k2,
    {
        if k2 != mi && found[k2].2 > prev_level {
            prev_level = found[k2].2;
        }
        k2 = k2 + 1;
    }
    if prev_level < 1 {
        prev_level = 1;
    }
    if prev_level < s_dl {
        Ok(SatisfierSearch::DifferentDecisionLevels { previous_level: prev_level, term_index: mi })
    } else {
        if s_idx >= pa.derivations.len() {
            return Err(());
        }
        let cause = pa.derivations[s_idx].cause;
        proof {
            assert(pa_wf(ps.assignments@[ai as int], store@.len() as int));
        }
        Ok(SatisfierSearch::SameDecisionLevels { cause, term_index: mi })
    }
}

/// One term forces another: whatever satisfies the first satisfies the
/// second.
spec fn term_implies(x: Term, y: Term) -> bool {
    forall|sel: Option<PEP440Version>| term_sat(x, sel) ==> term_sat(y, sel)
}

/// Some collected term carries the given name and forces the given source
/// term.
spec fn covers(terms: Seq<(String, Term)>, name: Seq<char>, src: Term) -> bool {
    exists|k: int|
        0 <= k < terms.len() && (#[trigger] terms[k]).0@ == name && term_implies(terms[k].1, src)
}

/// The rule of resolution: combine two incompatibilities that share a
/// package into one that mentions it less precisely, or not at all.  Any
/// assignment satisfying the result satisfies one of the two inputs, so
/// validity carries over.
#[verifier::loop_isolation(false)]
#[verifier::rlimit(100)]
fn prior_cause(
    a: &Incompatibility,
    b: &Incompatibility,
    package: &String,
    cause: Cause,
) -> (r: Incompatibility)
    requires
        incompat_wf(*a),
        incompat_wf(*b),
        incompat_distinct(*a),
        incompat_distinct(*b),
    ensures
        incompat_wf(r),
        incompat_distinct(r),
        forall|asg: spec_fn(Seq<char>) -> Option<PEP440Version>|
            #[trigger] incompat_sat_by(r, asg) ==> incompat_sat_by(*a, asg) || incompat_sat_by(
                *b,
                asg,
            ),
{
    let mut terms: Vec<(String, Term)> = Vec::new();
    let na = a.terms.len();
    let mut i: usize = 0;
    let mut a_term: Option<Term> = None;
    while i < na
        invariant
            0 <= i <= na,
            forall|k: int| 0 <= k < terms@.len() ==> term_wf((#[trigger] terms@[k]).1),
            forall|k: int| 0 <= k < terms@.len() ==> (#[trigger] terms@[k]).0@ != package@,
            forall|k1: int, k2: int|
                0 <= k1 < k2 < terms@.len() ==> (#[trigger] terms@[k1]).0@ != (
                #[trigger] terms@[k2]).0@,
            forall|k: int|
                0 <= k < terms@.len() ==> exists|ia: int|
                    0 <= ia < i && (#[trigger] terms@[k]).0@ == (#[trigger] a.terms@[ia]).0@,
            forall|ia: int|
                0 <= ia < i && (#[trigger] a.terms@[ia]).0@ != package@ ==> covers(
                    terms@,
                    a.terms@[ia].0@,
                    a.terms@[ia].1,
                ),
            match a_term {
                Some(t) => term_wf(t) && exists|ia: int|
                    0 <= ia < i && (#[trigger] a.terms@[ia]).0@ == package@ && (forall|
                        sel: Option<PEP440Version>,
                    |
                        term_sat(t, sel) == term_sat(a.terms@[ia].1, sel)),
                None => forall|ia: int| 0 <= ia < i ==> (#[trigger] a.terms@[ia]).0@ != package@,
            },
        decreases na - i,
    {
        let ghost terms0 = terms@;
        if a.terms[i].0 == *package {
            a_term = Some(term_clone(&a.terms[i].1));
        } else {
            proof {
                assert forall|k: int|
                    0 <= k < terms@.len() implies (#[trigger] terms@[k]).0@ != a.terms@[i as int].0@ by {
                    let ia = choose|ia: int|
                        0 <= ia < i && (#[trigger] terms@[k]).0@ == (#[trigger] a.terms@[ia]).0@;
                    assert(a.terms@[ia].0@ != a.terms@[i as int].0@);
                }
            }
            terms.push((a.terms[i].0.clone(), term_clone(&a.terms[i].1)));
            proof {
                assert forall|ia: int|
                    0 <= ia < i + 1 && (#[trigger] a.terms@[ia]).0@ != package@ implies covers(
                    terms@,
                    a.terms@[ia].0@,
                    a.terms@[ia].1,
                ) by {
                    if ia < i {
                        let k = choose|k: int|
                            0 <= k < terms0.len() && (#[trigger] terms0[k]).0@
                                == a.terms@[ia].0@ && term_implies(terms0[k].1, a.terms@[ia].1);
                        assert(terms@[k] == terms0[k]);
                        assert(covers(terms@, a.terms@[ia].0@, a.terms@[ia].1));
                    } else {
                        let k = terms@.len() - 1;
                        assert(terms@[k].0@ == a.terms@[ia].0@);
                        assert(term_implies(terms@[k].1, a.terms@[ia].1));
                        assert(covers(terms@, a.terms@[ia].0@, a.terms@[ia].1));
                    }
                }
            }
        }
        i = i + 1;
    }
    let ghost a_cover = terms@;
    let nb = b.terms.len();
    let mut j: usize = 0;
    let mut b_term: Option<Term> = None;
    while j < nb
        invariant
            0 <= j <= nb,
            forall|k: int| 0 <= k < terms@.len() ==> term_wf((#[trigger] terms@[k]).1),
            forall|k: int| 0 <= k < terms@.len() ==> (#[trigger] terms@[k]).0@ != package@,
            forall|k1: int, k2: int|
                0 <= k1 < k2 < terms@.len() ==> (#[trigger] terms@[k1]).0@ != (
                #[trigger] terms@[k2]).0@,
            forall|ia: int|
                0 <= ia < na && (#[trigger] a.terms@[ia]).0@ != package@ ==> covers(
                    terms@,
                    a.terms@[ia].0@,
                    a.terms@[ia].1,
                ),
            forall|jb: int|
                0 <= jb < j && (#[trigger] b.terms@[jb]).0@ != package@ ==> covers(
                    terms@,
                    b.terms@[jb].0@,
                    b.terms@[jb].1,
                ),
            match a_term {
                Some(t) => term_wf(t) && exists|ia: int|
                    0 <= ia < na && (#[trigger] a.terms@[ia]).0@ == package@ && (forall|
                        sel: Option<PEP440Version>,
                    |
                        term_sat(t, sel) == term_sat(a.terms@[ia].1, sel)),
                None => forall|ia: int| 0 <= ia < na ==> (#[trigger] a.terms@[ia]).0@ != package@,
            },
            match b_term {
                Some(t) => term_wf(t) && exists|jb: int|
                    0 <= jb < j && (#[trigger] b.terms@[jb]).0@ == package@ && (forall|
                        sel: Option<PEP440Version>,
                    |
                        term_sat(t, sel) == term_sat(b.terms@[jb].1, sel)),
                None => forall|jb: int| 0 <= jb < j ==> (#[trigger] b.terms@[jb]).0@ != package@,
            },
        decreases nb - j,
    {
        let ghost terms0 = terms@;
        if b.terms[j].0 == *package {
            b_term = Some(term_clone(&b.terms[j].1));
        } else {
            // Merge with an existing term about the same package.
            let mut found: Option<usize> = None;
            let nt = terms.len();
            let mut k: usize = 0;
            while k < nt
                invariant
                    0 <= k <= nt,
                    j < nb,
                    match found {
                        Some(f) => f < nt && terms@[f as int].0@ == b.terms@[j as int].0@,
                        None => forall|q: int|
                            0 <= q < k ==> (#[trigger] terms@[q]).0@ != b.terms@[j as int].0@,
                    },
                decreases nt - k,
            {
                if terms[k].0 == b.terms[j].0 {
                    found = Some(k);
                    break ;
                }
                k = k + 1;
            }
            match found {
                Some(f) => {
                    let merged = term_intersection(&terms[f].1, &b.terms[j].1);
                    let slot = &mut terms[f];
                    slot.1 = merged;
                    proof {
                        // The tightened slot still forces everything the old
                        // slot forced, and now also this entry of `b`.
                        assert forall|ia: int|
                            0 <= ia < na && (#[trigger] a.terms@[ia]).0@ != package@ implies covers(
                            terms@,
                            a.terms@[ia].0@,
                            a.terms@[ia].1,
                        ) by {
                            let k0 = choose|k0: int|
                                0 <= k0 < terms0.len() && (#[trigger] terms0[k0]).0@
                                    == a.terms@[ia].0@ && term_implies(
                                    terms0[k0].1,
                                    a.terms@[ia].1,
                                );
                            if k0 == f {
                                assert(term_implies(terms@[k0].1, terms0[k0].1));
                                assert(term_implies(terms@[k0].1, a.terms@[ia].1));
                            } else {
                                assert(terms@[k0] == terms0[k0]);
                            }
                            assert(covers(terms@, a.terms@[ia].0@, a.terms@[ia].1));
                        }
                        assert forall|jb: int|
                            0 <= jb < j + 1 && (#[trigger] b.terms@[jb]).0@ != package@ implies covers(
                            terms@,
                            b.terms@[jb].0@,
                            b.terms@[jb].1,
                        ) by {
                            if jb < j {
                                let k0 = choose|k0: int|
                                    0 <= k0 < terms0.len() && (#[trigger] terms0[k0]).0@
                                        == b.terms@[jb].0@ && term_implies(
                                        terms0[k0].1,
                                        b.terms@[jb].1,
                                    );
                                if k0 == f {
                                    assert(term_implies(terms@[k0].1, terms0[k0].1));
                                    assert(term_implies(terms@[k0].1, b.terms@[jb].1));
                                } else {
                                    assert(terms@[k0] == terms0[k0]);
                                }
                                assert(covers(terms@, b.terms@[jb].0@, b.terms@[jb].1));
                            } else {
                                assert(term_implies(terms@[f as int].1, b.terms@[jb].1));
                                assert(covers(terms@, b.terms@[jb].0@, b.terms@[jb].1));
                            }
                        }
                    }
                },
                None => {
                    terms.push((b.terms[j].0.clone(), term_clone(&b.terms[j].1)));
                    proof {
                        assert forall|ia: int|
                            0 <= ia < na && (#[trigger] a.terms@[ia]).0@ != package@ implies covers(
                            terms@,
                            a.terms@[ia].0@,
                            a.terms@[ia].1,
                        ) by {
                            let k0 = choose|k0: int|
                                0 <= k0 < terms0.len() && (#[trigger] terms0[k0]).0@
                                    == a.terms@[ia].0@ && term_implies(
                                    terms0[k0].1,
                                    a.terms@[ia].1,
                                );
                            assert(terms@[k0] == terms0[k0]);
                            assert(covers(terms@, a.terms@[ia].0@, a.terms@[ia].1));
                        }
                        assert forall|jb: int|
                            0 <= jb < j + 1 && (#[trigger] b.terms@[jb]).0@ != package@ implies covers(
                            terms@,
                            b.terms@[jb].0@,
                            b.terms@[jb].1,
                        ) by {
                            if jb < j {
                                let k0 = choose|k0: int|
                                    0 <= k0 < terms0.len() && (#[trigger] terms0[k0]).0@
                                        == b.terms@[jb].0@ && term_implies(
                                        terms0[k0].1,
                                        b.terms@[jb].1,
                                    );
                                assert(terms@[k0] == terms0[k0]);
                                assert(covers(terms@, b.terms@[jb].0@, b.terms@[jb].1));
                            } else {
                                let k0 = terms@.len() - 1;
                                assert(terms@[k0].0@ == b.terms@[jb].0@);
                                assert(term_implies(terms@[k0].1, b.terms@[jb].1));
                                assert(covers(terms@, b.terms@[jb].0@, b.terms@[jb].1));
                            }
                        }
                    }
                },
            }
        }
        j = j + 1;
    }
    // The shared package's term: the union of what the two sides said, or
    // nothing at all where that union is vacuous.
    let ghost terms_nop = terms@;
    let ghost union_any: bool = false;
    let mut p_index: Option<usize> = None;
    match (&a_term, &b_term) {
        (Some(t1), Some(t2)) => {
            let u = term_union(t1, t2);
            if !term_is_any(&u) {
                terms.push((package.clone(), u));
                p_index = Some(terms.len() - 1);
            }
        },
        (Some(t1), None) => {
            terms.push((package.clone(), term_clone(t1)));
            p_index = Some(terms.len() - 1);
        },
        (None, Some(t2)) => {
            terms.push((package.clone(), term_clone(t2)));
            p_index = Some(terms.len() - 1);
        },
        (None, None) => {},
    }
    let r = Incompatibility { terms, cause };
    proof {
        assert forall|asg: spec_fn(Seq<char>) -> Option<PEP440Version>|
            #[trigger] incompat_sat_by(r, asg) implies incompat_sat_by(*a, asg)
            || incompat_sat_by(*b, asg) by {
            // Everything covered is satisfied under the assignment.
            assert forall|name: Seq<char>, src: Term|
                covers(terms_nop, name, src) implies #[trigger] term_sat(src, asg(name)) by {
                let k = choose|k: int|
                    0 <= k < terms_nop.len() && (#[trigger] terms_nop[k]).0@ == name
                        && term_implies(terms_nop[k].1, src);
                assert(r.terms@[k] == terms_nop[k]);
                assert(term_sat(r.terms@[k].1, asg(r.terms@[k].0@)));
            }
            match a_term {
                None => {
                    assert forall|ia: int|
                        0 <= ia < a.terms@.len() implies term_sat(
                        (#[trigger] a.terms@[ia]).1,
                        asg(a.terms@[ia].0@),
                    ) by {
                        assert(covers(terms_nop, a.terms@[ia].0@, a.terms@[ia].1));
                    }
                    assert(incompat_sat_by(*a, asg));
                },
                Some(t1) => {
                    match b_term {
                        None => {
                            assert forall|jb: int|
                                0 <= jb < b.terms@.len() implies term_sat(
                                (#[trigger] b.terms@[jb]).1,
                                asg(b.terms@[jb].0@),
                            ) by {
                                assert(covers(terms_nop, b.terms@[jb].0@, b.terms@[jb].1));
                            }
                            assert(incompat_sat_by(*b, asg));
                        },
                        Some(t2) => {
                            if !incompat_sat_by(*a, asg) && !incompat_sat_by(*b, asg) {
                                // The failure can only sit at the shared
                                // package, on both sides.
                                let ia = choose|ia: int|
                                    0 <= ia < a.terms@.len() && !term_sat(
                                        (#[trigger] a.terms@[ia]).1,
                                        asg(a.terms@[ia].0@),
                                    );
                                if a.terms@[ia].0@ != package@ {
                                    assert(covers(terms_nop, a.terms@[ia].0@, a.terms@[ia].1));
                                    assert(false);
                                }
                                let ia2 = choose|ia2: int|
                                    0 <= ia2 < a.terms@.len() && (#[trigger] a.terms@[ia2]).0@
                                        == package@ && (forall|sel: Option<PEP440Version>|
                                        term_sat(t1, sel) == term_sat(a.terms@[ia2].1, sel));
                                assert(ia == ia2);
                                assert(!term_sat(t1, asg(package@)));
                                let jb = choose|jb: int|
                                    0 <= jb < b.terms@.len() && !term_sat(
                                        (#[trigger] b.terms@[jb]).1,
                                        asg(b.terms@[jb].0@),
                                    );
                                if b.terms@[jb].0@ != package@ {
                                    assert(covers(terms_nop, b.terms@[jb].0@, b.terms@[jb].1));
                                    assert(false);
                                }
                                let jb2 = choose|jb2: int|
                                    0 <= jb2 < b.terms@.len() && (#[trigger] b.terms@[jb2]).0@
                                        == package@ && (forall|sel: Option<PEP440Version>|
                                        term_sat(t2, sel) == term_sat(b.terms@[jb2].1, sel));
                                assert(jb == jb2);
                                assert(!term_sat(t2, asg(package@)));
                                match p_index {
                                    Some(pi) => {
                                        assert(r.terms@[pi as int].0@ == package@);
                                        assert(term_sat(
                                            r.terms@[pi as int].1,
                                            asg(r.terms@[pi as int].0@),
                                        ));
                                        assert(false);
                                    },
                                    None => {
                                        assert(false);
                                    },
                                }
                            }
                        },
                    }
                },
            }
        }
    }
    r
}

/// Do the partial solution and one assumed term satisfy every term of the
/// incompatibility?
fn satisfied_with(
    ps: &PartialSolution,
    inc: &Incompatibility,
    nstore: usize,
    ov_pkg: &String,
    ov_term: &Term,
) -> (r: bool)
    requires
        incompat_wf(*inc),
        ps_wf(*ps, nstore as int),
        term_wf(*ov_term),
{
    let n = inc.terms.len();
    let mut i: usize = 0;
    while i < n
        invariant
            n == inc.terms@.len(),
            0 <= i <= n,
            incompat_wf(*inc),
            ps_wf(*ps, nstore as int),
            term_wf(*ov_term),
        decreases n - i,
    {
        let cur: Term = if inc.terms[i].0 == *ov_pkg {
            term_clone(ov_term)
        } else {
            match pa_index(ps, &inc.terms[i].0) {
                Some(ai) => pa_current_term(&ps.assignments[ai]),
                None => {
                    return false;
                },
            }
        };
        match term_relation(&cur, &inc.terms[i].1) {
            TermRelation::Satisfied => {},
            _ => {
                return false;
            },
        }
        i = i + 1;
    }
    true
}

/// Conflict resolution: walk back through the causes of the conflict,
/// combining incompatibilities by the rule of resolution, until one can be
/// resolved by backtracking, or until it shows the root itself cannot be
/// satisfied.
fn conflict_resolution(
    incompats: &mut Vec<Incompatibility>,
    partial: &mut PartialSolution,
    provider: &PoetryProvider,
    incompat: usize,
    fuel: usize,
) -> (r: Result<(String, usize), ResolveError>)
    requires
        incompat < old(incompats)@.len(),
        store_wf(old(incompats)@),
        store_valid(old(incompats)@, *provider),
        ps_wf(*old(partial), old(incompats)@.len() as int),
    ensures
        store_wf(final(incompats)@),
        store_valid(final(incompats)@, *provider),
        ps_wf(*final(partial), final(incompats)@.len() as int),
        r is Ok ==> r->Ok_0.1 < final(incompats)@.len(),
        r is Err ==> (r->Err_0 is NoSolution || r->Err_0 is Exhausted || r->Err_0
            is Inconsistent),
        r matches Err(ResolveError::NoSolution(_)) ==> (forall|
            asg: spec_fn(Seq<char>) -> Option<PEP440Version>,
        |
            !asg_ok(asg, *provider)),
{
    let mut cur = incompat;
    let mut f = fuel;
    loop
        invariant
            cur < incompats@.len(),
            store_wf(incompats@),
            store_valid(incompats@, *provider),
            ps_wf(*partial, incompats@.len() as int),
        decreases f,
    {
        if f == 0 {
            return Err(ResolveError::Exhausted);
        }
        f = f - 1;
        if is_terminal(&incompats[cur], &provider.root.package, &provider.root.version) {
            // A terminal incompatibility is satisfied by every candidate
            // assignment, and a valid one by none: nothing can resolve
            // this provider.
            proof {
                let inc = incompats@[cur as int];
                assert forall|asg: spec_fn(Seq<char>) -> Option<PEP440Version>|
                    !asg_ok(asg, *provider) by {
                    if asg_ok(asg, *provider) {
                        assert(incompat_valid(inc, *provider));
                        if inc.terms@.len() == 0 {
                            assert(incompat_sat_by(inc, asg));
                        } else {
                            let w = asg(provider.root.package@)->0;
                            lemma_contains_key_eq(
                                inc.terms@[0].1.range,
                                w,
                                provider.root.version,
                            );
                            assert(term_sat(inc.terms@[0].1, asg(inc.terms@[0].0@)));
                            assert forall|ii: int|
                                0 <= ii < inc.terms@.len() implies term_sat(
                                (#[trigger] inc.terms@[ii]).1,
                                asg(inc.terms@[ii].0@),
                            ) by {
                                assert(ii == 0);
                            }
                            assert(incompat_sat_by(inc, asg));
                        }
                        assert(false);
                    }
                }
            }
            let cc = incompats[cur].cause;
            return Err(ResolveError::NoSolution(incompat_clone(&incompats[cur], cc)));
        }
        let sr = match satisfier_search(&incompats[cur], partial, incompats) {
            Ok(sr) => sr,
            Err(()) => {
                return Err(ResolveError::Inconsistent);
            },
        };
        match sr {
            SatisfierSearch::DifferentDecisionLevels { previous_level, term_index } => {
                backtrack(partial, previous_level, incompats);
                let pkg = incompats[cur].terms[term_index].0.clone();
                return Ok((pkg, cur));
            },
            SatisfierSearch::SameDecisionLevels { cause, term_index } => {
                let pkg = incompats[cur].terms[term_index].0.clone();
                let newinc = prior_cause(
                    &incompats[cur],
                    &incompats[cause],
                    &pkg,
                    Cause::Derived(cur, cause),
                );
                let ghost ginc = newinc;
                let ghost ga = incompats@[cur as int];
                let ghost gb = incompats@[cause as int];
                let ghost store0 = incompats@;
                incompats.push(newinc);
                proof {
                    assert forall|k: int|
                        0 <= k < partial.assignments@.len() implies pa_wf(
                        #[trigger] partial.assignments@[k],
                        incompats@.len() as int,
                    ) by {
                        assert(pa_wf(partial.assignments@[k], incompats@.len() - 1));
                    }
                    // The resolvent is valid because its parents are.
                    assert forall|asg: spec_fn(Seq<char>) -> Option<PEP440Version>|
                        #[trigger] asg_ok(asg, *provider) implies !incompat_sat_by(
                        ginc,
                        asg,
                    ) by {
                        if incompat_sat_by(ginc, asg) {
                            assert(incompat_sat_by(ga, asg) || incompat_sat_by(gb, asg));
                            assert(incompat_valid(ga, *provider));
                            assert(incompat_valid(gb, *provider));
                        }
                    }
                    assert forall|k: int|
                        0 <= k < incompats@.len() implies incompat_valid(
                        #[trigger] incompats@[k],
                        *provider,
                    ) && incompat_distinct(incompats@[k]) by {
                        if k < incompats@.len() - 1 {
                            assert(incompats@[k] == store0[k]);
                            assert(incompat_valid(store0[k], *provider) && incompat_distinct(
                                store0[k],
                            ));
                        } else {
                            assert(incompats@[k] == ginc);
                        }
                    }
                }
                cur = incompats.len() - 1;
            },
        }
    }
}

/// Unit propagation: scan the incompatibilities until none forces a new
/// derivation and none is violated, resolving conflicts as they surface.
fn propagate(
    incompats: &mut Vec<Incompatibility>,
    partial: &mut PartialSolution,
    provider: &PoetryProvider,
    fuel: usize,
) -> (r: Result<(), ResolveError>)
    requires
        store_wf(old(incompats)@),
        store_valid(old(incompats)@, *provider),
        ps_wf(*old(partial), old(incompats)@.len() as int),
    ensures
        store_wf(final(incompats)@),
        store_valid(final(incompats)@, *provider),
        ps_wf(*final(partial), final(incompats)@.len() as int),
        r is Err ==> (r->Err_0 is NoSolution || r->Err_0 is Exhausted || r->Err_0
            is Inconsistent),
        r matches Err(ResolveError::NoSolution(_)) ==> (forall|
            asg: spec_fn(Seq<char>) -> Option<PEP440Version>,
        |
            !asg_ok(asg, *provider)),
{
    let mut f = fuel;
    loop
        invariant
            store_wf(incompats@),
            store_valid(incompats@, *provider),
            ps_wf(*partial, incompats@.len() as int),
        decreases f,
    {
        if f == 0 {
            return Err(ResolveError::Exhausted);
        }
        f = f - 1;
        let n = incompats.len();
        let mut changed = false;
        let mut conflict: Option<usize> = None;
        let mut idx: usize = n;
        while idx > 0
            invariant
                0 <= idx <= n,
                n == incompats@.len(),
                store_wf(incompats@),
                store_valid(incompats@, *provider),
                ps_wf(*partial, incompats@.len() as int),
                match conflict {
                    Some(c) => c < n,
                    None => true,
                },
            decreases idx,
        {
            idx = idx - 1;
            match relation(partial, &incompats[idx], n) {
                IncompatRelation::Satisfied => {
                    conflict = Some(idx);
                    break ;
                },
                IncompatRelation::AlmostSatisfied(ti) => {
                    let pkg = incompats[idx].terms[ti].0.clone();
                    match add_derivation(partial, &pkg, idx, incompats) {
                        Ok(()) => {},
                        Err(()) => {
                            return Err(ResolveError::Inconsistent);
                        },
                    }
                    changed = true;
                },
                _ => {},
            }
        }
        match conflict {
            Some(ci) => {
                let (pkg, root_cause) = match conflict_resolution(
                    incompats,
                    partial,
                    provider,
                    ci,
                    f,
                ) {
                    Ok(x) => x,
                    Err(e) => {
                        return Err(e);
                    },
                };
                match add_derivation(partial, &pkg, root_cause, incompats) {
                    Ok(()) => {},
                    Err(()) => {
                        return Err(ResolveError::Inconsistent);
                    },
                }
            },
            None => {
                if !changed {
                    return Ok(());
                }
            },
        }
    }
}

/// The packages still to decide: those with a positive derived constraint
/// and no decision, each with its currently allowed range.
fn potential_packages(ps: &PartialSolution, nstore: usize) -> (r: Vec<(String, VersionRange)>)
    requires
        ps_wf(*ps, nstore as int),
    ensures
        forall|i: int| 0 <= i < r@.len() ==> (#[trigger] r@[i]).1.wf(),
{
    let mut out: Vec<(String, VersionRange)> = Vec::new();
    let n = ps.assignments.len();
    let mut i: usize = 0;
    while i < n
        invariant
            n == ps.assignments@.len(),
            0 <= i <= n,
            ps_wf(*ps, nstore as int),
            forall|k: int| 0 <= k < out@.len() ==> (#[trigger] out@[k]).1.wf(),
        decreases n - i,
    {
        let pa = &ps.assignments[i];
        if pa.decision.is_none() && pa.derived.positive {
            proof {
                assert(pa_wf(ps.assignments@[i as int], nstore as int));
            }
            out.push((pa.package.clone(), pa.derived.range.clone()));
        }
        i = i + 1;
    }
    out
}

/// The decided versions, or `None` where some package still has an open
/// positive constraint.
fn extract_solution(ps: &PartialSolution) -> (r: Option<Vec<(String, PEP440Version)>>) {
    let mut out: Vec<(String, PEP440Version)> = Vec::new();
    let n = ps.assignments.len();
    let mut i: usize = 0;
    while i < n
        invariant
            n == ps.assignments@.len(),
            0 <= i <= n,
        decreases n - i,
    {
        let pa = &ps.assignments[i];
        match &pa.decision {
            Some((_, v)) => {
                out.push((pa.package.clone(), *v));
            },
            None => {
                if pa.derived.positive {
                    return None;
                }
            },
        }
        i = i + 1;
    }
    Some(out)
}

/// The provider offers this exact version for this package.
pub open spec fn version_offered(p: PoetryProvider, name: Seq<char>, v: PEP440Version) -> bool {
    match crate::poetry_provider::provider_versions(p, name) {
        Some(vs) => exists|k: int| 0 <= k < vs.len() && vs[k] == v,
        None => false,
    }
}

/// Check that no package name repeats in a solution.
#[verifier::loop_isolation(false)]
fn check_distinct(sol: &Vec<(String, PEP440Version)>) -> (r: bool)
    ensures
        r ==> forall|i: int, j: int| 0 <= i < j < sol@.len() ==> sol@[i].0@ != sol@[j].0@,
{
    let n = sol.len();
    let mut i: usize = 0;
    while i < n
        invariant
            n == sol@.len(),
            0 <= i <= n,
            forall|a: int, b: int| 0 <= a < b < i ==> sol@[a].0@ != sol@[b].0@,
        decreases n - i,
    {
        let mut j: usize = 0;
        while j < i
            invariant
                n == sol@.len(),
                0 <= j <= i <= n,
                forall|a: int, b: int| 0 <= a < b < i ==> sol@[a].0@ != sol@[b].0@,
                forall|b: int| 0 <= b < j ==> sol@[b].0@ != sol@[i as int].0@,
            decreases i - j,
        {
            if sol[j].0 == sol[i].0 {
                return false;
            }
            j = j + 1;
        }
        i = i + 1;
    }
    true
}

/// Check that every entry of a solution carries a version the provider
/// offers for its package.
#[verifier::loop_isolation(false)]
fn check_offered(sol: &Vec<(String, PEP440Version)>, p: &PoetryProvider) -> (r: bool)
    ensures
        r ==> forall|i: int|
            0 <= i < sol@.len() ==> version_offered(*p, (#[trigger] sol@[i]).0@, sol@[i].1),
{
    let n = sol.len();
    let mut i: usize = 0;
    while i < n
        invariant
            n == sol@.len(),
            0 <= i <= n,
            forall|t: int|
                0 <= t < i ==> version_offered(*p, (#[trigger] sol@[t]).0@, sol@[t].1),
        decreases n - i,
    {
        if sol[i].0 == p.root.package {
            if !sol[i].1.equals(&p.root.version) {
                return false;
            }
            proof {
                let vs = crate::poetry_provider::provider_versions(*p, sol@[i as int].0@)->0;
                assert(vs[0] == sol@[i as int].1);
            }
        } else {
            let rec = match p.remote.lookup(&sol[i].0) {
                Some(rec) => rec,
                None => {
                    return false;
                },
            };
            let m = rec.versions.len();
            let mut k: usize = 0;
            let mut found = false;
            while k < m
                invariant
                    0 <= k <= m,
                    m == rec.versions.len(),
                    i < n,
                    found ==> version_offered(*p, sol@[i as int].0@, sol@[i as int].1),
                decreases m - k,
            {
                if rec.versions[k].equals(&sol[i].1) {
                    found = true;
                    proof {
                        assert(crate::poetry_provider::provider_versions(
                            *p,
                            sol@[i as int].0@,
                        ) == Some(rec.versions@));
                        assert(rec.versions@[k as int] == sol@[i as int].1);
                    }
                    break ;
                }
                k = k + 1;
            }
            if !found {
                return false;
            }
        }
        i = i + 1;
    }
    true
}


/// A candidate assignment: which version, if any, each package name would
/// be pinned to.
pub open spec fn deps_honoured(
    p: PoetryProvider,
    n: Seq<char>,
    v: PEP440Version,
    asg: spec_fn(Seq<char>) -> Option<PEP440Version>,
) -> bool {
    match provider_deps(p, n, v) {
        Some(ds) => forall|j: int|
            0 <= j < ds.len() ==> ((#[trigger] ds[j]).1.contains_spec(asg(ds[j].0@)->0) && asg(
                ds[j].0@,
            ) is Some),
        None => false,
    }
}

/// A candidate assignment resolves the provider when it pins the root to
/// its pinned version, pins only offered versions, and honours the
/// declared dependencies of everything it pins.
pub open spec fn asg_ok(
    asg: spec_fn(Seq<char>) -> Option<PEP440Version>,
    p: PoetryProvider,
) -> bool {
    &&& (match asg(p.root.package@) {
        Some(v) => key_eq(v, p.root.version),
        None => false,
    })
    &&& (forall|n: Seq<char>| (#[trigger] asg(n)) is Some ==> version_offered(p, n, asg(n)->0))
    &&& (forall|n: Seq<char>| (#[trigger] asg(n)) is Some ==> deps_honoured(p, n, asg(n)->0, asg))
}

/// An assignment satisfies an incompatibility when it satisfies each of its
/// terms.
pub open spec fn incompat_sat_by(
    inc: Incompatibility,
    asg: spec_fn(Seq<char>) -> Option<PEP440Version>,
) -> bool {
    forall|i: int|
        0 <= i < inc.terms@.len() ==> term_sat(
            (#[trigger] inc.terms@[i]).1,
            asg(inc.terms@[i].0@),
        )
}

/// A valid incompatibility: no candidate assignment that resolves the
/// provider satisfies all its terms.
pub open spec fn incompat_valid(inc: Incompatibility, p: PoetryProvider) -> bool {
    forall|asg: spec_fn(Seq<char>) -> Option<PEP440Version>|
        #[trigger] asg_ok(asg, p) ==> !incompat_sat_by(inc, asg)
}

/// No two terms of the incompatibility name the same package.
pub open spec fn incompat_distinct(inc: Incompatibility) -> bool {
    forall|i: int, j: int|
        0 <= i < j < inc.terms@.len() ==> (#[trigger] inc.terms@[i]).0@ != (
        #[trigger] inc.terms@[j]).0@
}

/// Every incompatibility of the store is valid, with distinct term names.
pub open spec fn store_valid(store: Seq<Incompatibility>, p: PoetryProvider) -> bool {
    forall|i: int|
        0 <= i < store.len() ==> incompat_valid(#[trigger] store[i], p) && incompat_distinct(
            store[i],
        )
}

/// The provider never offers two order-equivalent versions of one package.
pub open spec fn offers_distinct_keys(p: PoetryProvider) -> bool {
    forall|n: Seq<char>|
        match #[trigger] provider_versions(p, n) {
            Some(vs) => forall|i: int, j: int| 0 <= i < j < vs.len() ==> !key_eq(vs[i], vs[j]),
            None => true,
        }
}

/// Check that no stored version list holds two order-equivalent versions.
#[verifier::loop_isolation(false)]
fn check_store_keys(p: &PoetryProvider) -> (r: bool)
    ensures
        r ==> offers_distinct_keys(*p),
{
    let n = p.remote.packages.len();
    let mut i: usize = 0;
    while i < n
        invariant
            0 <= i <= n,
            forall|t: int, a: int, b: int|
                #![trigger p.remote.packages@[t].versions@[a], p.remote.packages@[t].versions@[b]]
                0 <= t < i && 0 <= a < b < p.remote.packages@[t].versions@.len() ==> !key_eq(
                    p.remote.packages@[t].versions@[a],
                    p.remote.packages@[t].versions@[b],
                ),
        decreases n - i,
    {
        let m = p.remote.packages[i].versions.len();
        let mut a: usize = 0;
        while a < m
            invariant
                0 <= a <= m,
                i < n,
                forall|x: int, y: int|
                    0 <= x < y < m && x < a ==> !key_eq(
                        p.remote.packages@[i as int].versions@[x],
                        p.remote.packages@[i as int].versions@[y],
                    ),
            decreases m - a,
        {
            let mut b: usize = a + 1;
            while b < m
                invariant
                    a < b <= m || (a + 1 == b && b > m),
                    a < m,
                    i < n,
                    forall|y: int|
                        a < y < b ==> !key_eq(
                            p.remote.packages@[i as int].versions@[a as int],
                            p.remote.packages@[i as int].versions@[y],
                        ),
                decreases m - b,
            {
                if p.remote.packages[i].versions[a].same_precedence(&p.remote.packages[i].versions[b]) {
                    return false;
                }
                b = b + 1;
            }
            a = a + 1;
        }
        i = i + 1;
    }
    proof {
        assert forall|nm: Seq<char>|
            match #[trigger] provider_versions(*p, nm) {
                Some(vs) => forall|x: int, y: int| 0 <= x < y < vs.len() ==> !key_eq(vs[x], vs[y]),
                None => true,
            } by {
            if nm == p.root.package@ {
                assert(provider_versions(*p, nm) == Some(seq![p.root.version]));
            } else {
                match crate::provider::find_pkg(p.remote.packages@, nm) {
                    Some(rec) => {
                        crate::provider::lemma_find_pkg_member(p.remote.packages@, nm);
                        let t = choose|t: int|
                            0 <= t < p.remote.packages@.len() && p.remote.packages@[t] == rec;
                        assert forall|x: int, y: int|
                            0 <= x < y < rec.versions@.len() implies !key_eq(
                            rec.versions@[x],
                            rec.versions@[y],
                        ) by {
                            assert(!key_eq(
                                p.remote.packages@[t].versions@[x],
                                p.remote.packages@[t].versions@[y],
                            ));
                        }
                    },
                    None => {},
                }
            }
        }
    }
    true
}

/// Under distinct offered keys, an offered version order-equivalent to
/// another offered version of the same package is that version.
proof fn lemma_offered_key_unique(
    p: PoetryProvider,
    name: Seq<char>,
    v: PEP440Version,
    w: PEP440Version,
)
    requires
        offers_distinct_keys(p),
        version_offered(p, name, v),
        version_offered(p, name, w),
        key_eq(v, w),
    ensures
        v == w,
{
    let vs = provider_versions(p, name)->0;
    let kv = choose|kv: int| 0 <= kv < vs.len() && vs[kv] == v;
    let kw = choose|kw: int| 0 <= kw < vs.len() && vs[kw] == w;
    if kv != kw {
        if kv < kw {
            assert(!key_eq(vs[kv], vs[kw]));
        } else {
            assert(!key_eq(vs[kw], vs[kv]));
        }
    }
}

/// A dependency entry is honoured by the solution: the named package is in
/// it, at a version inside the entry's range.
pub open spec fn dep_satisfied(
    sol: Seq<(String, PEP440Version)>,
    dep: (String, VersionRange),
) -> bool {
    exists|k: int| 0 <= k < sol.len() && sol[k].0@ == dep.0@ && dep.1.contains_spec(sol[k].1)
}

/// One solution entry is sound: the provider declares dependencies for it,
/// and each declared entry is honoured.
pub open spec fn entry_sound(
    sol: Seq<(String, PEP440Version)>,
    p: PoetryProvider,
    i: int,
) -> bool {
    match crate::poetry_provider::provider_deps(p, sol[i].0@, sol[i].1) {
        Some(ds) => forall|j: int| 0 <= j < ds.len() ==> dep_satisfied(sol, ds[j]),
        None => false,
    }
}

/// Soundness of a solution: every entry's declared dependency ranges
/// contain the resolved version of every package they name.
pub open spec fn solution_sound(sol: Seq<(String, PEP440Version)>, p: PoetryProvider) -> bool {
    forall|i: int| 0 <= i < sol.len() ==> entry_sound(sol, p, i)
}

/// The solution pins the root package to its pinned version.
pub open spec fn root_pinned(sol: Seq<(String, PEP440Version)>, p: PoetryProvider) -> bool {
    exists|k: int| 0 <= k < sol.len() && sol[k].0@ == p.root.package@ && sol[k].1 == p.root.version
}

/// Check a candidate solution against the provider's declarations.
fn check_solution(sol: &Vec<(String, PEP440Version)>, p: &PoetryProvider) -> (r: bool)
    ensures
        r ==> solution_sound(sol@, *p),
{
    let n = sol.len();
    let mut i: usize = 0;
    while i < n
        invariant
            n == sol@.len(),
            0 <= i <= n,
            forall|t: int| 0 <= t < i ==> entry_sound(sol@, *p, t),
        decreases n - i,
    {
        let ds = match p.get_dependencies(&sol[i].0, &sol[i].1) {
            Ok(Dependencies::Known(d)) => d,
            _ => {
                return false;
            },
        };
        let m = ds.len();
        let mut j: usize = 0;
        while j < m
            invariant
                m == ds@.len(),
                n == sol@.len(),
                i < n,
                0 <= j <= m,
                forall|t: int| 0 <= t < j ==> dep_satisfied(sol@, ds@[t]),
            decreases m - j,
        {
            let mut ok = false;
            let mut k: usize = 0;
            while k < n
                invariant
                    n == sol@.len(),
                    m == ds@.len(),
                    j < m,
                    0 <= k <= n,
                    ok ==> dep_satisfied(sol@, ds@[j as int]),
                decreases n - k,
            {
                if sol[k].0 == ds[j].0 && ds[j].1.contains(&sol[k].1) {
                    ok = true;
                    proof {
                        assert(sol@[k as int].0@ == ds@[j as int].0@);
                        assert(dep_satisfied(sol@, ds@[j as int]));
                    }
                    break ;
                }
                k = k + 1;
            }
            if !ok {
                return false;
            }
            j = j + 1;
        }
        proof {
            assert(entry_sound(sol@, *p, i as int));
        }
        i = i + 1;
    }
    true
}

/// Resolve the provider's root against its registry: find one version per
/// transitively required package so that every declared range is honoured,
/// or report why none exists, or what information is missing.  The search
/// carries a budget and surfaces `Exhausted` where it runs out, the
/// deadline-as-failure rule.  A store offering two order-equivalent
/// versions of one package is rejected up front, since the precedence
/// order cannot tell them apart.
pub fn solve(provider: &PoetryProvider) -> (r: Result<Vec<(String, PEP440Version)>, ResolveError>)
    ensures
        r is Ok ==> solution_sound(r->Ok_0@, *provider) && root_pinned(r->Ok_0@, *provider),
        r is Ok ==> (forall|i: int, j: int|
            0 <= i < j < r->Ok_0@.len() ==> r->Ok_0@[i].0@ != r->Ok_0@[j].0@),
        r is Ok ==> (forall|i: int|
            0 <= i < r->Ok_0@.len() ==> version_offered(
                *provider,
                (#[trigger] r->Ok_0@[i]).0@,
                r->Ok_0@[i].1,
            )),
        r matches Err(ResolveError::MissingVersions(n)) ==> crate::poetry_provider::provider_versions(
            *provider,
            n@,
        ) is None,
        r matches Err(ResolveError::MissingDependencies(n, v)) ==> crate::poetry_provider::provider_deps(
            *provider,
            n@,
            v,
        ) is None && n@ != provider.root.package@,
        !(r matches Err(ResolveError::InvalidVersion(_))),
        !(r matches Err(ResolveError::InvalidRequirement(_))),
        r matches Err(ResolveError::NoSolution(_)) ==> (forall|
            asg: spec_fn(Seq<char>) -> Option<PEP440Version>,
        |
            !asg_ok(asg, *provider)),
{
    if !check_store_keys(provider) {
        return Err(ResolveError::Inconsistent);
    }
    let mut incompats: Vec<Incompatibility> = Vec::new();
    let mut partial = PartialSolution {
        next_global_index: 0,
        decision_level: 0,
        assignments: Vec::new(),
    };
    let mut terms0: Vec<(String, Term)> = Vec::new();
    terms0.push(
        (
            provider.root.package.clone(),
            Term { positive: false, range: VersionRange::exact(provider.root.version) },
        ),
    );
    incompats.push(Incompatibility { terms: terms0, cause: Cause::Root });
    proof {
        // No candidate assignment escapes the pinned root.
        let inc = incompats@[0];
        assert forall|asg: spec_fn(Seq<char>) -> Option<PEP440Version>|
            #[trigger] asg_ok(asg, *provider) implies !incompat_sat_by(inc, asg) by {
            if incompat_sat_by(inc, asg) {
                assert(term_sat(inc.terms@[0].1, asg(inc.terms@[0].0@)));
                let w = asg(provider.root.package@)->0;
                assert(inc.terms@[0].1.range.contains_spec(w));
                assert(false);
            }
        }
        assert(store_valid(incompats@, *provider));
    }
    let mut fuel: usize = 16384;
    loop
        invariant
            store_wf(incompats@),
            store_valid(incompats@, *provider),
            offers_distinct_keys(*provider),
            ps_wf(partial, incompats@.len() as int),
        decreases fuel,
    {
        if fuel == 0 {
            return Err(ResolveError::Exhausted);
        }
        fuel = fuel - 1;
        match propagate(&mut incompats, &mut partial, provider, 1048576) {
            Ok(()) => {},
            Err(e) => {
                return Err(e);
            },
        }
        let cands = potential_packages(&partial, incompats.len());
        if cands.len() == 0 {
            let sol = match extract_solution(&partial) {
                Some(s) => s,
                None => {
                    return Err(ResolveError::Inconsistent);
                },
            };
            let mut has_root = false;
            let sn = sol.len();
            let mut k: usize = 0;
            while k < sn
                invariant
                    sn == sol@.len(),
                    0 <= k <= sn,
                    has_root ==> root_pinned(sol@, *provider),
                decreases sn - k,
            {
                if sol[k].0 == provider.root.package && sol[k].1.equals(&provider.root.version) {
                    has_root = true;
                    proof {
                        assert(sol@[k as int].0@ == provider.root.package@);
                        assert(root_pinned(sol@, *provider));
                    }
                    break ;
                }
                k = k + 1;
            }
            if !has_root {
                return Err(ResolveError::Inconsistent);
            }
            if !check_distinct(&sol) {
                return Err(ResolveError::Inconsistent);
            }
            if !check_offered(&sol, provider) {
                return Err(ResolveError::Inconsistent);
            }
            if check_solution(&sol, provider) {
                return Ok(sol);
            } else {
                return Err(ResolveError::Inconsistent);
            }
        }
        let (ci, ov) = match provider.choose_package_version(&cands) {
            Ok(x) => x,
            Err(name) => {
                return Err(ResolveError::MissingVersions(name));
            },
        };
        let pkg = cands[ci].0.clone();
        let v = match ov {
            None => {
                let mut t: Vec<(String, Term)> = Vec::new();
                proof {
                    assert(cands@[ci as int].1.wf());
                }
                t.push((pkg, Term { positive: true, range: cands[ci].1.clone() }));
                let ghost store0 = incompats@;
                incompats.push(Incompatibility { terms: t, cause: Cause::NoVersions });
                proof {
                    assert forall|kk: int|
                        0 <= kk < partial.assignments@.len() implies pa_wf(
                        #[trigger] partial.assignments@[kk],
                        incompats@.len() as int,
                    ) by {
                        assert(pa_wf(partial.assignments@[kk], incompats@.len() - 1));
                    }
                    // No candidate assignment can pick this package: none
                    // of its offered versions fits the derived range.
                    let ginc = incompats@.last();
                    let nm = cands@[ci as int].0@;
                    assert forall|asg: spec_fn(Seq<char>) -> Option<PEP440Version>|
                        #[trigger] asg_ok(asg, *provider) implies !incompat_sat_by(
                        ginc,
                        asg,
                    ) by {
                        if incompat_sat_by(ginc, asg) {
                            assert(term_sat(ginc.terms@[0].1, asg(ginc.terms@[0].0@)));
                            assert(asg(nm) is Some);
                            let w = asg(nm)->0;
                            assert(version_offered(*provider, nm, w));
                            let vs = crate::poetry_provider::provider_versions(*provider, nm)->0;
                            let kw = choose|kw: int| 0 <= kw < vs.len() && vs[kw] == w;
                            assert(!cands@[ci as int].1.contains_spec(vs[kw]));
                            assert(ginc.terms@[0].1.range.contains_spec(w));
                            assert(false);
                        }
                    }
                    assert forall|k: int|
                        0 <= k < incompats@.len() implies incompat_valid(
                        #[trigger] incompats@[k],
                        *provider,
                    ) && incompat_distinct(incompats@[k]) by {
                        if k < incompats@.len() - 1 {
                            assert(incompats@[k] == store0[k]);
                            assert(incompat_valid(store0[k], *provider) && incompat_distinct(
                                store0[k],
                            ));
                        } else {
                            assert(incompats@[k] == ginc);
                        }
                    }
                }
                continue ;
            },
            Some(v) => v,
        };
        let deps = match provider.get_dependencies(&pkg, &v) {
            Err(()) => {
                return Err(ResolveError::MissingDependencies(pkg, v));
            },
            Ok(Dependencies::Unknown) => {
                let mut t: Vec<(String, Term)> = Vec::new();
                t.push((pkg, Term { positive: true, range: VersionRange::exact(v) }));
                let ghost store0 = incompats@;
                incompats.push(Incompatibility { terms: t, cause: Cause::UnavailableDependencies });
                proof {
                    assert forall|kk: int|
                        0 <= kk < partial.assignments@.len() implies pa_wf(
                        #[trigger] partial.assignments@[kk],
                        incompats@.len() as int,
                    ) by {
                        assert(pa_wf(partial.assignments@[kk], incompats@.len() - 1));
                    }
                    // No candidate assignment can pin this version: its
                    // dependencies are not available.
                    let ginc = incompats@.last();
                    let nm = cands@[ci as int].0@;
                    assert forall|asg: spec_fn(Seq<char>) -> Option<PEP440Version>|
                        #[trigger] asg_ok(asg, *provider) implies !incompat_sat_by(
                        ginc,
                        asg,
                    ) by {
                        if incompat_sat_by(ginc, asg) {
                            assert(term_sat(ginc.terms@[0].1, asg(ginc.terms@[0].0@)));
                            assert(asg(nm) is Some);
                            let w = asg(nm)->0;
                            assert(ginc.terms@[0].1.range.contains_spec(w));
                            assert(key_eq(v, w));
                            assert(version_offered(*provider, nm, w));
                            lemma_offered_key_unique(*provider, nm, v, w);
                            assert(deps_honoured(*provider, nm, v, asg));
                            assert(false);
                        }
                    }
                    assert forall|k: int|
                        0 <= k < incompats@.len() implies incompat_valid(
                        #[trigger] incompats@[k],
                        *provider,
                    ) && incompat_distinct(incompats@[k]) by {
                        if k < incompats@.len() - 1 {
                            assert(incompats@[k] == store0[k]);
                            assert(incompat_valid(store0[k], *provider) && incompat_distinct(
                                store0[k],
                            ));
                        } else {
                            assert(incompats@[k] == ginc);
                        }
                    }
                }
                continue ;
            },
            Ok(Dependencies::Known(d)) => d,
        };
        proof {
            assert(version_offered(*provider, pkg@, v));
        }
        let m = deps.len();
        let old_len = incompats.len();
        let mut j: usize = 0;
        while j < m
            invariant
                m == deps@.len(),
                0 <= j <= m,
                store_wf(incompats@),
                store_valid(incompats@, *provider),
                offers_distinct_keys(*provider),
                version_offered(*provider, pkg@, v),
                crate::poetry_provider::provider_deps(*provider, pkg@, v) == Some(deps@),
                ps_wf(partial, incompats@.len() as int),
                old_len <= incompats@.len(),
            decreases m - j,
        {
            if deps[j].0 == pkg {
                return Err(ResolveError::SelfDependency(pkg, v));
            }
            if !deps[j].1.check_wf() {
                return Err(ResolveError::Inconsistent);
            }
            if deps[j].1.is_empty() {
                return Err(ResolveError::DependencyOnEmptySet(pkg, v, deps[j].0.clone()));
            }
            let mut t: Vec<(String, Term)> = Vec::new();
            t.push((pkg.clone(), Term { positive: true, range: VersionRange::exact(v) }));
            t.push((deps[j].0.clone(), Term { positive: false, range: deps[j].1.clone() }));
            let ghost store0 = incompats@;
            incompats.push(Incompatibility { terms: t, cause: Cause::Dependency });
            proof {
                assert forall|kk: int|
                    0 <= kk < partial.assignments@.len() implies pa_wf(
                    #[trigger] partial.assignments@[kk],
                    incompats@.len() as int,
                ) by {
                    assert(pa_wf(partial.assignments@[kk], incompats@.len() - 1));
                }
                // No candidate assignment pins this version and escapes
                // this dependency edge.
                let ginc = incompats@.last();
                let dn = deps@[j as int].0@;
                assert forall|asg: spec_fn(Seq<char>) -> Option<PEP440Version>|
                    #[trigger] asg_ok(asg, *provider) implies !incompat_sat_by(ginc, asg) by {
                    if incompat_sat_by(ginc, asg) {
                        assert(term_sat(ginc.terms@[0].1, asg(ginc.terms@[0].0@)));
                        assert(term_sat(ginc.terms@[1].1, asg(ginc.terms@[1].0@)));
                        assert(asg(pkg@) is Some);
                        let w = asg(pkg@)->0;
                        assert(ginc.terms@[0].1.range.contains_spec(w));
                        assert(key_eq(v, w));
                        assert(version_offered(*provider, pkg@, w));
                        lemma_offered_key_unique(*provider, pkg@, v, w);
                        assert(deps_honoured(*provider, pkg@, v, asg));
                        assert(deps@[j as int].1.contains_spec(asg(dn)->0) && asg(dn) is Some);
                        assert(ginc.terms@[1].1.range.contains_spec(asg(dn)->0)) by {
                            assert(ginc.terms@[1].1.range.segments@ == deps@[j as int].1.segments@);
                        }
                        assert(false);
                    }
                }
                assert(incompat_distinct(ginc)) by {
                    assert(ginc.terms@[0].0@ != ginc.terms@[1].0@);
                }
                assert forall|k: int|
                    0 <= k < incompats@.len() implies incompat_valid(
                    #[trigger] incompats@[k],
                    *provider,
                ) && incompat_distinct(incompats@[k]) by {
                    if k < incompats@.len() - 1 {
                        assert(incompats@[k] == store0[k]);
                        assert(incompat_valid(store0[k], *provider) && incompat_distinct(
                            store0[k],
                        ));
                    } else {
                        assert(incompats@[k] == ginc);
                    }
                }
            }
            j = j + 1;
        }
        let assumed = Term { positive: true, range: VersionRange::exact(v) };
        let mut conflicted = false;
        let nlen = incompats.len();
        let mut k2: usize = old_len;
        while k2 < nlen
            invariant
                old_len <= k2 <= nlen,
                nlen == incompats@.len(),
                store_wf(incompats@),
                ps_wf(partial, incompats@.len() as int),
                term_wf(assumed),
            decreases nlen - k2,
        {
            if satisfied_with(&partial, &incompats[k2], nlen, &pkg, &assumed) {
                conflicted = true;
                break ;
            }
            k2 = k2 + 1;
        }
        if !conflicted {
            match add_decision(&mut partial, &pkg, v) {
                Ok(()) => {},
                Err(()) => {
                    return Err(ResolveError::Inconsistent);
                },
            }
        }
    }
}

} // verus!
