//! A dependency resolver for PyPI-style packages: a PEP 440 version model,
//! an interval algebra over sets of versions, a parser for dependency
//! specifier lines, and a conflict-driven search that picks one version per
//! transitively required package, or explains why no such assignment
//! exists.

use vstd::prelude::*;

pub mod poetry_provider;
pub mod provider;
pub mod ranges;
pub mod solver;
pub mod specifier;
pub mod version;

pub use crate::poetry_provider::{PoetryProvider, RootPackage};
pub use crate::provider::OfflineProvider;
pub use crate::solver::{solve, ResolveError};
pub use crate::specifier::parse_dependency;

verus! {

use crate::poetry_provider::{provider_deps, provider_versions};
use crate::ranges::VersionRange;
use crate::solver::{asg_ok, root_pinned, solution_sound, version_offered};
use crate::specifier::{dep_matches, spec_parse_dependency};
use crate::version::{spec_parse, version_chars, PEP440Version};

/// The requirement line a name and a range specifier are joined into.
pub open spec fn req_line(name: Seq<char>, range: Seq<char>) -> Seq<char> {
    name + " ("@ + range + ")"@
}

/// Every requirement line, joined from its name and specifier, fits the
/// dependency grammar.
pub open spec fn req_lines_ok<'a>(
    requirements: Seq<(&'a str, &'a str)>,
    dev_requirements: Seq<(&'a str, &'a str)>,
) -> bool {
    (forall|i: int|
        0 <= i < requirements.len() ==> spec_parse_dependency(
            req_line((#[trigger] requirements[i]).0@, requirements[i].1@),
        ) is Some) && (forall|i: int|
        0 <= i < dev_requirements.len() ==> spec_parse_dependency(
            req_line((#[trigger] dev_requirements[i]).0@, dev_requirements[i].1@),
        ) is Some)
}

/// Does a provider hold exactly what the resolver was asked to resolve:
/// the given registry store, the named root at its parsed version, and one
/// parsed dependency per requirement line, in order?
pub open spec fn provider_matches<'a>(
    p: PoetryProvider,
    remote: OfflineProvider,
    root: Seq<char>,
    version: Seq<char>,
    requirements: Seq<(&'a str, &'a str)>,
    dev_requirements: Seq<(&'a str, &'a str)>,
) -> bool {
    &&& p.remote == remote
    &&& p.root.package@ == root
    &&& spec_parse(version) is Ok
    &&& p.root.version == spec_parse(version)->Ok_0
    &&& p.root.dependencies@.len() == requirements.len() + dev_requirements.len()
    &&& (forall|i: int|
        0 <= i < requirements.len() ==> dep_matches(
            req_line(requirements[i].0@, requirements[i].1@),
            #[trigger] p.root.dependencies@[i],
        ))
    &&& (forall|i: int|
        0 <= i < dev_requirements.len() ==> dep_matches(
            req_line(dev_requirements[i].0@, dev_requirements[i].1@),
            #[trigger] p.root.dependencies@[requirements.len() + i],
        ))
}

/// Resolve a root project against a registry store: parse its pinned
/// version and requirement lines, then find one version per transitively
/// required package such that every declared range is honoured.
///
/// On success the result holds the full closure, each package with its
/// resolved version rendered for display, and it is sound: a provider
/// carrying the given store and the parsed requirements declares
/// dependencies for every entry, and each declared range contains the
/// resolved version of the package it names.
#[verifier::loop_isolation(false)]
pub fn resolve(
    root: &str,
    version: &str,
    requirements: Vec<(&str, &str)>,
    dev_requirements: Vec<(&str, &str)>,
    remote: OfflineProvider,
) -> (r: Result<Vec<(String, String)>, ResolveError>)
    ensures
        (r matches Err(ResolveError::InvalidVersion(_))) == (spec_parse(version@) is Err),
        spec_parse(version@) is Ok ==> ((r matches Err(ResolveError::InvalidRequirement(_)))
            == !req_lines_ok(requirements@, dev_requirements@)),
        r is Ok ==> exists|p: PoetryProvider, sol: Seq<(String, PEP440Version)>|
            {
                &&& provider_matches(p, remote, root@, version@, requirements@, dev_requirements@)
                &&& solution_sound(sol, p)
                &&& root_pinned(sol, p)
                &&& (forall|i: int, j: int| 0 <= i < j < sol.len() ==> sol[i].0@ != sol[j].0@)
                &&& (forall|i: int|
                    0 <= i < sol.len() ==> version_offered(p, (#[trigger] sol[i]).0@, sol[i].1))
                &&& r->Ok_0@.len() == sol.len()
                &&& (forall|i: int|
                    0 <= i < sol.len() ==> (#[trigger] r->Ok_0@[i]).0 == sol[i].0
                        && r->Ok_0@[i].1@ == version_chars(sol[i].1))
            },
        r matches Err(ResolveError::MissingVersions(n)) ==> exists|p: PoetryProvider|
            provider_matches(p, remote, root@, version@, requirements@, dev_requirements@)
                && provider_versions(p, n@) is None,
        r matches Err(ResolveError::MissingDependencies(n, v)) ==> exists|p: PoetryProvider|
            provider_matches(p, remote, root@, version@, requirements@, dev_requirements@)
                && provider_deps(p, n@, v) is None,
        r matches Err(ResolveError::NoSolution(_)) ==> exists|p: PoetryProvider|
            provider_matches(p, remote, root@, version@, requirements@, dev_requirements@) && (
            forall|asg: spec_fn(Seq<char>) -> Option<PEP440Version>| !asg_ok(asg, p)),
{
    let v = match PEP440Version::from_str(version) {
        Ok(v) => v,
        Err(e) => {
            return Err(ResolveError::InvalidVersion(e));
        },
    };
    let mut dependencies: Vec<(String, VersionRange)> = Vec::new();
    let nr = requirements.len();
    let mut i: usize = 0;
    while i < nr
        invariant
            nr == requirements@.len(),
            0 <= i <= nr,
            dependencies@.len() == i,
            forall|k: int|
                0 <= k < i ==> dep_matches(
                    req_line(requirements@[k].0@, requirements@[k].1@),
                    #[trigger] dependencies@[k],
                ),
            forall|k: int|
                0 <= k < i ==> spec_parse_dependency(
                    req_line((#[trigger] requirements@[k]).0@, requirements@[k].1@),
                ) is Some,
        decreases nr - i,
    {
        let line = String::from_str(requirements[i].0).concat(" (").concat(requirements[i].1).concat(")");
        proof {
            assert(line@ =~= req_line(requirements@[i as int].0@, requirements@[i as int].1@));
        }
        match parse_dependency(line.as_str()) {
            Some(entry) => {
                dependencies.push(entry);
            },
            None => {
                return Err(ResolveError::InvalidRequirement(line));
            },
        }
        i = i + 1;
    }
    let nd = dev_requirements.len();
    let mut j: usize = 0;
    while j < nd
        invariant
            nr == requirements@.len(),
            nd == dev_requirements@.len(),
            0 <= j <= nd,
            dependencies@.len() == nr + j,
            forall|k: int|
                0 <= k < nr ==> dep_matches(
                    req_line(requirements@[k].0@, requirements@[k].1@),
                    #[trigger] dependencies@[k],
                ),
            forall|k: int|
                0 <= k < nr ==> spec_parse_dependency(
                    req_line((#[trigger] requirements@[k]).0@, requirements@[k].1@),
                ) is Some,
            forall|k: int|
                0 <= k < j ==> dep_matches(
                    req_line(dev_requirements@[k].0@, dev_requirements@[k].1@),
                    #[trigger] dependencies@[nr + k],
                ),
            forall|k: int|
                0 <= k < j ==> spec_parse_dependency(
                    req_line((#[trigger] dev_requirements@[k]).0@, dev_requirements@[k].1@),
                ) is Some,
        decreases nd - j,
    {
        let line = String::from_str(dev_requirements[j].0).concat(" (").concat(
            dev_requirements[j].1,
        ).concat(")");
        proof {
            assert(line@ =~= req_line(dev_requirements@[j as int].0@, dev_requirements@[j as int].1@));
        }
        match parse_dependency(line.as_str()) {
            Some(entry) => {
                dependencies.push(entry);
            },
            None => {
                return Err(ResolveError::InvalidRequirement(line));
            },
        }
        j = j + 1;
    }
    let root_pkg = RootPackage { package: String::from_str(root), version: v, dependencies };
    let provider = PoetryProvider { remote, root: root_pkg };
    proof {
        assert(provider_matches(
            provider,
            remote,
            root@,
            version@,
            requirements@,
            dev_requirements@,
        ));
    }
    let sol = match solve(&provider) {
        Ok(s) => s,
        Err(e) => {
            return Err(e);
        },
    };
    let mut out: Vec<(String, String)> = Vec::new();
    let sn = sol.len();
    let mut k: usize = 0;
    while k < sn
        invariant
            sn == sol@.len(),
            0 <= k <= sn,
            out@.len() == k,
            forall|t: int|
                0 <= t < k ==> (#[trigger] out@[t]).0 == sol@[t].0 && out@[t].1@ == version_chars(
                    sol@[t].1,
                ),
        decreases sn - k,
    {
        out.push((sol[k].0.clone(), sol[k].1.to_string()));
        k = k + 1;
    }
    proof {
        assert(solution_sound(sol@, provider));
    }
    Ok(out)
}

} // verus!
