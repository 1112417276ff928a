use vstd::prelude::*;

use crate::provider::{find_deps, find_pkg, lookup_deps, OfflineProvider};
use crate::ranges::VersionRange;
use crate::version::PEP440Version;

verus! {

/// The synthetic root of a resolution: the project itself, pinned to one
/// version and one dependency set.
pub struct RootPackage {
    pub package: String,
    pub version: PEP440Version,
    pub dependencies: Vec<(String, VersionRange)>,
}

/// A provider that decorates an in-memory registry with a pinned root
/// package: the root package answers from the pinned data, everything else
/// from the registry.
pub struct PoetryProvider {
    pub remote: OfflineProvider,
    pub root: RootPackage,
}

/// The dependency lines the provider declares for one package version, or
/// `None` where it has no information about that pair.  The root package
/// short-circuits to the pinned set whatever version is asked about.
pub open spec fn provider_deps(p: PoetryProvider, name: Seq<char>, v: PEP440Version) -> Option<
    Seq<(String, VersionRange)>,
> {
    if name == p.root.package@ {
        Some(p.root.dependencies@)
    } else {
        match find_pkg(p.remote.packages@, name) {
            None => None,
            Some(rec) => match find_deps(rec.deps@, v) {
                Some(Some(d)) => Some(d@),
                _ => None,
            },
        }
    }
}

/// The versions the provider offers for a package, in preference order: the
/// root is pinned to its one version, everything else answers from the
/// registry, or not at all.
pub open spec fn provider_versions(p: PoetryProvider, name: Seq<char>) -> Option<
    Seq<PEP440Version>,
> {
    if name == p.root.package@ {
        Some(seq![p.root.version])
    } else {
        match find_pkg(p.remote.packages@, name) {
            None => None,
            Some(rec) => Some(rec.versions@),
        }
    }
}

/// How many of the offered versions fall inside a range.
pub open spec fn count_in(vs: Seq<PEP440Version>, r: VersionRange) -> int
    decreases vs.len(),
{
    if vs.len() == 0 {
        0
    } else {
        count_in(vs.drop_last(), r) + if r.contains_spec(vs.last()) {
            1int
        } else {
            0int
        }
    }
}

/// What asking for a package's dependencies can come back with.
pub enum Dependencies<'a> {
    /// The declared constraints.
    Known(&'a Vec<(String, VersionRange)>),
    /// The registry was asked and had nothing: treated as a package version
    /// whose dependencies are unavailable, not as an error.
    Unknown,
}

impl PoetryProvider {
    /// Wrap a pinned root over an empty registry.
    pub fn new(root: RootPackage) -> (r: PoetryProvider)
        ensures
            r.remote.packages@.len() == 0,
            r.root == root,
    {
        PoetryProvider { remote: OfflineProvider::new(), root }
    }

    /// The dependencies declared for a package version: the pinned set for
    /// the root package, whatever version is asked about; the registry's
    /// recorded entry otherwise.  `Unknown` reports an entry recorded as
    /// unavailable; an error reports that the registry was never asked
    /// about the pair, so that a driver can fetch and retry.
    pub fn get_dependencies<'a>(&'a self, package: &String, version: &PEP440Version) -> (r:
        Result<Dependencies<'a>, ()>)
        ensures
            package@ == self.root.package@ ==> (match r {
                Ok(Dependencies::Known(d)) => d@ == self.root.dependencies@,
                _ => false,
            }),
            package@ != self.root.package@ ==> (match r {
                Ok(Dependencies::Known(d)) => find_pkg(self.remote.packages@, package@) is Some
                    && find_deps(
                    find_pkg(self.remote.packages@, package@)->0.deps@,
                    *version,
                ) == Some(Some(*d)),
                Ok(Dependencies::Unknown) => find_pkg(self.remote.packages@, package@) is Some
                    && find_deps(
                    find_pkg(self.remote.packages@, package@)->0.deps@,
                    *version,
                ) matches Some(None),
                Err(()) => find_pkg(self.remote.packages@, package@) is None || find_deps(
                    find_pkg(self.remote.packages@, package@)->0.deps@,
                    *version,
                ) is None,
            }),
            match r {
                Ok(Dependencies::Known(d)) => provider_deps(*self, package@, *version) == Some(
                    d@,
                ),
                Ok(Dependencies::Unknown) => provider_deps(*self, package@, *version) is None,
                Err(()) => provider_deps(*self, package@, *version) is None,
            },
    {
        if *package == self.root.package {
            return Ok(Dependencies::Known(&self.root.dependencies));
        }
        match self.remote.lookup(package) {
            None => Err(()),
            Some(rec) => match lookup_deps(rec, version) {
                None => Err(()),
                Some(entry) => match entry {
                    Some(d) => Ok(Dependencies::Known(d)),
                    None => Ok(Dependencies::Unknown),
                },
            },
        }
    }

    /// Choose the next package to decide, and a version for it.  The root
    /// package, when it is a candidate, is chosen first and forced to its
    /// pinned version.  Among the rest, a package with the fewest offered
    /// versions inside its range is chosen, ties broken by position, and
    /// handed the first acceptable version in preference order; `None`
    /// reports that no offered version fits.  An error names a package the
    /// registry knows nothing about, so that a driver can fetch and retry.
    #[verifier::loop_isolation(false)]
    pub fn choose_package_version(&self, candidates: &Vec<(String, VersionRange)>) -> (r: Result<
        (usize, Option<PEP440Version>),
        String,
    >)
        requires
            candidates@.len() > 0,
        ensures
            match r {
                Ok((i, ov)) => {
                    &&& i < candidates@.len()
                    &&& provider_versions(*self, candidates@[i as int].0@) is Some
                    &&& match ov {
                        Some(v) => ({
                            let vs = provider_versions(*self, candidates@[i as int].0@)->0;
                            exists|k: int|
                                0 <= k < vs.len() && vs[k] == v && candidates@[i as int].1.contains_spec(
                                    vs[k],
                                ) && (forall|t: int|
                                    0 <= t < k ==> !candidates@[i as int].1.contains_spec(vs[t]))
                        }),
                        None => ({
                            let vs = provider_versions(*self, candidates@[i as int].0@)->0;
                            forall|k: int|
                                0 <= k < vs.len() ==> !candidates@[i as int].1.contains_spec(
                                    vs[k],
                                )
                        }),
                    }
                    &&& (exists|j: int|
                        0 <= j < candidates@.len() && candidates@[j].0@ == self.root.package@)
                        ==> (candidates@[i as int].0@ == self.root.package@ && (match ov {
                        Some(v) => v == self.root.version,
                        None => !candidates@[i as int].1.contains_spec(self.root.version),
                    }))
                    &&& (forall|j: int|
                        0 <= j < candidates@.len() ==> candidates@[j].0@ != self.root.package@)
                        ==> (forall|j: int|
                        0 <= j < candidates@.len() ==> (match provider_versions(
                            *self,
                            (#[trigger] candidates@[j]).0@,
                        ) {
                            Some(vsj) => count_in(
                                provider_versions(*self, candidates@[i as int].0@)->0,
                                candidates@[i as int].1,
                            ) <= count_in(vsj, candidates@[j].1),
                            None => false,
                        }))
                },
                Err(name) => (exists|i: int|
                    0 <= i < candidates@.len() && candidates@[i].0@ == name@
                        && provider_versions(*self, candidates@[i].0@) is None) && (forall|j: int|
                    0 <= j < candidates@.len() ==> candidates@[j].0@ != self.root.package@),
            },
    {
        let n = candidates.len();
        // The root, when it is a candidate, is decided first and pinned.
        let mut i: usize = 0;
        while i < n
            invariant
                0 <= i <= n,
                forall|t: int| 0 <= t < i ==> candidates@[t].0@ != self.root.package@,
            decreases n - i,
        {
            if candidates[i].0 == self.root.package {
                proof {
                    assert(provider_versions(*self, candidates@[i as int].0@) == Some(
                        seq![self.root.version],
                    ));
                    assert(seq![self.root.version][0] == self.root.version);
                }
                if candidates[i].1.contains(&self.root.version) {
                    proof {
                        let vs = provider_versions(*self, candidates@[i as int].0@)->0;
                        assert(vs[0] == self.root.version);
                        assert(candidates@[i as int].1.contains_spec(vs[0]));
                        assert(forall|t: int| 0 <= t < 0 ==> !candidates@[i as int].1.contains_spec(vs[t]));
                    }
                    return Ok((i, Some(self.root.version)));
                } else {
                    return Ok((i, None));
                }
            }
            i = i + 1;
        }
        proof {
            assert(forall|t: int| 0 <= t < n ==> candidates@[t].0@ != self.root.package@);
        }
        // Fewest candidate versions first.
        let mut best: usize = 0;
        let mut best_count: usize = 0;
        let mut have_best = false;
        let mut j: usize = 0;
        while j < n
            invariant
                0 <= j <= n,
                have_best ==> best < n,
                j > 0 ==> have_best,
                have_best ==> provider_versions(*self, candidates@[best as int].0@) is Some
                    && best_count as int == count_in(
                    provider_versions(*self, candidates@[best as int].0@)->0,
                    candidates@[best as int].1,
                ),
                forall|t: int|
                    0 <= t < j ==> (match provider_versions(
                        *self,
                        (#[trigger] candidates@[t]).0@,
                    ) {
                        Some(vst) => have_best && best_count as int <= count_in(
                            vst,
                            candidates@[t].1,
                        ),
                        None => false,
                    }),
            decreases n - j,
        {
            let rec = match self.remote.lookup(&candidates[j].0) {
                Some(rec) => rec,
                None => {
                    proof {
                        assert(provider_versions(*self, candidates@[j as int].0@) is None);
                    }
                    return Err(candidates[j].0.clone());
                },
            };
            let mut count: usize = 0;
            let mut k: usize = 0;
            let m = rec.versions.len();
            while k < m
                invariant
                    0 <= k <= m,
                    count <= k,
                    count as int == count_in(
                        rec.versions@.subrange(0, k as int),
                        candidates@[j as int].1,
                    ),
                decreases m - k,
            {
                proof {
                    assert(rec.versions@.subrange(0, k as int + 1).drop_last() =~= rec.versions@.subrange(
                        0,
                        k as int,
                    ));
                    assert(rec.versions@.subrange(0, k as int + 1).last() == rec.versions@[k as int]);
                }
                if candidates[j].1.contains(&rec.versions[k]) {
                    count = count + 1;
                }
                k = k + 1;
            }
            proof {
                assert(rec.versions@.subrange(0, m as int) =~= rec.versions@);
                assert(provider_versions(*self, candidates@[j as int].0@) == Some(rec.versions@));
            }
            if !have_best || count < best_count {
                best = j;
                best_count = count;
                have_best = true;
            }
            j = j + 1;
        }
        // Pick the first acceptable version of the chosen package.
        let rec = match self.remote.lookup(&candidates[best].0) {
            Some(rec) => rec,
            None => {
                proof {
                    assert(provider_versions(*self, candidates@[best as int].0@) is None);
                }
                return Err(candidates[best].0.clone());
            },
        };
        let m = rec.versions.len();
        let mut k: usize = 0;
        while k < m
            invariant
                0 <= k <= m,
                forall|t: int|
                    0 <= t < k ==> !candidates@[best as int].1.contains_spec(rec.versions@[t]),
            decreases m - k,
        {
            if candidates[best].1.contains(&rec.versions[k]) {
                proof {
                    assert(provider_versions(*self, candidates@[best as int].0@) == Some(
                        rec.versions@,
                    ));
                }
                return Ok((best, Some(rec.versions[k])));
            }
            k = k + 1;
        }
        proof {
            assert(provider_versions(*self, candidates@[best as int].0@) == Some(rec.versions@));
        }
        Ok((best, None))
    }
}

} // verus!
