use vstd::prelude::*;

use crate::ranges::VersionRange;
use crate::version::PEP440Version;

verus! {

/// Everything an in-memory registry knows about one package: its available
/// versions in preference order, and, per version, its dependency lines.
/// A dependency entry of `None` records that the registry was asked and had
/// no dependency information, which is different from not having been asked.
pub struct PackageRecord {
    pub name: String,
    pub versions: Vec<PEP440Version>,
    pub deps: Vec<(PEP440Version, Option<Vec<(String, VersionRange)>>)>,
}

/// A registry of package data held in memory.  Network fetching, if any,
/// happens outside: whoever drives the resolver fills this store and retries
/// when the resolver reports missing information.
pub struct OfflineProvider {
    pub packages: Vec<PackageRecord>,
}

/// The first record with the given name.
pub open spec fn find_pkg(ps: Seq<PackageRecord>, name: Seq<char>) -> Option<PackageRecord>
    decreases ps.len(),
{
    if ps.len() == 0 {
        None
    } else if ps[0].name@ == name {
        Some(ps[0])
    } else {
        find_pkg(ps.drop_first(), name)
    }
}

/// The index of the first record with the given name.
pub open spec fn find_pkg_idx(ps: Seq<PackageRecord>, name: Seq<char>) -> Option<int>
    decreases ps.len(),
{
    if ps.len() == 0 {
        None
    } else if ps[0].name@ == name {
        Some(0)
    } else {
        match find_pkg_idx(ps.drop_first(), name) {
            Some(i) => Some(i + 1),
            None => None,
        }
    }
}

/// The first match of a scan is what `find_pkg_idx` names.
proof fn lemma_find_pkg_idx(ps: Seq<PackageRecord>, name: Seq<char>, i: int)
    requires
        0 <= i <= ps.len(),
        forall|j: int| 0 <= j < i ==> (#[trigger] ps[j]).name@ != name,
        i < ps.len() ==> ps[i].name@ == name,
    ensures
        i < ps.len() ==> find_pkg_idx(ps, name) == Some(i),
        i == ps.len() ==> find_pkg_idx(ps, name) is None,
    decreases i,
{
    if ps.len() > 0 && ps[0].name@ != name {
        assert(ps[0] == ps[0]);
        let tail = ps.drop_first();
        assert(forall|j: int| 0 <= j < i - 1 ==> (#[trigger] tail[j]).name@ != name);
        lemma_find_pkg_idx(tail, name, if i > 0 { i - 1 } else { 0 });
    }
}

/// What `find_pkg` returns is one of the records.
pub proof fn lemma_find_pkg_member(ps: Seq<PackageRecord>, name: Seq<char>)
    requires
        find_pkg(ps, name) is Some,
    ensures
        exists|i: int| 0 <= i < ps.len() && ps[i] == find_pkg(ps, name)->0,
    decreases ps.len(),
{
    if ps.len() > 0 && ps[0].name@ != name {
        lemma_find_pkg_member(ps.drop_first(), name);
        let i = choose|i: int|
            0 <= i < ps.drop_first().len() && ps.drop_first()[i] == find_pkg(
                ps.drop_first(),
                name,
            )->0;
        assert(ps[i + 1] == ps.drop_first()[i]);
    } else if ps.len() > 0 {
        assert(ps[0] == find_pkg(ps, name)->0);
    }
}

/// The dependency entry recorded for a version, if one was recorded.
pub open spec fn find_deps(
    ds: Seq<(PEP440Version, Option<Vec<(String, VersionRange)>>)>,
    v: PEP440Version,
) -> Option<Option<Vec<(String, VersionRange)>>>
    decreases ds.len(),
{
    if ds.len() == 0 {
        None
    } else if ds[0].0 == v {
        Some(ds[0].1)
    } else {
        find_deps(ds.drop_first(), v)
    }
}

impl OfflineProvider {
    /// An empty registry.
    pub fn new() -> (r: OfflineProvider)
        ensures
            r.packages@.len() == 0,
    {
        OfflineProvider { packages: Vec::new() }
    }

    /// Record the available versions of a package, in preference order.
    pub fn add_package(&mut self, name: String, versions: Vec<PEP440Version>)
        ensures
            final(self).packages@.len() == old(self).packages@.len() + 1,
            forall|i: int|
                0 <= i < old(self).packages@.len() ==> final(self).packages@[i] == old(
                    self,
                ).packages@[i],
            final(self).packages@.last().name == name,
            final(self).packages@.last().versions == versions,
            final(self).packages@.last().deps@.len() == 0,
    {
        self.packages.push(PackageRecord { name, versions, deps: Vec::new() });
    }

    /// Record the dependency lines of one version of a package, or record
    /// that the registry has none; ignored for an unknown package.  The
    /// entry is appended to the first record carrying the name; every other
    /// record stays as it was.
    pub fn add_dependencies(
        &mut self,
        name: &String,
        version: PEP440Version,
        deps: Option<Vec<(String, VersionRange)>>,
    )
        ensures
            final(self).packages@.len() == old(self).packages@.len(),
            match find_pkg_idx(old(self).packages@, name@) {
                None => final(self).packages@ == old(self).packages@,
                Some(i) => {
                    &&& (forall|j: int|
                        0 <= j < old(self).packages@.len() && j != i
                            ==> #[trigger] final(self).packages@[j] == old(self).packages@[j])
                    &&& final(self).packages@[i].name == old(self).packages@[i].name
                    &&& final(self).packages@[i].versions == old(self).packages@[i].versions
                    &&& final(self).packages@[i].deps@ == old(self).packages@[i].deps@.push(
                        (version, deps),
                    )
                },
            },
    {
        let n = self.packages.len();
        let mut i: usize = 0;
        while i < n
            invariant
                n == self.packages.len(),
                *self == *old(self),
                0 <= i <= n,
                forall|j: int| 0 <= j < i ==> (#[trigger] self.packages@[j]).name@ != name@,
            decreases n - i,
        {
            if self.packages[i].name == *name {
                proof {
                    lemma_find_pkg_idx(self.packages@, name@, i as int);
                }
                let rec = &mut self.packages[i];
                rec.deps.push((version, deps));
                return ;
            }
            i = i + 1;
        }
        proof {
            lemma_find_pkg_idx(self.packages@, name@, n as int);
        }
    }

    /// Find the record of a package.
    pub fn lookup(&self, name: &String) -> (r: Option<&PackageRecord>)
        ensures
            (r is Some) == (find_pkg(self.packages@, name@) is Some),
            r is Some ==> *r->0 == find_pkg(self.packages@, name@)->0,
    {
        let n = self.packages.len();
        let mut i: usize = 0;
        proof {
            assert(self.packages@.skip(0) =~= self.packages@);
        }
        while i < n
            invariant
                n == self.packages.len(),
                0 <= i <= n,
                find_pkg(self.packages@, name@) == find_pkg(
                    self.packages@.skip(i as int),
                    name@,
                ),
            decreases n - i,
        {
            proof {
                assert(self.packages@.skip(i as int)[0] == self.packages@[i as int]);
                assert(self.packages@.skip(i as int).drop_first() =~= self.packages@.skip(
                    i as int + 1,
                ));
            }
            if self.packages[i].name == *name {
                return Some(&self.packages[i]);
            }
            i = i + 1;
        }
        proof {
            assert(self.packages@.skip(n as int) =~= Seq::<PackageRecord>::empty());
        }
        None
    }
}

/// The dependency entry of a record for a version.
pub fn lookup_deps<'a>(rec: &'a PackageRecord, version: &PEP440Version) -> (r: Option<
    &'a Option<Vec<(String, VersionRange)>>,
>)
    ensures
        (r is Some) == (find_deps(rec.deps@, *version) is Some),
        r is Some ==> *r->0 == find_deps(rec.deps@, *version)->0,
{
    let n = rec.deps.len();
    let mut i: usize = 0;
    proof {
        assert(rec.deps@.skip(0) =~= rec.deps@);
    }
    while i < n
        invariant
            n == rec.deps.len(),
            0 <= i <= n,
            find_deps(rec.deps@, *version) == find_deps(rec.deps@.skip(i as int), *version),
        decreases n - i,
    {
        proof {
            assert(rec.deps@.skip(i as int)[0] == rec.deps@[i as int]);
            assert(rec.deps@.skip(i as int).drop_first() =~= rec.deps@.skip(i as int + 1));
        }
        if rec.deps[i].0.equals(version) {
            return Some(&rec.deps[i].1);
        }
        i = i + 1;
    }
    proof {
        assert(rec.deps@.skip(n as int) =~= Seq::<
            (PEP440Version, Option<Vec<(String, VersionRange)>>),
        >::empty());
    }
    None
}

} // verus!
