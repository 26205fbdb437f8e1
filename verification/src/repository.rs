//! The repository aggregator: an ordered list of repository indexes, the
//! candidates they offer for a package, and the per-(package, version)
//! dependency map, where a later-declared repository wins a contested key.

use vstd::prelude::*;

use crate::candidates::{dep_wf, Candidate, Dep, Dependencies};
use crate::name::{name_wf, PackageName};
use crate::requirement::req_sem;
use crate::version::{
    key_le, key_of, lemma_version_key, pre_of, version_wf, VerKey, Version,
};

verus! {

/// One version a repository offers, with the dependencies it declares.
pub struct Release {
    pub version: Version,
    pub dependencies: Vec<Dep>,
}

/// All versions a repository offers of one package.
pub struct PackageEntry {
    pub name: PackageName,
    pub releases: Vec<Release>,
}

/// One repository index document.
pub struct RepoData {
    pub packages: Vec<PackageEntry>,
}

/// The ordered collection of repository indexes.
pub struct Repository {
    pub repos: Vec<RepoData>,
}

/// Two versions of the same package coincide when their triple and tag do;
/// origin marks play no part.
pub open spec fn sem_eq(a: Version, b: Version) -> bool {
    a.major == b.major && a.minor == b.minor && a.patch == b.patch && pre_of(a) == pre_of(b)
}

/// The first entry of the given name.
pub open spec fn find_entry(es: Seq<PackageEntry>, name: Seq<char>) -> Option<PackageEntry>
    decreases es.len(),
{
    if es.len() == 0 {
        None
    } else if es[0].name@ == name {
        Some(es[0])
    } else {
        find_entry(es.drop_first(), name)
    }
}

/// The first release of the given version.
pub open spec fn find_release(rs: Seq<Release>, v: Version) -> Option<Release>
    decreases rs.len(),
{
    if rs.len() == 0 {
        None
    } else if sem_eq(rs[0].version, v) {
        Some(rs[0])
    } else {
        find_release(rs.drop_first(), v)
    }
}

/// The release one repository offers for a package at a version.
pub open spec fn repo_release(r: RepoData, pkg: Seq<char>, v: Version) -> Option<Release> {
    match find_entry(r.packages@, pkg) {
        None => None,
        Some(e) => find_release(e.releases@, v),
    }
}

/// The dependency declarations of a release, or nothing.
pub open spec fn rel_deps(r: RepoData, pkg: Seq<char>, v: Version) -> Seq<Dep> {
    match repo_release(r, pkg, v) {
        None => Seq::empty(),
        Some(rel) => rel.dependencies@,
    }
}

/// All declarations for a (package, version), repositories in declaration
/// order.
pub open spec fn all_deps(repos: Seq<RepoData>, pkg: Seq<char>, v: Version) -> Seq<Dep>
    decreases repos.len(),
{
    if repos.len() == 0 {
        Seq::empty()
    } else {
        all_deps(repos.drop_last(), pkg, v) + rel_deps(repos.last(), pkg, v)
    }
}

/// The winning declaration for one dependency name: the last one made.
pub open spec fn last_dep(ds: Seq<Dep>, dn: Seq<char>) -> Option<Dep>
    decreases ds.len(),
{
    if ds.len() == 0 {
        None
    } else if ds.last().name@ == dn {
        Some(ds.last())
    } else {
        last_dep(ds.drop_last(), dn)
    }
}

/// The winning declaration bears the name it was looked up by.
pub proof fn lemma_last_dep_name(ds: Seq<Dep>, dn: Seq<char>)
    ensures
        last_dep(ds, dn) matches Some(d) ==> d.name@ == dn,
    decreases ds.len(),
{
    if ds.len() > 0 && ds.last().name@ != dn {
        lemma_last_dep_name(ds.drop_last(), dn);
    }
}

/// The model of a version as offered by repository `ri` at position `vi`.
pub open spec fn tag(k: VerKey, sid: int, disc: int) -> VerKey {
    VerKey { source_id: sid, source_discriminator: disc, ..k }
}

/// The version model offered by repository `ri` at release position `vi`.
pub open spec fn offered_at(repos: Seq<RepoData>, pkg: Seq<char>, k: VerKey, ri: int, vi: int) -> bool {
    &&& 0 <= ri < repos.len()
    &&& find_entry(repos[ri].packages@, pkg) matches Some(e) && 0 <= vi < e.releases@.len() && k
        == tag(key_of(e.releases@[vi].version), ri + 1, vi)
}

/// A version model the aggregated repositories offer for a package.
pub open spec fn offered(repos: Seq<RepoData>, pkg: Seq<char>, k: VerKey) -> bool {
    exists|ri: int, vi: int| offered_at(repos, pkg, k, ri, vi)
}

/// A dependency list that reflects the aggregated declarations for a
/// (package, version): no name twice, every entry the winning declaration,
/// and every winning declaration present.
pub open spec fn deps_reflect(repos: Seq<RepoData>, pkg: Seq<char>, v: Version, ds: Seq<Dep>) -> bool {
    &&& forall|i: int, j: int| 0 <= i < j < ds.len() ==> (#[trigger] ds[i]).name@ != (#[trigger] ds[j]).name@
    &&& forall|i: int|
        0 <= i < ds.len() ==> {
            &&& last_dep(all_deps(repos, pkg, v), (#[trigger] ds[i]).name@) is Some
            &&& forall|k: VerKey|
                req_sem(last_dep(all_deps(repos, pkg, v), ds[i].name@).unwrap().req, k)
                    == req_sem(ds[i].req, k)
        }
    &&& forall|dn: Seq<char>|
        #[trigger] last_dep(all_deps(repos, pkg, v), dn) is Some ==> exists|i: int|
            0 <= i < ds.len() && (#[trigger] ds[i]).name@ == dn
}

/// A sound release: the version leaves bump room and every declaration is
/// a real name with a sound requirement.
pub open spec fn release_wf(rel: Release) -> bool {
    &&& version_wf(rel.version)
    &&& forall|di: int| 0 <= di < rel.dependencies@.len() ==> dep_wf(#[trigger] rel.dependencies@[di])
}

/// A sound package entry.
pub open spec fn entry_wf(e: PackageEntry) -> bool {
    &&& name_wf(e.name@)
    &&& forall|vi: int| 0 <= vi < e.releases@.len() ==> release_wf(#[trigger] e.releases@[vi])
}

/// A sound repository index.
pub open spec fn repo_data_wf(r: RepoData) -> bool {
    forall|ei: int| 0 <= ei < r.packages@.len() ==> entry_wf(#[trigger] r.packages@[ei])
}

/// Sound repository data throughout.
pub open spec fn repos_wf(repos: Seq<RepoData>) -> bool {
    forall|ri: int| 0 <= ri < repos.len() ==> repo_data_wf(#[trigger] repos[ri])
}

impl Repository {
    /// An aggregator over no repositories.
    pub fn new() -> (r: Repository)
        ensures
            r.repos@.len() == 0,
    {
        Repository { repos: Vec::new() }
    }

    /// Appends one fetched repository index; later insertions have lower
    /// version precedence and higher dependency precedence.
    pub fn insert(&mut self, data: RepoData)
        ensures
            final (self).repos@ == old(self).repos@.push(data),
    {
        self.repos.push(data);
    }
}

} // verus!

use vstd::pervasive::VecAdditionalExecFns;

verus! {

/// A dependency list that reflects a declaration sequence: names distinct,
/// every entry the winning (last) declaration of its name, every declared
/// name present.
pub open spec fn reflects(ds: Seq<Dep>, out: Seq<Dep>) -> bool {
    &&& forall|i: int, j: int|
        0 <= i < j < out.len() ==> (#[trigger] out[i]).name@ != (#[trigger] out[j]).name@
    &&& forall|i: int|
        0 <= i < out.len() ==> {
            &&& last_dep(ds, (#[trigger] out[i]).name@) is Some
            &&& forall|k: VerKey|
                req_sem(last_dep(ds, out[i].name@).unwrap().req, k) == req_sem(out[i].req, k)
        }
    &&& forall|dn: Seq<char>|
        #[trigger] last_dep(ds, dn) is Some ==> exists|i: int|
            0 <= i < out.len() && (#[trigger] out[i]).name@ == dn
}

proof fn lemma_last_dep_push(ds: Seq<Dep>, d: Dep, dn: Seq<char>)
    ensures
        last_dep(ds.push(d), dn) == (if d.name@ == dn {
            Some(d)
        } else {
            last_dep(ds, dn)
        }),
{
    assert(ds.push(d).last() == d);
    assert(ds.push(d).drop_last() =~= ds);
}

/// Replaces or appends one declaration, keeping the list reflecting the
/// declarations seen.
fn upsert_dep(out: &mut Vec<Dep>, d: &Dep, Ghost(ds): Ghost<Seq<Dep>>)
    requires
        reflects(ds, old(out)@),
        crate::candidates::deps_wf(old(out)@),
        dep_wf(*d),
    ensures
        reflects(ds.push(*d), final (out)@),
        crate::candidates::deps_wf(final (out)@),
{
    let n = out.len();
    let mut i: usize = 0;
    while i < n
        invariant
            i <= n == out@.len(),
            reflects(ds, out@),
            crate::candidates::deps_wf(out@),
            dep_wf(*d),
            forall|j: int| 0 <= j < i ==> (#[trigger] out@[j]).name@ != d.name@,
        decreases n - i,
    {
        if out[i].name == d.name {
            let ghost old_out = out@;
            let ghost gi = i as int;
            out.set(i, d.duplicate());
            proof {
                assert(forall|j: int|
                    0 <= j < out@.len() && j != gi ==> #[trigger] out@[j] == old_out[j]);
                assert(out@[gi].name@ == d.name@ && old_out[gi].name@ == d.name@);
                assert forall|a: int|
                    0 <= a < out@.len() implies {
                    &&& last_dep(ds.push(*d), (#[trigger] out@[a]).name@) is Some
                    &&& forall|k: VerKey|
                        req_sem(last_dep(ds.push(*d), out@[a].name@).unwrap().req, k) == req_sem(
                            out@[a].req,
                            k,
                        )
                } by {
                    lemma_last_dep_push(ds, *d, out@[a].name@);
                    if a != gi {
                        assert(old_out[a].name@ != old_out[gi].name@);
                        assert(out@[a].name@ != d.name@);
                    }
                }
                assert forall|dn: Seq<char>|
                    #[trigger] last_dep(ds.push(*d), dn) is Some implies exists|a: int|
                    0 <= a < out@.len() && (#[trigger] out@[a]).name@ == dn by {
                    lemma_last_dep_push(ds, *d, dn);
                    if dn == d.name@ {
                        assert(out@[gi].name@ == dn);
                    } else {
                        let a = choose|a: int|
                            0 <= a < old_out.len() && (#[trigger] old_out[a]).name@ == dn;
                        assert(out@[a].name@ == dn);
                    }
                }
            }
            return ;
        }
        i = i + 1;
    }
    let ghost old_out = out@;
    out.push(d.duplicate());
    proof {
        let gn = old_out.len() as int;
        assert(forall|j: int| 0 <= j < gn ==> #[trigger] out@[j] == old_out[j]);
        assert(out@[gn].name@ == d.name@);
        assert forall|a: int|
            0 <= a < out@.len() implies {
            &&& last_dep(ds.push(*d), (#[trigger] out@[a]).name@) is Some
            &&& forall|k: VerKey|
                req_sem(last_dep(ds.push(*d), out@[a].name@).unwrap().req, k) == req_sem(
                    out@[a].req,
                    k,
                )
        } by {
            lemma_last_dep_push(ds, *d, out@[a].name@);
            if a != gn {
                assert(out@[a].name@ != d.name@);
            }
        }
        assert forall|dn: Seq<char>|
            #[trigger] last_dep(ds.push(*d), dn) is Some implies exists|a: int|
            0 <= a < out@.len() && (#[trigger] out@[a]).name@ == dn by {
            lemma_last_dep_push(ds, *d, dn);
            if dn == d.name@ {
                assert(out@[gn].name@ == dn);
            } else {
                let a = choose|a: int|
                    0 <= a < old_out.len() && (#[trigger] old_out[a]).name@ == dn;
                assert(out@[a].name@ == dn);
            }
        }
    }
}

/// The position of the first entry with the given name.
pub(crate) fn entry_index(es: &Vec<PackageEntry>, pkg: &PackageName) -> (r: Option<usize>)
    ensures
        r matches Some(i) ==> i < es@.len() && find_entry(es@, pkg@) == Some(es@[i as int]),
        r is None ==> find_entry(es@, pkg@) is None,
{
    proof {
        assert(es@.skip(0) =~= es@);
    }
    let n = es.len();
    let mut i: usize = 0;
    while i < n
        invariant
            i <= n == es@.len(),
            find_entry(es@, pkg@) == find_entry(es@.skip(i as int), pkg@),
        decreases n - i,
    {
        proof {
            assert(es@.skip(i as int)[0] == es@[i as int]);
            assert(es@.skip(i as int).drop_first() =~= es@.skip(i + 1 as int));
        }
        if es[i].name == *pkg {
            return Some(i);
        }
        i = i + 1;
    }
    proof {
        assert(es@.skip(n as int) =~= Seq::<PackageEntry>::empty());
    }
    None
}

/// Whether two versions coincide up to origin marks.
pub fn sem_eq_exec(a: &Version, b: &Version) -> (r: bool)
    ensures
        r == sem_eq(*a, *b),
{
    if a.major != b.major || a.minor != b.minor || a.patch != b.patch {
        return false;
    }
    let ac = Candidate { version: a.duplicate().with_source_id(0).with_source_discriminator(0), deps: Dependencies::Unknown };
    let bc = Candidate { version: b.duplicate().with_source_id(0).with_source_discriminator(0), deps: Dependencies::Unknown };
    let c = crate::version::version_cmp(&ac.version, &bc.version);
    proof {
        if crate::version::version_eqv(ac.version, bc.version) {
            assert(pre_of(*a) == pre_of(*b));
        }
        if sem_eq(*a, *b) {
            assert(crate::version::version_eqv(ac.version, bc.version));
        }
    }
    match c {
        crate::version::Cmp::Eq => true,
        _ => false,
    }
}

/// The position of the first release with the given version.
fn release_index(rs: &Vec<Release>, v: &Version) -> (r: Option<usize>)
    ensures
        r matches Some(i) ==> i < rs@.len() && find_release(rs@, *v) == Some(rs@[i as int]),
        r is None ==> find_release(rs@, *v) is None,
{
    proof {
        assert(rs@.skip(0) =~= rs@);
    }
    let n = rs.len();
    let mut i: usize = 0;
    while i < n
        invariant
            i <= n == rs@.len(),
            find_release(rs@, *v) == find_release(rs@.skip(i as int), *v),
        decreases n - i,
    {
        proof {
            assert(rs@.skip(i as int)[0] == rs@[i as int]);
            assert(rs@.skip(i as int).drop_first() =~= rs@.skip(i + 1 as int));
        }
        if sem_eq_exec(&rs[i].version, v) {
            return Some(i);
        }
        i = i + 1;
    }
    proof {
        assert(rs@.skip(n as int) =~= Seq::<Release>::empty());
    }
    None
}

impl Repository {
    /// The merged dependency map for a package at a version: every
    /// repository's declaration, a later-declared repository winning any
    /// contested dependency name.
    pub fn dependencies(&self, pkg: &PackageName, v: &Version) -> (r: Vec<Dep>)
        requires
            repos_wf(self.repos@),
        ensures
            deps_reflect(self.repos@, pkg@, *v, r@),
            crate::candidates::deps_wf(r@),
    {
        let mut out: Vec<Dep> = Vec::new();
        let n = self.repos.len();
        let mut ri: usize = 0;
        proof {
            assert(reflects(all_deps(self.repos@.take(0), pkg@, *v), out@));
        }
        while ri < n
            invariant
                ri <= n == self.repos@.len(),
                repos_wf(self.repos@),
                reflects(all_deps(self.repos@.take(ri as int), pkg@, *v), out@),
                crate::candidates::deps_wf(out@),
            decreases n - ri,
        {
            let ghost prefix = all_deps(self.repos@.take(ri as int), pkg@, *v);
            let repo = &self.repos[ri];
            let mut handled = false;
            match entry_index(&repo.packages, pkg) {
                None => {
                    handled = true;
                },
                Some(ei) => {
                    match release_index(&repo.packages[ei].releases, v) {
                        None => {
                            handled = true;
                        },
                        Some(vi) => {
                            let rel = &repo.packages[ei].releases[vi];
                            proof {
                                assert(repo_release(self.repos@[ri as int], pkg@, *v) == Some(
                                    *rel,
                                ));
                                assert(entry_wf(repo.packages@[ei as int]));
                                assert(release_wf(*rel));
                            }
                            let m = rel.dependencies.len();
                            let mut di: usize = 0;
                            while di < m
                                invariant
                                    di <= m == rel.dependencies@.len(),
                                    release_wf(*rel),
                                    reflects(
                                        prefix + rel.dependencies@.take(di as int),
                                        out@,
                                    ),
                                    crate::candidates::deps_wf(out@),
                                decreases m - di,
                            {
                                upsert_dep(
                                    &mut out,
                                    &rel.dependencies[di],
                                    Ghost(prefix + rel.dependencies@.take(di as int)),
                                );
                                proof {
                                    assert((prefix + rel.dependencies@.take(di as int)).push(
                                        rel.dependencies@[di as int],
                                    ) =~= prefix + rel.dependencies@.take(di + 1 as int));
                                }
                                di = di + 1;
                            }
                            proof {
                                assert(rel.dependencies@.take(m as int) =~= rel.dependencies@);
                                assert(all_deps(self.repos@.take(ri + 1 as int), pkg@, *v) =~= prefix
                                    + rel.dependencies@) by {
                                    assert(self.repos@.take(ri + 1 as int).drop_last()
                                        =~= self.repos@.take(ri as int));
                                    assert(self.repos@.take(ri + 1 as int).last()
                                        == self.repos@[ri as int]);
                                }
                            }
                        },
                    }
                },
            }
            proof {
                if handled {
                    assert(rel_deps(self.repos@[ri as int], pkg@, *v) =~= Seq::<Dep>::empty());
                    assert(all_deps(self.repos@.take(ri + 1 as int), pkg@, *v) =~= prefix) by {
                        assert(self.repos@.take(ri + 1 as int).drop_last() =~= self.repos@.take(
                            ri as int,
                        ));
                        assert(self.repos@.take(ri + 1 as int).last() == self.repos@[ri as int]);
                    }
                }
            }
            ri = ri + 1;
        }
        proof {
            assert(self.repos@.take(n as int) =~= self.repos@);
        }
        out
    }
}

} // verus!

verus! {

/// Everything the aggregator promises of one enumerated candidate.
pub open spec fn candidate_ok(repos: Seq<RepoData>, pkg: Seq<char>, c: Candidate) -> bool {
    &&& offered(repos, pkg, c.key())
    &&& version_wf(c.version)
    &&& c.deps matches Dependencies::Known(ds) && deps_reflect(repos, pkg, c.version, ds@)
        && crate::candidates::deps_wf(ds@)
}

impl Repository {
    /// Every candidate the repositories offer for a package, in declaration
    /// order, each carrying its merged dependency map.
    fn collect_candidates(&self, pkg: &PackageName) -> (r: Vec<Candidate>)
        requires
            repos_wf(self.repos@),
        ensures
            forall|i: int| 0 <= i < r@.len() ==> candidate_ok(self.repos@, pkg@, #[trigger] r@[i]),
            forall|kk: VerKey|
                offered(self.repos@, pkg@, kk) ==> exists|i: int|
                    0 <= i < r@.len() && (#[trigger] r@[i]).key() == kk,
            forall|i: int, j: int|
                0 <= i < j < r@.len() ==> (#[trigger] r@[i]).key() != (#[trigger] r@[j]).key(),
    {
        let mut out: Vec<Candidate> = Vec::new();
        let n = self.repos.len();
        let mut ri: usize = 0;
        while ri < n
            invariant
                ri <= n == self.repos@.len(),
                repos_wf(self.repos@),
                forall|i: int|
                    0 <= i < out@.len() ==> candidate_ok(self.repos@, pkg@, #[trigger] out@[i]),
                forall|i: int|
                    0 <= i < out@.len() ==> (#[trigger] out@[i]).key().source_id <= ri as int,
                forall|i: int, j: int|
                    0 <= i < j < out@.len() ==> (#[trigger] out@[i]).key() != (
                    #[trigger] out@[j]).key(),
                forall|kk: VerKey, ri2: int, vi2: int|
                    offered_at(self.repos@, pkg@, kk, ri2, vi2) && ri2 < ri ==> exists|i: int|
                        0 <= i < out@.len() && (#[trigger] out@[i]).key() == kk,
            decreases n - ri,
        {
            match entry_index(&self.repos[ri].packages, pkg) {
                None => {
                    proof {
                        assert forall|kk: VerKey, ri2: int, vi2: int|
                            offered_at(self.repos@, pkg@, kk, ri2, vi2) && ri2 < ri
                                + 1 implies exists|i: int|
                            0 <= i < out@.len() && (#[trigger] out@[i]).key() == kk by {
                            if ri2 == ri {
                                assert(find_entry(self.repos@[ri2].packages@, pkg@) is None);
                            }
                        }
                    }
                },
                Some(ei) => {
                    let entry = &self.repos[ri].packages[ei];
                    let m = entry.releases.len();
                    let mut vi: usize = 0;
                    while vi < m
                        invariant
                            vi <= m == entry.releases@.len(),
                            ri < n == self.repos@.len(),
                            repos_wf(self.repos@),
                            entry_wf(*entry),
                            find_entry(self.repos@[ri as int].packages@, pkg@) == Some(*entry),
                            *entry == self.repos@[ri as int].packages@[ei as int],
                            forall|i: int|
                                0 <= i < out@.len() ==> candidate_ok(
                                    self.repos@,
                                    pkg@,
                                    #[trigger] out@[i],
                                ),
                            forall|i: int|
                                0 <= i < out@.len() ==> ((#[trigger] out@[i]).key().source_id
                                    < ri + 1 || (out@[i].key().source_id == ri + 1
                                    && out@[i].key().source_discriminator < vi as int)),
                            forall|i: int, j: int|
                                0 <= i < j < out@.len() ==> (#[trigger] out@[i]).key() != (
                                #[trigger] out@[j]).key(),
                            forall|kk: VerKey, ri2: int, vi2: int|
                                offered_at(self.repos@, pkg@, kk, ri2, vi2) && (ri2 < ri || (ri2
                                    == ri && vi2 < vi)) ==> exists|i: int|
                                    0 <= i < out@.len() && (#[trigger] out@[i]).key() == kk,
                        decreases m - vi,
                    {
                        let rel = &entry.releases[vi];
                        let deps = self.dependencies(pkg, &rel.version);
                        let sid = (ri + 1) as u64;
                        let disc = vi as u64;
                        let tagged = rel.version.duplicate().with_source_id(sid)
                            .with_source_discriminator(disc);
                        let cand = Candidate { version: tagged, deps: Dependencies::Known(deps) };
                        let ghost old_out = out@;
                        proof {
                            lemma_version_key(cand.version, rel.version);
                            assert(cand.key() =~~= tag(key_of(rel.version), ri + 1 as int, vi as int));
                            assert(offered_at(
                                self.repos@,
                                pkg@,
                                cand.key(),
                                ri as int,
                                vi as int,
                            ));
                            assert(sem_eq(cand.version, rel.version));
                            assert(deps_reflect(self.repos@, pkg@, cand.version, deps@)) by {
                                assert(all_deps(self.repos@, pkg@, cand.version) =~= all_deps(
                                    self.repos@,
                                    pkg@,
                                    rel.version,
                                )) by {
                                    lemma_all_deps_sem(self.repos@, pkg@, cand.version, rel.version);
                                }
                            }
                            assert(version_wf(cand.version)) by {
                                assert(release_wf(entry.releases@[vi as int]));
                                assert(pre_of(cand.version) == pre_of(rel.version));
                            }
                            assert(candidate_ok(self.repos@, pkg@, cand));
                        }
                        out.push(cand);
                        proof {
                            assert(forall|i: int|
                                0 <= i < old_out.len() ==> #[trigger] out@[i] == old_out[i]);
                            assert forall|kk: VerKey, ri2: int, vi2: int|
                                offered_at(self.repos@, pkg@, kk, ri2, vi2) && (ri2 < ri || (ri2
                                    == ri && vi2 < vi + 1)) implies exists|i: int|
                                0 <= i < out@.len() && (#[trigger] out@[i]).key() == kk by {
                                if ri2 == ri && vi2 == vi {
                                    assert(out@[old_out.len() as int].key() == kk);
                                } else {
                                    let i = choose|i: int|
                                        0 <= i < old_out.len() && (#[trigger] old_out[i]).key()
                                            == kk;
                                    assert(out@[i].key() == kk);
                                }
                            }
                        }
                        vi = vi + 1;
                    }
                    proof {
                        assert forall|kk: VerKey, ri2: int, vi2: int|
                            offered_at(self.repos@, pkg@, kk, ri2, vi2) && ri2 < ri
                                + 1 implies exists|i: int|
                            0 <= i < out@.len() && (#[trigger] out@[i]).key() == kk by {
                            if ri2 == ri {
                                assert(vi2 < m);
                            }
                        }
                    }
                },
            }
            ri = ri + 1;
        }
        proof {
            assert forall|kk: VerKey|
                offered(self.repos@, pkg@, kk) implies exists|i: int|
                0 <= i < out@.len() && (#[trigger] out@[i]).key() == kk by {
                let (ri2, vi2) = choose|ri2: int, vi2: int|
                    offered_at(self.repos@, pkg@, kk, ri2, vi2);
            }
        }
        out
    }
}

/// Declarations are looked up by the version's triple and tag alone, so two
/// versions that coincide up to origin marks share them.
pub proof fn lemma_all_deps_sem(repos: Seq<RepoData>, pkg: Seq<char>, a: Version, b: Version)
    requires
        sem_eq(a, b),
    ensures
        all_deps(repos, pkg, a) == all_deps(repos, pkg, b),
    decreases repos.len(),
{
    if repos.len() > 0 {
        lemma_all_deps_sem(repos.drop_last(), pkg, a, b);
        assert(rel_deps(repos.last(), pkg, a) == rel_deps(repos.last(), pkg, b)) by {
            lemma_find_release_sem(repos.last(), pkg, a, b);
        }
    } else {
        assert(all_deps(repos, pkg, a) =~= all_deps(repos, pkg, b));
    }
}

proof fn lemma_find_release_sem(r: RepoData, pkg: Seq<char>, a: Version, b: Version)
    requires
        sem_eq(a, b),
    ensures
        repo_release(r, pkg, a) == repo_release(r, pkg, b),
{
    match find_entry(r.packages@, pkg) {
        None => {},
        Some(e) => {
            lemma_find_release_seq_sem(e.releases@, a, b);
        },
    }
}

proof fn lemma_find_release_seq_sem(rs: Seq<Release>, a: Version, b: Version)
    requires
        sem_eq(a, b),
    ensures
        find_release(rs, a) == find_release(rs, b),
    decreases rs.len(),
{
    if rs.len() > 0 {
        if !sem_eq(rs[0].version, a) {
            lemma_find_release_seq_sem(rs.drop_first(), a, b);
        }
    }
}

} // verus!

verus! {

impl Repository {
    /// The candidates for a package, newest version first; at an equal
    /// version the earlier-declared repository comes first. Each candidate
    /// carries its merged dependency map.
    pub fn candidates(&self, pkg: &PackageName) -> (r: Vec<Candidate>)
        requires
            repos_wf(self.repos@),
        ensures
            forall|i: int, j: int|
                0 <= i < j < r@.len() ==> key_le((#[trigger] r@[j]).key(), (#[trigger] r@[i]).key()),
            forall|i: int| 0 <= i < r@.len() ==> candidate_ok(self.repos@, pkg@, #[trigger] r@[i]),
            forall|kk: VerKey|
                offered(self.repos@, pkg@, kk) ==> exists|i: int|
                    0 <= i < r@.len() && (#[trigger] r@[i]).key() == kk,
            forall|i: int, j: int|
                0 <= i < j < r@.len() ==> (#[trigger] r@[i]).key() != (#[trigger] r@[j]).key(),
    {
        let mut rest = self.collect_candidates(pkg);
        let mut sorted: Vec<Candidate> = Vec::new();
        while rest.len() > 0
            invariant
                forall|i: int|
                    0 <= i < rest@.len() ==> candidate_ok(self.repos@, pkg@, #[trigger] rest@[i]),
                forall|i: int|
                    0 <= i < sorted@.len() ==> candidate_ok(
                        self.repos@,
                        pkg@,
                        #[trigger] sorted@[i],
                    ),
                forall|i: int, j: int|
                    0 <= i < j < sorted@.len() ==> key_le(
                        (#[trigger] sorted@[j]).key(),
                        (#[trigger] sorted@[i]).key(),
                    ),
                forall|kk: VerKey|
                    offered(self.repos@, pkg@, kk) ==> (exists|i: int|
                        0 <= i < sorted@.len() && (#[trigger] sorted@[i]).key() == kk) || (
                    exists|i: int| 0 <= i < rest@.len() && (#[trigger] rest@[i]).key() == kk),
                forall|i: int, j: int|
                    0 <= i < j < sorted@.len() ==> (#[trigger] sorted@[i]).key() != (
                    #[trigger] sorted@[j]).key(),
                forall|i: int, j: int|
                    0 <= i < j < rest@.len() ==> (#[trigger] rest@[i]).key() != (
                    #[trigger] rest@[j]).key(),
                forall|i: int, j: int|
                    0 <= i < sorted@.len() && 0 <= j < rest@.len() ==> (
                    #[trigger] sorted@[i]).key() != (#[trigger] rest@[j]).key(),
            decreases rest@.len(),
        {
            let ghost old_rest = rest@;
            let x = rest.remove(0);
            let p = desc_pos(&sorted, &x);
            let ghost old_sorted = sorted@;
            let ghost pos = p as int;
            sorted.insert(p, x);
            proof {
                assert(sorted@ == old_sorted.insert(pos, old_rest[0]));
                assert(forall|q: int| 0 <= q < pos ==> #[trigger] sorted@[q] == old_sorted[q]);
                assert(sorted@[pos] == old_rest[0]);
                assert(forall|q: int|
                    pos < q < sorted@.len() ==> #[trigger] sorted@[q] == old_sorted[q - 1]);
                assert(forall|q: int|
                    0 <= q < rest@.len() ==> #[trigger] rest@[q] == old_rest[q + 1]);
                assert forall|a: int, b: int|
                    0 <= a < b < sorted@.len() implies (#[trigger] sorted@[a]).key() != (
                    #[trigger] sorted@[b]).key() by {
                    if a == pos {
                        assert(sorted@[b] == old_sorted[b - 1]);
                    } else if b == pos {
                        assert(sorted@[a] == old_sorted[a]);
                    } else {
                        if a < pos {
                            assert(sorted@[a] == old_sorted[a]);
                        } else {
                            assert(sorted@[a] == old_sorted[a - 1]);
                        }
                        if b < pos {
                            assert(sorted@[b] == old_sorted[b]);
                        } else {
                            assert(sorted@[b] == old_sorted[b - 1]);
                        }
                    }
                }
                assert forall|a: int, b: int|
                    0 <= a < sorted@.len() && 0 <= b < rest@.len() implies (
                    #[trigger] sorted@[a]).key() != (#[trigger] rest@[b]).key() by {
                    assert(rest@[b] == old_rest[b + 1]);
                    if a == pos {
                    } else if a < pos {
                        assert(sorted@[a] == old_sorted[a]);
                    } else {
                        assert(sorted@[a] == old_sorted[a - 1]);
                    }
                }
                assert forall|q: int, q2: int|
                    0 <= q < q2 < sorted@.len() implies key_le(
                    (#[trigger] sorted@[q2]).key(),
                    (#[trigger] sorted@[q]).key(),
                ) by {
                    if q == pos && q2 > pos {
                        if pos < old_sorted.len() && q2 - 1 > pos {
                            crate::version::lemma_key_le_trans(
                                old_sorted[q2 - 1].key(),
                                old_sorted[pos].key(),
                                old_rest[0].key(),
                            );
                        }
                    }
                }
                assert forall|kk: VerKey|
                    offered(self.repos@, pkg@, kk) implies (exists|i: int|
                    0 <= i < sorted@.len() && (#[trigger] sorted@[i]).key() == kk) || (exists|i: int|
                    0 <= i < rest@.len() && (#[trigger] rest@[i]).key() == kk) by {
                    if exists|i: int| 0 <= i < old_sorted.len() && (#[trigger] old_sorted[i]).key() == kk {
                        let i = choose|i: int|
                            0 <= i < old_sorted.len() && (#[trigger] old_sorted[i]).key() == kk;
                        if i < pos {
                            assert(sorted@[i].key() == kk);
                        } else {
                            assert(sorted@[i + 1].key() == kk);
                        }
                    } else if exists|i: int| 0 <= i < old_rest.len() && (#[trigger] old_rest[i]).key() == kk {
                        let i = choose|i: int|
                            0 <= i < old_rest.len() && (#[trigger] old_rest[i]).key() == kk;
                        if i == 0 {
                            assert(sorted@[pos].key() == kk);
                        } else {
                            assert(rest@[i - 1].key() == kk);
                        }
                    }
                }
            }
        }
        sorted
    }
}

/// The position at which a candidate keeps the list in descending order.
fn desc_pos(sorted: &Vec<Candidate>, x: &Candidate) -> (p: usize)
    ensures
        p <= sorted@.len(),
        forall|q: int| 0 <= q < p ==> key_le(x.key(), (#[trigger] sorted@[q]).key()),
        p < sorted@.len() ==> key_le((sorted@[p as int]).key(), x.key()),
{
    let n = sorted.len();
    let mut p: usize = 0;
    while p < n
        invariant
            p <= n == sorted@.len(),
            forall|q: int| 0 <= q < p ==> key_le(x.key(), (#[trigger] sorted@[q]).key()),
        decreases n - p,
    {
        let c = crate::version::version_cmp(&sorted[p].version, x.version());
        proof {
            lemma_version_key(sorted@[p as int].version, x.version);
            crate::version::lemma_key_trichotomy(sorted@[p as int].key(), x.key());
        }
        match c {
            crate::version::Cmp::Lt => {
                return p;
            },
            crate::version::Cmp::Eq => {
                return p;
            },
            crate::version::Cmp::Gt => {},
        }
        p = p + 1;
    }
    p
}

} // verus!

verus! {

impl Repository {
    /// Whether every repository index is sound: real names, versions with
    /// bump room, and sound declarations throughout.
    pub fn check_wf(&self) -> (r: bool)
        ensures
            r == repos_wf(self.repos@),
    {
        let rn = self.repos.len();
        let mut ri: usize = 0;
        while ri < rn
            invariant
                ri <= rn == self.repos@.len(),
                forall|a: int| 0 <= a < ri ==> repo_data_wf(#[trigger] self.repos@[a]),
            decreases rn - ri,
        {
            let en = self.repos[ri].packages.len();
            let mut ei: usize = 0;
            while ei < en
                invariant
                    ri < self.repos@.len(),
                    ei <= en == self.repos@[ri as int].packages@.len(),
                    forall|a: int|
                        0 <= a < ei ==> entry_wf(#[trigger] self.repos@[ri as int].packages@[a]),
                decreases en - ei,
            {
                let entry = &self.repos[ri].packages[ei];
                if !entry.name.is_wf() {
                    return false;
                }
                let vn = entry.releases.len();
                let mut vi: usize = 0;
                while vi < vn
                    invariant
                        ri < self.repos@.len(),
                        ei < self.repos@[ri as int].packages@.len(),
                        entry == self.repos@[ri as int].packages@[ei as int],
                        vi <= vn == entry.releases@.len(),
                        forall|a: int|
                            0 <= a < vi ==> release_wf(#[trigger] entry.releases@[a]),
                    decreases vn - vi,
                {
                    let rel = &entry.releases[vi];
                    if !rel.version.is_wf() {
                        return false;
                    }
                    let dn = rel.dependencies.len();
                    let mut di: usize = 0;
                    while di < dn
                        invariant
                            ri < self.repos@.len(),
                            ei < self.repos@[ri as int].packages@.len(),
                            entry == self.repos@[ri as int].packages@[ei as int],
                            vi < entry.releases@.len(),
                            rel == entry.releases@[vi as int],
                            di <= dn == rel.dependencies@.len(),
                            forall|a: int|
                                0 <= a < di ==> dep_wf(#[trigger] rel.dependencies@[a]),
                        decreases dn - di,
                    {
                        let d = &rel.dependencies[di];
                        if !d.name.is_wf() || !d.req.is_wf() {
                            return false;
                        }
                        di = di + 1;
                    }
                    vi = vi + 1;
                }
                ei = ei + 1;
            }
            ri = ri + 1;
        }
        true
    }
}

} // verus!

verus! {

/// At an equal version, the candidate from the earlier-declared repository
/// sorts higher, so the resolver tries it first.
pub proof fn lemma_earlier_repository_precedes(k: VerKey, i: int, j: int, di: int, dj: int)
    requires
        0 <= i < j,
    ensures
        crate::version::key_lt(tag(k, j + 1, dj), tag(k, i + 1, di)),
{
}

} // verus!
