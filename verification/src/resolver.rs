//! The resolver: a conflict-driven search over the candidates the
//! repositories offer, using the fewest-candidates-first heuristic and
//! newest-first candidate order, together with the checker that every
//! returned solution is verified against.

use vstd::prelude::*;

use crate::candidates::{deps_wf, Candidate, Dep, Dependencies, Package};
use crate::errors::{Conflict, DerivationTree, SolverError};
use crate::name::{name_wf, root_name_text, PackageName};
use crate::repository::{
    all_deps, candidate_ok, deps_reflect, last_dep, offered, repos_wf, RepoData, Repository,
};
use crate::requirement::req_sem;
use crate::semver::requirement_to_set;
use crate::version::{key_le, key_of, VerKey, Version};
use crate::versionset::VersionSet;

verus! {

/// Some entry of the solution is the named package at a version the
/// declaration admits.
pub open spec fn sol_satisfies(sol: Seq<Package>, d: Dep) -> bool {
    exists|j: int|
        0 <= j < sol.len() && (#[trigger] sol[j]).name@ == d.name@ && req_sem(
            d.req,
            key_of(sol[j].version),
        )
}

/// A valid solution: package names occur once; every requested package is
/// pinned to an admissible version; every pinned version is one the
/// repositories offer; and every dependency the repositories declare for a
/// pinned version is itself pinned admissibly.
pub open spec fn valid_solution(repos: Seq<RepoData>, reqs: Seq<Dep>, sol: Seq<Package>) -> bool {
    &&& forall|i: int, j: int|
        0 <= i < j < sol.len() ==> (#[trigger] sol[i]).name@ != (#[trigger] sol[j]).name@
    &&& forall|i: int| 0 <= i < reqs.len() ==> sol_satisfies(sol, #[trigger] reqs[i])
    &&& forall|j: int|
        0 <= j < sol.len() ==> offered(repos, (#[trigger] sol[j]).name@, key_of(sol[j].version))
    &&& forall|j: int, dn: Seq<char>|
        0 <= j < sol.len() && (#[trigger] last_dep(
            all_deps(repos, (#[trigger] sol[j]).name@, sol[j].version),
            dn,
        )) is Some ==> sol_satisfies(
            sol,
            last_dep(all_deps(repos, sol[j].name@, sol[j].version), dn).unwrap(),
        )
}

/// Whether all solution names differ.
fn names_distinct(sol: &Vec<Package>) -> (r: bool)
    ensures
        r ==> forall|i: int, j: int|
            0 <= i < j < sol@.len() ==> (#[trigger] sol@[i]).name@ != (#[trigger] sol@[j]).name@,
        !r ==> exists|i: int, j: int|
            0 <= i < j < sol@.len() && (#[trigger] sol@[i]).name@ == (#[trigger] sol@[j]).name@,
{
    let n = sol.len();
    let mut i: usize = 0;
    while i < n
        invariant
            i <= n == sol@.len(),
            forall|a: int, b: int|
                0 <= a < b < sol@.len() && a < i ==> (#[trigger] sol@[a]).name@ != (
                #[trigger] sol@[b]).name@,
        decreases n - i,
    {
        let mut j: usize = i + 1;
        while j < n
            invariant
                i < j <= n == sol@.len(),
                forall|b: int| i < b < j ==> (#[trigger] sol@[b]).name@ != sol@[i as int].name@,
            decreases n - j,
        {
            if sol[i].name == sol[j].name {
                proof {
                    assert(sol@[i as int].name@ == sol@[j as int].name@);
                }
                return false;
            }
            j = j + 1;
        }
        i = i + 1;
    }
    true
}

/// The position of the named package in the solution.
fn sol_find(sol: &Vec<Package>, name: &PackageName) -> (r: Option<usize>)
    ensures
        r matches Some(j) ==> j < sol@.len() && sol@[j as int].name@ == name@,
        r is None ==> forall|j: int| 0 <= j < sol@.len() ==> (#[trigger] sol@[j]).name@ != name@,
{
    let n = sol.len();
    let mut j: usize = 0;
    while j < n
        invariant
            j <= n == sol@.len(),
            forall|a: int| 0 <= a < j ==> (#[trigger] sol@[a]).name@ != name@,
        decreases n - j,
    {
        if sol[j].name == *name {
            return Some(j);
        }
        j = j + 1;
    }
    None
}

/// Whether the solution pins the declared package at an admissible version;
/// exact once no name occurs twice.
fn check_dep_against(sol: &Vec<Package>, d: &Dep) -> (r: bool)
    requires
        crate::requirement::requirement_wf(d.req),
        forall|i: int, j: int|
            0 <= i < j < sol@.len() ==> (#[trigger] sol@[i]).name@ != (#[trigger] sol@[j]).name@,
    ensures
        r == sol_satisfies(sol@, *d),
{
    match sol_find(sol, &d.name) {
        None => {
            proof {
                if sol_satisfies(sol@, *d) {
                    let j = choose|j: int|
                        0 <= j < sol@.len() && (#[trigger] sol@[j]).name@ == d.name@ && req_sem(
                            d.req,
                            key_of(sol@[j].version),
                        );
                }
            }
            false
        },
        Some(j) => {
            let set = requirement_to_set(&d.req);
            let ok = set.contains(&sol[j].version);
            proof {
                if ok {
                    assert(sol@[j as int].name@ == d.name@ && req_sem(
                        d.req,
                        key_of(sol@[j as int].version),
                    ));
                } else {
                    if sol_satisfies(sol@, *d) {
                        let j2 = choose|j2: int|
                            0 <= j2 < sol@.len() && (#[trigger] sol@[j2]).name@ == d.name@
                                && req_sem(d.req, key_of(sol@[j2].version));
                        if j2 != j as int {
                            if j2 < j as int {
                                assert(sol@[j2].name@ != sol@[j as int].name@);
                            } else {
                                assert(sol@[j as int].name@ != sol@[j2].name@);
                            }
                        }
                    }
                }
            }
            ok
        },
    }
}

/// Whether the repositories offer this exact pinned version, origin marks
/// included.
fn check_offered(repo: &Repository, p: &Package) -> (r: bool)
    ensures
        r == offered(repo.repos@, p.name@, key_of(p.version)),
{
    let ghost k = key_of(p.version);
    let n = repo.repos.len();
    let mut ri: usize = 0;
    while ri < n
        invariant
            ri <= n == repo.repos@.len(),
            k == key_of(p.version),
            forall|ri2: int, vi2: int|
                0 <= ri2 < ri ==> !crate::repository::offered_at(
                    repo.repos@,
                    p.name@,
                    k,
                    ri2,
                    vi2,
                ),
        decreases n - ri,
    {
        match crate::repository::entry_index(&repo.repos[ri].packages, &p.name) {
            None => {
                proof {
                    assert forall|vi2: int|
                        !crate::repository::offered_at(
                            repo.repos@,
                            p.name@,
                            k,
                            ri as int,
                            vi2,
                        ) by {
                        assert(crate::repository::find_entry(
                            repo.repos@[ri as int].packages@,
                            p.name@,
                        ) is None);
                    }
                }
            },
            Some(ei) => {
                let entry = &repo.repos[ri].packages[ei];
                let m = entry.releases.len();
                let mut vi: usize = 0;
                while vi < m
                    invariant
                        vi <= m == entry.releases@.len(),
                        ri < n == repo.repos@.len(),
                        crate::repository::find_entry(repo.repos@[ri as int].packages@, p.name@)
                            == Some(*entry),
                        k == key_of(p.version),
                        forall|vi2: int|
                            0 <= vi2 < vi ==> !crate::repository::offered_at(
                                repo.repos@,
                                p.name@,
                                k,
                                ri as int,
                                vi2,
                            ),
                    decreases m - vi,
                {
                    let rel = &entry.releases[vi];
                    let matched = crate::repository::sem_eq_exec(&rel.version, &p.version);
                    let sid_ok = ri < usize::MAX && p.version.source_id == ((ri + 1) as u64);
                    let disc_ok = p.version.source_discriminator == (vi as u64);
                    if matched && sid_ok && disc_ok {
                        proof {
                            assert(key_of(p.version) =~~= crate::repository::tag(
                                key_of(entry.releases@[vi as int].version),
                                ri + 1 as int,
                                vi as int,
                            ));
                            assert(crate::repository::offered_at(
                                repo.repos@,
                                p.name@,
                                key_of(p.version),
                                ri as int,
                                vi as int,
                            ));
                        }
                        return true;
                    }
                    proof {
                        assert(!crate::repository::offered_at(
                            repo.repos@,
                            p.name@,
                            k,
                            ri as int,
                            vi as int,
                        )) by {
                            if k == crate::repository::tag(
                                key_of(entry.releases@[vi as int].version),
                                ri + 1 as int,
                                vi as int,
                            ) {
                                assert(crate::repository::sem_eq(
                                    entry.releases@[vi as int].version,
                                    p.version,
                                ));
                                assert(p.version.source_id as int == ri + 1 as int);
                                assert(p.version.source_discriminator as int == vi as int);
                            }
                        }
                    }
                    vi = vi + 1;
                }
                proof {
                    assert forall|vi2: int|
                        !crate::repository::offered_at(
                            repo.repos@,
                            p.name@,
                            k,
                            ri as int,
                            vi2,
                        ) by {
                        if 0 <= vi2 < m {
                        }
                    }
                }
            },
        }
        ri = ri + 1;
    }
    proof {
        if offered(repo.repos@, p.name@, k) {
            let (ri2, vi2) = choose|ri2: int, vi2: int|
                crate::repository::offered_at(repo.repos@, p.name@, k, ri2, vi2);
        }
    }
    false
}

/// Verifies a proposed solution in full against the repositories and the
/// request: distinct names, requested packages pinned admissibly, every pin
/// offered, and every declared dependency of a pin satisfied.
pub fn check_solution(repo: &Repository, reqs: &Vec<Dep>, sol: &Vec<Package>) -> (r: bool)
    requires
        repos_wf(repo.repos@),
        deps_wf(reqs@),
    ensures
        r == valid_solution(repo.repos@, reqs@, sol@),
        reqs@.len() == 0 && sol@.len() == 0 ==> r,
{
    if !names_distinct(sol) {
        proof {
            if valid_solution(repo.repos@, reqs@, sol@) {
                let (a, b) = choose|a: int, b: int|
                    0 <= a < b < sol@.len() && (#[trigger] sol@[a]).name@ == (
                    #[trigger] sol@[b]).name@;
            }
        }
        return false;
    }
    let n = reqs.len();
    let mut i: usize = 0;
    while i < n
        invariant
            i <= n == reqs@.len(),
            deps_wf(reqs@),
            forall|a: int, b: int|
                0 <= a < b < sol@.len() ==> (#[trigger] sol@[a]).name@ != (
                #[trigger] sol@[b]).name@,
            forall|a: int| 0 <= a < i ==> sol_satisfies(sol@, #[trigger] reqs@[a]),
        decreases n - i,
    {
        if !check_dep_against(sol, &reqs[i]) {
            proof {
                if valid_solution(repo.repos@, reqs@, sol@) {
                    assert(sol_satisfies(sol@, reqs@[i as int]));
                }
            }
            return false;
        }
        i = i + 1;
    }
    let m = sol.len();
    let mut j: usize = 0;
    while j < m
        invariant
            j <= m == sol@.len(),
            repos_wf(repo.repos@),
            forall|a: int, b: int|
                0 <= a < b < sol@.len() ==> (#[trigger] sol@[a]).name@ != (
                #[trigger] sol@[b]).name@,
            forall|a: int|
                0 <= a < j ==> offered(
                    repo.repos@,
                    (#[trigger] sol@[a]).name@,
                    key_of(sol@[a].version),
                ),
            forall|a: int, dn: Seq<char>|
                0 <= a < j && (#[trigger] last_dep(
                    all_deps(repo.repos@, (#[trigger] sol@[a]).name@, sol@[a].version),
                    dn,
                )) is Some ==> sol_satisfies(
                    sol@,
                    last_dep(all_deps(repo.repos@, sol@[a].name@, sol@[a].version), dn).unwrap(),
                ),
        decreases m - j,
    {
        if !check_offered(repo, &sol[j]) {
            proof {
                if valid_solution(repo.repos@, reqs@, sol@) {
                    assert(offered(repo.repos@, sol@[j as int].name@, key_of(
                        sol@[j as int].version,
                    )));
                }
            }
            return false;
        }
        let ds = repo.dependencies(&sol[j].name, &sol[j].version);
        let dn = ds.len();
        let mut di: usize = 0;
        while di < dn
            invariant
                di <= dn == ds@.len(),
                j < m == sol@.len(),
                deps_wf(ds@),
                deps_reflect(repo.repos@, sol@[j as int].name@, sol@[j as int].version, ds@),
                forall|a: int, b: int|
                    0 <= a < b < sol@.len() ==> (#[trigger] sol@[a]).name@ != (
                    #[trigger] sol@[b]).name@,
                forall|a: int| 0 <= a < di ==> sol_satisfies(sol@, #[trigger] ds@[a]),
            decreases dn - di,
        {
            if !check_dep_against(sol, &ds[di]) {
                proof {
                    let all = all_deps(repo.repos@, sol@[j as int].name@, sol@[j as int].version);
                    let dnm = ds@[di as int].name@;
                    assert(last_dep(all, dnm) is Some);
                    crate::repository::lemma_last_dep_name(all, dnm);
                    let w = last_dep(all, dnm).unwrap();
                    if valid_solution(repo.repos@, reqs@, sol@) {
                        assert(sol_satisfies(sol@, w));
                        let j2 = choose|j2: int|
                            0 <= j2 < sol@.len() && (#[trigger] sol@[j2]).name@ == w.name@
                                && req_sem(w.req, key_of(sol@[j2].version));
                        assert(req_sem(ds@[di as int].req, key_of(sol@[j2].version)) == req_sem(
                            w.req,
                            key_of(sol@[j2].version),
                        ));
                        assert(sol_satisfies(sol@, ds@[di as int]));
                    }
                }
                return false;
            }
            di = di + 1;
        }
        proof {
            assert forall|dnm: Seq<char>|
                (#[trigger] last_dep(
                    all_deps(repo.repos@, sol@[j as int].name@, sol@[j as int].version),
                    dnm,
                )) is Some implies sol_satisfies(
                sol@,
                last_dep(
                    all_deps(repo.repos@, sol@[j as int].name@, sol@[j as int].version),
                    dnm,
                ).unwrap(),
            ) by {
                let all = all_deps(repo.repos@, sol@[j as int].name@, sol@[j as int].version);
                let w = last_dep(all, dnm).unwrap();
                crate::repository::lemma_last_dep_name(all, dnm);
                assert(deps_reflect(
                    repo.repos@,
                    sol@[j as int].name@,
                    sol@[j as int].version,
                    ds@,
                ));
                assert(exists|a: int| 0 <= a < ds@.len() && (#[trigger] ds@[a]).name@ == dnm);
                let a = choose|a: int| 0 <= a < ds@.len() && (#[trigger] ds@[a]).name@ == dnm;
                assert(last_dep(all, ds@[a].name@) is Some);
                assert(forall|k: VerKey|
                    req_sem(last_dep(all, ds@[a].name@).unwrap().req, k) == req_sem(
                        ds@[a].req,
                        k,
                    ));
                assert(sol_satisfies(sol@, ds@[a]));
                let sj = choose|sj: int|
                    0 <= sj < sol@.len() && (#[trigger] sol@[sj]).name@ == ds@[a].name@ && req_sem(
                        ds@[a].req,
                        key_of(sol@[sj].version),
                    );
                assert(req_sem(w.req, key_of(sol@[sj].version)) == req_sem(
                    ds@[a].req,
                    key_of(sol@[sj].version),
                ));
                assert(sol@[sj].name@ == w.name@ && req_sem(w.req, key_of(sol@[sj].version)));
            }
        }
        j = j + 1;
    }
    true
}

} // verus!

verus! {

/// The declarations a candidate carries, or nothing where they are unknown.
pub open spec fn deps_of(c: Candidate) -> Seq<Dep> {
    match c.deps {
        Dependencies::Known(ds) => ds@,
        Dependencies::Unknown => Seq::empty(),
    }
}

/// Every window the request and the assigned candidates' declarations
/// impose on one package name holds of `k`.
#[verifier::opaque]
pub open spec fn imposed(
    reqs: Seq<Dep>,
    asg: Seq<(PackageName, Candidate)>,
    n: Seq<char>,
    k: VerKey,
) -> bool {
    &&& (forall|i: int|
        0 <= i < reqs.len() && (#[trigger] reqs[i]).name@ == n ==> req_sem(reqs[i].req, k))
    &&& (forall|a: int, d: int|
        #![trigger deps_of(asg[a].1)[d]]
        0 <= a < asg.len() && 0 <= d < deps_of(asg[a].1).len() && deps_of(asg[a].1)[d].name@ == n
            ==> req_sem(deps_of(asg[a].1)[d].req, k))
}

/// The name is constrained: a request or an assigned declaration names it.
#[verifier::opaque]
pub open spec fn constrains(
    reqs: Seq<Dep>,
    asg: Seq<(PackageName, Candidate)>,
    n: Seq<char>,
) -> bool {
    ||| exists|i: int| 0 <= i < reqs.len() && (#[trigger] reqs[i]).name@ == n
    ||| exists|a: int, d: int|
        #![trigger deps_of(asg[a].1)[d]]
        0 <= a < asg.len() && 0 <= d < deps_of(asg[a].1).len() && deps_of(asg[a].1)[d].name@ == n
}

/// The solution pins every package of the partial assignment at the
/// assigned candidate's key.
pub open spec fn consistent(sol: Seq<Package>, asg: Seq<(PackageName, Candidate)>) -> bool {
    forall|a: int|
        0 <= a < asg.len() ==> exists|j: int|
            0 <= j < sol.len() && (#[trigger] sol[j]).name@ == (#[trigger] asg[a]).0@ && key_of(
                sol[j].version,
            ) == asg[a].1.key()
}

/// No valid solution is consistent with the assignment.
#[verifier::opaque]
pub open spec fn refuted(
    repos: Seq<RepoData>,
    reqs: Seq<Dep>,
    asg: Seq<(PackageName, Candidate)>,
) -> bool {
    forall|sol: Seq<Package>| !(valid_solution(repos, reqs, sol) && consistent(sol, asg))
}

/// No valid solution consistent with the assignment pins `n` at `k`.
#[verifier::opaque]
pub open spec fn refuted_at(
    repos: Seq<RepoData>,
    reqs: Seq<Dep>,
    asg: Seq<(PackageName, Candidate)>,
    n: Seq<char>,
    k: VerKey,
) -> bool {
    forall|sol: Seq<Package>|
        !(valid_solution(repos, reqs, sol) && consistent(sol, asg) && (exists|j: int|
            0 <= j < sol.len() && (#[trigger] sol[j]).name@ == n && key_of(sol[j].version) == k))
}

/// Equal version models coincide up to origin marks.
proof fn lemma_key_eq_sem(a: Version, b: Version)
    requires
        key_of(a) == key_of(b),
    ensures
        crate::repository::sem_eq(a, b),
{
}

/// Refuting every extension by one pin refutes that pin outright.
proof fn lemma_refuted_push(
    repos: Seq<RepoData>,
    reqs: Seq<Dep>,
    asg: Seq<(PackageName, Candidate)>,
    entry: (PackageName, Candidate),
    n: Seq<char>,
    k: VerKey,
)
    requires
        refuted(repos, reqs, asg.push(entry)),
        entry.0@ == n,
        entry.1.key() == k,
    ensures
        refuted_at(repos, reqs, asg, n, k),
{
    reveal(refuted);
    reveal(refuted_at);
    assert forall|sol: Seq<Package>|
        !(valid_solution(repos, reqs, sol) && consistent(sol, asg) && (exists|j: int|
            0 <= j < sol.len() && (#[trigger] sol[j]).name@ == n && key_of(sol[j].version)
                == k)) by {
        if valid_solution(repos, reqs, sol) && consistent(sol, asg) && (exists|j: int|
            0 <= j < sol.len() && (#[trigger] sol[j]).name@ == n && key_of(sol[j].version) == k) {
            let pushed = asg.push(entry);
            assert(consistent(sol, pushed)) by {
                assert forall|a: int|
                    0 <= a < pushed.len() implies exists|j: int|
                    0 <= j < sol.len() && (#[trigger] sol[j]).name@ == (#[trigger] pushed[a]).0@
                        && key_of(sol[j].version) == pushed[a].1.key() by {
                    if a < asg.len() {
                        assert(pushed[a] == asg[a]);
                        assert(exists|j: int|
                            0 <= j < sol.len() && (#[trigger] sol[j]).name@ == asg[a].0@ && key_of(
                                sol[j].version,
                            ) == asg[a].1.key());
                    } else {
                        assert(pushed[a] == entry);
                    }
                }
            }
        }
    }
}

/// Requests that agree name by name and meaning by meaning validate the
/// same solutions.
proof fn lemma_valid_transfer(
    repos: Seq<RepoData>,
    reqs1: Seq<Dep>,
    reqs2: Seq<Dep>,
    sol: Seq<Package>,
)
    requires
        reqs1.len() == reqs2.len(),
        forall|i: int|
            0 <= i < reqs1.len() ==> (#[trigger] reqs1[i]).name@ == reqs2[i].name@ && (forall|
                k: VerKey,
            | req_sem(reqs1[i].req, k) == req_sem(reqs2[i].req, k)),
        valid_solution(repos, reqs1, sol),
    ensures
        valid_solution(repos, reqs2, sol),
{
    assert forall|i: int| 0 <= i < reqs2.len() implies sol_satisfies(sol, #[trigger] reqs2[i]) by {
        assert(sol_satisfies(sol, reqs1[i]));
        let j = choose|j: int|
            0 <= j < sol.len() && (#[trigger] sol[j]).name@ == reqs1[i].name@ && req_sem(
                reqs1[i].req,
                key_of(sol[j].version),
            );
        assert(sol[j].name@ == reqs2[i].name@ && req_sem(reqs2[i].req, key_of(sol[j].version)));
    }
}

/// A valid solution pins two entries of one name at one index.
proof fn lemma_pin_unique(sol: Seq<Package>, j1: int, j2: int)
    requires
        forall|i: int, j: int|
            0 <= i < j < sol.len() ==> (#[trigger] sol[i]).name@ != (#[trigger] sol[j]).name@,
        0 <= j1 < sol.len(),
        0 <= j2 < sol.len(),
        sol[j1].name@ == sol[j2].name@,
    ensures
        j1 == j2,
{
    if j1 < j2 {
        assert(sol[j1].name@ != sol[j2].name@);
    }
    if j2 < j1 {
        assert(sol[j2].name@ != sol[j1].name@);
    }
}

/// In a valid solution consistent with the assignment, every package a
/// request or an assigned declaration constrains is pinned, and its pin
/// lies inside every imposed window.
proof fn lemma_solution_pin(
    repos: Seq<RepoData>,
    reqs: Seq<Dep>,
    asg: Seq<(PackageName, Candidate)>,
    sol: Seq<Package>,
    n: Seq<char>,
)
    requires
        valid_solution(repos, reqs, sol),
        consistent(sol, asg),
        assignment_wf(repos, asg),
        constrains(reqs, asg, n),
    ensures
        exists|j: int|
            0 <= j < sol.len() && (#[trigger] sol[j]).name@ == n && imposed(
                reqs,
                asg,
                n,
                key_of(sol[j].version),
            ),
{
    reveal(constrains);
    reveal(imposed);
    // one declaration forces a pin of n
    let pin = choose|j: int| 0 <= j < sol.len() && (#[trigger] sol[j]).name@ == n;
    assert(exists|j: int| 0 <= j < sol.len() && (#[trigger] sol[j]).name@ == n) by {
        if exists|i: int| 0 <= i < reqs.len() && (#[trigger] reqs[i]).name@ == n {
            let i = choose|i: int| 0 <= i < reqs.len() && (#[trigger] reqs[i]).name@ == n;
            assert(sol_satisfies(sol, reqs[i]));
        } else {
            let (a, d) = choose|a: int, d: int|
                #![trigger deps_of(asg[a].1)[d]]
                0 <= a < asg.len() && 0 <= d < deps_of(asg[a].1).len() && deps_of(
                    asg[a].1,
                )[d].name@ == n;
            lemma_dep_forces_pin(repos, reqs, asg, sol, a, d);
        }
    }
    // ... and the pin satisfies every imposed window
    assert forall|i: int|
        0 <= i < reqs.len() && (#[trigger] reqs[i]).name@ == n implies req_sem(
        reqs[i].req,
        key_of(sol[pin].version),
    ) by {
        assert(sol_satisfies(sol, reqs[i]));
        let j2 = choose|j2: int|
            0 <= j2 < sol.len() && (#[trigger] sol[j2]).name@ == reqs[i].name@ && req_sem(
                reqs[i].req,
                key_of(sol[j2].version),
            );
        lemma_pin_unique(sol, pin, j2);
    }
    assert forall|a: int, d: int|
        #![trigger deps_of(asg[a].1)[d]]
        0 <= a < asg.len() && 0 <= d < deps_of(asg[a].1).len() && deps_of(asg[a].1)[d].name@
            == n implies req_sem(deps_of(asg[a].1)[d].req, key_of(sol[pin].version)) by {
        let j2 = lemma_dep_forces_pin(repos, reqs, asg, sol, a, d);
        lemma_pin_unique(sol, pin, j2);
    }
}

/// An assigned candidate's declaration forces an admissible pin of the
/// declared package in any valid solution consistent with the assignment.
proof fn lemma_dep_forces_pin(
    repos: Seq<RepoData>,
    reqs: Seq<Dep>,
    asg: Seq<(PackageName, Candidate)>,
    sol: Seq<Package>,
    a: int,
    d: int,
) -> (j: int)
    requires
        valid_solution(repos, reqs, sol),
        consistent(sol, asg),
        assignment_wf(repos, asg),
        0 <= a < asg.len(),
        0 <= d < deps_of(asg[a].1).len(),
    ensures
        0 <= j < sol.len(),
        sol[j].name@ == deps_of(asg[a].1)[d].name@,
        req_sem(deps_of(asg[a].1)[d].req, key_of(sol[j].version)),
{
    let cand = asg[a].1;
    let owner = choose|o: int|
        0 <= o < sol.len() && (#[trigger] sol[o]).name@ == asg[a].0@ && key_of(sol[o].version)
            == cand.key();
    assert(candidate_ok(repos, asg[a].0@, cand));
    let ds = deps_of(cand);
    assert(deps_reflect(repos, asg[a].0@, cand.version, ds));
    let dn = ds[d].name@;
    let all_c = all_deps(repos, asg[a].0@, cand.version);
    assert(last_dep(all_c, dn) is Some);
    // the owner's pinned version carries the same declarations
    lemma_key_eq_sem(cand.version, sol[owner].version);
    crate::repository::lemma_all_deps_sem(repos, asg[a].0@, cand.version, sol[owner].version);
    let all_o = all_deps(repos, sol[owner].name@, sol[owner].version);
    assert(all_o == all_c);
    assert(last_dep(all_o, dn) is Some);
    let w = last_dep(all_o, dn).unwrap();
    crate::repository::lemma_last_dep_name(all_o, dn);
    assert(sol_satisfies(sol, w));
    let j = choose|j: int|
        0 <= j < sol.len() && (#[trigger] sol[j]).name@ == w.name@ && req_sem(
            w.req,
            key_of(sol[j].version),
        );
    assert(req_sem(ds[d].req, key_of(sol[j].version)) == req_sem(w.req, key_of(sol[j].version)));
    j
}

/// Everything the search knows about a package so far: the intersection of
/// the windows imposed on it, and who imposed them.
struct Constraint {
    name: PackageName,
    set: VersionSet,
    requirers: Vec<PackageName>,
}

/// Whether some assignment entry already carries the package.
pub open spec fn assigned(asg: Seq<(PackageName, Candidate)>, n: Seq<char>) -> bool {
    exists|a: int| 0 <= a < asg.len() && (#[trigger] asg[a]).0@ == n
}

/// How many distinct versions the repositories offer for the package inside
/// the admitted window.
pub open spec fn admissible_card(repos: Seq<RepoData>, n: Seq<char>, set: VersionSet) -> nat {
    Set::new(|k: VerKey| offered(repos, n, k) && set.sem(k)).len()
}

/// A list of admitted candidates with distinct keys, each offered and
/// admitted, covering every offered admitted key, measures that key set.
proof fn lemma_admissible_card(
    repos: Seq<RepoData>,
    n: Seq<char>,
    set: VersionSet,
    ms: Seq<Candidate>,
)
    requires
        forall|i: int, j: int|
            0 <= i < j < ms.len() ==> (#[trigger] ms[i]).key() != (#[trigger] ms[j]).key(),
        forall|i: int|
            0 <= i < ms.len() ==> offered(repos, n, (#[trigger] ms[i]).key()) && set.sem(
                ms[i].key(),
            ),
        forall|kk: VerKey|
            offered(repos, n, kk) && #[trigger] set.sem(kk) ==> exists|i: int|
                0 <= i < ms.len() && (#[trigger] ms[i]).key() == kk,
    ensures
        admissible_card(repos, n, set) == ms.len(),
{
    let keys = ms.map(|i: int, c: Candidate| c.key());
    assert(keys.no_duplicates()) by {
        assert forall|i: int, j: int|
            0 <= i < keys.len() && 0 <= j < keys.len() && i != j implies keys[i] != keys[j] by {
            if i < j {
                assert(ms[i].key() != ms[j].key());
            } else {
                assert(ms[j].key() != ms[i].key());
            }
        }
    }
    keys.unique_seq_to_set();
    let adm = Set::new(|k: VerKey| offered(repos, n, k) && set.sem(k));
    assert forall|k: VerKey| adm.contains(k) implies keys.to_set().contains(k) by {
        let i = choose|i: int| 0 <= i < ms.len() && (#[trigger] ms[i]).key() == k;
        assert(keys[i] == k);
        assert(keys.contains(k));
    }
    assert forall|k: VerKey| keys.to_set().contains(k) implies adm.contains(k) by {
        assert(keys.contains(k));
        let i = choose|i: int| 0 <= i < keys.len() && keys[i] == k;
        assert(ms[i].key() == k);
    }
    assert(adm =~= keys.to_set());
}

/// Where a constrained package has had every offered admissible key
/// refuted, no valid solution consistent with the assignment remains.
proof fn lemma_refute_no_candidate(
    repos: Seq<RepoData>,
    reqs: Seq<Dep>,
    asg: Seq<(PackageName, Candidate)>,
    n: Seq<char>,
    set: VersionSet,
)
    requires
        assignment_wf(repos, asg),
        constrains(reqs, asg, n),
        forall|k: VerKey| imposed(reqs, asg, n, k) ==> set.sem(k),
        forall|kk: VerKey|
            offered(repos, n, kk) && #[trigger] set.sem(kk) ==> refuted_at(repos, reqs, asg, n, kk),
    ensures
        refuted(repos, reqs, asg),
{
    reveal(refuted);
    assert forall|sol: Seq<Package>|
        !(valid_solution(repos, reqs, sol) && consistent(sol, asg)) by {
        if valid_solution(repos, reqs, sol) && consistent(sol, asg) {
            lemma_solution_pin(repos, reqs, asg, sol, n);
            let j = choose|j: int|
                0 <= j < sol.len() && (#[trigger] sol[j]).name@ == n && imposed(
                    reqs,
                    asg,
                    n,
                    key_of(sol[j].version),
                );
            let kk = key_of(sol[j].version);
            assert(set.sem(kk));
            assert(offered(repos, n, kk));
            assert(refuted_at(repos, reqs, asg, n, kk));
            reveal(refuted_at);
        }
    }
}

/// What one search step returned.
enum SearchStep {
    Found,
    Conflicts(Vec<Conflict>),
    Exhausted,
}

/// Every assigned candidate really is a candidate of its package.
pub open spec fn assignment_wf(repos: Seq<RepoData>, asg: Seq<(PackageName, Candidate)>) -> bool {
    forall|i: int|
        0 <= i < asg.len() ==> candidate_ok(repos, (#[trigger] asg[i]).0@, asg[i].1)
}

/// A fresh copy of a name list.
fn dup_names(v: &Vec<PackageName>) -> (r: Vec<PackageName>)
    ensures
        r@.len() == v@.len(),
{
    let mut out: Vec<PackageName> = Vec::new();
    let n = v.len();
    let mut i: usize = 0;
    while i < n
        invariant
            i <= n == v@.len(),
            out@.len() == i,
        decreases n - i,
    {
        out.push(v[i].duplicate());
        i = i + 1;
    }
    out
}

/// A fresh copy of a dependency list, sound entry by entry.
fn dup_deps(reqs: &Vec<Dep>) -> (r: Vec<Dep>)
    requires
        deps_wf(reqs@),
    ensures
        r@.len() == reqs@.len(),
        deps_wf(r@),
        forall|i: int|
            0 <= i < reqs@.len() ==> (#[trigger] r@[i]).name@ == reqs@[i].name@ && (forall|
                k: VerKey,
            | req_sem(r@[i].req, k) == req_sem(reqs@[i].req, k)),
{
    let mut out: Vec<Dep> = Vec::new();
    let n = reqs.len();
    let mut i: usize = 0;
    while i < n
        invariant
            i <= n == reqs@.len(),
            deps_wf(reqs@),
            out@.len() == i,
            deps_wf(out@),
            forall|a: int|
                0 <= a < i ==> (#[trigger] out@[a]).name@ == reqs@[a].name@ && (forall|k: VerKey|
                    req_sem(out@[a].req, k) == req_sem(reqs@[a].req, k)),
        decreases n - i,
    {
        out.push(reqs[i].duplicate());
        i = i + 1;
    }
    out
}

/// The dead end at one constraint, for the derivation tree.
fn mk_conflict(c: &Constraint) -> (r: Conflict) {
    Conflict { package: c.name.duplicate(), requirers: dup_names(&c.requirers) }
}

/// The first position bearing a name, or the length when absent.
spec fn con_index(cons: Seq<Constraint>, n: Seq<char>) -> int
    decreases cons.len(),
{
    if cons.len() == 0 {
        0
    } else if cons[0].name@ == n {
        0
    } else {
        1 + con_index(cons.drop_first(), n)
    }
}

/// The first-match index never passes the end, and a hit bears the name.
proof fn lemma_con_index_le(cons: Seq<Constraint>, n: Seq<char>)
    ensures
        0 <= con_index(cons, n) <= cons.len(),
        con_index(cons, n) < cons.len() ==> cons[con_index(cons, n)].name@ == n,
    decreases cons.len(),
{
    if cons.len() > 0 && cons[0].name@ != n {
        lemma_con_index_le(cons.drop_first(), n);
        if con_index(cons, n) < cons.len() {
            assert(cons.drop_first()[con_index(cons.drop_first(), n)] == cons[con_index(cons, n)]);
        }
    }
}

/// A first match pins the index.
proof fn lemma_con_index(cons: Seq<Constraint>, n: Seq<char>, i: int)
    requires
        0 <= i <= cons.len(),
        forall|j: int| 0 <= j < i ==> (#[trigger] cons[j]).name@ != n,
        i < cons.len() ==> cons[i].name@ == n,
    ensures
        con_index(cons, n) == i,
    decreases cons.len(),
{
    if cons.len() > 0 && cons[0].name@ != n {
        assert(forall|j: int|
            0 <= j < i - 1 ==> #[trigger] cons.drop_first()[j] == cons[j + 1]);
        if i < cons.len() {
            assert(cons.drop_first()[i - 1] == cons[i]);
        }
        lemma_con_index(cons.drop_first(), n, i - 1);
    }
}

/// The position of the first constraint under a name.
fn cons_find(cons: &Vec<Constraint>, name: &PackageName) -> (r: Option<usize>)
    ensures
        r matches Some(i) ==> i < cons@.len() && cons@[i as int].name@ == name@ && i as int
            == con_index(cons@, name@),
        r is None ==> (forall|j: int|
            0 <= j < cons@.len() ==> (#[trigger] cons@[j]).name@ != name@) && con_index(
            cons@,
            name@,
        ) == cons@.len(),
{
    let n = cons.len();
    let mut i: usize = 0;
    while i < n
        invariant
            i <= n == cons@.len(),
            forall|j: int| 0 <= j < i ==> (#[trigger] cons@[j]).name@ != name@,
        decreases n - i,
    {
        if cons[i].name == *name {
            proof {
                lemma_con_index(cons@, name@, i as int);
            }
            return Some(i);
        }
        i = i + 1;
    }
    proof {
        lemma_con_index(cons@, name@, n as int);
    }
    None
}

/// The position of a name among the assignments.
fn asg_find(asg: &Vec<(PackageName, Candidate)>, name: &PackageName) -> (r: Option<usize>)
    ensures
        r matches Some(i) ==> i < asg@.len() && asg@[i as int].0@ == name@,
        r is None ==> (forall|a: int| 0 <= a < asg@.len() ==> (#[trigger] asg@[a]).0@ != name@),
{
    let n = asg.len();
    let mut i: usize = 0;
    while i < n
        invariant
            i <= n == asg@.len(),
            forall|a: int| 0 <= a < i ==> (#[trigger] asg@[a]).0@ != name@,
        decreases n - i,
    {
        if asg[i].0 == *name {
            return Some(i);
        }
        i = i + 1;
    }
    None
}

/// Narrows (or introduces) the constraint on one package: an already
/// constrained package keeps its slot and its window is intersected with
/// the new one; a fresh package is appended with the new window.
fn upsert_constraint(
    cons: &mut Vec<Constraint>,
    name: &PackageName,
    set: VersionSet,
    requirer: Option<&PackageName>,
)
    ensures
        con_index(old(cons)@, name@) < old(cons)@.len() ==> (final (cons)@.len() == old(
            cons,
        )@.len() && final (cons)@[con_index(old(cons)@, name@)].name@ == name@ && (forall|
            k: VerKey,
        |
            #![trigger final (cons)@[con_index(old(cons)@, name@)].set.normal_sem(k)]
            final (cons)@[con_index(old(cons)@, name@)].set.normal_sem(k) == (old(cons)@[con_index(
                old(cons)@,
                name@,
            )].set.normal_sem(k) && set.normal_sem(k))) && (forall|k: VerKey|
            #![trigger final (cons)@[con_index(old(cons)@, name@)].set.pre_sem(k)]
            final (cons)@[con_index(old(cons)@, name@)].set.pre_sem(k) == (old(cons)@[con_index(
                old(cons)@,
                name@,
            )].set.pre_sem(k) && set.pre_sem(k))) && (forall|q: int|
            0 <= q < old(cons)@.len() && q != con_index(old(cons)@, name@)
                ==> #[trigger] final (cons)@[q] == old(cons)@[q])),
        con_index(old(cons)@, name@) == old(cons)@.len() ==> (final (cons)@.len() == old(
            cons,
        )@.len() + 1 && final (cons)@.last().name@ == name@ && final (cons)@.last().set == set
            && (forall|q: int|
            0 <= q < old(cons)@.len() ==> #[trigger] final (cons)@[q] == old(cons)@[q])),
{
    let found = cons_find(cons, name);
    match found {
        Some(i) => {
            let narrowed = cons[i].set.intersection(&set);
            let mut requirers = dup_names(&cons[i].requirers);
            if let Some(rq) = requirer {
                requirers.push(rq.duplicate());
            }
            let entry = Constraint { name: cons[i].name.duplicate(), set: narrowed, requirers };
            let ghost old_cons = cons@;
            let ghost gi = i as int;
            cons.set(i, entry);
            proof {
                assert(forall|q: int|
                    0 <= q < cons@.len() && q != gi ==> #[trigger] cons@[q] == old_cons[q]);
                assert(cons@[gi].name@ == name@);
            }
        },
        None => {
            let mut requirers: Vec<PackageName> = Vec::new();
            if let Some(rq) = requirer {
                requirers.push(rq.duplicate());
            }
            let ghost old_cons = cons@;
            cons.push(Constraint { name: name.duplicate(), set, requirers });
            proof {
                assert(forall|q: int|
                    0 <= q < old_cons.len() ==> #[trigger] cons@[q] == old_cons[q]);
            }
        },
    }
}

/// Lays one window over the constraints: the named entry is narrowed or
/// created, and every entry keeps reflecting the windows imposed on it.
fn impose_window(
    cons: &mut Vec<Constraint>,
    name: &PackageName,
    set: VersionSet,
    requirer: Option<&PackageName>,
    Ghost(reqs): Ghost<Seq<Dep>>,
    Ghost(asg): Ghost<Seq<(PackageName, Candidate)>>,
) 
    requires
        forall|k: VerKey| imposed(reqs, asg, name@, k) ==> set.sem(k),
        constrains(reqs, asg, name@),
        forall|ci: int, k: VerKey|
            0 <= ci < old(cons)@.len() && imposed(reqs, asg, (#[trigger] old(cons)@[ci]).name@, k)
                ==> #[trigger] old(cons)@[ci].set.sem(k),
        forall|ci: int|
            0 <= ci < old(cons)@.len() ==> constrains(reqs, asg, (#[trigger] old(cons)@[ci]).name@),
    ensures
        forall|ci: int, k: VerKey|
            0 <= ci < final (cons)@.len() && imposed(
                reqs,
                asg,
                (#[trigger] final (cons)@[ci]).name@,
                k,
            ) ==> #[trigger] final (cons)@[ci].set.sem(k),
        forall|ci: int|
            0 <= ci < final (cons)@.len() ==> constrains(
                reqs,
                asg,
                (#[trigger] final (cons)@[ci]).name@,
            ),
        old(cons)@.len() > 0 ==> final (cons)@.len() > 0,
        final (cons)@.len() >= old(cons)@.len(),
{
    let ghost old_cons = cons@;
    let ghost gset = set;
    upsert_constraint(cons, name, set, requirer);
    proof {
        lemma_con_index_le(old_cons, name@);
        let ci0 = con_index(old_cons, name@);
        assert forall|ci: int, k: VerKey|
            0 <= ci < cons@.len() && imposed(reqs, asg, (#[trigger] cons@[ci]).name@, k)
                implies #[trigger] cons@[ci].set.sem(k) by {
            if ci0 < old_cons.len() {
                if ci == ci0 {
                    assert(cons@[ci0].name@ == name@);
                    if imposed(reqs, asg, name@, k) {
                        assert(gset.sem(k));
                        assert(old_cons[ci0].name@ == name@);
                        assert(old_cons[ci0].set.sem(k));
                        assert(forall|kk: VerKey|
                            cons@[con_index(old_cons, name@)].set.normal_sem(kk) == (old_cons[
                                con_index(old_cons, name@)
                            ].set.normal_sem(kk) && gset.normal_sem(kk)));
                        assert(forall|kk: VerKey|
                            cons@[con_index(old_cons, name@)].set.pre_sem(kk) == (old_cons[
                                con_index(old_cons, name@)
                            ].set.pre_sem(kk) && gset.pre_sem(kk)));
                        lemma_sem_and(old_cons[ci0].set, gset, cons@[ci0].set, k);
                    }
                } else {
                    assert(cons@[ci] == old_cons[ci]);
                    if imposed(reqs, asg, old_cons[ci].name@, k) {
                        assert(old_cons[ci].set.sem(k));
                    }
                }
            } else {
                if ci < old_cons.len() {
                    assert(cons@[ci] == old_cons[ci]);
                    if imposed(reqs, asg, old_cons[ci].name@, k) {
                        assert(old_cons[ci].set.sem(k));
                    }
                } else {
                    assert(cons@[ci] == cons@.last());
                    assert(cons@[ci].name@ == name@ && cons@[ci].set == gset);
                    if imposed(reqs, asg, name@, k) {
                        assert(gset.sem(k));
                    }
                }
            }
        }
        assert forall|ci: int|
            0 <= ci < cons@.len() implies constrains(
            reqs,
            asg,
            (#[trigger] cons@[ci]).name@,
        ) by {
            if ci0 < old_cons.len() {
                if ci != ci0 {
                    assert(cons@[ci] == old_cons[ci]);
                } else {
                    assert(cons@[ci].name@ == name@);
                }
            } else {
                if ci < old_cons.len() {
                    assert(cons@[ci] == old_cons[ci]);
                } else {
                    assert(cons@[ci].name@ == name@);
                }
            }
        }
    }
}

/// A version-set intersection admits a model exactly when both sides do.
proof fn lemma_sem_and(a: VersionSet, b: VersionSet, r: VersionSet, k: VerKey)
    requires
        forall|kk: VerKey| r.normal_sem(kk) == (a.normal_sem(kk) && b.normal_sem(kk)),
        forall|kk: VerKey| r.pre_sem(kk) == (a.pre_sem(kk) && b.pre_sem(kk)),
    ensures
        r.sem(k) == (a.sem(k) && b.sem(k)),
{
    assert(r.normal_sem(k) == (a.normal_sem(k) && b.normal_sem(k)));
    assert(r.pre_sem(k) == (a.pre_sem(k) && b.pre_sem(k)));
}

/// The constraints the request and the assignments made so far impose, in
/// first-imposed order: every window the sources impose on an entry's name
/// is reflected in the entry's set, and every entry's name is constrained.
#[verifier::rlimit(100)]
fn build_constraints(
    reqs: &Vec<Dep>,
    asg: &Vec<(PackageName, Candidate)>,
    repo: &Repository,
) -> (r: Vec<Constraint>)
    requires
        repos_wf(repo.repos@),
        deps_wf(reqs@),
        assignment_wf(repo.repos@, asg@),
    ensures
        reqs@.len() == 0 && asg@.len() == 0 ==> r@.len() == 0,
        forall|ci: int, k: VerKey|
            0 <= ci < r@.len() && imposed(reqs@, asg@, (#[trigger] r@[ci]).name@, k)
                ==> #[trigger] r@[ci].set.sem(k),
        forall|ci: int| 0 <= ci < r@.len() ==> constrains(reqs@, asg@, (#[trigger] r@[ci]).name@),
{
    let mut cons: Vec<Constraint> = Vec::new();
    let n = reqs.len();
    let mut i: usize = 0;
    while i < n
        invariant
            i <= n == reqs@.len(),
            deps_wf(reqs@),
            reqs@.len() == 0 ==> cons@.len() == 0,
            forall|ci: int, k: VerKey|
                0 <= ci < cons@.len() && imposed(reqs@, asg@, (#[trigger] cons@[ci]).name@, k)
                    ==> #[trigger] cons@[ci].set.sem(k),
            forall|ci: int|
                0 <= ci < cons@.len() ==> constrains(reqs@, asg@, (#[trigger] cons@[ci]).name@),
        decreases n - i,
    {
        let set = requirement_to_set(&reqs[i].req);
        proof {
            assert forall|k: VerKey|
                imposed(reqs@, asg@, reqs@[i as int].name@, k) implies set.sem(k) by {
                reveal(imposed);
                assert(req_sem(reqs@[i as int].req, k));
            }
            assert(constrains(reqs@, asg@, reqs@[i as int].name@)) by {
                reveal(constrains);
            }
        }
        impose_window(&mut cons, &reqs[i].name, set, None, Ghost(reqs@), Ghost(asg@));
        i = i + 1;
    }
    let m = asg.len();
    let mut a: usize = 0;
    while a < m
        invariant
            a <= m == asg@.len(),
            repos_wf(repo.repos@),
            deps_wf(reqs@),
            assignment_wf(repo.repos@, asg@),
            reqs@.len() == 0 && asg@.len() == 0 ==> cons@.len() == 0,
            forall|ci: int, k: VerKey|
                0 <= ci < cons@.len() && imposed(reqs@, asg@, (#[trigger] cons@[ci]).name@, k)
                    ==> #[trigger] cons@[ci].set.sem(k),
            forall|ci: int|
                0 <= ci < cons@.len() ==> constrains(reqs@, asg@, (#[trigger] cons@[ci]).name@),
        decreases m - a,
    {
        match &asg[a].1.deps {
            Dependencies::Unknown => {},
            Dependencies::Known(ds) => {
                proof {
                    assert(candidate_ok(repo.repos@, asg@[a as int].0@, asg@[a as int].1));
                    assert(deps_of(asg@[a as int].1) == ds@);
                }
                let dn = ds.len();
                let mut di: usize = 0;
                while di < dn
                    invariant
                        di <= dn == ds@.len(),
                        deps_wf(ds@),
                        a < asg@.len(),
                        deps_of(asg@[a as int].1) == ds@,
                        forall|ci: int, k: VerKey|
                            0 <= ci < cons@.len() && imposed(
                                reqs@,
                                asg@,
                                (#[trigger] cons@[ci]).name@,
                                k,
                            ) ==> #[trigger] cons@[ci].set.sem(k),
                        forall|ci: int|
                            0 <= ci < cons@.len() ==> constrains(
                                reqs@,
                                asg@,
                                (#[trigger] cons@[ci]).name@,
                            ),
                    decreases dn - di,
                {
                    let set = requirement_to_set(&ds[di].req);
                    proof {
                        assert forall|k: VerKey|
                            imposed(reqs@, asg@, ds@[di as int].name@, k) implies set.sem(k) by {
                            reveal(imposed);
                            assert(deps_of(asg@[a as int].1)[di as int].name@
                                == ds@[di as int].name@);
                            assert(req_sem(deps_of(asg@[a as int].1)[di as int].req, k));
                        }
                        assert(constrains(reqs@, asg@, ds@[di as int].name@)) by {
                            reveal(constrains);
                            assert(deps_of(asg@[a as int].1)[di as int].name@
                                == ds@[di as int].name@);
                        }
                    }
                    impose_window(&mut cons, &ds[di].name, set, Some(&asg[a].0), Ghost(reqs@), Ghost(asg@));
                    di = di + 1;
                }
            },
        }
        a = a + 1;
    }
    cons
}

/// Keeps the candidates the constraint admits, in the order given: every
/// kept candidate is admitted, and every admitted candidate's key is kept.
fn filter_matching(cands: Vec<Candidate>, set: &VersionSet, repo: &Repository, pkg: &PackageName) -> (r:
    Vec<Candidate>)
    requires
        forall|i: int| 0 <= i < cands@.len() ==> candidate_ok(repo.repos@, pkg@, #[trigger] cands@[i]),
        forall|i: int, j: int|
            0 <= i < j < cands@.len() ==> (#[trigger] cands@[i]).key() != (
            #[trigger] cands@[j]).key(),
        forall|i: int, j: int|
            0 <= i < j < cands@.len() ==> key_le(
                (#[trigger] cands@[j]).key(),
                (#[trigger] cands@[i]).key(),
            ),
    ensures
        forall|i: int| 0 <= i < r@.len() ==> candidate_ok(repo.repos@, pkg@, #[trigger] r@[i]),
        forall|i: int| 0 <= i < r@.len() ==> set.sem(key_of((#[trigger] r@[i]).version)),
        forall|j: int|
            0 <= j < cands@.len() && set.sem(key_of((#[trigger] cands@[j]).version)) ==> exists|
                i: int,
            | 0 <= i < r@.len() && (#[trigger] r@[i]).key() == cands@[j].key(),
        forall|i: int, j: int|
            0 <= i < j < r@.len() ==> (#[trigger] r@[i]).key() != (#[trigger] r@[j]).key(),
        forall|i: int, j: int|
            0 <= i < j < r@.len() ==> key_le((#[trigger] r@[j]).key(), (#[trigger] r@[i]).key()),
{
    let ghost orig = cands@;
    let mut out: Vec<Candidate> = Vec::new();
    let mut rest = cands;
    while rest.len() > 0
        invariant
            rest@ == orig.skip(orig.len() - rest@.len()),
            rest@.len() <= orig.len(),
            forall|i: int|
                0 <= i < rest@.len() ==> candidate_ok(repo.repos@, pkg@, #[trigger] rest@[i]),
            forall|i: int|
                0 <= i < out@.len() ==> candidate_ok(repo.repos@, pkg@, #[trigger] out@[i]),
            forall|i: int| 0 <= i < out@.len() ==> set.sem(key_of((#[trigger] out@[i]).version)),
            forall|j: int|
                0 <= j < orig.len() - rest@.len() && set.sem(key_of(
                    (#[trigger] orig[j]).version,
                )) ==> exists|i: int|
                    0 <= i < out@.len() && (#[trigger] out@[i]).key() == orig[j].key(),
            forall|i: int, j: int|
                0 <= i < j < orig.len() ==> (#[trigger] orig[i]).key() != (
                #[trigger] orig[j]).key(),
            forall|i: int, j: int|
                0 <= i < j < orig.len() ==> key_le(
                    (#[trigger] orig[j]).key(),
                    (#[trigger] orig[i]).key(),
                ),
            forall|i: int|
                0 <= i < out@.len() ==> exists|j: int|
                    0 <= j < orig.len() - rest@.len() && (#[trigger] out@[i]).key() == orig[j].key(),
            forall|i: int, j: int|
                0 <= i < j < out@.len() ==> (#[trigger] out@[i]).key() != (
                #[trigger] out@[j]).key(),
            forall|i: int, j: int|
                0 <= i < j < out@.len() ==> key_le(
                    (#[trigger] out@[j]).key(),
                    (#[trigger] out@[i]).key(),
                ),
        decreases rest@.len(),
    {
        let ghost t = orig.len() - rest@.len();
        let ghost old_rest = rest@;
        let ghost old_out = out@;
        let c = rest.remove(0);
        proof {
            assert(c == orig[t as int]);
            assert(rest@ =~= orig.skip(orig.len() - rest@.len()));
            assert(forall|i: int|
                0 <= i < rest@.len() ==> #[trigger] rest@[i] == old_rest[i + 1]);
        }
        let keep = match &c.deps {
            Dependencies::Known(_) => set.contains(&c.version),
            Dependencies::Unknown => false,
        };
        if keep {
            out.push(c);
            proof {
                assert(forall|i: int|
                    0 <= i < old_out.len() ==> #[trigger] out@[i] == old_out[i]);
                assert(out@.last() == orig[t as int]);
                assert forall|i: int| 0 <= i < old_out.len() implies key_le(
                    out@.last().key(),
                    (#[trigger] old_out[i]).key(),
                ) && out@.last().key() != old_out[i].key() by {
                    let j = choose|j: int|
                        0 <= j < t && (#[trigger] old_out[i]).key() == orig[j].key();
                    assert(key_le(orig[t as int].key(), orig[j].key()));
                    assert(orig[j].key() != orig[t as int].key());
                }
            }
        }
        proof {
            assert forall|j: int|
                0 <= j < orig.len() - rest@.len() && set.sem(key_of(
                    (#[trigger] orig[j]).version,
                )) implies exists|i: int|
                0 <= i < out@.len() && (#[trigger] out@[i]).key() == orig[j].key() by {
                if j < t {
                    let i = choose|i: int|
                        0 <= i < old_out.len() && (#[trigger] old_out[i]).key() == orig[j].key();
                    assert(out@[i].key() == orig[j].key());
                } else {
                    assert(orig[j] == c);
                    assert(out@.last().key() == c.key());
                }
            }
        }
    }
    out
}

/// Picks the package to decide next as the fewest-candidates rule asks:
/// among the constrained packages not yet assigned, the one that the fewest
/// offered versions satisfy, the earliest constraint at a tie. Its admitted
/// candidates come with it: sound, complete, duplicate-free and newest
/// first, so the caller tries the greatest admitted version before any
/// other. `None` says every constrained package is already assigned.
fn select_package(
    cons: &Vec<Constraint>,
    asg: &Vec<(PackageName, Candidate)>,
    repo: &Repository,
) -> (r: Option<(usize, Vec<Candidate>)>)
    requires
        repos_wf(repo.repos@),
    ensures
        r is None ==> (forall|ci: int|
            0 <= ci < cons@.len() ==> assigned(asg@, (#[trigger] cons@[ci]).name@)),
        r matches Some((b, ms)) ==> {
            &&& (b as int) < cons@.len()
            &&& !assigned(asg@, cons@[b as int].name@)
            &&& ms@.len() == admissible_card(
                repo.repos@,
                cons@[b as int].name@,
                cons@[b as int].set,
            )
            &&& (forall|i: int|
                0 <= i < ms@.len() ==> candidate_ok(
                    repo.repos@,
                    cons@[b as int].name@,
                    #[trigger] ms@[i],
                ))
            &&& (forall|i: int|
                0 <= i < ms@.len() ==> cons@[b as int].set.sem(
                    key_of((#[trigger] ms@[i]).version),
                ))
            &&& (forall|i: int, j: int|
                0 <= i < j < ms@.len() ==> key_le(
                    (#[trigger] ms@[j]).key(),
                    (#[trigger] ms@[i]).key(),
                ))
            &&& (forall|kk: VerKey|
                offered(repo.repos@, cons@[b as int].name@, kk) && #[trigger] cons@[b as int].set.sem(
                    kk,
                ) ==> exists|ii: int| 0 <= ii < ms@.len() && (#[trigger] ms@[ii]).key() == kk)
            &&& (forall|ci: int|
                #![trigger cons@[ci].set]
                0 <= ci < cons@.len() && !assigned(asg@, cons@[ci].name@)
                    ==> admissible_card(repo.repos@, cons@[ci].name@, cons@[ci].set) >= ms@.len())
            &&& (forall|ci: int|
                #![trigger cons@[ci].set]
                0 <= ci < b as int && !assigned(asg@, cons@[ci].name@)
                    ==> admissible_card(repo.repos@, cons@[ci].name@, cons@[ci].set) > ms@.len())
        },
{
    let cn = cons.len();
    let mut best: Option<usize> = None;
    let mut best_matches: Vec<Candidate> = Vec::new();
    let mut ci: usize = 0;
    while ci < cn
        invariant
            ci <= cn == cons@.len(),
            repos_wf(repo.repos@),
            best is None ==> (forall|c2: int|
                0 <= c2 < ci ==> assigned(asg@, (#[trigger] cons@[c2]).name@)),
            best matches Some(b) ==> {
                &&& (b as int) < ci
                &&& !assigned(asg@, cons@[b as int].name@)
                &&& best_matches@.len() == admissible_card(
                    repo.repos@,
                    cons@[b as int].name@,
                    cons@[b as int].set,
                )
                &&& (forall|i: int|
                    0 <= i < best_matches@.len() ==> candidate_ok(
                        repo.repos@,
                        cons@[b as int].name@,
                        #[trigger] best_matches@[i],
                    ))
                &&& (forall|i: int|
                    0 <= i < best_matches@.len() ==> cons@[b as int].set.sem(
                        key_of((#[trigger] best_matches@[i]).version),
                    ))
                &&& (forall|i: int, j: int|
                    0 <= i < j < best_matches@.len() ==> key_le(
                        (#[trigger] best_matches@[j]).key(),
                        (#[trigger] best_matches@[i]).key(),
                    ))
                &&& (forall|kk: VerKey|
                    offered(repo.repos@, cons@[b as int].name@, kk)
                        && #[trigger] cons@[b as int].set.sem(kk) ==> exists|ii: int|
                        0 <= ii < best_matches@.len() && (#[trigger] best_matches@[ii]).key() == kk)
                &&& (forall|c2: int|
                    #![trigger cons@[c2].set]
                    0 <= c2 < ci && !assigned(asg@, cons@[c2].name@)
                        ==> admissible_card(repo.repos@, cons@[c2].name@, cons@[c2].set)
                        >= best_matches@.len())
                &&& (forall|c2: int|
                    #![trigger cons@[c2].set]
                    0 <= c2 < b as int && !assigned(asg@, cons@[c2].name@)
                        ==> admissible_card(repo.repos@, cons@[c2].name@, cons@[c2].set)
                        > best_matches@.len())
            },
        decreases cn - ci,
    {
        if asg_find(asg, &cons[ci].name).is_none() {
            let cands = repo.candidates(&cons[ci].name);
            let ghost gcands = cands@;
            let matches = filter_matching(cands, &cons[ci].set, repo, &cons[ci].name);
            proof {
                assert forall|kk: VerKey|
                    offered(repo.repos@, cons@[ci as int].name@, kk)
                        && #[trigger] cons@[ci as int].set.sem(kk) implies (exists|ii: int|
                    0 <= ii < matches@.len() && (#[trigger] matches@[ii]).key() == kk) by {
                    let j = choose|j: int|
                        0 <= j < gcands.len() && (#[trigger] gcands[j]).key() == kk;
                    assert(gcands[j].key() == key_of(gcands[j].version));
                    assert(cons@[ci as int].set.sem(key_of(gcands[j].version)));
                }
                lemma_admissible_card(
                    repo.repos@,
                    cons@[ci as int].name@,
                    cons@[ci as int].set,
                    matches@,
                );
            }
            if best.is_none() || matches.len() < best_matches.len() {
                best_matches = matches;
                best = Some(ci);
            }
        }
        ci = ci + 1;
    }
    match best {
        None => None,
        Some(b) => Some((b, best_matches)),
    }
}

/// One node of the conflict-driven search: checks the assignments against
/// the constraints they induce, picks the unassigned package with the
/// fewest admissible candidates, and tries them newest first.
fn search(
    repo: &Repository,
    reqs: &Vec<Dep>,
    asg: &mut Vec<(PackageName, Candidate)>,
    fuel: usize,
) -> (r: SearchStep)
    requires
        repos_wf(repo.repos@),
        deps_wf(reqs@),
        assignment_wf(repo.repos@, old(asg)@),
    ensures
        !(r is Found) ==> final (asg)@ == old(asg)@,
        r is Found ==> assignment_wf(repo.repos@, final (asg)@),
        r matches SearchStep::Conflicts(cs) ==> cs@.len() > 0,
        r is Conflicts ==> refuted(repo.repos@, reqs@, old(asg)@),
        reqs@.len() == 0 && old(asg)@.len() == 0 && fuel > 0 ==> (r is Found && final (asg)@
            == old(asg)@),
    decreases fuel,
{
    if fuel == 0 {
        return SearchStep::Exhausted;
    }
    let cons = build_constraints(reqs, asg, repo);
    // An assignment a later constraint has ruled out forces backtracking.
    let an = asg.len();
    let mut ai: usize = 0;
    while ai < an
        invariant
            ai <= an == asg@.len(),
            asg@ == old(asg)@,
            repos_wf(repo.repos@),
            deps_wf(reqs@),
            assignment_wf(repo.repos@, asg@),
            forall|c2: int, k: VerKey|
                0 <= c2 < cons@.len() && imposed(reqs@, asg@, (#[trigger] cons@[c2]).name@, k)
                    ==> #[trigger] cons@[c2].set.sem(k),
            forall|c2: int|
                0 <= c2 < cons@.len() ==> constrains(reqs@, asg@, (#[trigger] cons@[c2]).name@),
        decreases an - ai,
    {
        if let Some(ci) = cons_find(&cons, &asg[ai].0) {
            if !cons[ci].set.contains(&asg[ai].1.version) {
                proof {
                    reveal(refuted);
                    assert forall|sol: Seq<Package>|
                        !(valid_solution(repo.repos@, reqs@, sol) && consistent(
                            sol,
                            old(asg)@,
                        )) by {
                        if valid_solution(repo.repos@, reqs@, sol) && consistent(sol, old(asg)@) {
                            let n = asg@[ai as int].0@;
                            lemma_solution_pin(repo.repos@, reqs@, asg@, sol, n);
                            let j = choose|j: int|
                                0 <= j < sol.len() && (#[trigger] sol[j]).name@ == n && imposed(
                                    reqs@,
                                    asg@,
                                    n,
                                    key_of(sol[j].version),
                                );
                            let j2 = choose|j2: int|
                                0 <= j2 < sol.len() && (#[trigger] sol[j2]).name@
                                    == asg@[ai as int].0@ && key_of(sol[j2].version)
                                    == asg@[ai as int].1.key();
                            lemma_pin_unique(sol, j, j2);
                            assert(cons@[ci as int].set.sem(asg@[ai as int].1.key()));
                        }
                    }
                }
                let mut conflicts: Vec<Conflict> = Vec::new();
                conflicts.push(mk_conflict(&cons[ci]));
                return SearchStep::Conflicts(conflicts);
            }
        }
        ai = ai + 1;
    }
    // Pick the unassigned package with the fewest admissible candidates.
    match select_package(&cons, asg, repo) {
        None => SearchStep::Found,
        Some((b, best_matches)) => {
            if best_matches.len() == 0 {
                proof {
                    assert forall|kk: VerKey|
                        offered(repo.repos@, cons@[b as int].name@, kk)
                            && #[trigger] cons@[b as int].set.sem(kk) implies refuted_at(
                        repo.repos@,
                        reqs@,
                        old(asg)@,
                        cons@[b as int].name@,
                        kk,
                    ) by {
                        assert(exists|ii: int|
                            0 <= ii < best_matches@.len() && (#[trigger] best_matches@[ii]).key()
                                == kk);
                    }
                    lemma_refute_no_candidate(
                        repo.repos@,
                        reqs@,
                        old(asg)@,
                        cons@[b as int].name@,
                        cons@[b as int].set,
                    );
                }
                let mut conflicts: Vec<Conflict> = Vec::new();
                conflicts.push(mk_conflict(&cons[b]));
                return SearchStep::Conflicts(conflicts);
            }
            proof {
                if reqs@.len() == 0 && old(asg)@.len() == 0 {
                    assert(cons@.len() == 0);
                    assert(false);
                }
            }
            let mut acc: Vec<Conflict> = Vec::new();
            let ghost matches0 = best_matches@;
            let mut rest = best_matches;
            while rest.len() > 0
                invariant
                    !(reqs@.len() == 0 && old(asg)@.len() == 0),
                    rest@.len() > 0 || acc@.len() > 0,
                    repos_wf(repo.repos@),
                    deps_wf(reqs@),
                    assignment_wf(repo.repos@, asg@),
                    asg@ == old(asg)@,
                    b < cons@.len(),
                    fuel >= 1,
                    rest@.len() <= matches0.len(),
                    rest@ == matches0.skip(matches0.len() - rest@.len()),
                    forall|t2: int|
                        0 <= t2 < matches0.len() - rest@.len() ==> refuted_at(
                            repo.repos@,
                            reqs@,
                            old(asg)@,
                            cons@[b as int].name@,
                            (#[trigger] matches0[t2]).key(),
                        ),
                    forall|kk: VerKey|
                        offered(repo.repos@, cons@[b as int].name@, kk)
                            && #[trigger] cons@[b as int].set.sem(kk) ==> (exists|ii: int|
                            0 <= ii < matches0.len() && (#[trigger] matches0[ii]).key() == kk),
                    forall|c2: int|
                        0 <= c2 < cons@.len() ==> constrains(
                            reqs@,
                            asg@,
                            (#[trigger] cons@[c2]).name@,
                        ),
                    forall|c2: int, k: VerKey|
                        0 <= c2 < cons@.len() && imposed(
                            reqs@,
                            asg@,
                            (#[trigger] cons@[c2]).name@,
                            k,
                        ) ==> #[trigger] cons@[c2].set.sem(k),
                    forall|i: int|
                        0 <= i < rest@.len() ==> candidate_ok(
                            repo.repos@,
                            cons@[b as int].name@,
                            #[trigger] rest@[i],
                        ),
                decreases rest@.len(),
            {
                let ghost t = matches0.len() - rest@.len();
                let ghost old_rest = rest@;
                let cand = rest.remove(0);
                proof {
                    assert(cand == matches0[t as int]);
                    assert(forall|i: int|
                        0 <= i < rest@.len() ==> #[trigger] rest@[i] == old_rest[i + 1]);
                    assert(rest@ =~= matches0.skip(matches0.len() - rest@.len()));
                }
                let ghost before = asg@;
                asg.push((cons[b].name.duplicate(), cand));
                proof {
                    assert(forall|i: int|
                        0 <= i < before.len() ==> #[trigger] asg@[i] == before[i]);
                    assert(asg@[before.len() as int].0@ == cons@[b as int].name@);
                    assert(candidate_ok(
                        repo.repos@,
                        asg@[before.len() as int].0@,
                        asg@[before.len() as int].1,
                    ));
                }
                match search(repo, reqs, asg, fuel - 1) {
                    SearchStep::Found => {
                        return SearchStep::Found;
                    },
                    SearchStep::Exhausted => {
                        let _dropped = asg.pop();
                        proof {
                            assert(asg@ =~= before);
                        }
                        return SearchStep::Exhausted;
                    },
                    SearchStep::Conflicts(mut cs) => {
                        proof {
                            assert(before.push(asg@.last()) =~= asg@);
                            lemma_refuted_push(
                                repo.repos@,
                                reqs@,
                                before,
                                asg@.last(),
                                cons@[b as int].name@,
                                matches0[t as int].key(),
                            );
                        }
                        let _dropped = asg.pop();
                        proof {
                            assert(asg@ =~= before);
                        }
                        acc.append(&mut cs);
                    },
                }
            }
            proof {
                assert forall|kk: VerKey|
                    offered(repo.repos@, cons@[b as int].name@, kk)
                        && #[trigger] cons@[b as int].set.sem(kk) implies refuted_at(
                    repo.repos@,
                    reqs@,
                    old(asg)@,
                    cons@[b as int].name@,
                    kk,
                ) by {
                    let ii = choose|ii: int|
                        0 <= ii < matches0.len() && (#[trigger] matches0[ii]).key() == kk;
                    assert(refuted_at(
                        repo.repos@,
                        reqs@,
                        old(asg)@,
                        cons@[b as int].name@,
                        matches0[ii].key(),
                    ));
                }
                lemma_refute_no_candidate(
                    repo.repos@,
                    reqs@,
                    old(asg)@,
                    cons@[b as int].name@,
                    cons@[b as int].set,
                );
            }
            SearchStep::Conflicts(acc)
        },
    }
}

} // verus!

verus! {

/// A found entry is one of the entries.
proof fn lemma_find_entry_mem(es: Seq<crate::repository::PackageEntry>, name: Seq<char>)
    ensures
        crate::repository::find_entry(es, name) matches Some(e) ==> e.name@ == name && exists|i: int|
            0 <= i < es.len() && #[trigger] es[i] == e,
    decreases es.len(),
{
    if es.len() > 0 {
        if es[0].name@ == name {
            assert(es[0] == crate::repository::find_entry(es, name).unwrap());
        } else {
            lemma_find_entry_mem(es.drop_first(), name);
            if crate::repository::find_entry(es, name) is Some {
                let e = crate::repository::find_entry(es, name).unwrap();
                let i = choose|i: int| 0 <= i < es.drop_first().len() && #[trigger] es.drop_first()[i] == e;
                assert(es[i + 1] == e);
            }
        }
    }
}

/// In a valid solution over sound repositories, every pinned name is a real
/// package name; the synthetic root in particular never appears.
pub proof fn lemma_root_not_in_solution(
    repos: Seq<RepoData>,
    reqs: Seq<Dep>,
    sol: Seq<Package>,
    j: int,
)
    requires
        repos_wf(repos),
        valid_solution(repos, reqs, sol),
        0 <= j < sol.len(),
    ensures
        name_wf(sol[j].name@),
        sol[j].name@ != root_name_text(),
{
    assert(offered(repos, sol[j].name@, key_of(sol[j].version)));
    let (ri, vi) = choose|ri: int, vi: int|
        crate::repository::offered_at(repos, sol[j].name@, key_of(sol[j].version), ri, vi);
    lemma_find_entry_mem(repos[ri].packages@, sol[j].name@);
    let e = crate::repository::find_entry(repos[ri].packages@, sol[j].name@).unwrap();
    let ei = choose|ei: int| 0 <= ei < repos[ri].packages@.len() && #[trigger] repos[ri].packages@[ei] == e;
    assert(crate::repository::entry_wf(e));
    crate::name::lemma_wf_name_not_root(sol[j].name@);
}

/// The resolver over an aggregated repository snapshot.
pub struct Solver {
    pub repository: Repository,
}

impl Solver {
    /// Wraps a snapshot.
    pub fn new(repository: Repository) -> (r: Solver)
        ensures
            r.repository.repos@ == repository.repos@,
    {
        Solver { repository }
    }

    /// Resolves the requested packages to a pinned set. A returned solution
    /// is valid: names occur once, every request and every declared
    /// dependency of a pin is pinned admissibly, and every pin is a version
    /// the repositories offer. A no-solution answer is conclusive: it is
    /// returned only when no valid solution for the request exists at all.
    pub fn resolve(&self, reqs: &Vec<Dep>) -> (r: Result<Vec<Package>, SolverError>)
        requires
            repos_wf(self.repository.repos@),
            deps_wf(reqs@),
        ensures
            r matches Ok(sol) ==> valid_solution(self.repository.repos@, reqs@, sol@),
            r matches Err(e) ==> (e is NoSolution || e is Failure),
            r matches Err(SolverError::NoSolution(dt)) ==> dt.conflicts@.len() > 0,
            r matches Err(SolverError::NoSolution(_)) ==> (forall|sol: Seq<Package>|
                !valid_solution(self.repository.repos@, reqs@, sol)),
            reqs@.len() == 0 ==> (r matches Ok(sol) && sol@.len() == 0),
    {
        resolve_snapshot(&self.repository, reqs)
    }
}

/// Resolves a request against a snapshot held by reference; what `Solver`
/// wraps for an owned snapshot.
pub fn resolve_snapshot(repository: &Repository, reqs: &Vec<Dep>) -> (r: Result<
    Vec<Package>,
    SolverError,
>)
    requires
        repos_wf(repository.repos@),
        deps_wf(reqs@),
    ensures
        r matches Ok(sol) ==> valid_solution(repository.repos@, reqs@, sol@),
        r matches Err(e) ==> (e is NoSolution || e is Failure),
        r matches Err(SolverError::NoSolution(dt)) ==> dt.conflicts@.len() > 0,
        r matches Err(SolverError::NoSolution(_)) ==> (forall|sol: Seq<Package>|
            !valid_solution(repository.repos@, reqs@, sol)),
        reqs@.len() == 0 ==> (r matches Ok(sol) && sol@.len() == 0),
{
    let mut fuel: usize = 1;
    let rn = repository.repos.len();
    let mut ri: usize = 0;
    while ri < rn
        invariant
            ri <= rn == repository.repos@.len(),
            fuel >= 1,
        decreases rn - ri,
    {
        let add = repository.repos[ri].packages.len();
        fuel = if fuel <= usize::MAX - add {
            fuel + add
        } else {
            usize::MAX
        };
        ri = ri + 1;
    }
    // the synthetic root stands for what the user asked for
    let root = Candidate::root(dup_deps(reqs));
    let root_reqs = match root.dependencies() {
        Dependencies::Known(ds) => ds,
        Dependencies::Unknown => {
            proof {
                assert(false);
            }
            return Err(SolverError::Impossible);
        },
    };
    let mut asg: Vec<(PackageName, Candidate)> = Vec::new();
    match search(repository, root_reqs, &mut asg, fuel) {
        SearchStep::Found => {
            let mut sol: Vec<Package> = Vec::new();
            let an = asg.len();
            let mut ai: usize = 0;
            while ai < an
                invariant
                    ai <= an == asg@.len(),
                    sol@.len() == ai,
                decreases an - ai,
            {
                let name = asg[ai].0.duplicate();
                let version = asg[ai].1.version.duplicate();
                let sid = asg[ai].1.version.source_id;
                let disc = asg[ai].1.version.source_discriminator;
                sol.push(Package::new(name, version, sid, disc));
                ai = ai + 1;
            }
            if check_solution(repository, reqs, &sol) {
                Ok(sol)
            } else {
                proof {
                    reveal_strlit("solver returned an assignment its own check rejected");
                }
                Err(
                    SolverError::Failure(
                        "solver returned an assignment its own check rejected".to_owned(),
                    ),
                )
            }
        },
        SearchStep::Conflicts(cs) => {
            proof {
                reveal(refuted);
                assert forall|sol: Seq<Package>|
                    !valid_solution(repository.repos@, reqs@, sol) by {
                    if valid_solution(repository.repos@, reqs@, sol) {
                        lemma_valid_transfer(repository.repos@, reqs@, root_reqs@, sol);
                        assert(consistent(sol, asg@));
                    }
                }
            }
            Err(SolverError::NoSolution(DerivationTree { conflicts: cs }))
        },
        SearchStep::Exhausted => {
            proof {
                reveal_strlit("search ran out of room before covering every package");
            }
            Err(
                SolverError::Failure(
                    "search ran out of room before covering every package".to_owned(),
                ),
            )
        },
    }
}

/// A humanised rendering of an unsolvable request: a caller-supplied message
/// above the chain of conflicts that rules every assignment out.
pub struct HumanizedNoSolutionError {
    pub msg: String,
    pub dt: DerivationTree,
}

impl SolverError {
    /// Pairs a caller-supplied message with the derivation tree.
    pub fn humanized(msg: &str, dt: DerivationTree) -> (r: HumanizedNoSolutionError)
        ensures
            r.msg@ == msg@,
            r.dt == dt,
    {
        HumanizedNoSolutionError { msg: msg.to_owned(), dt }
    }
}

/// Requirer names joined by a comma and a space.
pub open spec fn names_text(ns: Seq<PackageName>) -> Seq<char>
    decreases ns.len(),
{
    if ns.len() == 0 {
        Seq::empty()
    } else if ns.len() == 1 {
        ns[0]@
    } else {
        names_text(ns.drop_last()) + ", "@ + ns.last()@
    }
}

/// The rendered line of one conflict: the package none of whose candidates
/// fit, and who required it.
pub open spec fn conflict_text(c: Conflict) -> Seq<char> {
    "\nno version of "@ + c.package@ + " satisfies the requirements"@ + (
    if c.requirers@.len() == 0 {
        Seq::<char>::empty()
    } else {
        " (required by "@ + names_text(c.requirers@) + ")"@
    })
}

/// The rendered lines of a whole derivation tree, in order.
pub open spec fn conflicts_text(cs: Seq<Conflict>) -> Seq<char>
    decreases cs.len(),
{
    if cs.len() == 0 {
        Seq::empty()
    } else {
        conflicts_text(cs.drop_last()) + conflict_text(cs.last())
    }
}

impl HumanizedNoSolutionError {
    /// The rendered explanation: the message, then one line per conflict
    /// naming the package and the packages that required it.
    pub fn message(&self) -> (r: String)
        ensures
            r@ == self.msg@ + conflicts_text(self.dt.conflicts@),
    {
        let mut out = self.msg.clone();
        let ghost base = self.msg@;
        let n = self.dt.conflicts.len();
        let mut i: usize = 0;
        proof {
            assert(out@ =~= base + conflicts_text(self.dt.conflicts@.take(0)));
        }
        while i < n
            invariant
                i <= n == self.dt.conflicts@.len(),
                base == self.msg@,
                out@ == base + conflicts_text(self.dt.conflicts@.take(i as int)),
            decreases n - i,
        {
            let ghost head = base + conflicts_text(self.dt.conflicts@.take(i as int))
                + "\nno version of "@ + self.dt.conflicts@[i as int].package@
                + " satisfies the requirements"@;
            out.append("\nno version of ");
            out.append(self.dt.conflicts[i].package.as_str());
            out.append(" satisfies the requirements");
            proof {
                assert(out@ =~= head);
            }
            let rn = self.dt.conflicts[i].requirers.len();
            let mut j: usize = 0;
            while j < rn
                invariant
                    j <= rn == self.dt.conflicts@[i as int].requirers@.len(),
                    i < self.dt.conflicts@.len(),
                    out@ == (if j == 0 {
                        head
                    } else {
                        head + " (required by "@ + names_text(
                            self.dt.conflicts@[i as int].requirers@.take(j as int),
                        )
                    }),
                decreases rn - j,
            {
                if j == 0 {
                    out.append(" (required by ");
                } else {
                    out.append(", ");
                }
                out.append(self.dt.conflicts[i].requirers[j].as_str());
                proof {
                    let taken = self.dt.conflicts@[i as int].requirers@.take(j + 1 as int);
                    assert(taken.drop_last() =~= self.dt.conflicts@[i as int].requirers@.take(
                        j as int,
                    ));
                    assert(taken.last() == self.dt.conflicts@[i as int].requirers@[j as int]);
                    if j == 0 {
                        assert(names_text(taken) == taken[0]@);
                        assert(out@ =~= head + " (required by "@ + names_text(taken));
                    } else {
                        assert(out@ =~= head + " (required by "@ + names_text(taken));
                    }
                }
                j = j + 1;
            }
            if rn > 0 {
                out.append(")");
            }
            proof {
                let taken = self.dt.conflicts@.take(i + 1 as int);
                assert(taken.drop_last() =~= self.dt.conflicts@.take(i as int));
                assert(taken.last() == self.dt.conflicts@[i as int]);
                assert(self.dt.conflicts@[i as int].requirers@.take(rn as int)
                    =~= self.dt.conflicts@[i as int].requirers@);
                assert(out@ =~= base + conflicts_text(taken));
            }
            i = i + 1;
        }
        proof {
            assert(self.dt.conflicts@.take(n as int) =~= self.dt.conflicts@);
        }
        out
    }
}

} // verus!
