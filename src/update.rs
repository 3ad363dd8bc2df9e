use vstd::prelude::*;

use crate::bytes::{copy_bytes, copy_list, list_contains, views};
use crate::check::{
    breached_kinds, check, declares, dependency_breached, file_definitions, lemma_violation_is_use, owed, reference_name,
    reference_span, use_between, used, violation_justified,
};
use crate::index::first_definition;
use crate::path::{contains_path, is_owner};
use crate::model::{roots_unique, CatalogError, Configuration, Enforcement, Package, SourceFile, ViolationKind};

verus! {

/// `deps` with each root of `observed` that it lacks appended, in the order
/// of first observation. Entries are never removed.
pub open spec fn widened(deps: Seq<Seq<u8>>, observed: Seq<Seq<u8>>) -> Seq<Seq<u8>>
    decreases observed.len(),
{
    if observed.len() == 0 {
        deps
    } else {
        let d = widened(deps, observed.drop_last());
        if d.contains(observed.last()) {
            d
        } else {
            d.push(observed.last())
        }
    }
}

/// Widening keeps the old entries in front, and everything it holds was
/// either declared or observed; everything observed is then declared.
pub proof fn lemma_widened_shape(deps: Seq<Seq<u8>>, observed: Seq<Seq<u8>>)
    ensures
        widened(deps, observed).len() >= deps.len(),
        widened(deps, observed).subrange(0, deps.len() as int) == deps,
        forall|x: Seq<u8>| #[trigger] widened(deps, observed).contains(x) ==> deps.contains(x) || observed.contains(x),
        forall|x: Seq<u8>| #[trigger] observed.contains(x) ==> widened(deps, observed).contains(x),
        forall|x: Seq<u8>| #[trigger] deps.contains(x) ==> widened(deps, observed).contains(x),
        forall|t: int|
            deps.len() <= t < widened(deps, observed).len() ==> !deps.contains(#[trigger] widened(deps, observed)[t]),
    decreases observed.len(),
{
    if observed.len() == 0 {
        assert(deps.subrange(0, deps.len() as int) =~= deps);
    } else {
        let rest = observed.drop_last();
        lemma_widened_shape(deps, rest);
        let d = widened(deps, rest);
        let w = widened(deps, observed);
        assert(w.subrange(0, deps.len() as int) =~= d.subrange(0, deps.len() as int));
        assert forall|x: Seq<u8>| #[trigger] w.contains(x) implies deps.contains(x) || observed.contains(x) by {
            if d.contains(x) {
                if rest.contains(x) {
                    let j = choose|j: int| 0 <= j < rest.len() && rest[j] == x;
                    assert(observed[j] == x);
                }
            } else {
                assert(x == observed.last());
                assert(observed[observed.len() - 1] == x);
            }
        }
        assert forall|x: Seq<u8>| #[trigger] observed.contains(x) implies w.contains(x) by {
            let j = choose|j: int| 0 <= j < observed.len() && observed[j] == x;
            if j < observed.len() - 1 {
                assert(rest[j] == x);
                assert(rest.contains(x));
                assert(d.contains(x));
                if !d.contains(observed.last()) {
                    let i = choose|i: int| 0 <= i < d.len() && d[i] == x;
                    assert(w[i] == x);
                }
            } else if !d.contains(observed.last()) {
                assert(w[d.len() as int] == x);
            }
        }
        assert forall|t: int| deps.len() <= t < w.len() implies !deps.contains(#[trigger] w[t]) by {
            if t < d.len() {
                assert(w[t] == d[t]);
            } else {
                assert(w[t] == observed.last());
                assert(!d.contains(observed.last()));
            }
        }
        assert forall|x: Seq<u8>| #[trigger] deps.contains(x) implies w.contains(x) by {
            assert(d.contains(x));
            if !d.contains(observed.last()) {
                let i = choose|i: int| 0 <= i < d.len() && d[i] == x;
                assert(w[i] == x);
            }
        }
    }
}

/// Widening by roots that are all declared already changes nothing.
pub proof fn lemma_widened_covered(deps: Seq<Seq<u8>>, observed: Seq<Seq<u8>>)
    requires
        forall|x: Seq<u8>| #[trigger] observed.contains(x) ==> deps.contains(x),
    ensures
        widened(deps, observed) == deps,
    decreases observed.len(),
{
    if observed.len() > 0 {
        let rest = observed.drop_last();
        assert forall|x: Seq<u8>| #[trigger] rest.contains(x) implies deps.contains(x) by {
            let j = choose|j: int| 0 <= j < rest.len() && rest[j] == x;
            assert(observed[j] == x);
            assert(observed.contains(x));
        }
        lemma_widened_covered(deps, rest);
        assert(observed[observed.len() - 1] == observed.last());
        assert(observed.contains(observed.last()));
    }
}

/// Updating dependencies is idempotent: widening a second time by the same
/// observed uses leaves the list as the first widening made it.
pub proof fn lemma_update_idempotent(deps: Seq<Seq<u8>>, observed: Seq<Seq<u8>>)
    ensures
        widened(widened(deps, observed), observed) == widened(deps, observed),
{
    lemma_widened_shape(deps, observed);
    lemma_widened_covered(widened(deps, observed), observed);
}

/// Appends to `deps` each root of `observed` that it does not hold yet.
pub fn widen_dependencies(deps: &mut Vec<Vec<u8>>, observed: &Vec<Vec<u8>>)
    ensures
        views(final(deps)@) == widened(views(old(deps)@), views(observed@)),
{
    let ghost start = views(deps@);
    let mut i: usize = 0;
    while i < observed.len()
        invariant
            0 <= i <= observed@.len(),
            views(deps@) == widened(start, views(observed@).subrange(0, i as int)),
        decreases observed@.len() - i,
    {
        let ghost seen = views(observed@).subrange(0, i as int);
        let ghost next = views(observed@).subrange(0, i + 1);
        assert(next.drop_last() =~= seen);
        assert(next.last() == observed@[i as int]@);
        if !list_contains(deps, &observed[i]) {
            let ghost d = deps@;
            deps.push(copy_bytes(&observed[i]));
            assert(views(deps@) =~= views(d).push(observed@[i as int]@));
        }
        i = i + 1;
    }
    assert(views(observed@).subrange(0, observed@.len() as int) =~= views(observed@));
}

/// Package `i` of `pkgs` as an update leaves it: everything but the
/// dependency list kept, the declared dependencies kept in front, and each
/// added entry the root of another package that package `i` uses and did
/// not declare. Enforcement modes and permissive packages play no part.
pub open spec fn package_updated(pkgs: Seq<Package>, files: Seq<SourceFile>, i: int, new_p: Package) -> bool {
    let old_p = pkgs[i];
    let old_deps = views(old_p.dependencies@);
    let new_deps = views(new_p.dependencies@);
    &&& new_p.root@ == old_p.root@
    &&& new_p.enforce_dependencies == old_p.enforce_dependencies
    &&& new_p.enforce_privacy == old_p.enforce_privacy
    &&& new_p.permissive == old_p.permissive
    &&& views(new_p.private_constants@) == views(old_p.private_constants@)
    &&& views(new_p.privacy_allow_list@) == views(old_p.privacy_allow_list@)
    &&& new_deps.len() >= old_deps.len()
    &&& new_deps.subrange(0, old_deps.len() as int) == old_deps
    &&& forall|t: int|
        old_deps.len() <= t < new_deps.len() ==> !old_deps.contains(#[trigger] new_deps[t]) && exists|q: int|
            0 <= q < pkgs.len() && q != i && pkgs[q].root@ == new_deps[t] && used(pkgs, files, i, q)
}

/// Every use, by one package, of a constant that another package defines is
/// declared in `updated`.
pub open spec fn uses_declared(pkgs: Seq<Package>, files: Seq<SourceFile>, updated: Seq<Package>) -> bool {
    forall|f: int, k: int, p: usize, q: usize|
        #[trigger] use_between(pkgs, files, f, k, p, q) && p != q ==> views(
            updated[p as int].dependencies@,
        ).contains(pkgs[q as int].root@)
}

/// The packages that an update of `pkgs` over `files` yields.
pub open spec fn update_outcome(pkgs: Seq<Package>, files: Seq<SourceFile>, updated: Seq<Package>) -> bool {
    &&& updated.len() == pkgs.len()
    &&& forall|i: int| 0 <= i < updated.len() ==> package_updated(pkgs, files, i, #[trigger] updated[i])
    &&& uses_declared(pkgs, files, updated)
}

/// Whether two catalogs have the same roots, package by package.
pub open spec fn same_roots(a: Seq<Package>, b: Seq<Package>) -> bool {
    a.len() == b.len() && forall|i: int| 0 <= i < a.len() ==> (#[trigger] a[i]).root@ == b[i].root@
}

/// Packages with the same roots own the same files.
proof fn lemma_owner_by_roots(a: Seq<Package>, b: Seq<Package>, path: Seq<u8>, r: Option<usize>)
    requires
        same_roots(a, b),
        is_owner(b, path, r),
    ensures
        is_owner(a, path, r),
{
    assert forall|j: int| contains_path(a, j, path) == contains_path(b, j, path) by {
        if 0 <= j < a.len() {
            assert(a[j].root@ == b[j].root@);
        }
    }
}

/// Which package uses which depends on the roots alone.
proof fn lemma_use_by_roots(a: Seq<Package>, b: Seq<Package>, files: Seq<SourceFile>, f: int, k: int, p: usize, q: usize)
    requires
        same_roots(a, b),
        use_between(b, files, f, k, p, q),
    ensures
        use_between(a, files, f, k, p, q),
{
    lemma_owner_by_roots(a, b, files[f].path@, Some(p));
    let g = choose|g: usize|
        g < files.len() && #[trigger] first_definition(file_definitions(files), reference_name(files, f, k), Some(g))
            && is_owner(b, files[g as int].path@, Some(q));
    lemma_owner_by_roots(a, b, files[g as int].path@, Some(q));
}

/// `update` is idempotent: updating again over the same files adds no
/// dependency, since every use that the first update saw is declared.
pub proof fn lemma_update_settles(
    pkgs: Seq<Package>,
    files: Seq<SourceFile>,
    once: Seq<Package>,
    twice: Seq<Package>,
)
    requires
        pkgs.len() <= usize::MAX,
        update_outcome(pkgs, files, once),
        update_outcome(once, files, twice),
    ensures
        twice.len() == once.len(),
        forall|i: int|
            0 <= i < twice.len() ==> views((#[trigger] twice[i]).dependencies@) == views(once[i].dependencies@),
{
    assert forall|i: int| 0 <= i < once.len() implies (#[trigger] once[i]).root@ == pkgs[i].root@ by {
        assert(package_updated(pkgs, files, i, once[i]));
    }
    assert(same_roots(pkgs, once));
    assert forall|i: int| 0 <= i < twice.len() implies views((#[trigger] twice[i]).dependencies@) == views(
        once[i].dependencies@,
    ) by {
        assert(package_updated(once, files, i, twice[i]));
        let d1 = views(once[i].dependencies@);
        let d2 = views(twice[i].dependencies@);
        if d2.len() > d1.len() {
            let t = d1.len() as int;
            let x = d2[t];
            let q = choose|q: int| 0 <= q < once.len() && q != i && once[q].root@ == x && used(once, files, i, q);
            let (f, k) = choose|f: int, k: int| #[trigger] use_between(once, files, f, k, i as usize, q as usize);
            lemma_use_by_roots(pkgs, once, files, f, k, i as usize, q as usize);
            assert(views(once[(i as usize) as int].dependencies@).contains(pkgs[(q as usize) as int].root@));
            assert(d1.contains(x));
        }
        assert(d2.subrange(0, d1.len() as int) == d1);
        assert(d2 =~= d1);
    }
}

/// A catalog with the same roots in which every package enforces the
/// dependency rule, declares nothing and is not permissive: checking it
/// reports every use of one package by another.
fn probe_catalog(packages: &Vec<Package>) -> (r: Vec<Package>)
    ensures
        same_roots(r@, packages@),
        forall|i: int|
            0 <= i < r@.len() ==> {
                let p = #[trigger] r@[i];
                &&& p.enforce_dependencies == Enforcement::Enforced
                &&& !p.permissive
                &&& p.dependencies@.len() == 0
            },
{
    let mut r: Vec<Package> = Vec::new();
    let mut i: usize = 0;
    while i < packages.len()
        invariant
            0 <= i <= packages@.len(),
            r@.len() == i,
            forall|j: int| 0 <= j < i ==> (#[trigger] r@[j]).root@ == packages@[j].root@,
            forall|j: int|
                0 <= j < i ==> {
                    let p = #[trigger] r@[j];
                    &&& p.enforce_dependencies == Enforcement::Enforced
                    &&& !p.permissive
                    &&& p.dependencies@.len() == 0
                },
        decreases packages@.len() - i,
    {
        r.push(
            Package {
                root: copy_bytes(&packages[i].root),
                dependencies: Vec::new(),
                enforce_dependencies: Enforcement::Enforced,
                enforce_privacy: Enforcement::Off,
                permissive: false,
                private_constants: Vec::new(),
                privacy_allow_list: Vec::new(),
            },
        );
        i = i + 1;
    }
    r
}

/// Widens each package's dependency list by the root of every other package
/// whose constants its files use, whatever its enforcement settings and
/// whether the used package is permissive. Declared entries are kept, none
/// is removed, and everything else about the packages stays as it was.
pub fn update(configuration: &Configuration, files: &Vec<SourceFile>) -> (r: Result<Configuration, CatalogError>)
    ensures
        r is Err <==> !roots_unique(configuration.packages@),
        r matches Ok(c) ==> update_outcome(configuration.packages@, files@, c.packages@),
{
    let packages = &configuration.packages;
    let ghost pkgs = packages@;
    let ghost fs = files@;
    let probe = Configuration { packages: probe_catalog(packages) };
    let ghost probes = probe.packages@;
    assert(roots_unique(probes) == roots_unique(pkgs)) by {
        assert forall|a: int, b: int| 0 <= a < b < probes.len() implies ((#[trigger] probes[a]).root@
            != (#[trigger] probes[b]).root@) == (pkgs[a].root@ != pkgs[b].root@) by {
            assert(probes[a].root@ == pkgs[a].root@);
            assert(probes[b].root@ == pkgs[b].root@);
        }
        if roots_unique(pkgs) {
            assert forall|a: int, b: int| 0 <= a < b < probes.len() implies (#[trigger] probes[a]).root@
                != (#[trigger] probes[b]).root@ by {
                assert(pkgs[a].root@ != pkgs[b].root@);
            }
        }
        if roots_unique(probes) {
            assert forall|a: int, b: int| 0 <= a < b < pkgs.len() implies (#[trigger] pkgs[a]).root@
                != (#[trigger] pkgs[b]).root@ by {
                assert(probes[a].root@ != probes[b].root@);
            }
        }
    }
    let no_restriction: Vec<Vec<u8>> = Vec::new();
    let report = match check(&probe, files, &no_restriction) {
        Ok(report) => report,
        Err(e) => {
            return Err(e);
        },
    };
    let violations = &report.violations;
    let ghost everything = views(no_restriction@);
    assert(everything =~= Seq::<Seq<u8>>::empty());
    let mut updated: Vec<Package> = Vec::new();
    let mut i: usize = 0;
    while i < packages.len()
        invariant
            packages == &configuration.packages,
            pkgs == packages@,
            fs == files@,
            same_roots(probes, pkgs),
            everything == Seq::<Seq<u8>>::empty(),
            0 <= i <= packages@.len(),
            updated@.len() == i,
            forall|m: int| 0 <= m < violations@.len() ==> violation_justified(probes, fs, everything, #[trigger] violations@[m]),
            forall|a: int| 0 <= a < i ==> package_updated(pkgs, fs, a, #[trigger] updated@[a]),
            forall|a: int, m: int|
                0 <= a < i && 0 <= m < violations@.len() && (#[trigger] violations@[m]).kind
                    == ViolationKind::Dependency && violations@[m].referencing_package == a ==> views(
                    (#[trigger] updated@[a]).dependencies@,
                ).contains(pkgs[violations@[m].referenced_package as int].root@),
        decreases packages@.len() - i,
    {
        let mut observed: Vec<Vec<u8>> = Vec::new();
        let mut k: usize = 0;
        while k < violations.len()
            invariant
                packages == &configuration.packages,
                pkgs == packages@,
                fs == files@,
                same_roots(probes, pkgs),
                0 <= i < packages@.len(),
                0 <= k <= violations@.len(),
                forall|m: int| 0 <= m < violations@.len() ==> violation_justified(probes, fs, everything, #[trigger] violations@[m]),
                forall|x: Seq<u8>|
                    #[trigger] views(observed@).contains(x) ==> exists|q: int|
                        0 <= q < pkgs.len() && q != i && pkgs[q].root@ == x && used(pkgs, fs, i as int, q),
                forall|m: int|
                    0 <= m < k && (#[trigger] violations@[m]).kind == ViolationKind::Dependency
                        && violations@[m].referencing_package == i ==> views(observed@).contains(
                        pkgs[violations@[m].referenced_package as int].root@,
                    ),
            decreases violations@.len() - k,
        {
            let v = &violations[k];
            if v.kind == ViolationKind::Dependency && v.referencing_package == i {
                let ghost before = views(observed@);
                let q = v.referenced_package;
                proof {
                    assert(violation_justified(probes, fs, everything, violations@[k as int]));
                    lemma_violation_is_use(probes, fs, everything, *v);
                    let (f, kk) = choose|f: int, kk: int| #[trigger] use_between(probes, fs, f, kk, i, q);
                    lemma_use_by_roots(pkgs, probes, fs, f, kk, i, q);
                    assert(use_between(pkgs, fs, f, kk, (i as int) as usize, (q as int) as usize));
                    assert(used(pkgs, fs, i as int, q as int));
                }
                observed.push(copy_bytes(&packages[q].root));
                assert(views(observed@) =~= before.push(pkgs[q as int].root@));
                assert forall|x: Seq<u8>| #[trigger] views(observed@).contains(x) implies exists|q2: int|
                    0 <= q2 < pkgs.len() && q2 != i && pkgs[q2].root@ == x && used(pkgs, fs, i as int, q2) by {
                    let j = choose|j: int| 0 <= j < views(observed@).len() && views(observed@)[j] == x;
                    if j < before.len() {
                        assert(before[j] == x);
                        assert(before.contains(x));
                    } else {
                        assert(pkgs[q as int].root@ == x);
                    }
                }
                assert(views(observed@)[before.len() as int] == pkgs[q as int].root@);
                assert forall|m: int|
                    0 <= m < k + 1 && (#[trigger] violations@[m]).kind == ViolationKind::Dependency
                        && violations@[m].referencing_package == i implies views(observed@).contains(
                        pkgs[violations@[m].referenced_package as int].root@,
                    ) by {
                    if m < k {
                        let y = pkgs[violations@[m].referenced_package as int].root@;
                        let t = choose|t: int| 0 <= t < before.len() && before[t] == y;
                        assert(views(observed@)[t] == y);
                    }
                }
            }
            k = k + 1;
        }
        let p = &packages[i];
        let mut dependencies = copy_list(&p.dependencies);
        let ghost old_deps = views(dependencies@);
        widen_dependencies(&mut dependencies, &observed);
        let ghost new_deps = views(dependencies@);
        proof {
            lemma_widened_shape(old_deps, views(observed@));
            assert forall|t: int| old_deps.len() <= t < new_deps.len() implies !old_deps.contains(
                #[trigger] new_deps[t],
            ) && exists|q: int| 0 <= q < pkgs.len() && q != i && pkgs[q].root@ == new_deps[t] && used(pkgs, fs, i as int, q) by {
                assert(new_deps.contains(new_deps[t]));
                assert(views(observed@).contains(new_deps[t]));
            }
        }
        let new_p = Package {
            root: copy_bytes(&p.root),
            dependencies,
            enforce_dependencies: p.enforce_dependencies,
            enforce_privacy: p.enforce_privacy,
            permissive: p.permissive,
            private_constants: copy_list(&p.private_constants),
            privacy_allow_list: copy_list(&p.privacy_allow_list),
        };
        assert(package_updated(pkgs, fs, i as int, new_p));
        updated.push(new_p);
        i = i + 1;
    }
    proof {
        assert forall|f: int, k: int, p: usize, q: usize|
            #[trigger] use_between(pkgs, fs, f, k, p, q) && p != q implies views(
            updated@[p as int].dependencies@,
        ).contains(pkgs[q as int].root@) by {
            lemma_use_by_roots(probes, pkgs, fs, f, k, p, q);
            let name = reference_name(fs, f, k);
            assert(probes[p as int].dependencies@.len() == 0);
            assert(!declares(probes, p as int, q as int));
            assert(dependency_breached(probes, p as int, q as int));
            assert(breached_kinds(probes, p as int, q as int, name)[0] == ViolationKind::Dependency);
            assert(owed(probes, fs, everything, f, k, p, q, 0));
            let m = choose|m: int|
                0 <= m < violations@.len() && (#[trigger] violations@[m]).file == f
                    && violations@[m].reference.offset == reference_span(fs, f, k).0
                    && violations@[m].referencing_package == p && violations@[m].referenced_package == q
                    && violations@[m].kind == ViolationKind::Dependency;
        }
    }
    Ok(Configuration { packages: updated })
}

} // verus!
