use vstd::prelude::*;

use crate::bytes::{bytes_eq, copy_bytes, views};
use crate::model::{is_root, roots_unique, CatalogError, Configuration, Package};

verus! {

/// A structural inconsistency of a configuration.
#[derive(Clone, Debug)]
pub enum ValidateError {
    /// Two packages declare the same root.
    DuplicateRoot { first: usize, second: usize },
    /// A package declares a dependency on a root that no package has.
    UnknownDependency { package: usize, dependency: Vec<u8> },
}

/// Whether every declared dependency is the root of some package.
pub open spec fn dependencies_known(pkgs: Seq<Package>) -> bool {
    forall|i: int, k: int|
        0 <= i < pkgs.len() && 0 <= k < pkgs[i].dependencies@.len()
            ==> is_root(pkgs, #[trigger] views(pkgs[i].dependencies@)[k])
}

/// Whether some package has the root `root`.
pub fn root_exists(packages: &Vec<Package>, root: &Vec<u8>) -> (r: bool)
    ensures
        r == is_root(packages@, root@),
{
    let mut i: usize = 0;
    while i < packages.len()
        invariant
            0 <= i <= packages@.len(),
            forall|k: int| 0 <= k < i ==> (#[trigger] packages@[k]).root@ != root@,
        decreases packages@.len() - i,
    {
        if bytes_eq(&packages[i].root, root) {
            return true;
        }
        i = i + 1;
    }
    false
}

/// The first pair of packages, in catalog order, that share a root.
pub fn find_duplicate_root(packages: &Vec<Package>) -> (r: Option<CatalogError>)
    ensures
        r is None <==> roots_unique(packages@),
        r matches Some(e) ==> e.first < e.second < packages@.len()
            && packages@[e.first as int].root@ == packages@[e.second as int].root@,
{
    let mut j: usize = 0;
    while j < packages.len()
        invariant
            0 <= j <= packages@.len(),
            forall|a: int, b: int|
                0 <= a < b < j ==> (#[trigger] packages@[a]).root@ != (#[trigger] packages@[b]).root@,
        decreases packages@.len() - j,
    {
        let mut i: usize = 0;
        while i < j
            invariant
                0 <= i <= j < packages@.len(),
                forall|a: int| 0 <= a < i ==> (#[trigger] packages@[a]).root@ != packages@[j as int].root@,
            decreases j - i,
        {
            if bytes_eq(&packages[i].root, &packages[j].root) {
                return Some(CatalogError { first: i, second: j });
            }
            i = i + 1;
        }
        j = j + 1;
    }
    None
}

/// Checks that no two packages share a root and that every declared
/// dependency names an existing package; reports the first inconsistency.
///
/// Cycles are not checked: a package has no strict mode that would forbid
/// them, so a cycle of declared dependencies is consistent. Private
/// constant entries are name prefixes, which any name that starts with them
/// satisfies, so no set of them is unsatisfiable and they need no check.
pub fn validate(configuration: &Configuration) -> (r: Result<(), ValidateError>)
    ensures
        r is Ok <==> roots_unique(configuration.packages@) && dependencies_known(configuration.packages@),
        r matches Err(ValidateError::DuplicateRoot { first, second }) ==> first < second
            < configuration.packages@.len() && configuration.packages@[first as int].root@
            == configuration.packages@[second as int].root@,
        r matches Err(ValidateError::UnknownDependency { package, dependency }) ==> package
            < configuration.packages@.len() && views(
            configuration.packages@[package as int].dependencies@,
        ).contains(dependency@) && !is_root(configuration.packages@, dependency@),
{
    let packages = &configuration.packages;
    match find_duplicate_root(packages) {
        Some(e) => {
            return Err(ValidateError::DuplicateRoot { first: e.first, second: e.second });
        },
        None => {},
    }
    let mut i: usize = 0;
    while i < packages.len()
        invariant
            packages == &configuration.packages,
            0 <= i <= packages@.len(),
            forall|a: int, k: int|
                0 <= a < i && 0 <= k < packages@[a].dependencies@.len() ==> is_root(
                    packages@,
                    #[trigger] views(packages@[a].dependencies@)[k],
                ),
        decreases packages@.len() - i,
    {
        let deps = &packages[i].dependencies;
        let mut k: usize = 0;
        while k < deps.len()
            invariant
                packages == &configuration.packages,
                0 <= i < packages@.len(),
                deps@ == packages@[i as int].dependencies@,
                0 <= k <= deps@.len(),
                forall|a: int, b: int|
                    0 <= a < i && 0 <= b < packages@[a].dependencies@.len() ==> is_root(
                        packages@,
                        #[trigger] views(packages@[a].dependencies@)[b],
                    ),
                forall|b: int| 0 <= b < k ==> is_root(packages@, #[trigger] views(deps@)[b]),
            decreases deps@.len() - k,
        {
            if !root_exists(packages, &deps[k]) {
                let dependency = copy_bytes(&deps[k]);
                assert(views(packages@[i as int].dependencies@)[k as int] == dependency@);
                assert(!dependencies_known(packages@));
                return Err(ValidateError::UnknownDependency { package: i, dependency });
            }
            k = k + 1;
        }
        i = i + 1;
    }
    Ok(())
}

} // verus!
