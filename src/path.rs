use vstd::prelude::*;

use crate::bytes::{is_prefix, starts_with};
use crate::model::Package;

verus! {

/// Whether package `i`'s root contains `path`.
pub open spec fn contains_path(pkgs: Seq<Package>, i: int, path: Seq<u8>) -> bool {
    0 <= i < pkgs.len() && is_prefix(pkgs[i].root@, path)
}

/// Whether `r` is the owner of `path` under longest-prefix matching: the
/// containing package with the longest root, the first such one in catalog
/// order, or none when no root contains the path.
pub open spec fn is_owner(pkgs: Seq<Package>, path: Seq<u8>, r: Option<usize>) -> bool {
    match r {
        Some(i) => {
            &&& contains_path(pkgs, i as int, path)
            &&& forall|j: int|
                #[trigger] contains_path(pkgs, j, path) ==> pkgs[j].root@.len() <= pkgs[i as int].root@.len()
            &&& forall|j: int|
                0 <= j < i && #[trigger] contains_path(pkgs, j, path) ==> pkgs[j].root@.len() < pkgs[i as int].root@.len()
        },
        None => forall|j: int| !#[trigger] contains_path(pkgs, j, path),
    }
}

/// The package that owns `path`: among the packages whose root is a prefix
/// of the path, the one with the longest root.
pub fn owning_package(packages: &Vec<Package>, path: &Vec<u8>) -> (r: Option<usize>)
    ensures
        is_owner(packages@, path@, r),
{
    let mut best: Option<usize> = None;
    let mut i: usize = 0;
    while i < packages.len()
        invariant
            0 <= i <= packages@.len(),
            match best {
                Some(b) => {
                    &&& b < i
                    &&& contains_path(packages@, b as int, path@)
                    &&& forall|j: int|
                        0 <= j < i && #[trigger] contains_path(packages@, j, path@)
                            ==> packages@[j].root@.len() <= packages@[b as int].root@.len()
                    &&& forall|j: int|
                        0 <= j < b && #[trigger] contains_path(packages@, j, path@)
                            ==> packages@[j].root@.len() < packages@[b as int].root@.len()
                },
                None => forall|j: int| 0 <= j < i ==> !#[trigger] contains_path(packages@, j, path@),
            },
        decreases packages@.len() - i,
    {
        if starts_with(&packages[i].root, path) {
            match best {
                Some(b) => {
                    if packages[i].root.len() > packages[b].root.len() {
                        best = Some(i);
                    }
                },
                None => {
                    best = Some(i);
                },
            }
        }
        i = i + 1;
    }
    best
}

/// Longest-prefix matching names at most one owner.
pub proof fn lemma_owner_unique(pkgs: Seq<Package>, path: Seq<u8>, a: Option<usize>, b: Option<usize>)
    requires
        is_owner(pkgs, path, a),
        is_owner(pkgs, path, b),
    ensures
        a == b,
{
    match (a, b) {
        (Some(x), Some(y)) => {
            assert(contains_path(pkgs, x as int, path));
            assert(contains_path(pkgs, y as int, path));
        },
        (Some(x), None) => {
            assert(contains_path(pkgs, x as int, path));
        },
        (None, Some(y)) => {
            assert(contains_path(pkgs, y as int, path));
        },
        (None, None) => {},
    }
}

/// A path inside the root of exactly one package is owned by that package.
pub proof fn lemma_single_container_owns(pkgs: Seq<Package>, path: Seq<u8>, i: int, r: Option<usize>)
    requires
        contains_path(pkgs, i, path),
        forall|j: int| j != i ==> !#[trigger] contains_path(pkgs, j, path),
        is_owner(pkgs, path, r),
    ensures
        r == Some(i as usize),
{
    assert(!(r is None) ==> r->Some_0 == i);
}

/// Nested roots: of two packages containing a path, the one with the
/// strictly deeper root is preferred, so the shallower never owns it.
pub proof fn lemma_deepest_root_wins(
    pkgs: Seq<Package>,
    path: Seq<u8>,
    outer: int,
    inner: int,
    r: Option<usize>,
)
    requires
        contains_path(pkgs, outer, path),
        contains_path(pkgs, inner, path),
        pkgs[outer].root@.len() < pkgs[inner].root@.len(),
        is_owner(pkgs, path, r),
    ensures
        r is Some,
        r->Some_0 as int != outer,
        pkgs[r->Some_0 as int].root@.len() >= pkgs[inner].root@.len(),
{
    if r is None {
        assert(!contains_path(pkgs, inner, path));
    }
}

} // verus!
