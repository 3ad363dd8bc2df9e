use vstd::prelude::*;

verus! {

/// How strictly a package's rule is applied.
#[derive(Clone, Copy, Debug, PartialEq, Eq, Structural)]
pub enum Enforcement {
    /// Breaches are reported.
    Enforced,
    /// Breaches are tolerated and not reported.
    Lenient,
    /// The rule is not evaluated.
    Off,
}

/// A path-rooted module boundary.
///
/// The root is the package's identity; it names a directory and ends with a
/// separator (`a/`), so that it is a byte prefix of exactly the paths of the
/// files below it. Dependencies and allow-list entries are roots of other
/// packages. A private constant entry is a name prefix (`A::Widget`).
#[derive(Clone, Debug)]
pub struct Package {
    pub root: Vec<u8>,
    pub dependencies: Vec<Vec<u8>>,
    pub enforce_dependencies: Enforcement,
    pub enforce_privacy: Enforcement,
    /// Any package may depend on a permissive package without declaring it.
    pub permissive: bool,
    pub private_constants: Vec<Vec<u8>>,
    pub privacy_allow_list: Vec<Vec<u8>>,
}

/// The package catalog of one run.
#[derive(Clone, Debug)]
pub struct Configuration {
    pub packages: Vec<Package>,
}

/// A file of the repository with its contents.
#[derive(Clone, Debug)]
pub struct SourceFile {
    pub path: Vec<u8>,
    pub content: Vec<u8>,
}

/// One use of a constant inside a file: the constant path, the byte offset
/// at which it starts, and its line and column (both counted from 1).
#[derive(Clone, Debug)]
pub struct Reference {
    pub name: Vec<u8>,
    pub offset: usize,
    pub line: usize,
    pub column: usize,
}

/// The rule that a violation breaches.
#[derive(Clone, Copy, Debug, PartialEq, Eq, Structural)]
pub enum ViolationKind {
    Dependency,
    Privacy,
}

/// A reference that breaches a rule. Packages are indices into the
/// configuration's package list, `file` an index into the checked files.
#[derive(Clone, Debug)]
pub struct Violation {
    pub kind: ViolationKind,
    pub referencing_package: usize,
    pub referenced_package: usize,
    pub file: usize,
    pub reference: Reference,
}

/// A region of a file that could not be read; extraction stopped there.
#[derive(Clone, Copy, Debug, PartialEq, Eq, Structural)]
pub struct ParseWarning {
    pub file: usize,
    pub offset: usize,
    pub line: usize,
    pub column: usize,
}

/// Two packages of the catalog declare the same root.
#[derive(Clone, Copy, Debug, PartialEq, Eq, Structural)]
pub struct CatalogError {
    pub first: usize,
    pub second: usize,
}

/// Whether no two packages share a root.
pub open spec fn roots_unique(pkgs: Seq<Package>) -> bool {
    forall|i: int, j: int|
        0 <= i < j < pkgs.len() ==> (#[trigger] pkgs[i]).root@ != (#[trigger] pkgs[j]).root@
}

/// Whether `root` is the root of some package.
pub open spec fn is_root(pkgs: Seq<Package>, root: Seq<u8>) -> bool {
    exists|k: int| 0 <= k < pkgs.len() && (#[trigger] pkgs[k]).root@ == root
}

} // verus!
