use vstd::prelude::*;

use crate::bytes::{any_prefix_of, copy_bytes, is_prefix, list_contains, views};
use crate::extract::{extract, found_in, lemma_scan_ordered, placed, refs_ordered, scan, spans, Extraction};
use crate::index::{
    build_index, definition_entries, entries, file_entries, first_definition, lemma_entries_in_range,
    lemma_first_definition_unique, resolve,
};
use crate::model::{
    roots_unique, CatalogError, Configuration, Enforcement, Package, ParseWarning, Reference,
    SourceFile, Violation, ViolationKind,
};
use crate::path::{contains_path, is_owner, lemma_owner_unique, lemma_single_container_owns, owning_package};
use crate::validate::find_duplicate_root;

verus! {

/// Whether package `p` declares package `q`'s root among its dependencies.
pub open spec fn declares(pkgs: Seq<Package>, p: int, q: int) -> bool {
    views(pkgs[p].dependencies@).contains(pkgs[q].root@)
}

/// Whether `name` falls under one of package `q`'s private constant entries.
pub open spec fn is_private(pkgs: Seq<Package>, q: int, name: Seq<u8>) -> bool {
    exists|k: int|
        0 <= k < pkgs[q].private_constants@.len() && is_prefix(
            #[trigger] views(pkgs[q].private_constants@)[k],
            name,
        )
}

/// Whether package `q` lets package `p` use its private constants.
pub open spec fn allows_private_use(pkgs: Seq<Package>, q: int, p: int) -> bool {
    views(pkgs[q].privacy_allow_list@).contains(pkgs[p].root@)
}

/// A use from package `p` of package `q` breaches the dependency rule.
pub open spec fn dependency_breached(pkgs: Seq<Package>, p: int, q: int) -> bool {
    &&& p != q
    &&& pkgs[p].enforce_dependencies == Enforcement::Enforced
    &&& !declares(pkgs, p, q)
    &&& !pkgs[q].permissive
}

/// A use of `name` from package `p`, defined in package `q`, breaches the
/// privacy rule.
pub open spec fn privacy_breached(pkgs: Seq<Package>, p: int, q: int, name: Seq<u8>) -> bool {
    &&& p != q
    &&& pkgs[q].enforce_privacy == Enforcement::Enforced
    &&& is_private(pkgs, q, name)
    &&& !allows_private_use(pkgs, q, p)
}

/// The rules, dependency first, that a use of `name` from package `p` of a
/// constant defined in package `q` breaches.
pub open spec fn breached_kinds(pkgs: Seq<Package>, p: int, q: int, name: Seq<u8>) -> Seq<ViolationKind> {
    (if dependency_breached(pkgs, p, q) {
        seq![ViolationKind::Dependency]
    } else {
        seq![]
    }) + (if privacy_breached(pkgs, p, q, name) {
        seq![ViolationKind::Privacy]
    } else {
        seq![]
    })
}

/// What a reported violation is owed to: a reference that stands in a
/// checked file owned by the referencing package, whose first definition
/// stands in a file owned by the referenced package, a rule that the use
/// breaches, and two distinct packages.
pub open spec fn violation_justified(
    pkgs: Seq<Package>,
    files: Seq<SourceFile>,
    only: Seq<Seq<u8>>,
    v: Violation,
) -> bool {
    &&& v.file < files.len()
    &&& v.referencing_package < pkgs.len()
    &&& v.referenced_package < pkgs.len()
    &&& v.referencing_package != v.referenced_package
    &&& is_owner(pkgs, files[v.file as int].path@, Some(v.referencing_package))
    &&& found_in(files[v.file as int].content@, v.reference)
    &&& placed(files[v.file as int].content@, v.reference)
    &&& exists|k: int|
        0 <= k < scan(files[v.file as int].content@, 0, false).0.len() && #[trigger] reference_span(
            files,
            v.file as int,
            k,
        ) == (v.reference.offset as int, v.reference.offset + v.reference.name@.len())
    &&& exists|g: usize|
        g < files.len() && #[trigger] first_definition(file_definitions(files), v.reference.name@, Some(g))
            && is_owner(pkgs, files[g as int].path@, Some(v.referenced_package))
    &&& (only.len() > 0 ==> only.contains(files[v.file as int].path@))
    &&& (v.kind == ViolationKind::Dependency ==> dependency_breached(
        pkgs,
        v.referencing_package as int,
        v.referenced_package as int,
    ))
    &&& (v.kind == ViolationKind::Privacy ==> privacy_breached(
        pkgs,
        v.referencing_package as int,
        v.referenced_package as int,
        v.reference.name@,
    ))
}

/// The constant path that a span of a file's text holds.
pub open spec fn text_at(c: Seq<u8>, span: (int, int)) -> Seq<u8> {
    c.subrange(span.0, span.1)
}

/// The definitions of one file's text, as (name, file) pairs.
pub open spec fn text_definitions(c: Seq<u8>, f: int) -> Seq<(Seq<u8>, int)> {
    scan(c, 0, false).1.map_values(|s: (int, int)| (text_at(c, s), f))
}

/// The definitions of all files, in file order, as (name, file) pairs.
pub open spec fn file_definitions(files: Seq<SourceFile>) -> Seq<(Seq<u8>, int)>
    decreases files.len(),
{
    if files.len() == 0 {
        seq![]
    } else {
        file_definitions(files.drop_last()) + text_definitions(files.last().content@, files.len() - 1)
    }
}

/// The span of the `k`-th reference of file `f`.
pub open spec fn reference_span(files: Seq<SourceFile>, f: int, k: int) -> (int, int) {
    scan(files[f].content@, 0, false).0[k]
}

/// The name of the `k`-th reference of file `f`.
pub open spec fn reference_name(files: Seq<SourceFile>, f: int, k: int) -> Seq<u8> {
    text_at(files[f].content@, reference_span(files, f, k))
}

/// Whether the file with this path is among those checked.
pub open spec fn selected(only: Seq<Seq<u8>>, path: Seq<u8>) -> bool {
    only.len() == 0 || only.contains(path)
}

/// The `k`-th reference of file `f`, a file of package `p`, resolves to a
/// file of package `q`.
pub open spec fn use_between(pkgs: Seq<Package>, files: Seq<SourceFile>, f: int, k: int, p: usize, q: usize) -> bool {
    &&& 0 <= f < files.len()
    &&& 0 <= k < scan(files[f].content@, 0, false).0.len()
    &&& is_owner(pkgs, files[f].path@, Some(p))
    &&& exists|g: usize|
        g < files.len() && #[trigger] first_definition(file_definitions(files), reference_name(files, f, k), Some(g))
            && is_owner(pkgs, files[g as int].path@, Some(q))
}

/// A check owes the `j`-th breached rule of the `k`-th reference of file `f`.
pub open spec fn owed(
    pkgs: Seq<Package>,
    files: Seq<SourceFile>,
    only: Seq<Seq<u8>>,
    f: int,
    k: int,
    p: usize,
    q: usize,
    j: int,
) -> bool {
    &&& use_between(pkgs, files, f, k, p, q)
    &&& selected(only, files[f].path@)
    &&& 0 <= j < breached_kinds(pkgs, p as int, q as int, reference_name(files, f, k)).len()
}

/// Whether `vs` holds a violation of this kind for the reference of file
/// `f` at `offset`, from package `p` to package `q`.
pub open spec fn is_reported(vs: Seq<Violation>, f: int, offset: int, p: usize, q: usize, kind: ViolationKind) -> bool {
    exists|m: int|
        0 <= m < vs.len() && (#[trigger] vs[m]).file == f && vs[m].reference.offset == offset
            && vs[m].referencing_package == p && vs[m].referenced_package == q && vs[m].kind == kind
}

/// The index built from the extractions of the files is the one that the
/// files' texts define.
proof fn lemma_index_of_files(extractions: Seq<Extraction>, files: Seq<SourceFile>)
    requires
        extractions.len() == files.len(),
        forall|f: int|
            0 <= f < files.len() ==> spans(#[trigger] extractions[f].definitions@) == scan(
                files[f].content@,
                0,
                false,
            ).1,
        forall|f: int, k: int|
            0 <= f < files.len() && 0 <= k < extractions[f].definitions@.len() ==> found_in(
                files[f].content@,
                #[trigger] extractions[f].definitions@[k],
            ),
    ensures
        definition_entries(extractions) == file_definitions(files),
    decreases files.len(),
{
    if files.len() > 0 {
        let n = files.len() - 1;
        let ex0 = extractions.drop_last();
        let fs0 = files.drop_last();
        assert forall|f: int| 0 <= f < fs0.len() implies spans(#[trigger] ex0[f].definitions@) == scan(
            fs0[f].content@,
            0,
            false,
        ).1 by {
            assert(ex0[f] == extractions[f]);
            assert(fs0[f] == files[f]);
        }
        assert forall|f: int, k: int| 0 <= f < fs0.len() && 0 <= k < ex0[f].definitions@.len() implies found_in(
            fs0[f].content@,
            #[trigger] ex0[f].definitions@[k],
        ) by {
            assert(ex0[f] == extractions[f]);
            assert(fs0[f] == files[f]);
        }
        lemma_index_of_files(ex0, fs0);
        let defs = extractions[n].definitions@;
        let c = files[n].content@;
        assert(spans(defs) == scan(c, 0, false).1);
        assert(file_entries(defs, n) =~= text_definitions(c, n)) by {
            assert forall|k: int| 0 <= k < defs.len() implies #[trigger] file_entries(defs, n)[k]
                == text_definitions(c, n)[k] by {
                assert(spans(defs)[k] == (defs[k].offset as int, defs[k].offset + defs[k].name@.len()));
                assert(found_in(c, defs[k]));
            }
        }
        assert(extractions.last() == extractions[n]);
        assert(files.last() == files[n]);
    }
}

/// The warnings of a check: one for each file whose text holds an unclosed
/// string, at that string.
pub open spec fn warnings_exact(ws: Seq<ParseWarning>, files: Seq<SourceFile>) -> bool {
    &&& forall|k: int|
        0 <= k < ws.len() ==> {
            let w = #[trigger] ws[k];
            w.file < files.len() && scan(files[w.file as int].content@, 0, false).2 == Some(w.offset as int)
        }
    &&& forall|g: int|
        0 <= g < files.len() && (#[trigger] scan(files[g].content@, 0, false).2) is Some ==> exists|k: int|
            0 <= k < ws.len() && (#[trigger] ws[k]).file == g
}

/// Some reference of the files is a use, from package `p`, of a constant
/// that package `q` defines.
pub open spec fn used(pkgs: Seq<Package>, files: Seq<SourceFile>, p: int, q: int) -> bool {
    exists|f: int, k: int| #[trigger] use_between(pkgs, files, f, k, p as usize, q as usize)
}

/// A reported violation stands for a use between its two packages.
pub proof fn lemma_violation_is_use(pkgs: Seq<Package>, files: Seq<SourceFile>, only: Seq<Seq<u8>>, v: Violation)
    requires
        violation_justified(pkgs, files, only, v),
    ensures
        used(pkgs, files, v.referencing_package as int, v.referenced_package as int),
{
    let f = v.file as int;
    let c = files[f].content@;
    let k = choose|k: int|
        0 <= k < scan(c, 0, false).0.len() && #[trigger] reference_span(files, f, k) == (
            v.reference.offset as int,
            v.reference.offset + v.reference.name@.len(),
        );
    assert(reference_name(files, f, k) == v.reference.name@);
    assert(use_between(pkgs, files, f, k, v.referencing_package, v.referenced_package));
    assert(use_between(
        pkgs,
        files,
        f,
        k,
        (v.referencing_package as int) as usize,
        (v.referenced_package as int) as usize,
    ));
}

/// Whether two violations are the same report: same file, offset, rule
/// and packages.
pub open spec fn same_report(v: Violation, w: Violation) -> bool {
    &&& v.file == w.file
    &&& v.reference.offset == w.reference.offset
    &&& v.kind == w.kind
    &&& v.referencing_package == w.referencing_package
    &&& v.referenced_package == w.referenced_package
}

/// Whether no violation is reported twice.
pub open spec fn distinct_reports(vs: Seq<Violation>) -> bool {
    forall|a: int, b: int| 0 <= a < b < vs.len() ==> !same_report(#[trigger] vs[a], #[trigger] vs[b])
}

/// Appending to a violation list keeps what it reported.
proof fn lemma_reported_kept(vs: Seq<Violation>, ws: Seq<Violation>)
    requires
        vs.len() <= ws.len(),
        forall|m: int| 0 <= m < vs.len() ==> ws[m] == vs[m],
    ensures
        forall|f: int, offset: int, p: usize, q: usize, kind: ViolationKind|
            #[trigger] is_reported(vs, f, offset, p, q, kind) ==> is_reported(ws, f, offset, p, q, kind),
{
    assert forall|f: int, offset: int, p: usize, q: usize, kind: ViolationKind|
        #[trigger] is_reported(vs, f, offset, p, q, kind) implies is_reported(ws, f, offset, p, q, kind) by {
        let m = choose|m: int|
            0 <= m < vs.len() && (#[trigger] vs[m]).file == f && vs[m].reference.offset == offset
                && vs[m].referencing_package == p && vs[m].referenced_package == q && vs[m].kind == kind;
        assert(ws[m] == vs[m]);
    }
}

/// The outcome of a check: the violations found and the files, or parts of
/// files, that could not be read.
#[derive(Clone, Debug)]
pub struct CheckReport {
    pub violations: Vec<Violation>,
    pub warnings: Vec<ParseWarning>,
}

/// A fresh copy of a reference.
pub fn copy_reference(r: &Reference) -> (c: Reference)
    ensures
        c.name@ == r.name@,
        c.offset == r.offset,
        c.line == r.line,
        c.column == r.column,
{
    Reference { name: copy_bytes(&r.name), offset: r.offset, line: r.line, column: r.column }
}

/// Whether package `p` declares package `q`.
fn declares_exec(packages: &Vec<Package>, p: usize, q: usize) -> (r: bool)
    requires
        p < packages@.len(),
        q < packages@.len(),
    ensures
        r == declares(packages@, p as int, q as int),
{
    list_contains(&packages[p].dependencies, &packages[q].root)
}

/// Appends to `out` one violation for each rule that a use of `reference`,
/// made in file `file` of package `p` and resolved to package `q`, breaches.
pub fn evaluate_reference(
    packages: &Vec<Package>,
    p: usize,
    q: usize,
    file: usize,
    reference: &Reference,
    out: &mut Vec<Violation>,
)
    requires
        p < packages@.len(),
        q < packages@.len(),
    ensures
        final(out)@.len() == old(out)@.len() + breached_kinds(packages@, p as int, q as int, reference.name@).len(),
        forall|k: int| 0 <= k < old(out)@.len() ==> final(out)@[k] == old(out)@[k],
        forall|k: int|
            0 <= k < breached_kinds(packages@, p as int, q as int, reference.name@).len() ==> {
                let v = #[trigger] final(out)@[old(out)@.len() + k];
                &&& v.kind == breached_kinds(packages@, p as int, q as int, reference.name@)[k]
                &&& v.referencing_package == p
                &&& v.referenced_package == q
                &&& v.file == file
                &&& v.reference.name@ == reference.name@
                &&& v.reference.offset == reference.offset
                &&& v.reference.line == reference.line
                &&& v.reference.column == reference.column
            },
{
    let ghost pkgs = packages@;
    let ghost before = out@;
    let ghost kinds = breached_kinds(pkgs, p as int, q as int, reference.name@);
    let dependency = p != q && packages[p].enforce_dependencies == Enforcement::Enforced
        && !declares_exec(packages, p, q) && !packages[q].permissive;
    let privacy = p != q && packages[q].enforce_privacy == Enforcement::Enforced
        && any_prefix_of(&packages[q].private_constants, &reference.name)
        && !list_contains(&packages[q].privacy_allow_list, &packages[p].root);
    assert(dependency == dependency_breached(pkgs, p as int, q as int));
    assert(privacy == privacy_breached(pkgs, p as int, q as int, reference.name@));
    if dependency {
        out.push(
            Violation {
                kind: ViolationKind::Dependency,
                referencing_package: p,
                referenced_package: q,
                file,
                reference: copy_reference(reference),
            },
        );
    }
    if privacy {
        out.push(
            Violation {
                kind: ViolationKind::Privacy,
                referencing_package: p,
                referenced_package: q,
                file,
                reference: copy_reference(reference),
            },
        );
    }
    assert(kinds.len() == (if dependency { 1int } else { 0 }) + (if privacy { 1int } else { 0 }));
    if dependency {
        assert(kinds[0] == ViolationKind::Dependency);
    }
    if privacy {
        assert(kinds[kinds.len() - 1] == ViolationKind::Privacy);
    }
}

/// A use within one package breaches no rule.
pub proof fn lemma_self_reference_never_violates(pkgs: Seq<Package>, p: int, name: Seq<u8>)
    ensures
        breached_kinds(pkgs, p, p, name).len() == 0,
{
    assert(!dependency_breached(pkgs, p, p));
    assert(!privacy_breached(pkgs, p, p, name));
}

/// Every violation that a check reports joins two distinct packages.
pub proof fn lemma_reported_violation_not_self(
    pkgs: Seq<Package>,
    files: Seq<SourceFile>,
    only: Seq<Seq<u8>>,
    v: Violation,
)
    requires
        violation_justified(pkgs, files, only, v),
    ensures
        v.referencing_package != v.referenced_package,
{
}

/// A check judges a file inside the root of exactly one package as that
/// package's: every violation reported for it, and every one owed, has
/// that package as the referencing one.
pub proof fn lemma_check_judges_single_root(
    pkgs: Seq<Package>,
    files: Seq<SourceFile>,
    only: Seq<Seq<u8>>,
    f: int,
    p: int,
)
    requires
        0 <= f < files.len(),
        contains_path(pkgs, p, files[f].path@),
        forall|j: int| j != p ==> !#[trigger] contains_path(pkgs, j, files[f].path@),
    ensures
        forall|v: Violation|
            violation_justified(pkgs, files, only, v) && v.file == f ==> #[trigger] v.referencing_package == p,
        forall|k: int, p2: usize, q: usize, j: int|
            #[trigger] owed(pkgs, files, only, f, k, p2, q, j) ==> p2 == p,
{
    assert forall|v: Violation|
        violation_justified(pkgs, files, only, v) && v.file == f implies #[trigger] v.referencing_package == p by {
        lemma_single_container_owns(pkgs, files[f].path@, p, Some(v.referencing_package));
    }
    assert forall|k: int, p2: usize, q: usize, j: int| #[trigger] owed(pkgs, files, only, f, k, p2, q, j) implies p2 == p by {
        lemma_single_container_owns(pkgs, files[f].path@, p, Some(p2));
    }
}

/// Extracts every file, resolves each reference of the checked files to the
/// package that defines it and reports the uses that breach a rule.
///
/// With `only` non-empty, just the files whose paths it lists are checked;
/// definitions are taken from all files either way. References that no file
/// defines, and files that no package owns, are passed over. The check
/// fails only on a catalog in which two packages share a root.
pub fn check(configuration: &Configuration, files: &Vec<SourceFile>, only: &Vec<Vec<u8>>) -> (r: Result<
    CheckReport,
    CatalogError,
>)
    ensures
        r is Err <==> !roots_unique(configuration.packages@),
        r matches Err(e) ==> e.first < e.second < configuration.packages@.len()
            && configuration.packages@[e.first as int].root@ == configuration.packages@[e.second as int].root@,
        r matches Ok(report) ==> forall|k: int|
            0 <= k < report.violations@.len() ==> violation_justified(
                configuration.packages@,
                files@,
                views(only@),
                #[trigger] report.violations@[k],
            ),
        r matches Ok(report) ==> forall|f: int, k: int, p: usize, q: usize, j: int|
            #[trigger] owed(configuration.packages@, files@, views(only@), f, k, p, q, j) ==> is_reported(
                report.violations@,
                f,
                reference_span(files@, f, k).0,
                p,
                q,
                breached_kinds(configuration.packages@, p as int, q as int, reference_name(files@, f, k))[j],
            ),
        r matches Ok(report) ==> warnings_exact(report.warnings@, files@),
        r matches Ok(report) ==> distinct_reports(report.violations@),
{
    let packages = &configuration.packages;
    match find_duplicate_root(packages) {
        Some(e) => {
            return Err(e);
        },
        None => {},
    }
    let ghost pkgs = packages@;
    let ghost fs = files@;
    let ghost sel = views(only@);
    let mut extractions: Vec<Extraction> = Vec::new();
    let mut warnings: Vec<ParseWarning> = Vec::new();
    let mut f: usize = 0;
    while f < files.len()
        invariant
            fs == files@,
            0 <= f <= files@.len(),
            extractions@.len() == f,
            forall|g: int| 0 <= g < f ==> spans(#[trigger] extractions@[g].references@) == scan(fs[g].content@, 0, false).0,
            forall|g: int| 0 <= g < f ==> spans(#[trigger] extractions@[g].definitions@) == scan(fs[g].content@, 0, false).1,
            forall|g: int, k: int|
                0 <= g < f && 0 <= k < extractions@[g].references@.len() ==> found_in(
                    fs[g].content@,
                    #[trigger] extractions@[g].references@[k],
                ),
            forall|g: int, k: int|
                0 <= g < f && 0 <= k < extractions@[g].references@.len() ==> placed(
                    fs[g].content@,
                    #[trigger] extractions@[g].references@[k],
                ),
            forall|g: int, k: int|
                0 <= g < f && 0 <= k < extractions@[g].definitions@.len() ==> found_in(
                    fs[g].content@,
                    #[trigger] extractions@[g].definitions@[k],
                ),
            forall|k: int|
                0 <= k < warnings@.len() ==> {
                    let w = #[trigger] warnings@[k];
                    w.file < f && scan(fs[w.file as int].content@, 0, false).2 == Some(w.offset as int)
                },
            forall|g: int|
                0 <= g < f && (#[trigger] scan(fs[g].content@, 0, false).2) is Some ==> exists|k: int|
                    0 <= k < warnings@.len() && (#[trigger] warnings@[k]).file == g,
        decreases files@.len() - f,
    {
        let extraction = extract(f, &files[f].content);
        let ghost old_warnings = warnings@;
        match extraction.warning {
            Some(w) => {
                warnings.push(w);
                assert(warnings@[old_warnings.len() as int].file == f);
            },
            None => {},
        }
        assert forall|g: int|
            0 <= g < f + 1 && (#[trigger] scan(fs[g].content@, 0, false).2) is Some implies exists|k: int|
                0 <= k < warnings@.len() && (#[trigger] warnings@[k]).file == g by {
            if g < f {
                let k = choose|k: int| 0 <= k < old_warnings.len() && (#[trigger] old_warnings[k]).file == g;
                assert(warnings@[k] == old_warnings[k]);
            }
        }
        extractions.push(extraction);
        f = f + 1;
    }
    let index = build_index(&extractions);
    assert(warnings_exact(warnings@, fs));
    proof {
        lemma_index_of_files(extractions@, fs);
        lemma_entries_in_range(extractions@);
    }
    let mut violations: Vec<Violation> = Vec::new();
    let mut f: usize = 0;
    while f < files.len()
        invariant
            packages == &configuration.packages,
            pkgs == packages@,
            fs == files@,
            sel == views(only@),
            warnings_exact(warnings@, fs),
            0 <= f <= files@.len(),
            extractions@.len() == files@.len(),
            forall|g: int, k: int|
                0 <= g < fs.len() && 0 <= k < extractions@[g].references@.len() ==> placed(
                    fs[g].content@,
                    #[trigger] extractions@[g].references@[k],
                ),
            distinct_reports(violations@),
            forall|m: int| 0 <= m < violations@.len() ==> (#[trigger] violations@[m]).file < f,
            forall|g: int| 0 <= g < fs.len() ==> spans(#[trigger] extractions@[g].references@) == scan(fs[g].content@, 0, false).0,
            forall|g: int, k: int|
                0 <= g < files@.len() && 0 <= k < extractions@[g].references@.len() ==> found_in(
                    files@[g].content@,
                    #[trigger] extractions@[g].references@[k],
                ),
            entries(index@) == file_definitions(fs),
            forall|k: int| 0 <= k < file_definitions(fs).len() ==> 0 <= (#[trigger] file_definitions(fs)[k]).1 < fs.len(),
            forall|k: int|
                0 <= k < violations@.len() ==> violation_justified(
                    packages@,
                    files@,
                    views(only@),
                    #[trigger] violations@[k],
                ),
            forall|g: int, k: int, p: usize, q: usize, j: int|
                0 <= g < f && #[trigger] owed(pkgs, fs, sel, g, k, p, q, j) ==> is_reported(
                    violations@,
                    g,
                    reference_span(fs, g, k).0,
                    p,
                    q,
                    breached_kinds(pkgs, p as int, q as int, reference_name(fs, g, k))[j],
                ),
        decreases files@.len() - f,
    {
        let is_selected = only.len() == 0 || list_contains(only, &files[f].path);
        let owner = owning_package(packages, &files[f].path);
        if is_selected && owner.is_some() {
            let p = owner.unwrap();
            let references = &extractions[f].references;
            proof {
                lemma_scan_ordered(fs[f as int].content@, 0, false);
                assert forall|j: int| 0 <= j < references@.len() implies placed(fs[f as int].content@, #[trigger] references@[j]) by {
                    assert(references@[j] == extractions@[f as int].references@[j]);
                }
            }
            let mut k: usize = 0;
            while k < references.len()
                invariant
                    packages == &configuration.packages,
                    pkgs == packages@,
                    fs == files@,
                    sel == views(only@),
                    warnings_exact(warnings@, fs),
                    0 <= f < files@.len(),
                    p < packages@.len(),
                    is_owner(packages@, files@[f as int].path@, Some(p)),
                    selected(sel, fs[f as int].path@),
                    references@ == extractions@[f as int].references@,
                    spans(references@) == scan(fs[f as int].content@, 0, false).0,
                    refs_ordered(fs[f as int].content@, 0, false),
                    forall|j: int| 0 <= j < references@.len() ==> placed(fs[f as int].content@, #[trigger] references@[j]),
                    distinct_reports(violations@),
                    forall|m: int| 0 <= m < violations@.len() ==> (#[trigger] violations@[m]).file <= f,
                    forall|m: int, k2: int|
                        0 <= m < violations@.len() && k <= k2 < references@.len() ==> (#[trigger] violations@[m]).file < f
                            || violations@[m].reference.offset < (#[trigger] reference_span(fs, f as int, k2)).0,
                    forall|j: int|
                        0 <= j < references@.len() ==> found_in(
                            files@[f as int].content@,
                            #[trigger] references@[j],
                        ),
                    entries(index@) == file_definitions(fs),
                    forall|j: int| 0 <= j < file_definitions(fs).len() ==> 0 <= (#[trigger] file_definitions(fs)[j]).1 < fs.len(),
                    0 <= k <= references@.len(),
                    forall|j: int|
                        0 <= j < violations@.len() ==> violation_justified(
                            packages@,
                            files@,
                            views(only@),
                            #[trigger] violations@[j],
                        ),
                    forall|g: int, k2: int, p2: usize, q: usize, j: int|
                        0 <= g < f && #[trigger] owed(pkgs, fs, sel, g, k2, p2, q, j) ==> is_reported(
                            violations@,
                            g,
                            reference_span(fs, g, k2).0,
                            p2,
                            q,
                            breached_kinds(pkgs, p2 as int, q as int, reference_name(fs, g, k2))[j],
                        ),
                    forall|k2: int, p2: usize, q: usize, j: int|
                        0 <= k2 < k && #[trigger] owed(pkgs, fs, sel, f as int, k2, p2, q, j) ==> is_reported(
                            violations@,
                            f as int,
                            reference_span(fs, f as int, k2).0,
                            p2,
                            q,
                            breached_kinds(pkgs, p2 as int, q as int, reference_name(fs, f as int, k2))[j],
                        ),
                decreases references@.len() - k,
            {
                let reference = &references[k];
                let ghost before = violations@;
                proof {
                    assert(spans(references@)[k as int] == (reference.offset as int, reference.offset
                        + reference.name@.len()));
                    assert(found_in(fs[f as int].content@, *reference));
                    assert(reference_name(fs, f as int, k as int) == reference.name@);
                    assert(reference_span(fs, f as int, k as int).0 == reference.offset);
                }
                let resolved = resolve(&index, &reference.name);
                let mut target: Option<usize> = None;
                if resolved.is_some() {
                    let g = resolved.unwrap();
                    proof {
                        let kk = choose|kk: int|
                            0 <= kk < entries(index@).len() && (#[trigger] entries(index@)[kk]).0 == reference.name@
                                && entries(index@)[kk].1 == g && forall|j: int|
                                0 <= j < kk ==> (#[trigger] entries(index@)[j]).0 != reference.name@;
                        assert(file_definitions(fs)[kk].1 == g);
                    }
                    target = owning_package(packages, &files[g].path);
                    if target.is_some() {
                        let q = target.unwrap();
                        if p != q {
                            evaluate_reference(packages, p, q, f, reference, &mut violations);
                            assert forall|j: int|
                                0 <= j < violations@.len() implies violation_justified(
                                packages@,
                                files@,
                                views(only@),
                                #[trigger] violations@[j],
                            ) by {
                                if j >= before.len() {
                                    let i = j - before.len();
                                    assert(violations@[before.len() + i] == violations@[j]);
                                    assert(violations@[j].reference.name@ == reference.name@);
                                    assert(found_in(files@[f as int].content@, *reference));
                                    assert(first_definition(file_definitions(fs), reference.name@, Some(g)));
                                    assert(reference_span(fs, f as int, k as int) == (reference.offset as int, reference.offset + reference.name@.len()));
                                    assert(placed(fs[f as int].content@, *reference));
                                }
                            }
                            proof {
                                let kinds = breached_kinds(packages@, p as int, q as int, reference.name@);
                                assert forall|a: int, b: int| 0 <= a < b < violations@.len() implies !same_report(
                                    #[trigger] violations@[a],
                                    #[trigger] violations@[b],
                                ) by {
                                    if b >= before.len() {
                                        assert(violations@[before.len() + (b - before.len())] == violations@[b]);
                                        if a >= before.len() {
                                            assert(violations@[before.len() + (a - before.len())] == violations@[a]);
                                            assert(kinds[a - before.len()] != kinds[b - before.len()]);
                                        } else {
                                            assert(violations@[a] == before[a]);
                                        }
                                    } else {
                                        assert(violations@[a] == before[a]);
                                        assert(violations@[b] == before[b]);
                                    }
                                }
                                assert forall|m: int, k2: int|
                                    0 <= m < violations@.len() && k + 1 <= k2 < references@.len() implies (
                                #[trigger] violations@[m]).file < f || violations@[m].reference.offset < (
                                #[trigger] reference_span(fs, f as int, k2)).0 by {
                                    if m >= before.len() {
                                        assert(violations@[before.len() + (m - before.len())] == violations@[m]);
                                        assert(scan(fs[f as int].content@, 0, false).0[k as int].0 < scan(fs[f as int].content@, 0, false).0[k2].0);
                                    } else {
                                        assert(violations@[m] == before[m]);
                                    }
                                }
                                assert forall|m: int| 0 <= m < violations@.len() implies (#[trigger] violations@[m]).file <= f by {
                                    if m >= before.len() {
                                        assert(violations@[before.len() + (m - before.len())] == violations@[m]);
                                    } else {
                                        assert(violations@[m] == before[m]);
                                    }
                                }
                            }
                        }
                    }
                }
                proof {
                    lemma_reported_kept(before, violations@);
                    assert forall|k2: int, p2: usize, q2: usize, j: int|
                        0 <= k2 < k + 1 && #[trigger] owed(pkgs, fs, sel, f as int, k2, p2, q2, j) implies is_reported(
                        violations@,
                        f as int,
                        reference_span(fs, f as int, k2).0,
                        p2,
                        q2,
                        breached_kinds(pkgs, p2 as int, q2 as int, reference_name(fs, f as int, k2))[j],
                    ) by {
                        let kinds = breached_kinds(pkgs, p2 as int, q2 as int, reference_name(fs, f as int, k2));
                        if k2 < k {
                            assert(is_reported(
                                before,
                                f as int,
                                reference_span(fs, f as int, k2).0,
                                p2,
                                q2,
                                kinds[j],
                            ));
                        } else {
                            lemma_owner_unique(pkgs, fs[f as int].path@, Some(p), Some(p2));
                            let g2 = choose|g2: usize|
                                g2 < fs.len() && #[trigger] first_definition(
                                    file_definitions(fs),
                                    reference_name(fs, f as int, k2),
                                    Some(g2),
                                ) && is_owner(pkgs, fs[g2 as int].path@, Some(q2));
                            lemma_first_definition_unique(
                                file_definitions(fs),
                                reference.name@,
                                resolved,
                                Some(g2),
                            );
                            lemma_owner_unique(pkgs, fs[g2 as int].path@, target, Some(q2));
                            if p == q2 {
                                lemma_self_reference_never_violates(pkgs, p as int, reference.name@);
                            } else {
                                assert(violations@[before.len() + j].kind == kinds[j]);
                            }
                        }
                    }
                    assert forall|g: int, k2: int, p2: usize, q2: usize, j: int|
                        0 <= g < f && #[trigger] owed(pkgs, fs, sel, g, k2, p2, q2, j) implies is_reported(
                        violations@,
                        g,
                        reference_span(fs, g, k2).0,
                        p2,
                        q2,
                        breached_kinds(pkgs, p2 as int, q2 as int, reference_name(fs, g, k2))[j],
                    ) by {
                        assert(is_reported(
                            before,
                            g,
                            reference_span(fs, g, k2).0,
                            p2,
                            q2,
                            breached_kinds(pkgs, p2 as int, q2 as int, reference_name(fs, g, k2))[j],
                        ));
                    }
                }
                k = k + 1;
            }
        } else {
            proof {
                assert forall|k2: int, p2: usize, q: usize, j: int|
                    #[trigger] owed(pkgs, fs, sel, f as int, k2, p2, q, j) implies false by {
                    if is_selected {
                        lemma_owner_unique(pkgs, fs[f as int].path@, owner, Some(p2));
                    }
                }
            }
        }
        f = f + 1;
    }
    Ok(CheckReport { violations, warnings })
}

} // verus!
