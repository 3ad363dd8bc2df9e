use vstd::prelude::*;

use crate::bytes::{bytes_eq, views};
use crate::model::{Configuration, Enforcement, Package};

verus! {

/// The key of the root line.
pub open spec fn root_key() -> Seq<u8> {
    seq![114u8, 111, 111, 116, 58, 32]
}

/// The key of the dependency enforcement line.
pub open spec fn dependencies_mode_key() -> Seq<u8> {
    seq![101u8, 110, 102, 111, 114, 99, 101, 95, 100, 101, 112, 101, 110, 100, 101, 110, 99, 105, 101, 115, 58, 32]
}

/// The key of the privacy enforcement line.
pub open spec fn privacy_mode_key() -> Seq<u8> {
    seq![101u8, 110, 102, 111, 114, 99, 101, 95, 112, 114, 105, 118, 97, 99, 121, 58, 32]
}

/// The key of the permissive line.
pub open spec fn permissive_key() -> Seq<u8> {
    seq![112u8, 101, 114, 109, 105, 115, 115, 105, 118, 101, 58, 32]
}

/// The header of the dependency list.
pub open spec fn dependencies_key() -> Seq<u8> {
    seq![100u8, 101, 112, 101, 110, 100, 101, 110, 99, 105, 101, 115, 58]
}

/// The header of the private constant list.
pub open spec fn private_constants_key() -> Seq<u8> {
    seq![112u8, 114, 105, 118, 97, 116, 101, 95, 99, 111, 110, 115, 116, 97, 110, 116, 115, 58]
}

/// The header of the privacy allow-list.
pub open spec fn allow_list_key() -> Seq<u8> {
    seq![112u8, 114, 105, 118, 97, 99, 121, 95, 97, 108, 108, 111, 119, 95, 108, 105, 115, 116, 58]
}

/// What opens a list item.
pub open spec fn item_mark() -> Seq<u8> {
    seq![32u8, 32, 45, 32]
}

/// The text `true`.
pub open spec fn true_word() -> Seq<u8> {
    seq![116u8, 114, 117, 101]
}

/// The text `false`.
pub open spec fn false_word() -> Seq<u8> {
    seq![102u8, 97, 108, 115, 101]
}

/// The text `lenient`.
pub open spec fn lenient_word() -> Seq<u8> {
    seq![108u8, 101, 110, 105, 101, 110, 116]
}

/// Appends the text of `root_key`.
pub(crate) fn push_root_key(out: &mut Vec<u8>)
    ensures
        final(out)@ == old(out)@ + root_key(),
{
    let ghost start = out@;
    out.push(114);
    out.push(111);
    out.push(111);
    out.push(116);
    out.push(58);
    out.push(32);
    assert(out@ =~= start + root_key());
}

/// Appends the text of `dependencies_mode_key`.
pub(crate) fn push_dependencies_mode_key(out: &mut Vec<u8>)
    ensures
        final(out)@ == old(out)@ + dependencies_mode_key(),
{
    let ghost start = out@;
    out.push(101);
    out.push(110);
    out.push(102);
    out.push(111);
    out.push(114);
    out.push(99);
    out.push(101);
    out.push(95);
    out.push(100);
    out.push(101);
    out.push(112);
    out.push(101);
    out.push(110);
    out.push(100);
    out.push(101);
    out.push(110);
    out.push(99);
    out.push(105);
    out.push(101);
    out.push(115);
    out.push(58);
    out.push(32);
    assert(out@ =~= start + dependencies_mode_key());
}

/// Appends the text of `privacy_mode_key`.
pub(crate) fn push_privacy_mode_key(out: &mut Vec<u8>)
    ensures
        final(out)@ == old(out)@ + privacy_mode_key(),
{
    let ghost start = out@;
    out.push(101);
    out.push(110);
    out.push(102);
    out.push(111);
    out.push(114);
    out.push(99);
    out.push(101);
    out.push(95);
    out.push(112);
    out.push(114);
    out.push(105);
    out.push(118);
    out.push(97);
    out.push(99);
    out.push(121);
    out.push(58);
    out.push(32);
    assert(out@ =~= start + privacy_mode_key());
}

/// Appends the text of `permissive_key`.
pub(crate) fn push_permissive_key(out: &mut Vec<u8>)
    ensures
        final(out)@ == old(out)@ + permissive_key(),
{
    let ghost start = out@;
    out.push(112);
    out.push(101);
    out.push(114);
    out.push(109);
    out.push(105);
    out.push(115);
    out.push(115);
    out.push(105);
    out.push(118);
    out.push(101);
    out.push(58);
    out.push(32);
    assert(out@ =~= start + permissive_key());
}

/// Appends the text of `dependencies_key`.
pub(crate) fn push_dependencies_key(out: &mut Vec<u8>)
    ensures
        final(out)@ == old(out)@ + dependencies_key(),
{
    let ghost start = out@;
    out.push(100);
    out.push(101);
    out.push(112);
    out.push(101);
    out.push(110);
    out.push(100);
    out.push(101);
    out.push(110);
    out.push(99);
    out.push(105);
    out.push(101);
    out.push(115);
    out.push(58);
    assert(out@ =~= start + dependencies_key());
}

/// Appends the text of `private_constants_key`.
pub(crate) fn push_private_constants_key(out: &mut Vec<u8>)
    ensures
        final(out)@ == old(out)@ + private_constants_key(),
{
    let ghost start = out@;
    out.push(112);
    out.push(114);
    out.push(105);
    out.push(118);
    out.push(97);
    out.push(116);
    out.push(101);
    out.push(95);
    out.push(99);
    out.push(111);
    out.push(110);
    out.push(115);
    out.push(116);
    out.push(97);
    out.push(110);
    out.push(116);
    out.push(115);
    out.push(58);
    assert(out@ =~= start + private_constants_key());
}

/// Appends the text of `allow_list_key`.
pub(crate) fn push_allow_list_key(out: &mut Vec<u8>)
    ensures
        final(out)@ == old(out)@ + allow_list_key(),
{
    let ghost start = out@;
    out.push(112);
    out.push(114);
    out.push(105);
    out.push(118);
    out.push(97);
    out.push(99);
    out.push(121);
    out.push(95);
    out.push(97);
    out.push(108);
    out.push(108);
    out.push(111);
    out.push(119);
    out.push(95);
    out.push(108);
    out.push(105);
    out.push(115);
    out.push(116);
    out.push(58);
    assert(out@ =~= start + allow_list_key());
}

/// Appends the text of `item_mark`.
pub(crate) fn push_item_mark(out: &mut Vec<u8>)
    ensures
        final(out)@ == old(out)@ + item_mark(),
{
    let ghost start = out@;
    out.push(32);
    out.push(32);
    out.push(45);
    out.push(32);
    assert(out@ =~= start + item_mark());
}

/// Appends the text of `true_word`.
pub(crate) fn push_true_word(out: &mut Vec<u8>)
    ensures
        final(out)@ == old(out)@ + true_word(),
{
    let ghost start = out@;
    out.push(116);
    out.push(114);
    out.push(117);
    out.push(101);
    assert(out@ =~= start + true_word());
}

/// Appends the text of `false_word`.
pub(crate) fn push_false_word(out: &mut Vec<u8>)
    ensures
        final(out)@ == old(out)@ + false_word(),
{
    let ghost start = out@;
    out.push(102);
    out.push(97);
    out.push(108);
    out.push(115);
    out.push(101);
    assert(out@ =~= start + false_word());
}

/// Appends the text of `lenient_word`.
pub(crate) fn push_lenient_word(out: &mut Vec<u8>)
    ensures
        final(out)@ == old(out)@ + lenient_word(),
{
    let ghost start = out@;
    out.push(108);
    out.push(101);
    out.push(110);
    out.push(105);
    out.push(101);
    out.push(110);
    out.push(116);
    assert(out@ =~= start + lenient_word());
}
/// How an enforcement mode is written.
pub open spec fn mode_text(m: Enforcement) -> Seq<u8> {
    match m {
        Enforcement::Enforced => true_word(),
        Enforcement::Lenient => lenient_word(),
        Enforcement::Off => false_word(),
    }
}

/// The lines of a list, one item each.
pub open spec fn item_lines(items: Seq<Seq<u8>>) -> Seq<u8>
    decreases items.len(),
{
    if items.len() == 0 {
        seq![]
    } else {
        item_lines(items.drop_last()) + item_mark() + items.last() + seq![10u8]
    }
}

/// The canonical text of a package's metadata: the keys in a fixed order,
/// one scalar per line, each list under its header with one item per line.
pub open spec fn render(p: Package) -> Seq<u8> {
    root_key() + p.root@ + seq![10u8] + dependencies_mode_key() + mode_text(p.enforce_dependencies)
        + seq![10u8] + privacy_mode_key() + mode_text(p.enforce_privacy) + seq![10u8] + permissive_key()
        + (if p.permissive { true_word() } else { false_word() }) + seq![10u8] + dependencies_key()
        + seq![10u8] + item_lines(views(p.dependencies@)) + private_constants_key() + seq![10u8]
        + item_lines(views(p.private_constants@)) + allow_list_key() + seq![10u8] + item_lines(
        views(p.privacy_allow_list@),
    )
}

/// What linting a metadata file owes: no rewrite when it is canonical
/// already, else the canonical text.
pub open spec fn lint_outcome(current: Seq<u8>, p: Package, r: Option<Seq<u8>>) -> bool {
    if current == render(p) {
        r is None
    } else {
        r == Some(render(p))
    }
}

/// The file's text once a lint outcome has been applied.
pub open spec fn after_lint(current: Seq<u8>, r: Option<Seq<u8>>) -> Seq<u8> {
    match r {
        Some(t) => t,
        None => current,
    }
}

/// The text that a lint result asks to write, if any.
pub open spec fn texts(r: Option<Vec<u8>>) -> Option<Seq<u8>> {
    match r {
        Some(t) => Some(t@),
        None => None,
    }
}

/// Appends the bytes of `s`.
fn push_bytes(out: &mut Vec<u8>, s: &Vec<u8>)
    ensures
        final(out)@ == old(out)@ + s@,
{
    let ghost start = out@;
    let mut i: usize = 0;
    while i < s.len()
        invariant
            0 <= i <= s@.len(),
            out@ == start + s@.subrange(0, i as int),
        decreases s@.len() - i,
    {
        out.push(s[i]);
        i = i + 1;
        assert(out@ =~= start + s@.subrange(0, i as int));
    }
    assert(s@.subrange(0, s@.len() as int) =~= s@);
}

/// Appends how an enforcement mode is written.
fn push_mode(out: &mut Vec<u8>, m: Enforcement)
    ensures
        final(out)@ == old(out)@ + mode_text(m),
{
    match m {
        Enforcement::Enforced => push_true_word(out),
        Enforcement::Lenient => push_lenient_word(out),
        Enforcement::Off => push_false_word(out),
    }
}

/// Appends the lines of a list.
fn push_items(out: &mut Vec<u8>, items: &Vec<Vec<u8>>)
    ensures
        final(out)@ == old(out)@ + item_lines(views(items@)),
{
    let ghost start = out@;
    let mut i: usize = 0;
    while i < items.len()
        invariant
            0 <= i <= items@.len(),
            out@ == start + item_lines(views(items@).subrange(0, i as int)),
        decreases items@.len() - i,
    {
        let ghost prefix = views(items@).subrange(0, i as int);
        let ghost next = views(items@).subrange(0, i + 1);
        assert(next.drop_last() =~= prefix);
        assert(next.last() == items@[i as int]@);
        push_item_mark(out);
        push_bytes(out, &items[i]);
        out.push(10);
        i = i + 1;
        assert(out@ =~= start + item_lines(next));
    }
    assert(views(items@).subrange(0, items@.len() as int) =~= views(items@));
}

/// The canonical metadata text of a package.
pub fn render_package(p: &Package) -> (r: Vec<u8>)
    ensures
        r@ == render(*p),
{
    let mut out: Vec<u8> = Vec::new();
    push_root_key(&mut out);
    push_bytes(&mut out, &p.root);
    out.push(10);
    push_dependencies_mode_key(&mut out);
    push_mode(&mut out, p.enforce_dependencies);
    out.push(10);
    push_privacy_mode_key(&mut out);
    push_mode(&mut out, p.enforce_privacy);
    out.push(10);
    push_permissive_key(&mut out);
    if p.permissive {
        push_true_word(&mut out);
    } else {
        push_false_word(&mut out);
    }
    out.push(10);
    push_dependencies_key(&mut out);
    out.push(10);
    push_items(&mut out, &p.dependencies);
    push_private_constants_key(&mut out);
    out.push(10);
    push_items(&mut out, &p.private_constants);
    push_allow_list_key(&mut out);
    out.push(10);
    push_items(&mut out, &p.privacy_allow_list);
    assert(out@ =~= render(*p));
    out
}

/// Lints one package's metadata file: `None` when `current` is canonical,
/// else the canonical text that is to replace it.
pub fn lint_package(current: &Vec<u8>, p: &Package) -> (r: Option<Vec<u8>>)
    ensures
        lint_outcome(current@, *p, texts(r)),
{
    let canonical = render_package(p);
    if bytes_eq(current, &canonical) {
        None
    } else {
        Some(canonical)
    }
}

/// Lints the metadata file of every package; `contents[i]` is the current
/// text of package `i`'s file, and entry `i` of the result what to write
/// there, if anything.
pub fn lint_package_yml_files(configuration: &Configuration, contents: &Vec<Vec<u8>>) -> (r: Vec<
    Option<Vec<u8>>,
>)
    requires
        contents@.len() == configuration.packages@.len(),
    ensures
        r@.len() == contents@.len(),
        forall|i: int|
            0 <= i < r@.len() ==> lint_outcome(
                contents@[i]@,
                configuration.packages@[i],
                texts(#[trigger] r@[i]),
            ),
{
    let mut r: Vec<Option<Vec<u8>>> = Vec::new();
    let mut i: usize = 0;
    while i < contents.len()
        invariant
            contents@.len() == configuration.packages@.len(),
            0 <= i <= contents@.len(),
            r@.len() == i,
            forall|j: int|
                0 <= j < i ==> lint_outcome(
                    contents@[j]@,
                    configuration.packages@[j],
                    texts(#[trigger] r@[j]),
                ),
        decreases contents@.len() - i,
    {
        r.push(lint_package(&contents[i], &configuration.packages[i]));
        i = i + 1;
    }
    r
}

/// Linting leaves canonical text alone, and linting what a lint wrote asks
/// for no further write.
pub proof fn lemma_lint_idempotent(current: Seq<u8>, p: Package, first: Option<Seq<u8>>, second: Option<Seq<u8>>)
    requires
        lint_outcome(current, p, first),
        lint_outcome(after_lint(current, first), p, second),
    ensures
        second is None,
        current == render(p) ==> first is None,
        after_lint(current, first) == render(p),
{
}

} // verus!
