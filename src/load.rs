use vstd::prelude::*;

use crate::bytes::{bytes_eq, is_prefix, starts_with, views};
use crate::extract::{line_end, slice_bytes};
use crate::lint::{
    item_lines, mode_text, render,
    allow_list_key, dependencies_key, dependencies_mode_key, false_word, item_mark, lenient_word,
    permissive_key, private_constants_key, privacy_mode_key, push_allow_list_key, push_dependencies_key,
    push_dependencies_mode_key, push_false_word, push_item_mark, push_lenient_word, push_permissive_key,
    push_private_constants_key, push_privacy_mode_key, push_root_key, push_true_word, root_key, true_word,
};
use crate::model::{roots_unique, Configuration, Enforcement, Package};
use crate::validate::find_duplicate_root;

verus! {

/// A package's metadata as plain values.
pub struct PackageModel {
    pub root: Seq<u8>,
    pub dependencies: Seq<Seq<u8>>,
    pub enforce_dependencies: Enforcement,
    pub enforce_privacy: Enforcement,
    pub permissive: bool,
    pub private_constants: Seq<Seq<u8>>,
    pub privacy_allow_list: Seq<Seq<u8>>,
}

/// The plain values that a package holds.
pub open spec fn model(p: Package) -> PackageModel {
    PackageModel {
        root: p.root@,
        dependencies: views(p.dependencies@),
        enforce_dependencies: p.enforce_dependencies,
        enforce_privacy: p.enforce_privacy,
        permissive: p.permissive,
        private_constants: views(p.private_constants@),
        privacy_allow_list: views(p.privacy_allow_list@),
    }
}

/// What a metadata file holds before any line is read: an empty root, no
/// lists, both rules enforced, not permissive.
pub open spec fn empty_model() -> PackageModel {
    PackageModel {
        root: seq![],
        dependencies: seq![],
        enforce_dependencies: Enforcement::Enforced,
        enforce_privacy: Enforcement::Enforced,
        permissive: false,
        private_constants: seq![],
        privacy_allow_list: seq![],
    }
}

/// `m` with `item` added to list `list`: 1 the dependencies, 2 the private
/// constants, 3 the privacy allow-list (0 stands for no list).
pub open spec fn with_item(m: PackageModel, list: int, item: Seq<u8>) -> PackageModel {
    if list == 1 {
        PackageModel { dependencies: m.dependencies.push(item), ..m }
    } else if list == 2 {
        PackageModel { private_constants: m.private_constants.push(item), ..m }
    } else {
        PackageModel { privacy_allow_list: m.privacy_allow_list.push(item), ..m }
    }
}

/// The enforcement mode that a value names.
pub open spec fn mode_named(v: Seq<u8>) -> Option<Enforcement> {
    if v == true_word() {
        Some(Enforcement::Enforced)
    } else if v == lenient_word() {
        Some(Enforcement::Lenient)
    } else if v == false_word() {
        Some(Enforcement::Off)
    } else {
        None
    }
}

/// The text of a line after a key that it starts with.
pub open spec fn after(l: Seq<u8>, key: Seq<u8>) -> Seq<u8> {
    l.subrange(key.len() as int, l.len() as int)
}

/// What one line does to the metadata read so far: the new metadata and
/// list, or `None` when the line is malformed.
pub open spec fn read_line(l: Seq<u8>, m: PackageModel, list: int) -> Option<(PackageModel, int)> {
    if l.len() == 0 {
        Some((m, list))
    } else if is_prefix(item_mark(), l) {
        if list == 0 {
            None
        } else {
            Some((with_item(m, list, after(l, item_mark())), list))
        }
    } else if l == dependencies_key() {
        Some((m, 1))
    } else if l == private_constants_key() {
        Some((m, 2))
    } else if l == allow_list_key() {
        Some((m, 3))
    } else if is_prefix(root_key(), l) {
        Some((PackageModel { root: after(l, root_key()), ..m }, 0))
    } else if is_prefix(dependencies_mode_key(), l) {
        match mode_named(after(l, dependencies_mode_key())) {
            Some(e) => Some((PackageModel { enforce_dependencies: e, ..m }, 0)),
            None => None,
        }
    } else if is_prefix(privacy_mode_key(), l) {
        match mode_named(after(l, privacy_mode_key())) {
            Some(e) => Some((PackageModel { enforce_privacy: e, ..m }, 0)),
            None => None,
        }
    } else if is_prefix(permissive_key(), l) {
        let v = after(l, permissive_key());
        if v == true_word() {
            Some((PackageModel { permissive: true, ..m }, 0))
        } else if v == false_word() {
            Some((PackageModel { permissive: false, ..m }, 0))
        } else {
            None
        }
    } else {
        None
    }
}

/// Reads the lines of `c` from offset `i` on, `line` being the number of
/// the line there: the metadata, or the number of the first malformed line.
pub open spec fn read_from(c: Seq<u8>, i: int, line: int, m: PackageModel, list: int) -> Result<PackageModel, int>
    decreases c.len() - i,
{
    if i < 0 || i >= c.len() {
        Ok(m)
    } else {
        let e = line_end(c, i);
        if i <= e <= c.len() {
            match read_line(c.subrange(i, e), m, list) {
                Some((m2, list2)) => if e < c.len() {
                    read_from(c, e + 1, line + 1, m2, list2)
                } else {
                    Ok(m2)
                },
                None => Err(line),
            }
        } else {
            Ok(m)
        }
    }
}

/// Whether `key` opens the line from `start` to `end`.
fn key_at(content: &Vec<u8>, start: usize, end: usize, key: &Vec<u8>) -> (r: bool)
    requires
        start <= end <= content@.len(),
    ensures
        r == is_prefix(key@, content@.subrange(start as int, end as int)),
{
    let l = slice_bytes(content, start, end);
    starts_with(key, &l)
}

/// Whether the line from `start` to `end` is `word`.
fn line_is(content: &Vec<u8>, start: usize, end: usize, word: &Vec<u8>) -> (r: bool)
    requires
        start <= end <= content@.len(),
    ensures
        r == (content@.subrange(start as int, end as int) == word@),
{
    let l = slice_bytes(content, start, end);
    bytes_eq(&l, word)
}

/// One of the fixed texts of the metadata format, by number: the keys and
/// headers in the order in which a canonical file holds them, then the item
/// mark and the words `true`, `lenient` and `false`.
fn text(which: u8) -> (r: Vec<u8>)
    requires
        which < 11,
    ensures
        which == 0 ==> r@ == root_key(),
        which == 1 ==> r@ == dependencies_mode_key(),
        which == 2 ==> r@ == privacy_mode_key(),
        which == 3 ==> r@ == permissive_key(),
        which == 4 ==> r@ == dependencies_key(),
        which == 5 ==> r@ == private_constants_key(),
        which == 6 ==> r@ == allow_list_key(),
        which == 7 ==> r@ == item_mark(),
        which == 8 ==> r@ == true_word(),
        which == 9 ==> r@ == lenient_word(),
        which == 10 ==> r@ == false_word(),
{
    let mut r: Vec<u8> = Vec::new();
    if which == 0 {
        push_root_key(&mut r);
    } else if which == 1 {
        push_dependencies_mode_key(&mut r);
    } else if which == 2 {
        push_privacy_mode_key(&mut r);
    } else if which == 3 {
        push_permissive_key(&mut r);
    } else if which == 4 {
        push_dependencies_key(&mut r);
    } else if which == 5 {
        push_private_constants_key(&mut r);
    } else if which == 6 {
        push_allow_list_key(&mut r);
    } else if which == 7 {
        push_item_mark(&mut r);
    } else if which == 8 {
        push_true_word(&mut r);
    } else if which == 9 {
        push_lenient_word(&mut r);
    } else {
        push_false_word(&mut r);
    }
    assert(r@ =~= seq![] + r@);
    r
}

/// The enforcement mode that the text from `start` to `end` names.
fn mode_at(content: &Vec<u8>, start: usize, end: usize) -> (r: Option<Enforcement>)
    requires
        start <= end <= content@.len(),
    ensures
        r == mode_named(content@.subrange(start as int, end as int)),
{
    if line_is(content, start, end, &text(8)) {
        Some(Enforcement::Enforced)
    } else if line_is(content, start, end, &text(9)) {
        Some(Enforcement::Lenient)
    } else if line_is(content, start, end, &text(10)) {
        Some(Enforcement::Off)
    } else {
        None
    }
}

/// Reads a package's metadata file, one `key: value` line, list header or
/// `  - item` line at a time; empty lines are skipped. Keys may stand in any
/// order, and a key that is missing keeps its default. The error is the
/// number, counted from 1, of the first line that is not understood.
#[verifier::rlimit(80)]
pub fn parse_package(content: &Vec<u8>) -> (r: Result<Package, usize>)
    requires
        content@.len() < usize::MAX,
    ensures
        match r {
            Ok(p) => read_from(content@, 0, 1, empty_model(), 0) == Ok::<PackageModel, int>(model(p)),
            Err(line) => read_from(content@, 0, 1, empty_model(), 0) == Err::<PackageModel, int>(line as int),
        },
{
    let ghost c = content@;
    let n = content.len();
    let mut root: Vec<u8> = Vec::new();
    let mut dependencies: Vec<Vec<u8>> = Vec::new();
    let mut enforce_dependencies = Enforcement::Enforced;
    let mut enforce_privacy = Enforcement::Enforced;
    let mut permissive = false;
    let mut private_constants: Vec<Vec<u8>> = Vec::new();
    let mut privacy_allow_list: Vec<Vec<u8>> = Vec::new();
    let mut list: u8 = 0;
    let mut i: usize = 0;
    let mut line: usize = 1;
    assert(views(dependencies@) =~= seq![]);
    assert(views(private_constants@) =~= seq![]);
    assert(views(privacy_allow_list@) =~= seq![]);
    assert(root@ =~= seq![]);
    while i < n
        invariant
            c == content@,
            n == c.len(),
            n < usize::MAX,
            i <= n,
            1 <= line <= i + 1,
            list <= 3,
            read_from(c, 0, 1, empty_model(), 0) == read_from(
                c,
                i as int,
                line as int,
                model(Package { root, dependencies, enforce_dependencies, enforce_privacy, permissive, private_constants, privacy_allow_list }),
                list as int,
            ),
        decreases n - i,
    {
        let ghost m = model(Package { root, dependencies, enforce_dependencies, enforce_privacy, permissive, private_constants, privacy_allow_list });
        let mut e = i;
        while e < n && content[e] != 10
            invariant
                c == content@,
                n == c.len(),
                i <= e <= n,
                line_end(c, i as int) == line_end(c, e as int),
            decreases n - e,
        {
            e = e + 1;
        }
        let ghost l = c.subrange(i as int, e as int);
        let ghost outcome = read_line(l, m, list as int);
        if e == i {
        } else if key_at(content, i, e, &text(7)) {
            if list == 0 {
                return Err(line);
            }
            let item = slice_bytes(content, i + 4, e);
            assert(item@ =~= after(l, item_mark()));
            if list == 1 {
                dependencies.push(item);
                assert(views(dependencies@) =~= m.dependencies.push(after(l, item_mark())));
            } else if list == 2 {
                private_constants.push(item);
                assert(views(private_constants@) =~= m.private_constants.push(after(l, item_mark())));
            } else {
                privacy_allow_list.push(item);
                assert(views(privacy_allow_list@) =~= m.privacy_allow_list.push(after(l, item_mark())));
            }
        } else if line_is(content, i, e, &text(4)) {
            list = 1;
        } else if line_is(content, i, e, &text(5)) {
            list = 2;
        } else if line_is(content, i, e, &text(6)) {
            list = 3;
        } else if key_at(content, i, e, &text(0)) {
            root = slice_bytes(content, i + 6, e);
            assert(root@ =~= after(l, root_key()));
            list = 0;
        } else if key_at(content, i, e, &text(1)) {
            match mode_at(content, i + 22, e) {
                Some(mode) => {
                    assert(c.subrange(i + 22, e as int) =~= after(l, dependencies_mode_key()));
                    enforce_dependencies = mode;
                },
                None => {
                    assert(c.subrange(i + 22, e as int) =~= after(l, dependencies_mode_key()));
                    return Err(line);
                },
            }
            list = 0;
        } else if key_at(content, i, e, &text(2)) {
            match mode_at(content, i + 17, e) {
                Some(mode) => {
                    assert(c.subrange(i + 17, e as int) =~= after(l, privacy_mode_key()));
                    enforce_privacy = mode;
                },
                None => {
                    assert(c.subrange(i + 17, e as int) =~= after(l, privacy_mode_key()));
                    return Err(line);
                },
            }
            list = 0;
        } else if key_at(content, i, e, &text(3)) {
            assert(c.subrange(i + 12, e as int) =~= after(l, permissive_key()));
            if line_is(content, i + 12, e, &text(8)) {
                permissive = true;
            } else if line_is(content, i + 12, e, &text(10)) {
                permissive = false;
            } else {
                return Err(line);
            }
            list = 0;
        } else {
            return Err(line);
        }
        assert(outcome == Some((
            model(Package { root, dependencies, enforce_dependencies, enforce_privacy, permissive, private_constants, privacy_allow_list }),
            list as int,
        )));
        if e < n {
            i = e + 1;
            line = line + 1;
        } else {
            i = n;
        }
    }
    Ok(Package { root, dependencies, enforce_dependencies, enforce_privacy, permissive, private_constants, privacy_allow_list })
}

/// Whether a text holds no line break.
pub open spec fn single_line(s: Seq<u8>) -> bool {
    forall|k: int| 0 <= k < s.len() ==> s[k] != 10
}

/// Whether the root and every list entry of a package fit on one line, so
/// that its canonical text keeps them apart.
pub open spec fn fits_lines(p: Package) -> bool {
    &&& single_line(p.root@)
    &&& forall|k: int| 0 <= k < p.dependencies@.len() ==> single_line(#[trigger] views(p.dependencies@)[k])
    &&& forall|k: int| 0 <= k < p.private_constants@.len() ==> single_line(#[trigger] views(p.private_constants@)[k])
    &&& forall|k: int| 0 <= k < p.privacy_allow_list@.len() ==> single_line(#[trigger] views(p.privacy_allow_list@)[k])
}

/// `m` with all of `items` added, in order, to list `list`.
pub open spec fn with_items(m: PackageModel, list: int, items: Seq<Seq<u8>>) -> PackageModel
    decreases items.len(),
{
    if items.len() == 0 {
        m
    } else {
        with_item(with_items(m, list, items.drop_last()), list, items.last())
    }
}

proof fn lemma_with_items(m: PackageModel, list: int, items: Seq<Seq<u8>>)
    requires
        1 <= list <= 3,
    ensures
        with_items(m, list, items).root == m.root,
        with_items(m, list, items).enforce_dependencies == m.enforce_dependencies,
        with_items(m, list, items).enforce_privacy == m.enforce_privacy,
        with_items(m, list, items).permissive == m.permissive,
        with_items(m, list, items).dependencies == if list == 1 { m.dependencies + items } else { m.dependencies },
        with_items(m, list, items).private_constants == if list == 2 { m.private_constants + items } else { m.private_constants },
        with_items(m, list, items).privacy_allow_list == if list == 3 { m.privacy_allow_list + items } else { m.privacy_allow_list },
    decreases items.len(),
{
    if items.len() > 0 {
        lemma_with_items(m, list, items.drop_last());
        assert(m.dependencies + items.drop_last().push(items.last()) =~= m.dependencies + items);
        assert(m.private_constants + items.drop_last().push(items.last()) =~= m.private_constants + items);
        assert(m.privacy_allow_list + items.drop_last().push(items.last()) =~= m.privacy_allow_list + items);
        assert((m.dependencies + items.drop_last()).push(items.last()) =~= m.dependencies + items);
        assert((m.private_constants + items.drop_last()).push(items.last()) =~= m.private_constants + items);
        assert((m.privacy_allow_list + items.drop_last()).push(items.last()) =~= m.privacy_allow_list + items);
    }
}

/// A key that differs from a line at some byte neither opens nor is it.
proof fn lemma_differs_at(key: Seq<u8>, l: Seq<u8>, k: int)
    requires
        0 <= k < key.len(),
        k < l.len(),
        key[k] != l[k],
    ensures
        !is_prefix(key, l),
        l != key,
{
    if is_prefix(key, l) {
        assert(l.subrange(0, key.len() as int)[k] == l[k]);
    }
}

/// The line break that ends a line is where the line ends.
proof fn lemma_line_end_at(c: Seq<u8>, i: int, e: int)
    requires
        0 <= i <= e < c.len(),
        c[e] == 10,
        forall|k: int| i <= k < e ==> c[k] != 10,
    ensures
        line_end(c, i) == e,
    decreases e - i,
{
    if i < e {
        lemma_line_end_at(c, i + 1, e);
    }
}

/// Reading a line `l` that stands at `i`, followed by a line break.
proof fn lemma_read_step(c: Seq<u8>, i: int, l: Seq<u8>, line: int, m: PackageModel, list: int)
    requires
        0 <= i,
        i + l.len() < c.len(),
        c.subrange(i, i + l.len()) == l,
        c[i + l.len()] == 10,
        single_line(l),
        read_line(l, m, list) is Some,
    ensures
        read_from(c, i, line, m, list) == read_from(
            c,
            i + l.len() + 1,
            line + 1,
            read_line(l, m, list)->Some_0.0,
            read_line(l, m, list)->Some_0.1,
        ),
{
    assert forall|k: int| i <= k < i + l.len() implies c[k] != 10 by {
        assert(c.subrange(i, i + l.len())[k - i] == c[k]);
    }
    lemma_line_end_at(c, i, i + l.len());
}

/// Reading the item lines of `items`, which stand at `i`.
proof fn lemma_read_items(c: Seq<u8>, i: int, items: Seq<Seq<u8>>, line: int, m: PackageModel, list: int)
    requires
        1 <= list <= 3,
        0 <= i,
        i + item_lines(items).len() <= c.len(),
        c.subrange(i, i + item_lines(items).len()) == item_lines(items),
        forall|k: int| 0 <= k < items.len() ==> single_line(#[trigger] items[k]),
    ensures
        read_from(c, i, line, m, list) == read_from(
            c,
            i + item_lines(items).len(),
            line + items.len(),
            with_items(m, list, items),
            list,
        ),
    decreases items.len(),
{
    if items.len() > 0 {
        let init = items.drop_last();
        let a = item_lines(init).len() as int;
        let n = item_lines(items).len() as int;
        let l = item_mark() + items.last();
        let ll = l.len() as int;
        assert(item_lines(items) == item_lines(init) + l + seq![10u8]);
        assert(c.subrange(i, i + a) =~= c.subrange(i, i + n).subrange(0, a));
        assert(item_lines(items).subrange(0, a) =~= item_lines(init));
        assert forall|k: int| 0 <= k < init.len() implies single_line(#[trigger] init[k]) by {
            assert(init[k] == items[k]);
        }
        lemma_read_items(c, i, init, line, m, list);
        assert(c.subrange(i + a, i + a + ll) =~= c.subrange(i, i + n).subrange(a, a + ll));
        assert(item_lines(items).subrange(a, a + ll) =~= l);
        assert(c[i + a + ll] == c.subrange(i, i + n)[a + ll]);
        assert(item_lines(items)[a + ll] == 10);
        assert(items.last() == items[items.len() - 1]);
        assert forall|k: int| 0 <= k < l.len() implies l[k] != 10 by {
            if k >= 4 {
                assert(l[k] == items.last()[k - 4]);
            }
        }
        assert(l.subrange(0, 4) =~= item_mark());
        assert(after(l, item_mark()) =~= items.last());
        lemma_read_step(c, i + a, l, line + init.len(), with_items(m, list, init), list);
    }
}

/// Each enforcement mode reads back from how it is written.
proof fn lemma_mode_reads_back(e: Enforcement)
    ensures
        mode_named(mode_text(e)) == Some(e),
{
    lemma_differs_at(true_word(), lenient_word(), 0);
    lemma_differs_at(true_word(), false_word(), 0);
    lemma_differs_at(lenient_word(), false_word(), 0);
}

/// A line made of `key` and a value starts with the bytes of `key`.
proof fn lemma_line_starts(key: Seq<u8>, v: Seq<u8>, k: int)
    requires
        0 <= k < key.len(),
    ensures
        (key + v)[k] == key[k],
        is_prefix(key, key + v),
        after(key + v, key) == v,
{
    assert((key + v).subrange(0, key.len() as int) =~= key);
    assert(after(key + v, key) =~= v);
}

/// Where the lines of a canonical text stand.
#[verifier::rlimit(100)]
proof fn lemma_layout(p: Package)
    ensures
        ({
            let nl = seq![10u8];
            let word = if p.permissive { true_word() } else { false_word() };
            let l1 = root_key() + p.root@;
            let l2 = dependencies_mode_key() + mode_text(p.enforce_dependencies);
            let l3 = privacy_mode_key() + mode_text(p.enforce_privacy);
            let l4 = permissive_key() + word;
            let l5 = dependencies_key();
            let l6 = private_constants_key();
            let l7 = allow_list_key();
            let deps = views(p.dependencies@);
            let pcs = views(p.private_constants@);
            let als = views(p.privacy_allow_list@);
            let i1 = item_lines(deps);
            let i2 = item_lines(pcs);
            let i3 = item_lines(als);
            let c = render(p);
            let n1 = l1.len() as int;
            let n2 = l2.len() as int;
            let n3 = l3.len() as int;
            let n4 = l4.len() as int;
            let n5 = l5.len() as int;
            let n6 = l6.len() as int;
            let n7 = l7.len() as int;
            let o2 = n1 + 1;
            let o3 = o2 + n2 + 1;
            let o4 = o3 + n3 + 1;
            let o5 = o4 + n4 + 1;
            let o6 = o5 + n5 + 1;
            let o7 = o6 + i1.len() as int;
            let o8 = o7 + n6 + 1;
            let o9 = o8 + i2.len() as int;
            let o10 = o9 + n7 + 1;
            &&& c =~= l1 + nl + l2 + nl + l3 + nl + l4 + nl + l5 + nl + i1 + l6 + nl + i2 + l7 + nl + i3
            &&& c.len() == o10 + i3.len() as int
            &&& c.subrange(0, n1) =~= l1
            &&& c.subrange(o2, o2 + n2) =~= l2
            &&& c.subrange(o3, o3 + n3) =~= l3
            &&& c.subrange(o4, o4 + n4) =~= l4
            &&& c.subrange(o5, o5 + n5) =~= l5
            &&& c.subrange(o6, o7) =~= i1
            &&& c.subrange(o7, o7 + n6) =~= l6
            &&& c.subrange(o8, o9) =~= i2
            &&& c.subrange(o9, o9 + n7) =~= l7
            &&& c.subrange(o10, c.len() as int) =~= i3
            &&& c[n1] == 10 && c[o2 + n2] == 10 && c[o3 + n3] == 10
            &&& c[o4 + n4] == 10 && c[o5 + n5] == 10 && c[o7 + n6] == 10 && c[o9 + n7] == 10
        }),
{
    let nl = seq![10u8];
    let word = if p.permissive { true_word() } else { false_word() };
    let l1 = root_key() + p.root@;
    let l2 = dependencies_mode_key() + mode_text(p.enforce_dependencies);
    let l3 = privacy_mode_key() + mode_text(p.enforce_privacy);
    let l4 = permissive_key() + word;
    let l5 = dependencies_key();
    let l6 = private_constants_key();
    let l7 = allow_list_key();
    let deps = views(p.dependencies@);
    let pcs = views(p.private_constants@);
    let als = views(p.privacy_allow_list@);
    let i1 = item_lines(deps);
    let i2 = item_lines(pcs);
    let i3 = item_lines(als);
    let c = render(p);
    let n1 = l1.len() as int;
    let n2 = l2.len() as int;
    let n3 = l3.len() as int;
    let n4 = l4.len() as int;
    let n5 = l5.len() as int;
    let n6 = l6.len() as int;
    let n7 = l7.len() as int;
    let o2 = n1 + 1;
    let o3 = o2 + n2 + 1;
    let o4 = o3 + n3 + 1;
    let o5 = o4 + n4 + 1;
    let o6 = o5 + n5 + 1;
    let o7 = o6 + i1.len() as int;
    let o8 = o7 + n6 + 1;
    let o9 = o8 + i2.len() as int;
    let o10 = o9 + n7 + 1;
    assert(c =~= l1 + nl + l2 + nl + l3 + nl + l4 + nl + l5 + nl + i1 + l6 + nl + i2 + l7 + nl + i3);
    assert(c.len() == o10 + i3.len() as int);
    assert(c.subrange(0, n1) =~= l1);
    assert(c.subrange(o2, o2 + n2) =~= l2);
    assert(c.subrange(o3, o3 + n3) =~= l3);
    assert(c.subrange(o4, o4 + n4) =~= l4);
    assert(c.subrange(o5, o5 + n5) =~= l5);
    assert(c.subrange(o6, o7) =~= i1);
    assert(c.subrange(o7, o7 + n6) =~= l6);
    assert(c.subrange(o8, o9) =~= i2);
    assert(c.subrange(o9, o9 + n7) =~= l7);
    assert(c.subrange(o10, c.len() as int) =~= i3);
    assert(c[n1] == 10 && c[o2 + n2] == 10 && c[o3 + n3] == 10);
    assert(c[o4 + n4] == 10 && c[o5 + n5] == 10 && c[o7 + n6] == 10 && c[o9 + n7] == 10);
}

/// How the four scalar lines of a canonical text read.
#[verifier::rlimit(100)]
proof fn lemma_scalar_lines(p: Package)
    requires
        fits_lines(p),
    ensures
        ({
            let word = if p.permissive { true_word() } else { false_word() };
            let l1 = root_key() + p.root@;
            let l2 = dependencies_mode_key() + mode_text(p.enforce_dependencies);
            let l3 = privacy_mode_key() + mode_text(p.enforce_privacy);
            let l4 = permissive_key() + word;
            let m1 = PackageModel { root: p.root@, ..empty_model() };
            let m2 = PackageModel { enforce_dependencies: p.enforce_dependencies, ..m1 };
            let m3 = PackageModel { enforce_privacy: p.enforce_privacy, ..m2 };
            let m4 = PackageModel { permissive: p.permissive, ..m3 };
            &&& single_line(l1) && single_line(l2) && single_line(l3) && single_line(l4)
            &&& read_line(l1, empty_model(), 0) == Some((m1, 0int))
            &&& read_line(l2, m1, 0) == Some((m2, 0int))
            &&& read_line(l3, m2, 0) == Some((m3, 0int))
            &&& read_line(l4, m3, 0) == Some((m4, 0int))
        }),
{
    let word = if p.permissive { true_word() } else { false_word() };
    let l1 = root_key() + p.root@;
    let l2 = dependencies_mode_key() + mode_text(p.enforce_dependencies);
    let l3 = privacy_mode_key() + mode_text(p.enforce_privacy);
    let l4 = permissive_key() + word;
    lemma_line_starts(root_key(), p.root@, 0);
    lemma_differs_at(item_mark(), l1, 0);
    lemma_differs_at(dependencies_key(), l1, 0);
    lemma_differs_at(private_constants_key(), l1, 0);
    lemma_differs_at(allow_list_key(), l1, 0);
    assert forall|k: int| 0 <= k < l1.len() implies l1[k] != 10 by {
        if k >= 6 {
            assert(l1[k] == p.root@[k - 6]);
        }
    }
    let m1 = PackageModel { root: p.root@, ..empty_model() };
    assert(read_line(l1, empty_model(), 0) == Some((m1, 0int)));

    lemma_line_starts(dependencies_mode_key(), mode_text(p.enforce_dependencies), 0);
    lemma_mode_reads_back(p.enforce_dependencies);
    lemma_differs_at(item_mark(), l2, 0);
    lemma_differs_at(dependencies_key(), l2, 0);
    lemma_differs_at(private_constants_key(), l2, 0);
    lemma_differs_at(allow_list_key(), l2, 0);
    lemma_differs_at(root_key(), l2, 0);
    let m2 = PackageModel { enforce_dependencies: p.enforce_dependencies, ..m1 };
    assert(read_line(l2, m1, 0) == Some((m2, 0int)));

    lemma_line_starts(privacy_mode_key(), mode_text(p.enforce_privacy), 8);
    lemma_mode_reads_back(p.enforce_privacy);
    lemma_differs_at(item_mark(), l3, 0);
    lemma_differs_at(dependencies_key(), l3, 0);
    lemma_differs_at(private_constants_key(), l3, 0);
    lemma_differs_at(allow_list_key(), l3, 0);
    lemma_differs_at(root_key(), l3, 0);
    lemma_differs_at(dependencies_mode_key(), l3, 8);
    let m3 = PackageModel { enforce_privacy: p.enforce_privacy, ..m2 };
    assert(read_line(l3, m2, 0) == Some((m3, 0int)));

    lemma_line_starts(permissive_key(), word, 1);
    lemma_differs_at(item_mark(), l4, 0);
    lemma_differs_at(dependencies_key(), l4, 0);
    lemma_differs_at(private_constants_key(), l4, 1);
    lemma_differs_at(allow_list_key(), l4, 1);
    lemma_differs_at(root_key(), l4, 0);
    lemma_differs_at(dependencies_mode_key(), l4, 0);
    lemma_differs_at(privacy_mode_key(), l4, 0);
    lemma_differs_at(true_word(), false_word(), 0);
    let m4 = PackageModel { permissive: p.permissive, ..m3 };
    assert(read_line(l4, m3, 0) == Some((m4, 0int)));

    assert forall|k: int| 0 <= k < l2.len() implies l2[k] != 10 by {
        if k >= 22 {
            assert(l2[k] == mode_text(p.enforce_dependencies)[k - 22]);
        }
    }
    assert forall|k: int| 0 <= k < l3.len() implies l3[k] != 10 by {
        if k >= 17 {
            assert(l3[k] == mode_text(p.enforce_privacy)[k - 17]);
        }
    }
    assert forall|k: int| 0 <= k < l4.len() implies l4[k] != 10 by {
        if k >= 12 {
            assert(l4[k] == word[k - 12]);
        }
    }
}

/// Reading a list header, which stands at `o`, and its item lines.
proof fn lemma_read_list(
    c: Seq<u8>,
    o: int,
    header: Seq<u8>,
    items: Seq<Seq<u8>>,
    line: int,
    m: PackageModel,
    before: int,
    list: int,
)
    requires
        1 <= list <= 3,
        0 <= o,
        single_line(header),
        read_line(header, m, before) == Some((m, list)),
        o + header.len() + 1 + item_lines(items).len() <= c.len(),
        c.subrange(o, o + header.len()) == header,
        c[o + header.len()] == 10,
        c.subrange(o + header.len() + 1, o + header.len() + 1 + item_lines(items).len()) == item_lines(items),
        forall|k: int| 0 <= k < items.len() ==> single_line(#[trigger] items[k]),
    ensures
        read_from(c, o, line, m, before) == read_from(
            c,
            o + header.len() + 1 + item_lines(items).len(),
            line + 1 + items.len(),
            with_items(m, list, items),
            list,
        ),
{
    lemma_read_step(c, o, header, line, m, before);
    lemma_read_items(c, o + header.len() + 1, items, line + 1, m, list);
}

/// How the three list headers read.
proof fn lemma_header_lines(m: PackageModel, list: int)
    ensures
        single_line(dependencies_key()),
        single_line(private_constants_key()),
        single_line(allow_list_key()),
        read_line(dependencies_key(), m, list) == Some((m, 1int)),
        read_line(private_constants_key(), m, list) == Some((m, 2int)),
        read_line(allow_list_key(), m, list) == Some((m, 3int)),
{
    lemma_differs_at(item_mark(), dependencies_key(), 0);
    lemma_differs_at(item_mark(), private_constants_key(), 0);
    lemma_differs_at(item_mark(), allow_list_key(), 0);
    lemma_differs_at(dependencies_key(), private_constants_key(), 0);
    lemma_differs_at(dependencies_key(), allow_list_key(), 0);
    lemma_differs_at(private_constants_key(), allow_list_key(), 5);
}

/// How the three lists of a canonical text read, from the first list
/// header on.
#[verifier::rlimit(100)]
#[verifier::spinoff_prover]
proof fn lemma_read_lists(p: Package, m4: PackageModel)
    requires
        fits_lines(p),
        m4 == (PackageModel {
            dependencies: seq![],
            private_constants: seq![],
            privacy_allow_list: seq![],
            ..model(p)
        }),
    ensures
        ({
            let l1 = root_key() + p.root@;
            let l2 = dependencies_mode_key() + mode_text(p.enforce_dependencies);
            let l3 = privacy_mode_key() + mode_text(p.enforce_privacy);
            let word = if p.permissive { true_word() } else { false_word() };
            let l4 = permissive_key() + word;
            let o5 = l1.len() as int + l2.len() as int + l3.len() as int + l4.len() as int + 4;
            read_from(render(p), o5, 5, m4, 0) == Ok::<PackageModel, int>(model(p))
        }),
{
    let nl = seq![10u8];
    let word = if p.permissive { true_word() } else { false_word() };
    let l1 = root_key() + p.root@;
    let l2 = dependencies_mode_key() + mode_text(p.enforce_dependencies);
    let l3 = privacy_mode_key() + mode_text(p.enforce_privacy);
    let l4 = permissive_key() + word;
    let l5 = dependencies_key();
    let l6 = private_constants_key();
    let l7 = allow_list_key();
    let deps = views(p.dependencies@);
    let pcs = views(p.private_constants@);
    let als = views(p.privacy_allow_list@);
    let i1 = item_lines(deps);
    let i2 = item_lines(pcs);
    let i3 = item_lines(als);
    lemma_layout(p);
    let c = render(p);
    let n1 = l1.len() as int;
    let n2 = l2.len() as int;
    let n3 = l3.len() as int;
    let n4 = l4.len() as int;
    let n5 = l5.len() as int;
    let n6 = l6.len() as int;
    let n7 = l7.len() as int;
    let o2 = n1 + 1;
    let o3 = o2 + n2 + 1;
    let o4 = o3 + n3 + 1;
    let o5 = o4 + n4 + 1;
    let o6 = o5 + n5 + 1;
    let o7 = o6 + i1.len() as int;
    let o8 = o7 + n6 + 1;
    let o9 = o8 + i2.len() as int;
    let o10 = o9 + n7 + 1;
    // the lists
    lemma_header_lines(m4, 0);
    lemma_read_list(c, o5, l5, deps, 5, m4, 0, 1);
    lemma_with_items(m4, 1, deps);
    let m5 = with_items(m4, 1, deps);
    lemma_header_lines(m5, 1);
    lemma_read_list(c, o7, l6, pcs, 6 + deps.len() as int, m5, 1, 2);
    lemma_with_items(m5, 2, pcs);
    let m6 = with_items(m5, 2, pcs);
    lemma_header_lines(m6, 2);
    lemma_read_list(c, o9, l7, als, 7 + deps.len() as int + pcs.len() as int, m6, 2, 3);
    lemma_with_items(m6, 3, als);
    let m7 = with_items(m6, 3, als);
    assert(m7.dependencies =~= deps);
    assert(m7.private_constants =~= pcs);
    assert(m7.privacy_allow_list =~= als);
    assert(m7 == model(p));
}

/// The canonical text of a package reads back as that package, provided
/// its root and list entries fit on one line each.
#[verifier::rlimit(100)]
pub proof fn lemma_render_reads_back(p: Package)
    requires
        fits_lines(p),
    ensures
        read_from(render(p), 0, 1, empty_model(), 0) == Ok::<PackageModel, int>(model(p)),
{
    let nl = seq![10u8];
    let word = if p.permissive { true_word() } else { false_word() };
    let l1 = root_key() + p.root@;
    let l2 = dependencies_mode_key() + mode_text(p.enforce_dependencies);
    let l3 = privacy_mode_key() + mode_text(p.enforce_privacy);
    let l4 = permissive_key() + word;
    let l5 = dependencies_key();
    let l6 = private_constants_key();
    let l7 = allow_list_key();
    let deps = views(p.dependencies@);
    let pcs = views(p.private_constants@);
    let als = views(p.privacy_allow_list@);
    let i1 = item_lines(deps);
    let i2 = item_lines(pcs);
    let i3 = item_lines(als);
    lemma_layout(p);
    let c = render(p);
    let n1 = l1.len() as int;
    let n2 = l2.len() as int;
    let n3 = l3.len() as int;
    let n4 = l4.len() as int;
    let n5 = l5.len() as int;
    let n6 = l6.len() as int;
    let n7 = l7.len() as int;
    let o2 = n1 + 1;
    let o3 = o2 + n2 + 1;
    let o4 = o3 + n3 + 1;
    let o5 = o4 + n4 + 1;
    let o6 = o5 + n5 + 1;
    let o7 = o6 + i1.len() as int;
    let o8 = o7 + n6 + 1;
    let o9 = o8 + i2.len() as int;
    let o10 = o9 + n7 + 1;
    // the scalar lines
    lemma_scalar_lines(p);
    let m1 = PackageModel { root: p.root@, ..empty_model() };
    let m2 = PackageModel { enforce_dependencies: p.enforce_dependencies, ..m1 };
    let m3 = PackageModel { enforce_privacy: p.enforce_privacy, ..m2 };
    let m4 = PackageModel { permissive: p.permissive, ..m3 };
    lemma_read_step(c, 0, l1, 1, empty_model(), 0);
    lemma_read_step(c, o2, l2, 2, m1, 0);
    lemma_read_step(c, o3, l3, 3, m2, 0);
    lemma_read_step(c, o4, l4, 4, m3, 0);

    assert(m4 == (PackageModel {
        dependencies: seq![],
        private_constants: seq![],
        privacy_allow_list: seq![],
        ..model(p)
    }));
    lemma_read_lists(p, m4);
}

/// Why a set of metadata files does not make a configuration.
#[derive(Clone, Copy, Debug, PartialEq, Eq, Structural)]
pub enum ConfigError {
    /// Line `line` of metadata file `file` is not understood.
    Malformed { file: usize, line: usize },
    /// Two metadata files declare the same root.
    DuplicateRoot { first: usize, second: usize },
}

/// Builds the package catalog from the texts of all metadata files, one
/// package per file and in the same order. It fails on the first file that
/// does not read, and then on two packages that share a root.
pub fn load_configuration(texts: &Vec<Vec<u8>>) -> (r: Result<Configuration, ConfigError>)
    requires
        forall|f: int| 0 <= f < texts@.len() ==> (#[trigger] texts@[f])@.len() < usize::MAX,
    ensures
        match r {
            Ok(c) => {
                &&& c.packages@.len() == texts@.len()
                &&& roots_unique(c.packages@)
                &&& forall|f: int|
                    0 <= f < texts@.len() ==> read_from((#[trigger] texts@[f])@, 0, 1, empty_model(), 0)
                        == Ok::<PackageModel, int>(model(c.packages@[f]))
            },
            Err(ConfigError::Malformed { file, line }) => {
                &&& file < texts@.len()
                &&& read_from(texts@[file as int]@, 0, 1, empty_model(), 0) == Err::<PackageModel, int>(line as int)
                &&& forall|f: int| 0 <= f < file ==> (#[trigger] read_from(texts@[f]@, 0, 1, empty_model(), 0)) is Ok
            },
            Err(ConfigError::DuplicateRoot { first, second }) => {
                &&& first < second < texts@.len()
                &&& forall|f: int| 0 <= f < texts@.len() ==> (#[trigger] read_from(texts@[f]@, 0, 1, empty_model(), 0)) is Ok
                &&& read_from(texts@[first as int]@, 0, 1, empty_model(), 0)->Ok_0.root
                    == read_from(texts@[second as int]@, 0, 1, empty_model(), 0)->Ok_0.root
            },
        },
{
    let mut packages: Vec<Package> = Vec::new();
    let mut f: usize = 0;
    while f < texts.len()
        invariant
            forall|g: int| 0 <= g < texts@.len() ==> (#[trigger] texts@[g])@.len() < usize::MAX,
            0 <= f <= texts@.len(),
            packages@.len() == f,
            forall|g: int|
                0 <= g < f ==> read_from((#[trigger] texts@[g])@, 0, 1, empty_model(), 0) == Ok::<PackageModel, int>(
                    model(packages@[g]),
                ),
        decreases texts@.len() - f,
    {
        match parse_package(&texts[f]) {
            Ok(p) => {
                packages.push(p);
            },
            Err(line) => {
                assert forall|g: int| 0 <= g < f implies (#[trigger] read_from(texts@[g]@, 0, 1, empty_model(), 0)) is Ok by {
                    assert(read_from(texts@[g]@, 0, 1, empty_model(), 0) == Ok::<PackageModel, int>(model(packages@[g])));
                }
                return Err(ConfigError::Malformed { file: f, line });
            },
        }
        f = f + 1;
    }
    match find_duplicate_root(&packages) {
        Some(e) => {
            assert(read_from(texts@[e.first as int]@, 0, 1, empty_model(), 0) == Ok::<PackageModel, int>(model(packages@[e.first as int])));
            assert(read_from(texts@[e.second as int]@, 0, 1, empty_model(), 0) == Ok::<PackageModel, int>(model(packages@[e.second as int])));
            assert forall|g: int| 0 <= g < texts@.len() implies (#[trigger] read_from(texts@[g]@, 0, 1, empty_model(), 0)) is Ok by {
                assert(read_from(texts@[g]@, 0, 1, empty_model(), 0) == Ok::<PackageModel, int>(model(packages@[g])));
            }
            Err(ConfigError::DuplicateRoot { first: e.first, second: e.second })
        },
        None => Ok(Configuration { packages }),
    }
}

} // verus!
