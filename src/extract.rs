use vstd::prelude::*;

use crate::model::{ParseWarning, Reference};

verus! {

// Source syntax, as far as extraction reads it:
// - `#` starts a comment that runs to the end of the line;
// - `"` starts a string that must close on the same line; an unclosed string
//   is a malformed region, where extraction stops with a warning;
// - a constant path is an identifier starting with an upper-case letter,
//   followed by any number of `::` and further such identifiers;
// - a constant path right after the word `class` or `module` is a
//   definition, any other one a reference.

/// An upper-case ASCII letter.
pub open spec fn is_upper(b: u8) -> bool {
    65 <= b <= 90
}

/// An ASCII letter, digit or underscore.
pub open spec fn is_ident_byte(b: u8) -> bool {
    (48 <= b <= 57) || (65 <= b <= 90) || (97 <= b <= 122) || b == 95
}

/// The shape of a constant path: it starts with an upper-case letter, holds
/// identifier bytes and colons, and does not end with a colon.
pub open spec fn is_constant_path(s: Seq<u8>) -> bool {
    &&& s.len() > 0
    &&& is_upper(s[0])
    &&& is_ident_byte(s[s.len() - 1])
    &&& forall|k: int| 0 <= k < s.len() ==> is_ident_byte(#[trigger] s[k]) || s[k] == 58
}

/// Where the run of identifier bytes from `i` ends.
pub open spec fn ident_run_end(c: Seq<u8>, i: int) -> int
    decreases c.len() - i,
{
    if 0 <= i < c.len() && is_ident_byte(c[i]) {
        ident_run_end(c, i + 1)
    } else {
        i
    }
}

/// Where a constant path whose first segment ends at `e` ends: each further
/// `::` followed by an upper-case letter adds a segment.
pub open spec fn path_run_end(c: Seq<u8>, e: int) -> int
    decreases c.len() - e,
{
    if 0 <= e && e + 2 < c.len() && c[e] == 58 && c[e + 1] == 58 && is_upper(c[e + 2]) {
        let n = ident_run_end(c, e + 2);
        if e < n <= c.len() {
            path_run_end(c, n)
        } else {
            e
        }
    } else {
        e
    }
}

/// The first line break at or after `i`, or the end of the text.
pub open spec fn line_end(c: Seq<u8>, i: int) -> int
    decreases c.len() - i,
{
    if 0 <= i < c.len() && c[i] != 10 {
        line_end(c, i + 1)
    } else {
        i
    }
}

/// The first quote or line break at or after `i`, or the end of the text.
pub open spec fn quote_end(c: Seq<u8>, i: int) -> int
    decreases c.len() - i,
{
    if 0 <= i < c.len() && c[i] != 34 && c[i] != 10 {
        quote_end(c, i + 1)
    } else {
        i
    }
}

/// Whether a word is `class` or `module`.
pub open spec fn is_definition_word(w: Seq<u8>) -> bool {
    w == seq![99u8, 108, 97, 115, 115] || w == seq![109u8, 111, 100, 117, 108, 101]
}

/// What reading `c` from `i` on yields: the spans of the references, the
/// spans of the definitions, and the offset of the first unclosed string, if
/// any. An unclosed string is skipped up to the end of its line. `pending` says that the last word was `class` or
/// `module`, so that the next constant path is a definition.
pub open spec fn scan(c: Seq<u8>, i: int, pending: bool) -> (Seq<(int, int)>, Seq<(int, int)>, Option<int>)
    decreases c.len() - i,
{
    if i < 0 || i >= c.len() {
        (seq![], seq![], None)
    } else if c[i] == 10 {
        scan(c, i + 1, pending)
    } else if c[i] == 35 {
        let e = line_end(c, i + 1);
        if i < e <= c.len() {
            scan(c, e, pending)
        } else {
            (seq![], seq![], None)
        }
    } else if c[i] == 34 {
        let j = quote_end(c, i + 1);
        if j < c.len() && c[j] == 34 && i < j {
            scan(c, j + 1, pending)
        } else if i < j <= c.len() {
            let r = scan(c, j, pending);
            (r.0, r.1, Some(i))
        } else {
            (seq![], seq![], Some(i))
        }
    } else if is_upper(c[i]) {
        let e = path_run_end(c, ident_run_end(c, i));
        if i < e <= c.len() {
            let r = scan(c, e, false);
            if pending {
                (r.0, seq![(i, e)] + r.1, r.2)
            } else {
                (seq![(i, e)] + r.0, r.1, r.2)
            }
        } else {
            (seq![], seq![], None)
        }
    } else if is_ident_byte(c[i]) {
        let e = ident_run_end(c, i);
        if i < e <= c.len() {
            scan(c, e, is_definition_word(c.subrange(i, e)))
        } else {
            (seq![], seq![], None)
        }
    } else {
        scan(c, i + 1, pending)
    }
}

/// The start and end offsets of each found constant path.
pub open spec fn spans(rs: Seq<Reference>) -> Seq<(int, int)> {
    rs.map_values(|r: Reference| (r.offset as int, r.offset + r.name@.len()))
}

/// Whether `r` names a constant path that stands in `content` at its offset.
pub open spec fn found_in(content: Seq<u8>, r: Reference) -> bool {
    &&& r.offset + r.name@.len() <= content.len()
    &&& content.subrange(r.offset as int, r.offset + r.name@.len()) == r.name@
    &&& is_constant_path(r.name@)
}

/// The line and the column, both counted from 1, at which offset `i` of `c`
/// stands: one line more for each line break before it, and the column one
/// more than the bytes since the last of them.
pub open spec fn position(c: Seq<u8>, i: int) -> (int, int)
    decreases i,
{
    if i <= 0 {
        (1, 1)
    } else {
        let (l, col) = position(c, i - 1);
        if c[i - 1] == 10 {
            (l + 1, 1)
        } else {
            (l, col + 1)
        }
    }
}

/// `x`, held at the largest `usize`.
pub open spec fn held(x: int) -> int {
    if x <= usize::MAX {
        x
    } else {
        usize::MAX as int
    }
}

/// Whether a found reference carries the line and column of its offset.
pub open spec fn placed(c: Seq<u8>, r: Reference) -> bool {
    r.line == held(position(c, r.offset as int).0) && r.column == held(position(c, r.offset as int).1)
}

/// Across bytes that hold no line break the line stays and the column grows.
proof fn lemma_position_run(c: Seq<u8>, i: int, j: int)
    requires
        0 <= i <= j <= c.len(),
        forall|k: int| i <= k < j ==> c[k] != 10,
    ensures
        position(c, j) == (position(c, i).0, position(c, i).1 + (j - i)),
    decreases j - i,
{
    if i < j {
        lemma_position_run(c, i, j - 1);
    }
}

/// Positions only grow.
proof fn lemma_position_positive(c: Seq<u8>, i: int)
    ensures
        position(c, i).0 >= 1,
        position(c, i).1 >= 1,
    decreases i,
{
    if i > 0 {
        lemma_position_positive(c, i - 1);
    }
}

/// Whether the references of a scan from `i` start in increasing order,
/// none before `i`.
pub open spec fn refs_ordered(c: Seq<u8>, i: int, pending: bool) -> bool {
    &&& forall|a: int| 0 <= a < scan(c, i, pending).0.len() ==> (#[trigger] scan(c, i, pending).0[a]).0 >= i
    &&& forall|a: int, b: int|
        0 <= a < b < scan(c, i, pending).0.len() ==> (#[trigger] scan(c, i, pending).0[a]).0 < (
        #[trigger] scan(c, i, pending).0[b]).0
}

/// A step that yields no reference keeps the order of what follows.
proof fn lemma_ordered_step(c: Seq<u8>, i: int, pending: bool, nxt: int, later: bool)
    requires
        i < nxt,
        refs_ordered(c, nxt, later),
        scan(c, i, pending).0 == scan(c, nxt, later).0,
    ensures
        refs_ordered(c, i, pending),
{
    let s = scan(c, i, pending).0;
    let r = scan(c, nxt, later).0;
    assert forall|a: int| 0 <= a < s.len() implies (#[trigger] s[a]).0 >= i by {
        assert(s[a] == r[a]);
    }
    assert forall|a: int, b: int| 0 <= a < b < s.len() implies (#[trigger] s[a]).0 < (#[trigger] s[b]).0 by {
        assert(s[a] == r[a]);
        assert(s[b] == r[b]);
    }
}

/// The references of a scan start in increasing order, none before `i`.
pub proof fn lemma_scan_ordered(c: Seq<u8>, i: int, pending: bool)
    ensures
        refs_ordered(c, i, pending),
    decreases c.len() - i,
{
    if i < 0 || i >= c.len() {
        assert(scan(c, i, pending).0 =~= Seq::<(int, int)>::empty());
    } else if c[i] == 10 {
        lemma_scan_ordered(c, i + 1, pending);
        lemma_ordered_step(c, i, pending, i + 1, pending);
    } else if c[i] == 35 {
        let e = line_end(c, i + 1);
        if i < e <= c.len() {
            lemma_scan_ordered(c, e, pending);
            lemma_ordered_step(c, i, pending, e, pending);
        } else {
            assert(scan(c, i, pending).0 =~= Seq::<(int, int)>::empty());
        }
    } else if c[i] == 34 {
        let j = quote_end(c, i + 1);
        if j < c.len() && c[j] == 34 && i < j {
            lemma_scan_ordered(c, j + 1, pending);
            lemma_ordered_step(c, i, pending, j + 1, pending);
        } else if i < j <= c.len() {
            lemma_scan_ordered(c, j, pending);
            lemma_ordered_step(c, i, pending, j, pending);
        } else {
            assert(scan(c, i, pending).0 =~= Seq::<(int, int)>::empty());
        }
    } else if is_upper(c[i]) {
        let e = path_run_end(c, ident_run_end(c, i));
        if i < e <= c.len() {
            lemma_scan_ordered(c, e, false);
            if pending {
                lemma_ordered_step(c, i, pending, e, false);
            } else {
                let r = scan(c, e, false).0;
                let s = scan(c, i, pending).0;
                assert(s == seq![(i, e)] + r);
                assert forall|a: int| 0 <= a < s.len() implies (#[trigger] s[a]).0 >= i by {
                    if a > 0 {
                        assert(s[a] == r[a - 1]);
                    }
                }
                assert forall|a: int, b: int| 0 <= a < b < s.len() implies (#[trigger] s[a]).0 < (#[trigger] s[b]).0 by {
                    assert(s[b] == r[b - 1]);
                    if a > 0 {
                        assert(s[a] == r[a - 1]);
                    }
                }
            }
        } else {
            assert(scan(c, i, pending).0 =~= Seq::<(int, int)>::empty());
        }
    } else if is_ident_byte(c[i]) {
        let e = ident_run_end(c, i);
        if i < e <= c.len() {
            let w = is_definition_word(c.subrange(i, e));
            lemma_scan_ordered(c, e, w);
            lemma_ordered_step(c, i, pending, e, w);
        } else {
            assert(scan(c, i, pending).0 =~= Seq::<(int, int)>::empty());
        }
    } else {
        lemma_scan_ordered(c, i + 1, pending);
        lemma_ordered_step(c, i, pending, i + 1, pending);
    }
}

/// What one file yields: the constants it uses, the constants it defines,
/// and the malformed region at which reading stopped, if any.
#[derive(Clone, Debug)]
pub struct Extraction {
    pub references: Vec<Reference>,
    pub definitions: Vec<Reference>,
    pub warning: Option<ParseWarning>,
}

/// Whether `b` is an upper-case ASCII letter.
fn byte_is_upper(b: u8) -> (r: bool)
    ensures
        r == is_upper(b),
{
    65 <= b && b <= 90
}

/// Whether `b` can stand in an identifier.
fn byte_is_ident(b: u8) -> (r: bool)
    ensures
        r == is_ident_byte(b),
{
    (48 <= b && b <= 57) || (65 <= b && b <= 90) || (97 <= b && b <= 122) || b == 95
}

/// The end of the run of identifier bytes that starts at `start`.
fn ident_end(content: &Vec<u8>, start: usize) -> (end: usize)
    requires
        start <= content@.len(),
    ensures
        start <= end <= content@.len(),
        forall|k: int| start <= k < end ==> is_ident_byte(#[trigger] content@[k]),
        end == content@.len() || !is_ident_byte(content@[end as int]),
        end == ident_run_end(content@, start as int),
{
    let mut end = start;
    while end < content.len() && byte_is_ident(content[end])
        invariant
            start <= end <= content@.len(),
            ident_run_end(content@, start as int) == ident_run_end(content@, end as int),
            forall|k: int| start <= k < end ==> is_ident_byte(#[trigger] content@[k]),
        decreases content@.len() - end,
    {
        end = end + 1;
    }
    end
}

/// The end of the constant path that starts at `start`.
fn constant_path_end(content: &Vec<u8>, start: usize) -> (end: usize)
    requires
        start < content@.len(),
        is_upper(content@[start as int]),
    ensures
        start < end <= content@.len(),
        is_constant_path(content@.subrange(start as int, end as int)),
        end == path_run_end(content@, ident_run_end(content@, start as int)),
{
    let mut end = ident_end(content, start);
    while end < content.len() && content.len() - end > 2 && content[end] == 58 && content[end + 1] == 58
        && byte_is_upper(content[end + 2])
        invariant
            start < end <= content@.len(),
            is_ident_byte(content@[end - 1]),
            forall|k: int| start <= k < end ==> is_ident_byte(#[trigger] content@[k]) || content@[k] == 58,
            path_run_end(content@, ident_run_end(content@, start as int)) == path_run_end(content@, end as int),
        decreases content@.len() - end,
    {
        end = ident_end(content, end + 2);
    }
    let ghost s = content@.subrange(start as int, end as int);
    assert forall|k: int| 0 <= k < s.len() implies is_ident_byte(#[trigger] s[k]) || s[k] == 58 by {
        assert(s[k] == content@[start + k]);
    }
    end
}

/// The bytes of `content` from `start` up to `end`.
pub(crate) fn slice_bytes(content: &Vec<u8>, start: usize, end: usize) -> (r: Vec<u8>)
    requires
        start <= end <= content@.len(),
    ensures
        r@ == content@.subrange(start as int, end as int),
{
    let mut r: Vec<u8> = Vec::new();
    let mut i = start;
    while i < end
        invariant
            start <= i <= end <= content@.len(),
            r@ == content@.subrange(start as int, i as int),
        decreases end - i,
    {
        r.push(content[i]);
        i = i + 1;
        assert(r@ =~= content@.subrange(start as int, i as int));
    }
    r
}

/// Whether the word from `start` to `end` is `class` or `module`.
fn is_definition_keyword(content: &Vec<u8>, start: usize, end: usize) -> (r: bool)
    requires
        start <= end <= content@.len(),
    ensures
        r == is_definition_word(content@.subrange(start as int, end as int)),
{
    let ghost s = content@.subrange(start as int, end as int);
    let class_word: bool = end - start == 5 && content[start] == 99 && content[start + 1] == 108
        && content[start + 2] == 97 && content[start + 3] == 115 && content[start + 4] == 115;
    let module_word: bool = end - start == 6 && content[start] == 109 && content[start + 1] == 111
        && content[start + 2] == 100 && content[start + 3] == 117 && content[start + 4] == 108
        && content[start + 5] == 101;
    if class_word {
        assert(s =~= seq![99u8, 108, 97, 115, 115]);
    }
    if module_word {
        assert(s =~= seq![109u8, 111, 100, 117, 108, 101]);
    }
    proof {
        let c = seq![99u8, 108, 97, 115, 115];
        let m = seq![109u8, 111, 100, 117, 108, 101];
        assert(c.len() == 5 && c[0] == 99 && c[1] == 108 && c[2] == 97 && c[3] == 115 && c[4] == 115);
        assert(m.len() == 6 && m[0] == 109 && m[1] == 111 && m[2] == 100 && m[3] == 117 && m[4] == 108
            && m[5] == 101);
        if s == c {
            assert(s[0] == content@[start as int] && s[1] == content@[start + 1] && s[2] == content@[start + 2]
                && s[3] == content@[start + 3] && s[4] == content@[start + 4]);
        }
        if s == m {
            assert(s[0] == content@[start as int] && s[1] == content@[start + 1] && s[2] == content@[start + 2]
                && s[3] == content@[start + 3] && s[4] == content@[start + 4] && s[5] == content@[start + 5]);
        }
    }
    class_word || module_word
}

/// `a + d`, held at the largest `usize`.
fn advance(a: usize, d: usize) -> (r: usize)
    ensures
        r == if a + d <= usize::MAX { a + d } else { usize::MAX as int },
{
    if a <= usize::MAX - d {
        a + d
    } else {
        usize::MAX
    }
}

/// Reads the constant references and definitions of one file, in the order
/// in which they stand. An unclosed string is skipped up to the end of its
/// line and reading goes on there; the warning gives the position of the
/// first one.
/// Lines and columns count from 1 and are held at the largest `usize`.
pub fn extract(file: usize, content: &Vec<u8>) -> (r: Extraction)
    ensures
        spans(r.references@) == scan(content@, 0, false).0,
        spans(r.definitions@) == scan(content@, 0, false).1,
        match r.warning {
            Some(w) => w.file == file && scan(content@, 0, false).2 == Some(w.offset as int) && w.line == held(
                position(content@, w.offset as int).0,
            ) && w.column == held(position(content@, w.offset as int).1),
            None => scan(content@, 0, false).2 is None,
        },
        forall|k: int| 0 <= k < r.references@.len() ==> placed(content@, #[trigger] r.references@[k]),
        forall|k: int| 0 <= k < r.definitions@.len() ==> placed(content@, #[trigger] r.definitions@[k]),
        forall|k: int| 0 <= k < r.references@.len() ==> found_in(content@, #[trigger] r.references@[k]),
        forall|k: int| 0 <= k < r.definitions@.len() ==> found_in(content@, #[trigger] r.definitions@[k]),
{
    let ghost c = content@;
    let ghost total = scan(c, 0, false);
    let n = content.len();
    let mut references: Vec<Reference> = Vec::new();
    let mut definitions: Vec<Reference> = Vec::new();
    let mut warning: Option<ParseWarning> = None;
    let mut pending_definition: bool = false;
    let mut i: usize = 0;
    let mut line: usize = 1;
    let mut column: usize = 1;
    assert(spans(references@) =~= seq![]);
    assert(spans(definitions@) =~= seq![]);
    while i < n
        invariant
            c == content@,
            n == c.len(),
            total == scan(c, 0, false),
            i <= n,
            spans(references@) + scan(c, i as int, pending_definition).0 == total.0,
            spans(definitions@) + scan(c, i as int, pending_definition).1 == total.1,
            match warning {
                Some(w) => w.file == file && total.2 == Some(w.offset as int) && w.line == held(
                    position(c, w.offset as int).0,
                ) && w.column == held(position(c, w.offset as int).1),
                None => scan(c, i as int, pending_definition).2 == total.2,
            },
            line == held(position(c, i as int).0),
            column == held(position(c, i as int).1),
            forall|k: int| 0 <= k < references@.len() ==> placed(c, #[trigger] references@[k]),
            forall|k: int| 0 <= k < definitions@.len() ==> placed(c, #[trigger] definitions@[k]),
            forall|k: int| 0 <= k < references@.len() ==> found_in(c, #[trigger] references@[k]),
            forall|k: int| 0 <= k < definitions@.len() ==> found_in(c, #[trigger] definitions@[k]),
        decreases n - i,
    {
        let ghost refs0 = spans(references@);
        let ghost defs0 = spans(definitions@);
        let ghost rest0 = scan(c, i as int, pending_definition);
        let c_i = content[i];
        proof {
            lemma_position_positive(c, i as int);
        }
        if c_i == 10 {
            i = i + 1;
            line = advance(line, 1);
            column = 1;
        } else if c_i == 35 {
            i = i + 1;
            column = advance(column, 1);
            let ghost after_mark = i;
            while i < n && content[i] != 10
                invariant
                    c == content@,
                    n == c.len(),
                    after_mark <= i <= n,
                    line_end(c, after_mark as int) == line_end(c, i as int),
                    line == held(position(c, i as int).0),
                    column == held(position(c, i as int).1),
                decreases n - i,
            {
                proof {
                    lemma_position_positive(c, i as int);
                }
                i = i + 1;
                column = advance(column, 1);
            }
        } else if c_i == 34 {
            let mut j = i + 1;
            while j < n && content[j] != 34 && content[j] != 10
                invariant
                    c == content@,
                    n == c.len(),
                    i < j <= n,
                    quote_end(c, i + 1) == quote_end(c, j as int),
                    forall|k: int| i < k < j ==> c[k] != 10,
                decreases n - j,
            {
                j = j + 1;
            }
            proof {
                lemma_position_run(c, i as int, j as int);
            }
            if j < n && content[j] == 34 {
                proof {
                    lemma_position_run(c, i as int, j + 1);
                }
                column = advance(column, j + 1 - i);
                i = j + 1;
            } else {
                if warning.is_none() {
                    warning = Some(ParseWarning { file, offset: i, line, column });
                }
                column = advance(column, j - i);
                i = j;
            }
        } else if byte_is_upper(c_i) {
            let end = constant_path_end(content, i);
            proof {
                let sub = c.subrange(i as int, end as int);
                assert forall|k: int| i <= k < end implies c[k] != 10 by {
                    assert(sub[k - i] == c[k]);
                }
                lemma_position_run(c, i as int, end as int);
            }
            let name = slice_bytes(content, i, end);
            let found = Reference { name, offset: i, line, column };
            let ghost span = (i as int, end as int);
            if pending_definition {
                definitions.push(found);
                assert(spans(definitions@) =~= defs0.push(span));
                assert(defs0.push(span) + scan(c, end as int, false).1 =~= defs0 + (seq![span] + scan(c, end as int, false).1));
            } else {
                references.push(found);
                assert(spans(references@) =~= refs0.push(span));
                assert(refs0.push(span) + scan(c, end as int, false).0 =~= refs0 + (seq![span] + scan(c, end as int, false).0));
            }
            pending_definition = false;
            column = advance(column, end - i);
            i = end;
        } else if byte_is_ident(c_i) {
            let end = ident_end(content, i);
            assert(end > i);
            proof {
                lemma_position_run(c, i as int, end as int);
            }
            pending_definition = is_definition_keyword(content, i, end);
            column = advance(column, end - i);
            i = end;
        } else {
            i = i + 1;
            column = advance(column, 1);
        }
    }
    Extraction { references, definitions, warning }
}

} // verus!
