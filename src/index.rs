use vstd::prelude::*;

use crate::bytes::{bytes_eq, copy_bytes};
use crate::extract::Extraction;
use crate::model::Reference;

verus! {

/// A constant path together with the index of the file that defines it.
#[derive(Clone, Debug)]
pub struct Definition {
    pub name: Vec<u8>,
    pub file: usize,
}

/// The entries of an index as (name, file) pairs.
pub open spec fn entries(index: Seq<Definition>) -> Seq<(Seq<u8>, int)> {
    index.map_values(|d: Definition| (d.name@, d.file as int))
}

/// The definitions of one file as (name, file) pairs.
pub open spec fn file_entries(defs: Seq<Reference>, f: int) -> Seq<(Seq<u8>, int)> {
    defs.map_values(|d: Reference| (d.name@, f))
}

/// The definitions of all files, in file order.
pub open spec fn definition_entries(extractions: Seq<Extraction>) -> Seq<(Seq<u8>, int)>
    decreases extractions.len(),
{
    if extractions.len() == 0 {
        seq![]
    } else {
        definition_entries(extractions.drop_last()) + file_entries(
            extractions.last().definitions@,
            extractions.len() - 1,
        )
    }
}

/// Every entry of the collected definitions names one of the files.
pub proof fn lemma_entries_in_range(extractions: Seq<Extraction>)
    ensures
        forall|k: int|
            0 <= k < definition_entries(extractions).len() ==> 0 <= (#[trigger] definition_entries(
                extractions,
            )[k]).1 < extractions.len(),
    decreases extractions.len(),
{
    if extractions.len() > 0 {
        let rest = extractions.drop_last();
        lemma_entries_in_range(rest);
        let d = definition_entries(rest);
        let t = file_entries(extractions.last().definitions@, extractions.len() - 1);
        assert forall|k: int| 0 <= k < definition_entries(extractions).len() implies 0 <= (
        #[trigger] definition_entries(extractions)[k]).1 < extractions.len() by {
            if k < d.len() {
                assert(definition_entries(extractions)[k] == d[k]);
            } else {
                assert(definition_entries(extractions)[k] == t[k - d.len()]);
            }
        }
    }
}

/// Whether `r` is the file of the first entry that defines `name`, or none
/// when no entry does. Duplicate definitions are thus settled by file
/// order: the earliest file wins.
pub open spec fn first_definition(index: Seq<(Seq<u8>, int)>, name: Seq<u8>, r: Option<usize>) -> bool {
    match r {
        Some(f) => exists|k: int|
            0 <= k < index.len() && (#[trigger] index[k]).0 == name && index[k].1 == f
                && forall|j: int| 0 <= j < k ==> (#[trigger] index[j]).0 != name,
        None => forall|k: int| 0 <= k < index.len() ==> (#[trigger] index[k]).0 != name,
    }
}

/// The first definition of a name is unique.
pub proof fn lemma_first_definition_unique(index: Seq<(Seq<u8>, int)>, name: Seq<u8>, a: Option<usize>, b: Option<usize>)
    requires
        first_definition(index, name, a),
        first_definition(index, name, b),
    ensures
        a == b,
{
    if a is Some && b is Some {
        let ka = choose|k: int|
            0 <= k < index.len() && (#[trigger] index[k]).0 == name && index[k].1 == a->Some_0
                && forall|j: int| 0 <= j < k ==> (#[trigger] index[j]).0 != name;
        let kb = choose|k: int|
            0 <= k < index.len() && (#[trigger] index[k]).0 == name && index[k].1 == b->Some_0
                && forall|j: int| 0 <= j < k ==> (#[trigger] index[j]).0 != name;
        if ka < kb {
            assert(index[ka].0 != name);
        } else if kb < ka {
            assert(index[kb].0 != name);
        }
    } else if a is Some {
        let ka = choose|k: int|
            0 <= k < index.len() && (#[trigger] index[k]).0 == name && index[k].1 == a->Some_0
                && forall|j: int| 0 <= j < k ==> (#[trigger] index[j]).0 != name;
        assert(index[ka].0 != name);
    } else if b is Some {
        let kb = choose|k: int|
            0 <= k < index.len() && (#[trigger] index[k]).0 == name && index[k].1 == b->Some_0
                && forall|j: int| 0 <= j < k ==> (#[trigger] index[j]).0 != name;
        assert(index[kb].0 != name);
    }
}

/// Collects the definitions of all files, in file order and, within a
/// file, in the order in which they stand.
pub fn build_index(extractions: &Vec<Extraction>) -> (r: Vec<Definition>)
    ensures
        entries(r@) == definition_entries(extractions@),
{
    let mut index: Vec<Definition> = Vec::new();
    let mut f: usize = 0;
    assert(entries(index@) =~= definition_entries(extractions@.subrange(0, 0)));
    while f < extractions.len()
        invariant
            0 <= f <= extractions@.len(),
            entries(index@) == definition_entries(extractions@.subrange(0, f as int)),
        decreases extractions@.len() - f,
    {
        let ghost before = entries(index@);
        let defs = &extractions[f].definitions;
        let mut j: usize = 0;
        while j < defs.len()
            invariant
                0 <= f < extractions@.len(),
                defs@ == extractions@[f as int].definitions@,
                0 <= j <= defs@.len(),
                entries(index@) == before + file_entries(defs@.subrange(0, j as int), f as int),
            decreases defs@.len() - j,
        {
            let ghost prev = entries(index@);
            index.push(Definition { name: copy_bytes(&defs[j].name), file: f });
            assert(file_entries(defs@.subrange(0, j + 1), f as int) =~= file_entries(
                defs@.subrange(0, j as int),
                f as int,
            ).push((defs@[j as int].name@, f as int)));
            assert(entries(index@) =~= prev.push((defs@[j as int].name@, f as int)));
            j = j + 1;
        }
        assert(defs@.subrange(0, defs@.len() as int) =~= defs@);
        let ghost next = extractions@.subrange(0, f + 1);
        assert(next.drop_last() =~= extractions@.subrange(0, f as int));
        assert(next.last() == extractions@[f as int]);
        f = f + 1;
    }
    assert(extractions@.subrange(0, extractions@.len() as int) =~= extractions@);
    index
}

/// Looks `name` up in the index: the file of its first definition.
pub fn resolve(index: &Vec<Definition>, name: &Vec<u8>) -> (r: Option<usize>)
    ensures
        first_definition(entries(index@), name@, r),
{
    let mut k: usize = 0;
    while k < index.len()
        invariant
            0 <= k <= index@.len(),
            forall|j: int| 0 <= j < k ==> (#[trigger] entries(index@)[j]).0 != name@,
        decreases index@.len() - k,
    {
        if bytes_eq(&index[k].name, name) {
            assert(entries(index@)[k as int].0 == name@);
            return Some(index[k].file);
        }
        k = k + 1;
    }
    None
}

} // verus!
