use vstd::prelude::*;
use vstd::string::*;

use crate::strings::{lemma_lt_asymmetric, lemma_lt_transitive, seq_lt, str_lt};

verus! {

/// Where an output file goes in the list of outputs: entry chunks first, then the other
/// chunks, then assets.
#[derive(Clone, Copy, Debug, PartialEq, Eq, Structural)]
pub enum SortingFileType {
    EntryChunk,
    SecondaryChunk,
    Asset,
}

pub open spec fn rank(t: SortingFileType) -> int {
    match t {
        SortingFileType::EntryChunk => 0,
        SortingFileType::SecondaryChunk => 1,
        SortingFileType::Asset => 2,
    }
}

/// The sorting type of an output: an asset, an entry chunk, or another chunk.
pub fn get_sorting_file_type(is_asset: bool, is_entry: bool) -> (t: SortingFileType)
    ensures
        t == (if is_asset {
            SortingFileType::Asset
        } else if is_entry {
            SortingFileType::EntryChunk
        } else {
            SortingFileType::SecondaryChunk
        }),
{
    if is_asset {
        SortingFileType::Asset
    } else if is_entry {
        SortingFileType::EntryChunk
    } else {
        SortingFileType::SecondaryChunk
    }
}

/// An output file as its ordering sees it.
#[derive(Clone, Debug)]
pub struct OutputFile {
    pub kind: SortingFileType,
    pub filename: String,
}

/// `a` goes strictly before `b`: a lower sorting type, or the same one and a smaller
/// file name.
pub open spec fn output_before(a: OutputFile, b: OutputFile) -> bool {
    rank(a.kind) < rank(b.kind) || (rank(a.kind) == rank(b.kind) && seq_lt(a.filename@, b.filename@))
}

proof fn lemma_before_transitive(a: OutputFile, b: OutputFile, c: OutputFile)
    requires
        output_before(a, b),
        output_before(b, c),
    ensures
        output_before(a, c),
{
    if rank(a.kind) == rank(b.kind) && rank(b.kind) == rank(c.kind) {
        lemma_lt_transitive(a.filename@, b.filename@, c.filename@);
    }
}

proof fn lemma_before_asymmetric(a: OutputFile, b: OutputFile)
    requires
        output_before(a, b),
    ensures
        !output_before(b, a),
{
    if rank(a.kind) == rank(b.kind) {
        lemma_lt_asymmetric(a.filename@, b.filename@);
    }
}

fn before(a: &OutputFile, b: &OutputFile) -> (r: bool)
    ensures
        r == output_before(*a, *b),
{
    let ra: u8 = match a.kind {
        SortingFileType::EntryChunk => 0,
        SortingFileType::SecondaryChunk => 1,
        SortingFileType::Asset => 2,
    };
    let rb: u8 = match b.kind {
        SortingFileType::EntryChunk => 0,
        SortingFileType::SecondaryChunk => 1,
        SortingFileType::Asset => 2,
    };
    ra < rb || (ra == rb && str_lt(a.filename.as_str(), b.filename.as_str()))
}

/// The order to list outputs in: entry chunks, then other chunks, then assets, each group
/// by file name. Returns the positions of `outputs` in that order.
pub fn sort_outputs(outputs: &Vec<OutputFile>) -> (order: Vec<usize>)
    ensures
        order@.to_multiset() == Seq::new(outputs.len() as nat, |i: int| i as usize).to_multiset(),
        order.len() == outputs.len(),
        forall|i: int| 0 <= i < order.len() ==> #[trigger] order@[i] < outputs.len(),
        forall|a: int, b: int|
            0 <= a < b < order.len() ==> !output_before(#[trigger] outputs@[order@[b] as int], #[trigger] outputs@[order@[a] as int]),
{
    let mut r: Vec<usize> = Vec::new();
    let mut i: usize = 0;
    let ghost ids = Seq::new(outputs.len() as nat, |k: int| k as usize);
    proof {
        assert(r@ =~= ids.subrange(0, 0));
    }
    while i < outputs.len()
        invariant
            i <= outputs.len(),
            r.len() == i,
            ids == Seq::new(outputs.len() as nat, |k: int| k as usize),
            forall|q: int| 0 <= q < r.len() ==> #[trigger] r@[q] < outputs.len(),
            forall|a: int, b: int|
                0 <= a < b < r.len() ==> !output_before(#[trigger] outputs@[r@[b] as int], #[trigger] outputs@[r@[a] as int]),
            r@.to_multiset() == ids.subrange(0, i as int).to_multiset(),
        decreases outputs.len() - i,
    {
        let mut pos: usize = 0;
        while pos < r.len() && !before(&outputs[i], &outputs[r[pos]])
            invariant
                pos <= r.len(),
                i < outputs.len(),
                forall|q: int| 0 <= q < r.len() ==> #[trigger] r@[q] < outputs.len(),
                forall|k: int| 0 <= k < pos ==> !output_before(outputs@[i as int], #[trigger] outputs@[r@[k] as int]),
            decreases r.len() - pos,
        {
            pos += 1;
        }
        let ghost s = r@;
        r.insert(pos, i);
        proof {
            s.insert_ensures(pos as int, i);
            let t = r@;
            let x = outputs@[i as int];
            assert forall|q: int| 0 <= q < t.len() implies #[trigger] t[q] < outputs.len() by {
                if q < pos {
                    assert(t[q] == s[q]);
                } else if q > pos {
                    assert(t[q] == s[q - 1]);
                }
            }
            assert forall|a: int, b: int| 0 <= a < b < t.len() implies !output_before(
                #[trigger] outputs@[t[b] as int],
                #[trigger] outputs@[t[a] as int],
            ) by {
                if b < pos {
                    assert(t[a] == s[a] && t[b] == s[b]);
                } else if b == pos {
                    assert(t[a] == s[a]);
                } else if a < pos {
                    assert(t[a] == s[a] && t[b] == s[b - 1]);
                } else if a == pos {
                    assert(t[b] == s[b - 1]);
                    let p = outputs@[s[pos as int] as int];
                    assert(output_before(x, p));
                    if b - 1 > pos {
                        let y = outputs@[s[b - 1] as int];
                        assert(!output_before(y, p));
                        if output_before(y, x) {
                            lemma_before_transitive(y, x, p);
                        }
                    } else {
                        lemma_before_asymmetric(x, p);
                    }
                } else {
                    assert(t[a] == s[a - 1] && t[b] == s[b - 1]);
                }
            }
            vstd::seq_lib::to_multiset_insert(s, pos as int, i);
            assert(ids.subrange(0, i as int + 1) =~= ids.subrange(0, i as int).push(i));
            vstd::seq_lib::to_multiset_build(ids.subrange(0, i as int), i);
        }
        i += 1;
    }
    proof {
        assert(ids.subrange(0, outputs.len() as int) =~= ids);
    }
    r
}

/// The assets of a chunk ordered by preliminary file name, keeping the order they were
/// added in among equal names (a stable sort). Returns positions in `names`.
pub fn sort_assets_by_preliminary_filename(names: &Vec<String>) -> (order: Vec<usize>)
    ensures
        order@.to_multiset() == Seq::new(names.len() as nat, |i: int| i as usize).to_multiset(),
        order.len() == names.len(),
        forall|i: int| 0 <= i < order.len() ==> #[trigger] order@[i] < names.len(),
        forall|a: int, b: int|
            0 <= a < b < order.len() ==> !seq_lt(#[trigger] names@[order@[b] as int]@, #[trigger] names@[order@[a] as int]@),
        forall|a: int, b: int|
            0 <= a < b < order.len() && (#[trigger] names@[order@[a] as int])@ == (#[trigger] names@[order@[b] as int])@
                ==> order@[a] < order@[b],
{
    let mut r: Vec<usize> = Vec::new();
    let mut i: usize = 0;
    let ghost ids = Seq::new(names.len() as nat, |k: int| k as usize);
    proof {
        assert(r@ =~= ids.subrange(0, 0));
    }
    while i < names.len()
        invariant
            i <= names.len(),
            r.len() == i,
            ids == Seq::new(names.len() as nat, |k: int| k as usize),
            forall|q: int| 0 <= q < r.len() ==> #[trigger] r@[q] < i,
            forall|a: int, b: int| 0 <= a < b < r.len() ==> !seq_lt(#[trigger] names@[r@[b] as int]@, #[trigger] names@[r@[a] as int]@),
            forall|a: int, b: int|
                0 <= a < b < r.len() && (#[trigger] names@[r@[a] as int])@ == (#[trigger] names@[r@[b] as int])@ ==> r@[a] < r@[b],
            r@.to_multiset() == ids.subrange(0, i as int).to_multiset(),
        decreases names.len() - i,
    {
        let mut pos: usize = 0;
        while pos < r.len() && !str_lt(names[i].as_str(), names[r[pos]].as_str())
            invariant
                pos <= r.len(),
                i < names.len(),
                forall|q: int| 0 <= q < r.len() ==> #[trigger] r@[q] < i,
                forall|k: int| 0 <= k < pos ==> !seq_lt(names@[i as int]@, #[trigger] names@[r@[k] as int]@),
            decreases r.len() - pos,
        {
            pos += 1;
        }
        let ghost s = r@;
        r.insert(pos, i);
        proof {
            s.insert_ensures(pos as int, i);
            let t = r@;
            let x = names@[i as int]@;
            assert forall|q: int| 0 <= q < t.len() implies #[trigger] t[q] < i + 1 by {
                if q < pos {
                    assert(t[q] == s[q]);
                } else if q > pos {
                    assert(t[q] == s[q - 1]);
                }
            }
            assert forall|a: int, b: int| 0 <= a < b < t.len() implies !seq_lt(#[trigger] names@[t[b] as int]@, #[trigger] names@[t[a] as int]@)
                && (names@[t[a] as int]@ == names@[t[b] as int]@ ==> t[a] < t[b]) by {
                if b < pos {
                    assert(t[a] == s[a] && t[b] == s[b]);
                } else if b == pos {
                    assert(t[a] == s[a]);
                    assert(s[a] < i);
                } else if a < pos {
                    assert(t[a] == s[a] && t[b] == s[b - 1]);
                } else if a == pos {
                    assert(t[b] == s[b - 1]);
                    let p = names@[s[pos as int] as int]@;
                    assert(seq_lt(x, p));
                    if b - 1 > pos {
                        let y = names@[s[b - 1] as int]@;
                        assert(!seq_lt(y, p));
                        if seq_lt(y, x) {
                            lemma_lt_transitive(y, x, p);
                        }
                        if y == x {
                            assert(seq_lt(y, p));
                        }
                    } else {
                        lemma_lt_asymmetric(x, p);
                        crate::strings::lemma_lt_irreflexive(x);
                    }
                } else {
                    assert(t[a] == s[a - 1] && t[b] == s[b - 1]);
                }
            }
            vstd::seq_lib::to_multiset_insert(s, pos as int, i);
            assert(ids.subrange(0, i as int + 1) =~= ids.subrange(0, i as int).push(i));
            vstd::seq_lib::to_multiset_build(ids.subrange(0, i as int), i);
        }
        i += 1;
    }
    proof {
        assert(ids.subrange(0, names.len() as int) =~= ids);
    }
    r
}

} // verus!
