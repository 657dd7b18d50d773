use vstd::prelude::*;

use crate::types::{EntryPoint, LinkingMetadata, Module, SymbolRef};

verus! {

/// What the entry chunks of module `m` refer to after the first `n` entry points are
/// processed: the module's canonical exports once per entry point naming it, when it is
/// bundled.
pub open spec fn entry_export_refs(entries: Seq<EntryPoint>, m: int, external: bool, exports: Seq<SymbolRef>) -> Seq<SymbolRef>
    decreases entries.len(),
{
    if entries.len() == 0 {
        Seq::empty()
    } else {
        let rest = entry_export_refs(entries.drop_last(), m, external, exports);
        if entries.last().id == m && !external {
            rest + exports
        } else {
            rest
        }
    }
}

/// Makes the entry chunk of each bundled entry module refer to all of the module's
/// canonical exports (`canonical_exports[m]`, in sorted-name order), so that tree shaking
/// keeps them. Nothing else changes.
pub fn process_entry_point_module_exports(
    entries: &Vec<EntryPoint>,
    modules: &Vec<Module>,
    metadata: &mut Vec<LinkingMetadata>,
    canonical_exports: &Vec<Vec<SymbolRef>>,
)
    requires
        old(metadata).len() == modules.len(),
        canonical_exports.len() == modules.len(),
        forall|e: int| 0 <= e < entries.len() ==> (#[trigger] entries@[e]).id < modules.len(),
    ensures
        final(metadata).len() == old(metadata).len(),
        forall|m: int|
            0 <= m < modules.len() ==> #[trigger] final(metadata)@[m] == (LinkingMetadata {
                referenced_symbols_by_entry_point_chunk: final(metadata)@[m].referenced_symbols_by_entry_point_chunk,
                ..old(metadata)@[m]
            }) && final(metadata)@[m].referenced_symbols_by_entry_point_chunk@
                == old(metadata)@[m].referenced_symbols_by_entry_point_chunk@ + entry_export_refs(
                entries@,
                m,
                modules@[m].is_external,
                canonical_exports@[m]@,
            ),
{
    let mut i: usize = 0;
    while i < entries.len()
        invariant
            i <= entries.len(),
            metadata.len() == modules.len(),
            canonical_exports.len() == modules.len(),
            forall|e: int| 0 <= e < entries.len() ==> (#[trigger] entries@[e]).id < modules.len(),
            forall|m: int|
                0 <= m < modules.len() ==> #[trigger] metadata@[m] == (LinkingMetadata {
                    referenced_symbols_by_entry_point_chunk: metadata@[m].referenced_symbols_by_entry_point_chunk,
                    ..old(metadata)@[m]
                }) && metadata@[m].referenced_symbols_by_entry_point_chunk@
                    == old(metadata)@[m].referenced_symbols_by_entry_point_chunk@ + entry_export_refs(
                    entries@.subrange(0, i as int),
                    m,
                    modules@[m].is_external,
                    canonical_exports@[m]@,
                ),
        decreases entries.len() - i,
    {
        let id = entries[i].id;
        let ghost before = metadata@;
        if !modules[id].is_external {
            let exports = &canonical_exports[id];
            let mut k: usize = 0;
            while k < exports.len()
                invariant
                    k <= exports.len(),
                    id < metadata.len(),
                    metadata.len() == before.len(),
                    forall|q: int| 0 <= q < metadata.len() && q != id ==> #[trigger] metadata@[q] == before[q],
                    metadata@[id as int] == (LinkingMetadata {
                        referenced_symbols_by_entry_point_chunk: metadata@[id as int].referenced_symbols_by_entry_point_chunk,
                        ..before[id as int]
                    }),
                    metadata@[id as int].referenced_symbols_by_entry_point_chunk@
                        == before[id as int].referenced_symbols_by_entry_point_chunk@ + exports@.subrange(0, k as int),
                decreases exports.len() - k,
            {
                metadata[id].referenced_symbols_by_entry_point_chunk.push(exports[k]);
                k += 1;
                proof {
                    assert(exports@.subrange(0, k as int) =~= exports@.subrange(0, k - 1).push(exports@[k - 1]));
                }
            }
        }
        proof {
            let s = entries@.subrange(0, i as int + 1);
            assert(s.drop_last() =~= entries@.subrange(0, i as int));
            assert forall|m: int| 0 <= m < modules.len() implies #[trigger] metadata@[m] == (LinkingMetadata {
                referenced_symbols_by_entry_point_chunk: metadata@[m].referenced_symbols_by_entry_point_chunk,
                ..old(metadata)@[m]
            }) && metadata@[m].referenced_symbols_by_entry_point_chunk@
                == old(metadata)@[m].referenced_symbols_by_entry_point_chunk@ + entry_export_refs(
                s,
                m,
                modules@[m].is_external,
                canonical_exports@[m]@,
            ) by {
                let prev = entry_export_refs(entries@.subrange(0, i as int), m, modules@[m].is_external, canonical_exports@[m]@);
                if m == id as int && !modules@[m].is_external {
                    assert(canonical_exports@[m]@.subrange(0, canonical_exports@[m]@.len() as int) =~= canonical_exports@[m]@);
                    assert(old(metadata)@[m].referenced_symbols_by_entry_point_chunk@ + prev + canonical_exports@[m]@
                        =~= old(metadata)@[m].referenced_symbols_by_entry_point_chunk@ + (prev + canonical_exports@[m]@));
                } else {
                    assert(metadata@[m] == before[m]);
                }
            }
        }
        i += 1;
    }
    proof {
        assert(entries@.subrange(0, entries.len() as int) =~= entries@);
    }
}


} // verus!
