use vstd::prelude::*;
use vstd::string::*;

use crate::module_exports::RuntimeModuleBrief;
use crate::render::OutputFormat;
use crate::strings::copy_str;
use crate::types::{
    ImportKind, ImportRecord, LinkingMetadata, Module, ModuleIdx, StmtInfo, SymbolOrMemberExprRef, SymbolRef, SymbolRefDb, WrapKind,
};

verus! {

/// `d` with each item of `s` added, in order, unless already there (an insertion-ordered set).
pub open spec fn insert_all(d: Seq<usize>, s: Seq<usize>) -> Seq<usize>
    decreases s.len(),
{
    if s.len() == 0 {
        d
    } else {
        let d1 = insert_all(d, s.drop_last());
        if d1.contains(s.last()) {
            d1
        } else {
            d1.push(s.last())
        }
    }
}

/// The concatenation of the sequences of `ss`, in order.
pub open spec fn concat_all(ss: Seq<Seq<usize>>) -> Seq<usize>
    decreases ss.len(),
{
    if ss.len() == 0 {
        Seq::empty()
    } else {
        concat_all(ss.drop_last()) + ss.last()
    }
}

proof fn lemma_insert_all_append(d: Seq<usize>, a: Seq<usize>, b: Seq<usize>)
    ensures
        insert_all(d, a + b) == insert_all(insert_all(d, a), b),
    decreases b.len(),
{
    if b.len() == 0 {
        assert(a + b =~= a);
    } else {
        lemma_insert_all_append(d, a, b.drop_last());
        assert((a + b).drop_last() =~= a + b.drop_last());
        assert((a + b).last() == b.last());
    }
}

/// Adding one more item to an insertion-ordered set.
pub(crate) proof fn lemma_insert_all_push(d: Seq<usize>, s: Seq<usize>, x: usize)
    ensures
        insert_all(d, s.push(x)) == (if insert_all(d, s).contains(x) {
            insert_all(d, s)
        } else {
            insert_all(d, s).push(x)
        }),
{
    assert(s.push(x).drop_last() =~= s);
}

/// Adds `x` to an insertion-ordered set.
pub(crate) fn insert_idx(d: &mut Vec<usize>, x: usize)
    ensures
        final(d)@ == (if old(d)@.contains(x) {
            old(d)@
        } else {
            old(d)@.push(x)
        }),
{
    let mut i: usize = 0;
    while i < d.len()
        invariant
            i <= d.len(),
            forall|j: int| 0 <= j < i ==> d@[j] != x,
        decreases d.len() - i,
    {
        if d[i] == x {
            return;
        }
        i += 1;
    }
    d.push(x);
}

/// Of the first `n` records, the modules pointed at by those kept: all but `import()`
/// ones, unless dynamic imports are inlined.
pub open spec fn kept_targets(recs: Seq<ImportRecord>, inline_dynamic_imports: bool, n: int) -> Seq<usize>
    decreases n,
{
    if n <= 0 {
        Seq::empty()
    } else if !(recs[n - 1].kind is DynamicImport) || inline_dynamic_imports {
        kept_targets(recs, inline_dynamic_imports, n - 1).push(recs[n - 1].resolved_module)
    } else {
        kept_targets(recs, inline_dynamic_imports, n - 1)
    }
}

/// The modules a module depends on for its own execution: those its records point at,
/// but for `import()` ones unless dynamic imports are inlined; each once, in record order.
pub open spec fn module_dependencies(m: Module, inline_dynamic_imports: bool) -> Seq<usize> {
    insert_all(Seq::empty(), kept_targets(m.import_records@, inline_dynamic_imports, m.import_records.len() as int))
}

/// Of the first `n` records, the positions of those of `export * from` an external module.
pub open spec fn star_positions(recs: Seq<ImportRecord>, modules: Seq<Module>, n: int) -> Seq<usize>
    decreases n,
{
    if n <= 0 {
        Seq::empty()
    } else if recs[n - 1].is_export_star && modules[recs[n - 1].resolved_module as int].is_external {
        star_positions(recs, modules, n - 1).push((n - 1) as usize)
    } else {
        star_positions(recs, modules, n - 1)
    }
}

/// The records of `export * from` an external module, by position, in order.
pub open spec fn external_star_exports(m: Module, modules: Seq<Module>) -> Seq<usize> {
    star_positions(m.import_records@, modules, m.import_records.len() as int)
}

/// The linking metadata each module starts with: its dependencies and its `export *` of
/// external modules; everything else empty.
pub fn init_linking_metadata(modules: &Vec<Module>, inline_dynamic_imports: bool) -> (r: Vec<LinkingMetadata>)
    requires
        forall|m: int, i: int|
            0 <= m < modules.len() && 0 <= i < modules[m].import_records.len() ==> (#[trigger] modules@[m].import_records@[i]).resolved_module
                < modules.len(),
    ensures
        r.len() == modules.len(),
        forall|m: int|
            0 <= m < modules.len() ==> {
                let meta = #[trigger] r@[m];
                &&& meta.dependencies@ == module_dependencies(modules@[m], inline_dynamic_imports)
                &&& meta.star_exports_from_external_modules@ == external_star_exports(modules@[m], modules@)
                &&& meta.referenced_symbols_by_entry_point_chunk@.len() == 0
                &&& meta.resolved_member_expr_refs@.len() == 0
                &&& !meta.has_dynamic_exports
                &&& meta.wrap_kind is Unwrapped
                &&& meta.wrapper_ref is None
                &&& meta.wrapper_stmt_info is None
                &&& meta.shimmed_missing_exports@.len() == 0
            },
{
    let mut r: Vec<LinkingMetadata> = Vec::new();
    let mut m: usize = 0;
    while m < modules.len()
        invariant
            m <= modules.len(),
            r.len() == m,
            forall|q: int, i: int|
                0 <= q < modules.len() && 0 <= i < modules[q].import_records.len() ==> (#[trigger] modules@[q].import_records@[i]).resolved_module
                    < modules.len(),
            forall|q: int|
                0 <= q < m ==> {
                    let meta = #[trigger] r@[q];
                    &&& meta.dependencies@ == module_dependencies(modules@[q], inline_dynamic_imports)
                    &&& meta.star_exports_from_external_modules@ == external_star_exports(modules@[q], modules@)
                    &&& meta.referenced_symbols_by_entry_point_chunk@.len() == 0
                    &&& meta.resolved_member_expr_refs@.len() == 0
                    &&& !meta.has_dynamic_exports
                    &&& meta.wrap_kind is Unwrapped
                    &&& meta.wrapper_ref is None
                    &&& meta.wrapper_stmt_info is None
                    &&& meta.shimmed_missing_exports@.len() == 0
                },
        decreases modules.len() - m,
    {
        let module = &modules[m];
        let mut deps: Vec<usize> = Vec::new();
        let mut stars: Vec<usize> = Vec::new();
        let mut i: usize = 0;
        while i < module.import_records.len()
            invariant
                m < modules.len(),
                *module == modules@[m as int],
                i <= module.import_records.len(),
                forall|q: int, j: int|
                    0 <= q < modules.len() && 0 <= j < modules[q].import_records.len() ==> (#[trigger] modules@[q].import_records@[j]).resolved_module
                        < modules.len(),
                deps@ == insert_all(Seq::empty(), kept_targets(module.import_records@, inline_dynamic_imports, i as int)),
                stars@ == star_positions(module.import_records@, modules@, i as int),
            decreases module.import_records.len() - i,
        {
            let rec = module.import_records[i];
            proof {
                lemma_insert_all_push(
                    Seq::empty(),
                    kept_targets(module.import_records@, inline_dynamic_imports, i as int),
                    rec.resolved_module,
                );
            }
            if !rec.kind.is_dynamic() || inline_dynamic_imports {
                insert_idx(&mut deps, rec.resolved_module);
            }
            if rec.is_export_star && modules[rec.resolved_module].is_external {
                stars.push(i);
            }
            i += 1;
        }
        r.push(LinkingMetadata {
            dependencies: deps,
            referenced_symbols_by_entry_point_chunk: Vec::new(),
            resolved_member_expr_refs: Vec::new(),
            has_dynamic_exports: false,
            wrap_kind: WrapKind::Unwrapped,
            wrapper_ref: None,
            wrapper_stmt_info: None,
            shimmed_missing_exports: Vec::new(),
            star_exports_from_external_modules: stars,
        });
        m += 1;
    }
    r
}


/// The modules that reading symbol `s` needs: that of the namespace its canonical symbol
/// aliases into (if any), then that of its canonical symbol.
pub open spec fn sym_owners(db: SymbolRefDb, s: SymbolRef) -> Seq<usize> {
    let c = db.info(s).canonical;
    match db.info(c).namespace_alias {
        Some(a) => seq![a.namespace_ref.owner, c.owner],
        None => seq![c.owner],
    }
}

/// The modules a reference needs; a member expression that resolves to nothing needs none.
pub open spec fn ref_owners(db: SymbolRefDb, meta: LinkingMetadata, r: SymbolOrMemberExprRef) -> Seq<usize> {
    match r {
        SymbolOrMemberExprRef::Symbol(s) => sym_owners(db, s),
        SymbolOrMemberExprRef::MemberExpr(k) => match meta.resolved_member_expr_refs@[k as int] {
            Some(s) => sym_owners(db, s),
            None => Seq::empty(),
        },
    }
}

pub open spec fn stmt_owners(db: SymbolRefDb, meta: LinkingMetadata, st: StmtInfo) -> Seq<usize> {
    concat_all(Seq::new(st.referenced_symbols@.len(), |k: int| ref_owners(db, meta, st.referenced_symbols@[k])))
}

/// The modules a module needs besides its dependencies: the owners of the symbols its
/// entry chunk refers to, then (for a bundled module) those that its included statements
/// refer to, in order.
pub open spec fn needed_owners(db: SymbolRefDb, meta: LinkingMetadata, m: Module, included: Seq<bool>) -> Seq<usize> {
    let entry = Seq::new(
        meta.referenced_symbols_by_entry_point_chunk@.len(),
        |i: int| db.info(meta.referenced_symbols_by_entry_point_chunk@[i]).canonical.owner,
    );
    if m.is_external {
        entry
    } else {
        entry + concat_all(Seq::new(m.stmt_infos@.len(), |j: int| if included[j] {
            stmt_owners(db, meta, m.stmt_infos@[j])
        } else {
            Seq::empty()
        }))
    }
}

/// Every symbol a module's entry chunk and included statements refer to exists.
pub open spec fn patch_input_ok(db: SymbolRefDb, meta: LinkingMetadata, m: Module, included: Seq<bool>) -> bool {
    &&& forall|i: int| 0 <= i < meta.referenced_symbols_by_entry_point_chunk.len() ==> db.has(#[trigger] meta.referenced_symbols_by_entry_point_chunk@[i])
    &&& !m.is_external ==> {
        &&& included.len() == m.stmt_infos.len()
        &&& forall|j: int, k: int|
            0 <= j < m.stmt_infos.len() && included[j] && 0 <= k < m.stmt_infos@[j].referenced_symbols.len() ==> match #[trigger] m.stmt_infos@[j].referenced_symbols@[k] {
                SymbolOrMemberExprRef::Symbol(s) => db.has(s),
                SymbolOrMemberExprRef::MemberExpr(e) => e < meta.resolved_member_expr_refs.len() && (meta.resolved_member_expr_refs@[e as int] matches Some(s) ==> db.has(s)),
            }
    }
}

fn add_sym_owners(deps: &mut Vec<usize>, db: &SymbolRefDb, s: SymbolRef)
    requires
        db.wf(),
        db.has(s),
    ensures
        final(deps)@ == insert_all(old(deps)@, sym_owners(*db, s)),
{
    let c = db.canonical_ref_for(s);
    let ghost d0 = deps@;
    match &db.symbols[c.owner][c.symbol].namespace_alias {
        Some(a) => {
            insert_idx(deps, a.namespace_ref.owner);
            insert_idx(deps, c.owner);
            proof {
                let so = sym_owners(*db, s);
                let x = a.namespace_ref.owner;
                assert(so =~= Seq::<usize>::empty().push(x).push(c.owner));
                lemma_insert_all_push(d0, Seq::<usize>::empty(), x);
                lemma_insert_all_push(d0, Seq::<usize>::empty().push(x), c.owner);
            }
        },
        None => {
            insert_idx(deps, c.owner);
            proof {
                assert(sym_owners(*db, s) =~= Seq::<usize>::empty().push(c.owner));
                lemma_insert_all_push(d0, Seq::<usize>::empty(), c.owner);
            }
        },
    }
}

/// Adds to each module's dependencies the modules that its entry chunk and its included
/// statements refer to (see [`needed_owners`]), each once, after those it had.
pub fn patch_module_dependencies(
    metadata: &mut Vec<LinkingMetadata>,
    modules: &Vec<Module>,
    symbols: &SymbolRefDb,
    stmt_included: &Vec<Vec<bool>>,
)
    requires
        symbols.wf(),
        old(metadata).len() == modules.len(),
        stmt_included.len() == modules.len(),
        forall|m: int| 0 <= m < modules.len() ==> patch_input_ok(*symbols, #[trigger] old(metadata)@[m], modules@[m], stmt_included@[m]@),
    ensures
        final(metadata).len() == old(metadata).len(),
        forall|m: int|
            0 <= m < modules.len() ==> (#[trigger] final(metadata)@[m]) == (LinkingMetadata {
                dependencies: final(metadata)@[m].dependencies,
                ..old(metadata)@[m]
            }) && final(metadata)@[m].dependencies@ == insert_all(
                old(metadata)@[m].dependencies@,
                needed_owners(*symbols, old(metadata)@[m], modules@[m], stmt_included@[m]@),
            ),
{
    let n = metadata.len();
    let mut idx: usize = 0;
    while idx < n
        invariant
            idx <= n,
            n == metadata.len(),
            n == modules.len(),
            n == stmt_included.len(),
            symbols.wf(),
            forall|m: int| 0 <= m < n ==> patch_input_ok(*symbols, #[trigger] old(metadata)@[m], modules@[m], stmt_included@[m]@),
            forall|m: int| idx <= m < n ==> #[trigger] metadata@[m] == old(metadata)@[m],
            forall|m: int|
                0 <= m < idx ==> (#[trigger] metadata@[m]) == (LinkingMetadata {
                    dependencies: metadata@[m].dependencies,
                    ..old(metadata)@[m]
                }) && metadata@[m].dependencies@ == insert_all(
                    old(metadata)@[m].dependencies@,
                    needed_owners(*symbols, old(metadata)@[m], modules@[m], stmt_included@[m]@),
                ),
        decreases n - idx,
    {
        let ghost meta0 = metadata@[idx as int];
        let ghost d0 = meta0.dependencies@;
        let mut deps: Vec<usize> = Vec::new();
        std::mem::swap(&mut deps, &mut metadata[idx].dependencies);
        let meta = &metadata[idx];
        let ghost entry = Seq::new(
            meta0.referenced_symbols_by_entry_point_chunk@.len(),
            |i: int| symbols.info(meta0.referenced_symbols_by_entry_point_chunk@[i]).canonical.owner,
        );
        let mut i: usize = 0;
        while i < meta.referenced_symbols_by_entry_point_chunk.len()
            invariant
                symbols.wf(),
                meta.referenced_symbols_by_entry_point_chunk == meta0.referenced_symbols_by_entry_point_chunk,
                patch_input_ok(*symbols, meta0, modules@[idx as int], stmt_included@[idx as int]@),
                i <= meta.referenced_symbols_by_entry_point_chunk.len(),
                entry == Seq::new(
                    meta0.referenced_symbols_by_entry_point_chunk@.len(),
                    |i: int| symbols.info(meta0.referenced_symbols_by_entry_point_chunk@[i]).canonical.owner,
                ),
                deps@ == insert_all(d0, entry.subrange(0, i as int)),
            decreases meta.referenced_symbols_by_entry_point_chunk.len() - i,
        {
            let c = symbols.canonical_ref_for(meta.referenced_symbols_by_entry_point_chunk[i]);
            proof {
                assert(entry.subrange(0, i + 1) =~= entry.subrange(0, i as int).push(c.owner));
                lemma_insert_all_push(d0, entry.subrange(0, i as int), c.owner);
            }
            insert_idx(&mut deps, c.owner);
            i += 1;
        }
        proof {
            assert(entry.subrange(0, entry.len() as int) =~= entry);
        }
        let module = &modules[idx];
        if !module.is_external {
            let inc = &stmt_included[idx];
            let ghost parts = Seq::new(module.stmt_infos@.len(), |j: int| if inc@[j] {
                stmt_owners(*symbols, meta0, module.stmt_infos@[j])
            } else {
                Seq::empty()
            });
            let mut j: usize = 0;
            while j < module.stmt_infos.len()
                invariant
                    symbols.wf(),
                    *module == modules@[idx as int],
                    !module.is_external,
                    *inc == stmt_included@[idx as int],
                    *meta == (LinkingMetadata { dependencies: meta.dependencies, ..meta0 }),
                    patch_input_ok(*symbols, meta0, *module, inc@),
                    j <= module.stmt_infos.len(),
                    parts == Seq::new(module.stmt_infos@.len(), |j: int| if inc@[j] {
                        stmt_owners(*symbols, meta0, module.stmt_infos@[j])
                    } else {
                        Seq::empty()
                    }),
                    deps@ == insert_all(insert_all(d0, entry), concat_all(parts.subrange(0, j as int))),
                decreases module.stmt_infos.len() - j,
            {
                let ghost before = deps@;
                if inc[j] {
                    let st = &module.stmt_infos[j];
                    let ghost rparts = Seq::new(st.referenced_symbols@.len(), |k: int| ref_owners(*symbols, meta0, st.referenced_symbols@[k]));
                    let mut k: usize = 0;
                    while k < st.referenced_symbols.len()
                        invariant
                            symbols.wf(),
                            *st == module.stmt_infos@[j as int],
                            j < module.stmt_infos.len(),
                            inc@[j as int],
                            *meta == (LinkingMetadata { dependencies: meta.dependencies, ..meta0 }),
                            patch_input_ok(*symbols, meta0, *module, inc@),
                            !module.is_external,
                            k <= st.referenced_symbols.len(),
                            rparts == Seq::new(st.referenced_symbols@.len(), |k: int| ref_owners(*symbols, meta0, st.referenced_symbols@[k])),
                            deps@ == insert_all(before, concat_all(rparts.subrange(0, k as int))),
                        decreases st.referenced_symbols.len() - k,
                    {
                        let r = st.referenced_symbols[k];
                        let ghost bk = deps@;
                        proof {
                            assert(rparts.subrange(0, k + 1).drop_last() =~= rparts.subrange(0, k as int));
                            lemma_insert_all_append(before, concat_all(rparts.subrange(0, k as int)), rparts[k as int]);
                        }
                        match r {
                            SymbolOrMemberExprRef::Symbol(s) => {
                                add_sym_owners(&mut deps, symbols, s);
                            },
                            SymbolOrMemberExprRef::MemberExpr(e) => {
                                match meta.resolved_member_expr_refs[e] {
                                    Some(s) => {
                                        add_sym_owners(&mut deps, symbols, s);
                                    },
                                    None => {
                                        proof {
                                            assert(insert_all(bk, Seq::<usize>::empty()) == bk);
                                        }
                                    },
                                }
                            },
                        }
                        k += 1;
                    }
                    proof {
                        assert(rparts.subrange(0, rparts.len() as int) =~= rparts);
                        assert(parts[j as int] == concat_all(rparts));
                    }
                } else {
                    proof {
                        assert(parts[j as int] =~= Seq::<usize>::empty());
                        assert(insert_all(before, Seq::<usize>::empty()) == before);
                    }
                }
                proof {
                    assert(parts.subrange(0, j + 1).drop_last() =~= parts.subrange(0, j as int));
                    lemma_insert_all_append(insert_all(d0, entry), concat_all(parts.subrange(0, j as int)), parts[j as int]);
                }
                j += 1;
            }
            proof {
                assert(parts.subrange(0, parts.len() as int) =~= parts);
                lemma_insert_all_append(d0, entry, concat_all(parts));
            }
        }
        std::mem::swap(&mut deps, &mut metadata[idx].dependencies);
        idx += 1;
    }
}

} // verus!
