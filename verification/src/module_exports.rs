use vstd::prelude::*;
use vstd::string::*;

use crate::bind::ResolvedExportEntry;
use crate::render::OutputFormat;
use crate::strings::{copy_str, str_eq};
use crate::types::{
    ExportsKind, ImportRecord, LinkingMetadata, Module, StmtInfo, SymbolInfo, SymbolOrMemberExprRef, SymbolRef, SymbolRefDb, WrapKind,
};

verus! {

/// The runtime module's top-level symbols, by name.
pub struct RuntimeModuleBrief {
    pub id: usize,
    pub name_to_symbol: Vec<(String, SymbolRef)>,
}

impl RuntimeModuleBrief {
    /// The runtime defines `name`.
    pub open spec fn defines(&self, name: Seq<char>) -> bool {
        exists|i: int| 0 <= i < self.name_to_symbol.len() && (#[trigger] self.name_to_symbol@[i]).0@ == name
    }

    /// The symbol the runtime defines as `name` (its first definition).
    pub open spec fn symbol_of(&self, name: Seq<char>) -> SymbolRef {
        self.name_to_symbol@[first_index(self.name_to_symbol@, name)].1
    }

    /// The symbol the runtime defines as `name`.
    pub fn resolve_symbol(&self, name: &str) -> (r: SymbolRef)
        requires
            self.defines(name@),
        ensures
            r == self.symbol_of(name@),
    {
        let mut i: usize = 0;
        while i < self.name_to_symbol.len()
            invariant
                i <= self.name_to_symbol.len(),
                self.defines(name@),
                forall|j: int| 0 <= j < i ==> (#[trigger] self.name_to_symbol@[j]).0@ != name@,
            decreases self.name_to_symbol.len() - i,
        {
            if str_eq(self.name_to_symbol[i].0.as_str(), name) {
                proof {
                    lemma_first_index(self.name_to_symbol@, name@, i as int);
                }
                return self.name_to_symbol[i].1;
            }
            i += 1;
        }
        proof {
            let j = choose|j: int| 0 <= j < self.name_to_symbol.len() && (#[trigger] self.name_to_symbol@[j]).0@ == name@;
            assert(self.name_to_symbol@[j].0@ != name@);
        }
        SymbolRef { owner: 0, symbol: 0 }
    }
}

/// The first position of `name` in a name table.
pub open spec fn first_index(t: Seq<(String, SymbolRef)>, name: Seq<char>) -> int {
    choose|i: int| 0 <= i < t.len() && t[i].0@ == name && forall|j: int| 0 <= j < i ==> (#[trigger] t[j]).0@ != name
}

proof fn lemma_first_index(t: Seq<(String, SymbolRef)>, name: Seq<char>, i: int)
    requires
        0 <= i < t.len(),
        t[i].0@ == name,
        forall|j: int| 0 <= j < i ==> (#[trigger] t[j]).0@ != name,
    ensures
        first_index(t, name) == i,
{
    let f = first_index(t, name);
    assert(0 <= f < t.len() && t[f].0@ == name && forall|j: int| 0 <= j < f ==> (#[trigger] t[j]).0@ != name);
    if f < i {
        assert(t[f].0@ != name);
    }
    if i < f {
        assert(t[i].0@ != name);
    }
}

/// A statement as plain values: declared symbols, referenced symbols, side effect,
/// import records.
pub open spec fn stmt_view(s: StmtInfo) -> (Seq<SymbolRef>, Seq<SymbolOrMemberExprRef>, bool, Seq<usize>) {
    (s.declared_symbols@, s.referenced_symbols@, s.side_effect, s.import_records@)
}

pub open spec fn stmts_view(ss: Seq<StmtInfo>) -> Seq<(Seq<SymbolRef>, Seq<SymbolOrMemberExprRef>, bool, Seq<usize>)> {
    Seq::new(ss.len(), |i: int| stmt_view(ss[i]))
}

/// A statement that declares `declared` and refers to `referenced`, without side effects.
pub open spec fn facade_stmt(declared: Seq<SymbolRef>, referenced: Seq<SymbolOrMemberExprRef>) -> (
    Seq<SymbolRef>,
    Seq<SymbolOrMemberExprRef>,
    bool,
    Seq<usize>,
) {
    (declared, referenced, false, Seq::empty())
}

/// The runtime helper that wraps a module of this kind.
pub open spec fn wrapper_helper(kind: WrapKind, minify: bool) -> Seq<char> {
    if kind is Cjs {
        if minify {
            "__commonJSMin"@
        } else {
            "__commonJS"@
        }
    } else {
        if minify {
            "__esmMin"@
        } else {
            "__esm"@
        }
    }
}

/// The name of a module's wrapper function.
pub open spec fn wrapper_name(kind: WrapKind, repr_name: Seq<char>) -> Seq<char> {
    if kind is Cjs {
        "require_"@ + repr_name
    } else {
        "init_"@ + repr_name
    }
}

/// The runtime defines every helper that wrappers and namespace objects use.
pub open spec fn runtime_complete(rt: RuntimeModuleBrief) -> bool {
    &&& rt.defines("__commonJS"@)
    &&& rt.defines("__commonJSMin"@)
    &&& rt.defines("__esm"@)
    &&& rt.defines("__esmMin"@)
    &&& rt.defines("__export"@)
    &&& rt.defines("__reExport"@)
}

pub open spec fn symbol_refs(s: Seq<SymbolRef>) -> Seq<SymbolOrMemberExprRef> {
    Seq::new(s.len(), |i: int| SymbolOrMemberExprRef::Symbol(s[i]))
}

/// The namespace symbols of the given import records.
pub open spec fn record_namespaces(records: Seq<ImportRecord>, recs: Seq<usize>) -> Seq<SymbolRef> {
    Seq::new(recs.len(), |i: int| records[recs[i] as int].namespace_ref)
}

/// The statement that builds the module namespace object `ns` of an ESM module: it
/// refers to `__export` and the canonical exports when there are any, to `__reExport`
/// when the module re-exports external modules (through records `ext`; for ESM output it
/// also refers to and declares those modules' namespaces), and declares `ns`.
pub open spec fn namespace_stmt(
    records: Seq<ImportRecord>,
    ns: SymbolRef,
    ext: Seq<usize>,
    exports: Seq<SymbolRef>,
    rt: RuntimeModuleBrief,
    format: OutputFormat,
) -> (Seq<SymbolRef>, Seq<SymbolOrMemberExprRef>, bool, Seq<usize>) {
    let r1 = if exports.len() > 0 {
        seq![SymbolOrMemberExprRef::Symbol(rt.symbol_of("__export"@))] + symbol_refs(exports)
    } else {
        Seq::empty()
    };
    let r2 = if ext.len() > 0 {
        r1.push(SymbolOrMemberExprRef::Symbol(rt.symbol_of("__reExport"@))) + if format is Esm {
            symbol_refs(record_namespaces(records, ext))
        } else {
            Seq::empty()
        }
    } else {
        r1
    };
    let d = if ext.len() > 0 && format is Esm {
        record_namespaces(records, ext)
    } else {
        Seq::empty()
    };
    facade_stmt(d.push(ns), r2)
}

/// The statements with the wrapper's statement appended, for a wrapped module.
pub open spec fn with_wrapper(
    s: Seq<(Seq<SymbolRef>, Seq<SymbolOrMemberExprRef>, bool, Seq<usize>)>,
    kind: WrapKind,
    w: SymbolRef,
    helper: SymbolRef,
) -> Seq<(Seq<SymbolRef>, Seq<SymbolOrMemberExprRef>, bool, Seq<usize>)> {
    if kind is Unwrapped {
        s
    } else {
        s.push(facade_stmt(seq![w], seq![SymbolOrMemberExprRef::Symbol(helper)]))
    }
}

/// One statement declaring each shimmed missing export.
pub open spec fn shim_stmts(shims: Seq<(String, SymbolRef)>) -> Seq<(Seq<SymbolRef>, Seq<SymbolOrMemberExprRef>, bool, Seq<usize>)> {
    Seq::new(shims.len(), |i: int| facade_stmt(seq![shims[i].1], Seq::empty()))
}

/// The statements of module `m` after exports are created, given the symbol its wrapper
/// got: the wrapper's statement appended (when wrapped), one statement per shimmed
/// missing export, and for an ESM module the namespace statement in place of the first.
pub open spec fn stmts_after(
    m: Module,
    meta: LinkingMetadata,
    exports: Seq<SymbolRef>,
    rt: RuntimeModuleBrief,
    format: OutputFormat,
    minify: bool,
    wrapper: SymbolRef,
) -> Seq<(Seq<SymbolRef>, Seq<SymbolOrMemberExprRef>, bool, Seq<usize>)> {
    let s1 = with_wrapper(stmts_view(m.stmt_infos@), meta.wrap_kind, wrapper, rt.symbol_of(wrapper_helper(meta.wrap_kind, minify)));
    let s2 = s1 + shim_stmts(meta.shimmed_missing_exports@);
    if m.exports_kind is Esm {
        s2.update(0, namespace_stmt(m.import_records@, m.namespace_object_ref, meta.star_exports_from_external_modules@, exports, rt, format))
    } else {
        s2
    }
}

/// The symbols of `sorted` names, each looked up among `entries`.
pub open spec fn canonical_symbols(entries: Seq<ResolvedExportEntry>, sorted: Seq<Seq<char>>) -> Seq<SymbolRef> {
    Seq::new(
        sorted.len(),
        |i: int| entries[choose|k: int| 0 <= k < entries.len() && (#[trigger] entries[k]).name@ == sorted[i]].symbol,
    )
}

/// Some entry has this name.
pub open spec fn has_entry_named(entries: Seq<ResolvedExportEntry>, name: Seq<char>) -> bool {
    exists|k: int| 0 <= k < entries.len() && (#[trigger] entries[k]).name@ == name
}

/// The symbols of a module's canonical exports, in the order of its sorted export names.
pub fn canonical_export_symbols(entries: &Vec<ResolvedExportEntry>, sorted: &Vec<String>) -> (r: Vec<SymbolRef>)
    requires
        forall|k1: int, k2: int|
            0 <= k1 < entries.len() && 0 <= k2 < entries.len() && k1 != k2 ==> (#[trigger] entries@[k1]).name@
                != (#[trigger] entries@[k2]).name@,
        forall|i: int| 0 <= i < sorted.len() ==> has_entry_named(entries@, #[trigger] sorted@[i]@),
    ensures
        r@ == canonical_symbols(entries@, crate::strings::views(sorted@)),
        // each sorted name, in order, with the symbol of the export of that name
        r.len() == sorted.len(),
        forall|i: int, k: int|
            0 <= i < sorted.len() && 0 <= k < entries.len() && (#[trigger] entries@[k]).name@ == (#[trigger] sorted@[i])@
                ==> r@[i] == entries@[k].symbol,
{
    let mut r: Vec<SymbolRef> = Vec::new();
    let mut i: usize = 0;
    while i < sorted.len()
        invariant
            i <= sorted.len(),
            forall|k1: int, k2: int|
                0 <= k1 < entries.len() && 0 <= k2 < entries.len() && k1 != k2 ==> (#[trigger] entries@[k1]).name@
                    != (#[trigger] entries@[k2]).name@,
            forall|q: int| 0 <= q < sorted.len() ==> has_entry_named(entries@, #[trigger] sorted@[q]@),
            r@ == canonical_symbols(entries@, crate::strings::views(sorted@)).subrange(0, i as int),
        decreases sorted.len() - i,
    {
        let mut k: usize = 0;
        while k < entries.len() && !str_eq(entries[k].name.as_str(), sorted[i].as_str())
            invariant
                k <= entries.len(),
                i < sorted.len(),
                forall|j: int| 0 <= j < k ==> (#[trigger] entries@[j]).name@ != sorted@[i as int]@,
            decreases entries.len() - k,
        {
            k += 1;
        }
        proof {
            assert(has_entry_named(entries@, sorted@[i as int]@));
            let w = choose|w: int| 0 <= w < entries.len() && (#[trigger] entries@[w]).name@ == sorted@[i as int]@;
            if k >= entries.len() {
                assert(entries@[w].name@ != sorted@[i as int]@);
            }
            let c = choose|c: int| 0 <= c < entries.len() && (#[trigger] entries@[c]).name@ == crate::strings::views(sorted@)[i as int];
            assert(c == k as int);
        }
        r.push(entries[k].symbol);
        i += 1;
        proof {
            assert(r@ =~= canonical_symbols(entries@, crate::strings::views(sorted@)).subrange(0, i as int));
        }
    }
    proof {
        let cs = canonical_symbols(entries@, crate::strings::views(sorted@));
        assert(cs.subrange(0, sorted.len() as int) =~= cs);
        assert forall|i: int, k: int|
            0 <= i < sorted.len() && 0 <= k < entries.len() && (#[trigger] entries@[k]).name@ == (#[trigger] sorted@[i])@
                implies r@[i] == entries@[k].symbol by {
            assert(crate::strings::views(sorted@)[i] == sorted@[i]@);
            let c = choose|c: int| 0 <= c < entries.len() && (#[trigger] entries@[c]).name@ == crate::strings::views(sorted@)[i];
            if c != k {
                assert(entries@[c].name@ != entries@[k].name@);
            }
        }
    }
    r
}

impl SymbolRefDb {
    /// A new symbol of module `owner`, named `name`, standing for itself.
    pub fn create_facade_root_symbol_ref(&mut self, owner: usize, name: String) -> (r: SymbolRef)
        requires
            old(self).wf(),
            owner < old(self).symbols.len(),
        ensures
            final(self).wf(),
            r == (SymbolRef { owner, symbol: old(self).symbols@[owner as int].len() }),
            final(self).symbols.len() == old(self).symbols.len(),
            forall|o: int| 0 <= o < old(self).symbols.len() && o != owner ==> #[trigger] final(self).symbols@[o] == old(self).symbols@[o],
            final(self).symbols@[owner as int]@ == old(self).symbols@[owner as int]@.push(SymbolInfo { name, canonical: r, namespace_alias: None }),
    {
        let r = SymbolRef { owner, symbol: self.symbols[owner].len() };
        let ghost rows0 = self.symbols@;
        let ghost info = SymbolInfo { name, canonical: r, namespace_alias: None };
        let mut row: Vec<SymbolInfo> = Vec::new();
        std::mem::swap(&mut row, &mut self.symbols[owner]);
        row.push(SymbolInfo { name, canonical: r, namespace_alias: None });
        std::mem::swap(&mut row, &mut self.symbols[owner]);
        proof {
            assert forall|o: int, i: int| 0 <= o < self.symbols.len() && 0 <= i < self.symbols[o].len() implies {
                let c = #[trigger] self.symbols[o][i].canonical;
                &&& self.has(c)
                &&& self.info(c).canonical == c
                &&& (self.symbols[o][i].namespace_alias matches Some(a) ==> self.has(a.namespace_ref))
            } by {
                if o == owner && i == rows0[o].len() {
                    assert(self.symbols[o][i] == info);
                } else {
                    assert(self.symbols[o][i] == rows0[o][i]);
                    let c = rows0[o][i].canonical;
                    assert(old(self).has(c));
                    assert(self.symbols[c.owner as int][c.symbol as int] == rows0[c.owner as int][c.symbol as int]);
                    if let Some(a) = rows0[o][i].namespace_alias {
                        assert(self.symbols[a.namespace_ref.owner as int].len() >= rows0[a.namespace_ref.owner as int].len());
                    }
                }
            }
        }
        r
    }
}

/// The symbol table after the wrapper of module `owner` (of kind `kind`) is made: for a
/// wrapped module one more symbol of `owner`, named after the wrapper, standing for itself.
pub open spec fn db_after_wrapper(db0: SymbolRefDb, db1: SymbolRefDb, owner: usize, kind: WrapKind, repr_name: Seq<char>) -> bool {
    &&& db1.symbols.len() == db0.symbols.len()
    &&& kind is Unwrapped ==> db1 == db0
    &&& !(kind is Unwrapped) ==> {
        let row0 = db0.symbols@[owner as int]@;
        let row1 = db1.symbols@[owner as int]@;
        &&& forall|o: int| 0 <= o < db0.symbols.len() && o != owner ==> #[trigger] db1.symbols@[o] == db0.symbols@[o]
        &&& row1.len() == row0.len() + 1
        &&& forall|i: int| 0 <= i < row0.len() ==> #[trigger] row1[i] == row0[i]
        &&& row1.last().name@ == wrapper_name(kind, repr_name)
        &&& row1.last().canonical == (SymbolRef { owner, symbol: row0.len() as usize })
        &&& row1.last().namespace_alias is None
    }
}

/// The linking metadata after the wrapper is made: a wrapped module records its wrapper
/// symbol `w` and statement `stmt`.
pub open spec fn meta_after_wrapper(meta0: LinkingMetadata, meta1: LinkingMetadata, w: SymbolRef, stmt: usize) -> bool {
    &&& meta1 == (LinkingMetadata { wrapper_ref: meta1.wrapper_ref, wrapper_stmt_info: meta1.wrapper_stmt_info, ..meta0 })
    &&& meta0.wrap_kind is Unwrapped ==> meta1 == meta0
    &&& !(meta0.wrap_kind is Unwrapped) ==> meta1.wrapper_ref == Some(w) && meta1.wrapper_stmt_info == Some(stmt)
}

/// The symbol a module's wrapper gets: the next symbol of the module.
pub open spec fn next_symbol(db: SymbolRefDb, owner: usize) -> SymbolRef {
    SymbolRef { owner, symbol: db.symbols@[owner as int].len() }
}

/// Creates the wrapper of a wrapped module: a symbol `require_<name>` (CommonJS) or
/// `init_<name>` (ESM) and a statement declaring it that refers to the runtime helper.
fn create_wrapper(
    module: &mut Module,
    linking_info: &mut LinkingMetadata,
    symbols: &mut SymbolRefDb,
    runtime: &RuntimeModuleBrief,
    minify: bool,
)
    requires
        old(symbols).wf(),
        old(module).idx < old(symbols).symbols.len(),
        runtime_complete(*runtime),
        old(module).stmt_infos.len() < usize::MAX,
    ensures
        final(symbols).wf(),
        db_after_wrapper(*old(symbols), *final(symbols), old(module).idx, old(linking_info).wrap_kind, old(module).repr_name@),
        meta_after_wrapper(*old(linking_info), *final(linking_info), next_symbol(*old(symbols), old(module).idx), old(module).stmt_infos.len()),
        *final(module) == (Module { stmt_infos: final(module).stmt_infos, ..*old(module) }),
        old(linking_info).wrap_kind is Unwrapped ==> final(module).stmt_infos == old(module).stmt_infos,
        !(old(linking_info).wrap_kind is Unwrapped) ==> stmts_view(final(module).stmt_infos@) == stmts_view(old(module).stmt_infos@).push(
            facade_stmt(seq![next_symbol(*old(symbols), old(module).idx)], seq![SymbolOrMemberExprRef::Symbol(runtime.symbol_of(wrapper_helper(old(linking_info).wrap_kind, minify)))]),
        ),
{
    proof {
        reveal_strlit("require_");
        reveal_strlit("init_");
    }
    let kind = linking_info.wrap_kind;
    if kind == WrapKind::Unwrapped {
        return;
    }
    let mut name: String = if kind == WrapKind::Cjs {
        "require_".to_string()
    } else {
        "init_".to_string()
    };
    name.append(module.repr_name.as_str());
    let helper: &str = if kind == WrapKind::Cjs {
        if minify {
            "__commonJSMin"
        } else {
            "__commonJS"
        }
    } else {
        if minify {
            "__esmMin"
        } else {
            "__esm"
        }
    };
    let wrapper_ref = symbols.create_facade_root_symbol_ref(module.idx, name);
    let helper_ref = runtime.resolve_symbol(helper);
    let ghost s0 = module.stmt_infos@;
    let stmt = StmtInfo {
        declared_symbols: vec![wrapper_ref],
        referenced_symbols: vec![SymbolOrMemberExprRef::Symbol(helper_ref)],
        side_effect: false,
        import_records: Vec::new(),
    };
    let idx = module.stmt_infos.len();
    module.stmt_infos.push(stmt);
    linking_info.wrapper_stmt_info = Some(idx);
    linking_info.wrapper_ref = Some(wrapper_ref);
    proof {
        assert(stmts_view(module.stmt_infos@) =~= stmts_view(s0).push(
            facade_stmt(seq![wrapper_ref], seq![SymbolOrMemberExprRef::Symbol(runtime.symbol_of(wrapper_helper(kind, minify)))]),
        )) by {
            assert(module.stmt_infos@[idx as int].declared_symbols@ =~= seq![wrapper_ref]);
            assert(module.stmt_infos@[idx as int].referenced_symbols@ =~= seq![SymbolOrMemberExprRef::Symbol(helper_ref)]);
            assert(module.stmt_infos@[idx as int].import_records@ =~= Seq::<usize>::empty());
        }
    }
}


/// What creating exports needs of a bundled module: a statement for its namespace when
/// it is ESM, records behind its `export *` of external modules, and room for new
/// statements.
pub open spec fn module_ready(m: Module, meta: LinkingMetadata) -> bool {
    &&& m.exports_kind is Esm ==> m.stmt_infos.len() > 0
    &&& ext_records_ok(m, meta)
    &&& m.stmt_infos.len() + meta.shimmed_missing_exports.len() + 1 < usize::MAX
}

/// The records behind `export *` of external modules exist.
pub open spec fn ext_records_ok(m: Module, meta: LinkingMetadata) -> bool {
    forall|k: int|
        0 <= k < meta.star_exports_from_external_modules.len() ==> #[trigger] meta.star_exports_from_external_modules@[k]
            < m.import_records.len()
}

fn symbol_refs_vec(v: &Vec<SymbolRef>) -> (r: Vec<SymbolOrMemberExprRef>)
    ensures
        r@ == symbol_refs(v@),
{
    let mut r: Vec<SymbolOrMemberExprRef> = Vec::new();
    let mut i: usize = 0;
    while i < v.len()
        invariant
            i <= v.len(),
            r@ == symbol_refs(v@).subrange(0, i as int),
        decreases v.len() - i,
    {
        r.push(SymbolOrMemberExprRef::Symbol(v[i]));
        i += 1;
        proof {
            assert(r@ =~= symbol_refs(v@).subrange(0, i as int));
        }
    }
    proof {
        assert(symbol_refs(v@).subrange(0, v.len() as int) =~= symbol_refs(v@));
    }
    r
}

#[verifier::rlimit(40)]
#[verifier::spinoff_prover]
fn namespace_stmt_of(
    module: &Module,
    meta: &LinkingMetadata,
    exports: &Vec<SymbolRef>,
    runtime: &RuntimeModuleBrief,
    format: OutputFormat,
) -> (r: StmtInfo)
    requires
        runtime_complete(*runtime),
        ext_records_ok(*module, *meta),
    ensures
        stmt_view(r) == namespace_stmt(
            module.import_records@,
            module.namespace_object_ref,
            meta.star_exports_from_external_modules@,
            exports@,
            *runtime,
            format,
        ),
{
    let ext = &meta.star_exports_from_external_modules;
    let mut referenced: Vec<SymbolOrMemberExprRef> = Vec::new();
    let mut declared: Vec<SymbolRef> = Vec::new();
    if exports.len() > 0 {
        referenced.push(SymbolOrMemberExprRef::Symbol(runtime.resolve_symbol("__export")));
        let mut rest = symbol_refs_vec(exports);
        referenced.append(&mut rest);
    }
    let ghost r1 = referenced@;
    if ext.len() > 0 {
        referenced.push(SymbolOrMemberExprRef::Symbol(runtime.resolve_symbol("__reExport")));
        if format == OutputFormat::Esm {
            let ghost r1b = referenced@;
            let mut k: usize = 0;
            while k < ext.len()
                invariant
                    k <= ext.len(),
                    ext_records_ok(*module, *meta),
                    *ext == meta.star_exports_from_external_modules,
                    referenced@ == r1b + symbol_refs(record_namespaces(module.import_records@, ext@)).subrange(0, k as int),
                    declared@ == record_namespaces(module.import_records@, ext@).subrange(0, k as int),
                decreases ext.len() - k,
            {
                let ns = module.import_records[ext[k]].namespace_ref;
                referenced.push(SymbolOrMemberExprRef::Symbol(ns));
                declared.push(ns);
                k += 1;
                proof {
                    assert(referenced@ =~= r1b + symbol_refs(record_namespaces(module.import_records@, ext@)).subrange(0, k as int));
                    assert(declared@ =~= record_namespaces(module.import_records@, ext@).subrange(0, k as int));
                }
            }
            proof {
                assert(symbol_refs(record_namespaces(module.import_records@, ext@)).subrange(0, ext.len() as int) =~= symbol_refs(record_namespaces(module.import_records@, ext@)));
                assert(record_namespaces(module.import_records@, ext@).subrange(0, ext.len() as int) =~= record_namespaces(module.import_records@, ext@));
            }
        } else {
            proof {
                assert(referenced@ =~= r1.push(SymbolOrMemberExprRef::Symbol(runtime.symbol_of("__reExport"@))) + Seq::<SymbolOrMemberExprRef>::empty());
            }
        }
    }
    declared.push(module.namespace_object_ref);
    let r = StmtInfo { declared_symbols: declared, referenced_symbols: referenced, side_effect: false, import_records: Vec::new() };
    proof {
        assert(r.import_records@ =~= Seq::<usize>::empty());
        if exports.len() > 0 {
            assert(r1 =~= seq![SymbolOrMemberExprRef::Symbol(runtime.symbol_of("__export"@))] + symbol_refs(exports@));
        } else {
            assert(r1 =~= Seq::<SymbolOrMemberExprRef>::empty());
        }
    }
    r
}

/// Creates the exports machinery of one bundled module: its wrapper (when wrapped), a
/// statement for each shimmed missing export, and (for ESM) its namespace statement.
#[verifier::rlimit(60)]
fn create_exports_for_module(
    module: &mut Module,
    meta: &mut LinkingMetadata,
    symbols: &mut SymbolRefDb,
    runtime: &RuntimeModuleBrief,
    exports: &Vec<SymbolRef>,
    format: OutputFormat,
    minify: bool,
)
    requires
        old(symbols).wf(),
        old(module).idx < old(symbols).symbols.len(),
        runtime_complete(*runtime),
        module_ready(*old(module), *old(meta)),
    ensures
        final(symbols).wf(),
        final(symbols).symbols.len() == old(symbols).symbols.len(),
        db_after_wrapper(*old(symbols), *final(symbols), old(module).idx, old(meta).wrap_kind, old(module).repr_name@),
        meta_after_wrapper(*old(meta), *final(meta), next_symbol(*old(symbols), old(module).idx), old(module).stmt_infos.len()),
        *final(module) == (Module { stmt_infos: final(module).stmt_infos, ..*old(module) }),
        stmts_view(final(module).stmt_infos@) == stmts_after(*old(module), *old(meta), exports@, *runtime, format, minify, next_symbol(*old(symbols), old(module).idx)),
{
    let ghost m0 = *module;
    let ghost meta0 = *meta;
    let ghost w = next_symbol(*symbols, module.idx);
    let ghost helper = runtime.symbol_of(wrapper_helper(meta0.wrap_kind, minify));
    create_wrapper(module, meta, symbols, runtime, minify);
    let ghost s1 = stmts_view(module.stmt_infos@);
    proof {
        assert(s1 == with_wrapper(stmts_view(m0.stmt_infos@), meta0.wrap_kind, w, helper));
        assert(s1.len() == module.stmt_infos@.len());
        assert(stmts_view(m0.stmt_infos@).len() == m0.stmt_infos@.len());
    }
    let ghost shims = meta0.shimmed_missing_exports@;
    let mut k: usize = 0;
    while k < meta.shimmed_missing_exports.len()
        invariant
            k <= meta.shimmed_missing_exports.len(),
            meta.shimmed_missing_exports@ == shims,
            shims == meta0.shimmed_missing_exports@,
            s1.len() == module.stmt_infos.len() - k,
            module.stmt_infos.len() <= m0.stmt_infos.len() + 1 + k,
            module_ready(m0, meta0),
            stmts_view(module.stmt_infos@) == s1 + shim_stmts(shims.subrange(0, k as int)),
            *module == (Module { stmt_infos: module.stmt_infos, ..m0 }),
        decreases meta.shimmed_missing_exports.len() - k,
    {
        let sym = meta.shimmed_missing_exports[k].1;
        let ghost before = stmts_view(module.stmt_infos@);
        module.stmt_infos.push(StmtInfo {
            declared_symbols: vec![sym],
            referenced_symbols: Vec::new(),
            side_effect: false,
            import_records: Vec::new(),
        });
        k += 1;
        proof {
            let last = module.stmt_infos@.last();
            assert(last.declared_symbols@ =~= seq![sym]);
            assert(last.referenced_symbols@ =~= Seq::<SymbolOrMemberExprRef>::empty());
            assert(last.import_records@ =~= Seq::<usize>::empty());
            assert(stmts_view(module.stmt_infos@) =~= before.push(facade_stmt(seq![sym], Seq::empty())));
            assert(shim_stmts(shims.subrange(0, k as int)) =~= shim_stmts(shims.subrange(0, k - 1)).push(facade_stmt(seq![sym], Seq::empty())));
            assert(stmts_view(module.stmt_infos@) =~= s1 + shim_stmts(shims.subrange(0, k as int)));
        }
    }
    let ghost s2 = stmts_view(module.stmt_infos@);
    proof {
        assert(shims.subrange(0, shims.len() as int) =~= shims);
        assert(s2 == s1 + shim_stmts(shims));
    }
    if module.exports_kind == ExportsKind::Esm {
        let stmt = namespace_stmt_of(module, meta, exports, runtime, format);
        let ghost before = stmts_view(module.stmt_infos@);
        module.stmt_infos.set(0, stmt);
        proof {
            assert(stmts_view(module.stmt_infos@) =~= before.update(0, stmt_view(stmt)));
        }
    }
}

/// Module `m` (with metadata `meta` and symbols `row`) became `m1` (with `meta1` and
/// `row1`) by [`create_exports_for_module`].
pub open spec fn module_exports_created(
    m: Module,
    meta: LinkingMetadata,
    row: Seq<SymbolInfo>,
    m1: Module,
    meta1: LinkingMetadata,
    row1: Seq<SymbolInfo>,
    exports: Seq<SymbolRef>,
    rt: RuntimeModuleBrief,
    format: OutputFormat,
    minify: bool,
) -> bool {
    let w = SymbolRef { owner: m.idx, symbol: row.len() as usize };
    &&& stmts_view(m1.stmt_infos@) == stmts_after(m, meta, exports, rt, format, minify, w)
    &&& m1 == (Module { stmt_infos: m1.stmt_infos, ..m })
    &&& meta_after_wrapper(meta, meta1, w, m.stmt_infos.len())
    &&& meta.wrap_kind is Unwrapped ==> row1 == row
    &&& !(meta.wrap_kind is Unwrapped) ==> {
        &&& row1.len() == row.len() + 1
        &&& forall|i: int| 0 <= i < row.len() ==> #[trigger] row1[i] == row[i]
        &&& row1.last().name@ == wrapper_name(meta.wrap_kind, m.repr_name@)
        &&& row1.last().canonical == w
    }
}

/// Creates the exports machinery of every bundled module (see
/// [`create_exports_for_module`]); external modules are left as they are. The wrapper
/// symbol of module `m` is the next symbol of `m`.
#[verifier::rlimit(60)]
#[verifier::spinoff_prover]
pub fn create_exports_for_ecma_modules(
    modules: &mut Vec<Module>,
    metadata: &mut Vec<LinkingMetadata>,
    symbols: &mut SymbolRefDb,
    runtime: &RuntimeModuleBrief,
    canonical_exports: &Vec<Vec<SymbolRef>>,
    format: OutputFormat,
    minify: bool,
)
    requires
        old(metadata).len() == old(modules).len(),
        canonical_exports.len() == old(modules).len(),
        old(symbols).wf(),
        old(symbols).symbols.len() == old(modules).len(),
        runtime_complete(*runtime),
        forall|m: int| 0 <= m < old(modules).len() ==> (#[trigger] old(modules)@[m]).idx == m,
        forall|m: int| 0 <= m < old(modules).len() && !old(modules)@[m].is_external ==> module_ready(#[trigger] old(modules)@[m], old(metadata)@[m]),
    ensures
        final(modules).len() == old(modules).len(),
        final(metadata).len() == old(metadata).len(),
        final(symbols).wf(),
        final(symbols).symbols.len() == old(symbols).symbols.len(),
        forall|m: int| 0 <= m < old(modules).len() && old(modules)@[m].is_external ==> #[trigger] final(modules)@[m] == old(modules)@[m]
            && final(metadata)@[m] == old(metadata)@[m] && final(symbols).symbols@[m] == old(symbols).symbols@[m],
        forall|m: int| 0 <= m < old(modules).len() && !old(modules)@[m].is_external ==> module_exports_created(
            old(modules)@[m],
            old(metadata)@[m],
            old(symbols).symbols@[m]@,
            #[trigger] final(modules)@[m],
            final(metadata)@[m],
            final(symbols).symbols@[m]@,
            canonical_exports@[m]@,
            *runtime,
            format,
            minify,
        ),
{
    let n = modules.len();
    let mut m: usize = 0;
    while m < n
        invariant
            m <= n,
            n == modules.len(),
            n == old(modules).len(),
            metadata.len() == n,
            canonical_exports.len() == n,
            symbols.wf(),
            symbols.symbols.len() == n,
            runtime_complete(*runtime),
            forall|q: int| m <= q < n ==> (#[trigger] modules@[q]) == old(modules)@[q] && metadata@[q] == old(metadata)@[q] && symbols.symbols@[q] == old(symbols).symbols@[q],
            forall|q: int| 0 <= q < n ==> (#[trigger] old(modules)@[q]).idx == q,
            forall|q: int| 0 <= q < n && !old(modules)@[q].is_external ==> module_ready(#[trigger] old(modules)@[q], old(metadata)@[q]),
            forall|q: int| 0 <= q < m && old(modules)@[q].is_external ==> #[trigger] modules@[q] == old(modules)@[q]
                && metadata@[q] == old(metadata)@[q] && symbols.symbols@[q] == old(symbols).symbols@[q],
            forall|q: int| 0 <= q < m && !old(modules)@[q].is_external ==> module_exports_created(
                old(modules)@[q],
                old(metadata)@[q],
                old(symbols).symbols@[q]@,
                #[trigger] modules@[q],
                metadata@[q],
                symbols.symbols@[q]@,
                canonical_exports@[q]@,
                *runtime,
                format,
                minify,
            ),
        decreases n - m,
    {
        let ghost sb = *symbols;
        let ghost mb = modules@;
        let ghost metab = metadata@;
        if !modules[m].is_external {
            create_exports_for_module(&mut modules[m], &mut metadata[m], symbols, runtime, &canonical_exports[m], format, minify);
            proof {
                let w = next_symbol(sb, m);
                assert(module_exports_created(mb[m as int], metab[m as int], sb.symbols@[m as int]@, modules@[m as int], metadata@[m as int], symbols.symbols@[m as int]@, canonical_exports@[m as int]@, *runtime, format, minify)) by {
                    if !(metab[m as int].wrap_kind is Unwrapped) {
                        assert(sb.symbols@[m as int].len() == sb.symbols@[m as int]@.len());
                    }
                }
            }
        }
        proof {
            assert(metadata@.len() == n && modules@.len() == n && symbols.symbols@.len() == n);
            assert forall|q: int| m < q < n implies (#[trigger] modules@[q]) == old(modules)@[q] && metadata@[q] == old(metadata)@[q] && symbols.symbols@[q] == old(symbols).symbols@[q] by {
                assert(modules@[q] == mb[q]);
                assert(metadata@[q] == metab[q]);
                assert(symbols.symbols@[q] == sb.symbols@[q]);
                assert(mb[q] == old(modules)@[q]);
            }
        }
        m += 1;
    }
}


} // verus!
