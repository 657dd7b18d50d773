use vstd::prelude::*;

use crate::render::OutputFormat;
use crate::types::{EntryPoint, ExportsKind, ImportKind, ImportRecord, LinkingMetadata, Module, ModuleIdx, ModuleType, WrapKind};

verus! {

/// The module's source is a script (JavaScript or TypeScript, with or without JSX).
pub open spec fn is_js_type(t: ModuleType) -> bool {
    t is Js || t is Jsx || t is Ts || t is Tsx
}

/// The exports kind of each module and the wrap kind of each module.
pub type KindState = (Seq<ExportsKind>, Seq<WrapKind>);

/// How a module that is loaded like `require` gets wrapped, by its exports kind.
pub open spec fn wrap_for(k: ExportsKind) -> WrapKind {
    match k {
        ExportsKind::Esm => WrapKind::Esm,
        _ => WrapKind::Cjs,
    }
}

/// A `require` of module `d`: it gets wrapped, and a module with no known exports kind
/// becomes CommonJS.
pub open spec fn require_step(st: KindState, d: int) -> KindState {
    (
        if st.0[d] is Unknown {
            st.0.update(d, ExportsKind::CommonJs)
        } else {
            st.0
        },
        st.1.update(d, wrap_for(st.0[d])),
    )
}

/// The effect of one import record of a script module.
pub open spec fn record_step(modules: Seq<Module>, inline_dynamic_imports: bool, st: KindState, rec: ImportRecord) -> KindState {
    let d = rec.resolved_module as int;
    if modules[d].is_external {
        st
    } else {
        match rec.kind {
            ImportKind::Import => if st.0[d] is Unknown && !modules[d].has_lazy_export {
                (st.0.update(d, ExportsKind::Esm), st.1)
            } else {
                st
            },
            ImportKind::Require => require_step(st, d),
            ImportKind::DynamicImport => if inline_dynamic_imports {
                require_step(st, d)
            } else {
                st
            },
            _ => st,
        }
    }
}

/// The effect of the first `n` import records of module `m`.
pub open spec fn records_fold(modules: Seq<Module>, inline_dynamic_imports: bool, st: KindState, m: int, n: int) -> KindState
    decreases n,
{
    if n <= 0 {
        st
    } else {
        record_step(
            modules,
            inline_dynamic_imports,
            records_fold(modules, inline_dynamic_imports, st, m, n - 1),
            modules[m].import_records[n - 1],
        )
    }
}

/// The effect of module `m` as an importer: its records in order, then a CommonJS
/// module is wrapped unless it is an entry and the output is not ESM.
pub open spec fn importer_step(
    modules: Seq<Module>,
    entry_ids: Seq<ModuleIdx>,
    format: OutputFormat,
    inline_dynamic_imports: bool,
    st: KindState,
    m: int,
) -> KindState {
    if modules[m].is_external || !is_js_type(modules[m].module_type) {
        st
    } else {
        let st1 = records_fold(modules, inline_dynamic_imports, st, m, modules[m].import_records.len() as int);
        if st1.0[m] is CommonJs && (!entry_ids.contains(m as usize) || format is Esm) {
            (st1.0, st1.1.update(m, WrapKind::Cjs))
        } else {
            st1
        }
    }
}

/// The effect of the first `n` modules, in order.
pub open spec fn modules_fold(
    modules: Seq<Module>,
    entry_ids: Seq<ModuleIdx>,
    format: OutputFormat,
    inline_dynamic_imports: bool,
    st: KindState,
    n: int,
) -> KindState
    decreases n,
{
    if n <= 0 {
        st
    } else {
        importer_step(
            modules,
            entry_ids,
            format,
            inline_dynamic_imports,
            modules_fold(modules, entry_ids, format, inline_dynamic_imports, st, n - 1),
            n - 1,
        )
    }
}

/// The ids of the entry modules.
pub open spec fn entry_ids(entries: Seq<EntryPoint>) -> Seq<ModuleIdx> {
    Seq::new(entries.len(), |i: int| entries[i].id)
}

pub open spec fn exports_kinds(modules: Seq<Module>) -> Seq<ExportsKind> {
    Seq::new(modules.len(), |i: int| modules[i].exports_kind)
}

pub open spec fn wrap_kinds(metas: Seq<LinkingMetadata>) -> Seq<WrapKind> {
    Seq::new(metas.len(), |i: int| metas[i].wrap_kind)
}

/// Record `r` of the bundled script module `m`.
pub open spec fn script_record(modules: Seq<Module>, m: int, r: int) -> bool {
    0 <= m < modules.len() && !modules[m].is_external && is_js_type(modules[m].module_type) && 0 <= r
        < modules[m].import_records.len()
}

/// Records of script modules point into the table, and none of those that point at a
/// bundled module is a CSS-only kind (`@import`, `url()`).
pub open spec fn exports_kind_input_ok(modules: Seq<Module>) -> bool {
    &&& forall|m: int, r: int| #[trigger] script_record(modules, m, r) ==> modules[m].import_records[r].resolved_module < modules.len()
    &&& forall|m: int, r: int|
        #[trigger] script_record(modules, m, r) && !modules[modules[m].import_records[r].resolved_module as int].is_external
            ==> !(modules[m].import_records[r].kind is AtImport) && !(modules[m].import_records[r].kind is UrlImport)
}

/// Kinds only move away from "unknown", and a wrapped module stays wrapped.
pub open spec fn kinds_grow(st0: KindState, st1: KindState) -> bool {
    &&& st1.0.len() == st0.0.len()
    &&& st1.1.len() == st0.1.len()
    &&& forall|i: int| 0 <= i < st0.0.len() && !(st0.0[i] is Unknown) ==> #[trigger] st1.0[i] == st0.0[i] || (
    st0.0[i] is Esm && st1.0[i] is Esm)
    &&& forall|i: int| 0 <= i < st0.1.len() && !(#[trigger] st0.1[i] is Unwrapped) ==> !(st1.1[i] is Unwrapped)
}

proof fn lemma_kinds_grow_trans(a: KindState, b: KindState, c: KindState)
    requires
        kinds_grow(a, b),
        kinds_grow(b, c),
    ensures
        kinds_grow(a, c),
{
    assert forall|i: int| 0 <= i < a.0.len() && !(a.0[i] is Unknown) implies #[trigger] c.0[i] == a.0[i] || (a.0[i] is Esm
        && c.0[i] is Esm) by {
        assert(b.0[i] == a.0[i] || (a.0[i] is Esm && b.0[i] is Esm));
    }
    assert forall|i: int| 0 <= i < a.1.len() && !(#[trigger] a.1[i] is Unwrapped) implies !(c.1[i] is Unwrapped) by {
        assert(!(b.1[i] is Unwrapped));
    }
}

proof fn lemma_record_step_grows(modules: Seq<Module>, inline: bool, st: KindState, rec: ImportRecord)
    requires
        rec.resolved_module < st.0.len(),
        rec.resolved_module < st.1.len(),
    ensures
        kinds_grow(st, record_step(modules, inline, st, rec)),
{
}

proof fn lemma_records_fold_grows(modules: Seq<Module>, inline: bool, st: KindState, m: int, n: int)
    requires
        forall|r: int| 0 <= r < n ==> (#[trigger] modules[m].import_records[r]).resolved_module < st.0.len(),
        st.0.len() == st.1.len(),
    ensures
        kinds_grow(st, records_fold(modules, inline, st, m, n)),
    decreases n,
{
    if n > 0 {
        lemma_records_fold_grows(modules, inline, st, m, n - 1);
        let prev = records_fold(modules, inline, st, m, n - 1);
        lemma_record_step_grows(modules, inline, prev, modules[m].import_records[n - 1]);
        lemma_kinds_grow_trans(st, prev, records_fold(modules, inline, st, m, n));
    }
}

proof fn lemma_modules_fold_grows(
    modules: Seq<Module>,
    ids: Seq<ModuleIdx>,
    format: OutputFormat,
    inline: bool,
    st: KindState,
    n: int,
)
    requires
        exports_kind_input_ok(modules),
        n <= modules.len(),
        st.0.len() == modules.len(),
        st.1.len() == modules.len(),
    ensures
        kinds_grow(st, modules_fold(modules, ids, format, inline, st, n)),
    decreases n,
{
    if n > 0 {
        lemma_modules_fold_grows(modules, ids, format, inline, st, n - 1);
        let prev = modules_fold(modules, ids, format, inline, st, n - 1);
        let m = n - 1;
        if !modules[m].is_external && is_js_type(modules[m].module_type) {
            assert forall|r: int| 0 <= r < modules[m].import_records.len() implies (
            #[trigger] modules[m].import_records[r]).resolved_module < prev.0.len() by {
                assert(script_record(modules, m, r));
            }
            lemma_records_fold_grows(modules, inline, prev, m, modules[m].import_records.len() as int);
            let st1 = records_fold(modules, inline, prev, m, modules[m].import_records.len() as int);
            assert(kinds_grow(st1, importer_step(modules, ids, format, inline, prev, m)));
            lemma_kinds_grow_trans(prev, st1, importer_step(modules, ids, format, inline, prev, m));
        }
        lemma_kinds_grow_trans(st, prev, modules_fold(modules, ids, format, inline, st, n));
    }
}

/// Law: once the pass is over, every bundled module that a script `require`s (or loads
/// with `import()` when dynamic imports are inlined) is wrapped and has a known exports
/// kind.
pub proof fn lemma_required_modules_wrapped(
    modules: Seq<Module>,
    ids: Seq<ModuleIdx>,
    format: OutputFormat,
    inline: bool,
    st: KindState,
    m: int,
    r: int,
)
    requires
        exports_kind_input_ok(modules),
        st.0.len() == modules.len(),
        st.1.len() == modules.len(),
        script_record(modules, m, r),
        !modules[modules[m].import_records[r].resolved_module as int].is_external,
        modules[m].import_records[r].kind is Require || (inline && modules[m].import_records[r].kind is DynamicImport),
    ensures
        ({
            let fin = modules_fold(modules, ids, format, inline, st, modules.len() as int);
            let d = modules[m].import_records[r].resolved_module as int;
            !(fin.0[d] is Unknown) && !(fin.1[d] is Unwrapped)
        }),
{
    let d = modules[m].import_records[r].resolved_module as int;
    let before = modules_fold(modules, ids, format, inline, st, m);
    lemma_modules_fold_grows(modules, ids, format, inline, st, m);
    assert forall|q: int| 0 <= q < modules[m].import_records.len() implies (#[trigger] modules[m].import_records[q]).resolved_module
        < before.0.len() by {
        assert(script_record(modules, m, q));
    }
    lemma_records_fold_grows(modules, inline, before, m, r);
    let at_r = records_fold(modules, inline, before, m, r);
    let after_r = records_fold(modules, inline, before, m, r + 1);
    assert(!(after_r.0[d] is Unknown) && !(after_r.1[d] is Unwrapped));
    assert forall|q: int| 0 <= q < modules[m].import_records.len() - (r + 1) implies (
    #[trigger] modules[m].import_records[q]).resolved_module < after_r.0.len() by {
        assert(script_record(modules, m, q));
    }
    lemma_records_fold_rest(modules, inline, before, m, r + 1, modules[m].import_records.len() as int);
    let st_m = records_fold(modules, inline, before, m, modules[m].import_records.len() as int);
    let after_m = modules_fold(modules, ids, format, inline, st, m + 1);
    assert(kinds_grow(st_m, after_m));
    lemma_kinds_grow_trans(after_r, st_m, after_m);
    lemma_modules_fold_suffix(modules, ids, format, inline, st, m + 1, modules.len() as int);
    lemma_kinds_grow_trans(after_r, after_m, modules_fold(modules, ids, format, inline, st, modules.len() as int));
}

proof fn lemma_records_fold_rest(modules: Seq<Module>, inline: bool, st: KindState, m: int, a: int, b: int)
    requires
        0 <= a <= b <= modules[m].import_records.len(),
        forall|q: int| 0 <= q < modules[m].import_records.len() ==> (#[trigger] modules[m].import_records[q]).resolved_module
            < st.0.len(),
        st.0.len() == st.1.len(),
    ensures
        kinds_grow(records_fold(modules, inline, st, m, a), records_fold(modules, inline, st, m, b)),
    decreases b - a,
{
    lemma_records_fold_grows(modules, inline, st, m, a);
    if a == b {
        let x = records_fold(modules, inline, st, m, a);
        assert(kinds_grow(x, x));
    } else {
        lemma_records_fold_rest(modules, inline, st, m, a, b - 1);
        let prev = records_fold(modules, inline, st, m, b - 1);
        lemma_records_fold_grows(modules, inline, st, m, b - 1);
        lemma_record_step_grows(modules, inline, prev, modules[m].import_records[b - 1]);
        lemma_kinds_grow_trans(records_fold(modules, inline, st, m, a), prev, records_fold(modules, inline, st, m, b));
    }
}

proof fn lemma_modules_fold_suffix(
    modules: Seq<Module>,
    ids: Seq<ModuleIdx>,
    format: OutputFormat,
    inline: bool,
    st: KindState,
    a: int,
    b: int,
)
    requires
        exports_kind_input_ok(modules),
        0 <= a <= b <= modules.len(),
        st.0.len() == modules.len(),
        st.1.len() == modules.len(),
    ensures
        kinds_grow(modules_fold(modules, ids, format, inline, st, a), modules_fold(modules, ids, format, inline, st, b)),
    decreases b - a,
{
    lemma_modules_fold_grows(modules, ids, format, inline, st, a);
    if a == b {
        let x = modules_fold(modules, ids, format, inline, st, a);
        assert(kinds_grow(x, x));
    } else {
        lemma_modules_fold_suffix(modules, ids, format, inline, st, a, b - 1);
        lemma_modules_fold_grows(modules, ids, format, inline, st, b - 1);
        let prev = modules_fold(modules, ids, format, inline, st, b - 1);
        lemma_modules_fold_grows(modules, ids, format, inline, prev, 0);
        let m = b - 1;
        if !modules[m].is_external && is_js_type(modules[m].module_type) {
            assert forall|r: int| 0 <= r < modules[m].import_records.len() implies (
            #[trigger] modules[m].import_records[r]).resolved_module < prev.0.len() by {
                assert(script_record(modules, m, r));
            }
            lemma_records_fold_grows(modules, inline, prev, m, modules[m].import_records.len() as int);
            let st1 = records_fold(modules, inline, prev, m, modules[m].import_records.len() as int);
            assert(kinds_grow(st1, importer_step(modules, ids, format, inline, prev, m)));
            lemma_kinds_grow_trans(prev, st1, importer_step(modules, ids, format, inline, prev, m));
        } else {
            assert(kinds_grow(prev, importer_step(modules, ids, format, inline, prev, m)));
        }
        lemma_kinds_grow_trans(
            modules_fold(modules, ids, format, inline, st, a),
            prev,
            modules_fold(modules, ids, format, inline, st, b),
        );
    }
}

fn contains_idx(ids: &Vec<ModuleIdx>, x: ModuleIdx) -> (r: bool)
    ensures
        r == ids@.contains(x),
{
    let mut i: usize = 0;
    while i < ids.len()
        invariant
            i <= ids.len(),
            forall|q: int| 0 <= q < i ==> ids@[q] != x,
        decreases ids.len() - i,
    {
        if ids[i] == x {
            return true;
        }
        i += 1;
    }
    false
}

fn wrap_kind_for(k: ExportsKind) -> (w: WrapKind)
    ensures
        w == wrap_for(k),
{
    match k {
        ExportsKind::Esm => WrapKind::Esm,
        _ => WrapKind::Cjs,
    }
}

/// Settles each module's exports kind and wrap kind from how script modules import it:
/// an `import` of a module with no known kind (and no lazy export) makes it ESM; a
/// `require` (or an inlined `import()`) wraps the importee, making a module of no known
/// kind CommonJS; a CommonJS script is wrapped unless it is an entry of a non-ESM
/// output. Modules are visited in table order and the changes are seen by later steps.
pub fn determine_module_exports_kind(
    modules: &mut Vec<Module>,
    metadata: &mut Vec<LinkingMetadata>,
    entry_points: &Vec<EntryPoint>,
    format: OutputFormat,
    inline_dynamic_imports: bool,
)
    requires
        exports_kind_input_ok(old(modules)@),
        old(metadata).len() == old(modules).len(),
    ensures
        final(modules).len() == old(modules).len(),
        final(metadata).len() == old(metadata).len(),
        forall|i: int|
            0 <= i < old(modules).len() ==> (#[trigger] final(modules)@[i]) == (Module {
                exports_kind: final(modules)@[i].exports_kind,
                ..old(modules)@[i]
            }),
        forall|i: int|
            0 <= i < old(metadata).len() ==> (#[trigger] final(metadata)@[i]) == (LinkingMetadata {
                wrap_kind: final(metadata)@[i].wrap_kind,
                ..old(metadata)@[i]
            }),
        (exports_kinds(final(modules)@), wrap_kinds(final(metadata)@)) == modules_fold(
            old(modules)@,
            entry_ids(entry_points@),
            format,
            inline_dynamic_imports,
            (exports_kinds(old(modules)@), wrap_kinds(old(metadata)@)),
            old(modules).len() as int,
        ),
        kinds_grow(
            (exports_kinds(old(modules)@), wrap_kinds(old(metadata)@)),
            (exports_kinds(final(modules)@), wrap_kinds(final(metadata)@)),
        ),
{
    let ghost mods = modules@;
    let ghost st0 = (exports_kinds(modules@), wrap_kinds(metadata@));
    let mut ids: Vec<ModuleIdx> = Vec::new();
    let mut e: usize = 0;
    while e < entry_points.len()
        invariant
            e <= entry_points.len(),
            ids@ == entry_ids(entry_points@).subrange(0, e as int),
        decreases entry_points.len() - e,
    {
        ids.push(entry_points[e].id);
        e += 1;
        proof {
            assert(ids@ =~= entry_ids(entry_points@).subrange(0, e as int));
        }
    }
    proof {
        assert(ids@ =~= entry_ids(entry_points@));
    }
    let n = modules.len();
    let mut m: usize = 0;
    while m < n
        invariant
            m <= n,
            n == modules.len(),
            n == mods.len(),
            metadata.len() == n,
            exports_kind_input_ok(mods),
            ids@ == entry_ids(entry_points@),
            forall|i: int|
                0 <= i < n ==> (#[trigger] modules@[i]) == (Module { exports_kind: modules@[i].exports_kind, ..mods[i] }),
            forall|i: int|
                0 <= i < n ==> (#[trigger] metadata@[i]) == (LinkingMetadata {
                    wrap_kind: metadata@[i].wrap_kind,
                    ..old(metadata)@[i]
                }),
            mods == old(modules)@,
            st0 == (exports_kinds(old(modules)@), wrap_kinds(old(metadata)@)),
            (exports_kinds(modules@), wrap_kinds(metadata@)) == modules_fold(
                mods,
                ids@,
                format,
                inline_dynamic_imports,
                st0,
                m as int,
            ),
        decreases n - m,
    {
        let is_script = !modules[m].is_external && match modules[m].module_type {
            ModuleType::Js | ModuleType::Jsx | ModuleType::Ts | ModuleType::Tsx => true,
            _ => false,
        };
        let ghost before = (exports_kinds(modules@), wrap_kinds(metadata@));
        if is_script {
            let nr = modules[m].import_records.len();
            let mut r: usize = 0;
            while r < nr
                invariant
                    m < n,
                    r <= nr,
                    n == modules.len(),
                    n == mods.len(),
                    metadata.len() == n,
                    exports_kind_input_ok(mods),
                    !mods[m as int].is_external && is_js_type(mods[m as int].module_type),
                    nr == mods[m as int].import_records.len(),
                    forall|i: int|
                        0 <= i < n ==> (#[trigger] modules@[i]) == (Module {
                            exports_kind: modules@[i].exports_kind,
                            ..mods[i]
                        }),
                    forall|i: int|
                        0 <= i < n ==> (#[trigger] metadata@[i]) == (LinkingMetadata {
                            wrap_kind: metadata@[i].wrap_kind,
                            ..old(metadata)@[i]
                        }),
                    (exports_kinds(modules@), wrap_kinds(metadata@)) == records_fold(
                        mods,
                        inline_dynamic_imports,
                        before,
                        m as int,
                        r as int,
                    ),
                decreases nr - r,
            {
                let rec = modules[m].import_records[r];
                proof {
                    assert(rec == mods[m as int].import_records[r as int]);
                    assert(script_record(mods, m as int, r as int));
                }
                let d = rec.resolved_module;
                let ghost cur = (exports_kinds(modules@), wrap_kinds(metadata@));
                if !modules[d].is_external {
                    match rec.kind {
                        ImportKind::Import => {
                            if modules[d].exports_kind == ExportsKind::Unknown && !modules[d].has_lazy_export {
                                modules[d].exports_kind = ExportsKind::Esm;
                            }
                        },
                        ImportKind::Require => {
                            let k = modules[d].exports_kind;
                            metadata[d].wrap_kind = wrap_kind_for(k);
                            if k == ExportsKind::Unknown {
                                modules[d].exports_kind = ExportsKind::CommonJs;
                            }
                        },
                        ImportKind::DynamicImport => {
                            if inline_dynamic_imports {
                                let k = modules[d].exports_kind;
                                metadata[d].wrap_kind = wrap_kind_for(k);
                                if k == ExportsKind::Unknown {
                                    modules[d].exports_kind = ExportsKind::CommonJs;
                                }
                            }
                        },
                        _ => {},
                    }
                }
                r += 1;
                proof {
                    let next = record_step(mods, inline_dynamic_imports, cur, rec);
                    assert(exports_kinds(modules@) =~= next.0);
                    assert(wrap_kinds(metadata@) =~= next.1);
                }
            }
            let is_entry = contains_idx(&ids, m);
            let ghost st1 = (exports_kinds(modules@), wrap_kinds(metadata@));
            if modules[m].exports_kind == ExportsKind::CommonJs && (!is_entry || format == OutputFormat::Esm) {
                metadata[m].wrap_kind = WrapKind::Cjs;
            }
            proof {
                let next = importer_step(mods, ids@, format, inline_dynamic_imports, before, m as int);
                assert(exports_kinds(modules@) =~= next.0);
                assert(wrap_kinds(metadata@) =~= next.1);
            }
        } else {
            proof {
                assert(is_js_type(mods[m as int].module_type) ==> mods[m as int].is_external);
            }
        }
        m += 1;
    }
    proof {
        lemma_modules_fold_grows(mods, ids@, format, inline_dynamic_imports, st0, n as int);
    }
}


/// Module `i`, when CommonJS, is wrapped as CommonJS.
pub open spec fn cjs_wrapped(st: KindState, i: int) -> bool {
    st.0[i] is CommonJs ==> st.1[i] is Cjs
}

proof fn lemma_record_step_keeps_cjs(modules: Seq<Module>, inline: bool, st: KindState, rec: ImportRecord, i: int)
    requires
        0 <= i < st.0.len(),
        st.0.len() == st.1.len(),
        rec.resolved_module < st.0.len(),
        cjs_wrapped(st, i),
    ensures
        cjs_wrapped(record_step(modules, inline, st, rec), i),
        record_step(modules, inline, st, rec).0.len() == st.0.len(),
        record_step(modules, inline, st, rec).1.len() == st.1.len(),
{
}

proof fn lemma_records_fold_keeps_cjs(modules: Seq<Module>, inline: bool, st: KindState, m: int, n: int, i: int)
    requires
        0 <= i < st.0.len(),
        st.0.len() == st.1.len(),
        forall|r: int| 0 <= r < n ==> (#[trigger] modules[m].import_records[r]).resolved_module < st.0.len(),
        cjs_wrapped(st, i),
    ensures
        cjs_wrapped(records_fold(modules, inline, st, m, n), i),
        records_fold(modules, inline, st, m, n).0.len() == st.0.len(),
        records_fold(modules, inline, st, m, n).1.len() == st.1.len(),
    decreases n,
{
    if n > 0 {
        lemma_records_fold_keeps_cjs(modules, inline, st, m, n - 1, i);
        lemma_record_step_keeps_cjs(
            modules,
            inline,
            records_fold(modules, inline, st, m, n - 1),
            modules[m].import_records[n - 1],
            i,
        );
    }
}

proof fn lemma_records_fold_len(modules: Seq<Module>, inline: bool, st: KindState, m: int, n: int)
    requires
        st.0.len() == st.1.len(),
        forall|r: int| 0 <= r < n ==> (#[trigger] modules[m].import_records[r]).resolved_module < st.0.len(),
    ensures
        records_fold(modules, inline, st, m, n).0.len() == st.0.len(),
        records_fold(modules, inline, st, m, n).1.len() == st.1.len(),
    decreases n,
{
    if n > 0 {
        lemma_records_fold_len(modules, inline, st, m, n - 1);
        lemma_record_step_grows(modules, inline, records_fold(modules, inline, st, m, n - 1), modules[m].import_records[n - 1]);
    }
}

proof fn lemma_modules_fold_keeps_cjs(
    modules: Seq<Module>,
    ids: Seq<ModuleIdx>,
    format: OutputFormat,
    inline: bool,
    st: KindState,
    a: int,
    b: int,
    i: int,
)
    requires
        exports_kind_input_ok(modules),
        st.0.len() == modules.len(),
        0 <= a <= b <= modules.len(),
        0 <= i < st.0.len(),
        st.0.len() == st.1.len(),
        cjs_wrapped(modules_fold(modules, ids, format, inline, st, a), i),
    ensures
        cjs_wrapped(modules_fold(modules, ids, format, inline, st, b), i),
    decreases b - a,
{
    lemma_modules_fold_len(modules, ids, format, inline, st, b);
    if b > a {
        lemma_modules_fold_keeps_cjs(modules, ids, format, inline, st, a, b - 1, i);
        let prev = modules_fold(modules, ids, format, inline, st, b - 1);
        lemma_modules_fold_len(modules, ids, format, inline, st, b - 1);
        let m = b - 1;
        if !(modules[m].is_external || !is_js_type(modules[m].module_type)) {
            assert forall|r: int| 0 <= r < modules[m].import_records.len() implies (
            #[trigger] modules[m].import_records[r]).resolved_module < prev.0.len() by {
                assert(script_record(modules, m, r));
            }
            lemma_records_fold_keeps_cjs(modules, inline, prev, m, modules[m].import_records.len() as int, i);
        }
    }
}

proof fn lemma_modules_fold_len(
    modules: Seq<Module>,
    ids: Seq<ModuleIdx>,
    format: OutputFormat,
    inline: bool,
    st: KindState,
    n: int,
)
    requires
        exports_kind_input_ok(modules),
        st.0.len() == modules.len(),
        st.0.len() == st.1.len(),
        n <= modules.len(),
    ensures
        modules_fold(modules, ids, format, inline, st, n).0.len() == st.0.len(),
        modules_fold(modules, ids, format, inline, st, n).1.len() == st.1.len(),
    decreases n,
{
    if n > 0 {
        lemma_modules_fold_len(modules, ids, format, inline, st, n - 1);
        let prev = modules_fold(modules, ids, format, inline, st, n - 1);
        let m = n - 1;
        if !(modules[m].is_external || !is_js_type(modules[m].module_type)) {
            assert forall|r: int| 0 <= r < modules[m].import_records.len() implies (
            #[trigger] modules[m].import_records[r]).resolved_module < prev.0.len() by {
                assert(script_record(modules, m, r));
            }
            lemma_records_fold_len(modules, inline, prev, m, modules[m].import_records.len() as int);
        }
    }
}

/// Law: once the pass is over, every bundled script module whose exports kind is CommonJS
/// is wrapped as CommonJS, unless it is an entry and the output is not ESM; this holds in
/// every output format for a module that is not an entry.
pub proof fn lemma_commonjs_modules_wrapped(
    modules: Seq<Module>,
    ids: Seq<ModuleIdx>,
    format: OutputFormat,
    inline: bool,
    st: KindState,
    m: int,
)
    requires
        exports_kind_input_ok(modules),
        st.0.len() == modules.len(),
        st.1.len() == modules.len(),
        0 <= m < modules.len(),
        !modules[m].is_external,
        is_js_type(modules[m].module_type),
        !ids.contains(m as usize) || format is Esm,
        modules_fold(modules, ids, format, inline, st, modules.len() as int).0[m] is CommonJs,
    ensures
        modules_fold(modules, ids, format, inline, st, modules.len() as int).1[m] is Cjs,
{
    let prev = modules_fold(modules, ids, format, inline, st, m);
    lemma_modules_fold_len(modules, ids, format, inline, st, m);
    assert forall|r: int| 0 <= r < modules[m].import_records.len() implies (
    #[trigger] modules[m].import_records[r]).resolved_module < prev.0.len() by {
        assert(script_record(modules, m, r));
    }
    lemma_records_fold_len(modules, inline, prev, m, modules[m].import_records.len() as int);
    assert(cjs_wrapped(modules_fold(modules, ids, format, inline, st, m + 1), m));
    lemma_modules_fold_keeps_cjs(modules, ids, format, inline, st, m + 1, modules.len() as int, m);
}

} // verus!
