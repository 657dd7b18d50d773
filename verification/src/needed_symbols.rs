use vstd::prelude::*;
use vstd::string::*;

use crate::module_exports::{stmt_view, stmts_view, RuntimeModuleBrief};
use crate::render::OutputFormat;
use crate::strings::copy_str;
use crate::types::{ImportRecord, Module, StmtInfo, SymbolInfo, SymbolOrMemberExprRef, SymbolRef, SymbolRefDb};

verus! {

/// A static import or re-export of an external module that is neither `export *` nor a
/// plain import: in CommonJS output its statement needs the `__toESM` helper.
pub open spec fn needs_to_esm(rec: ImportRecord, external: Seq<bool>, is_cjs: bool) -> bool {
    &&& rec.kind.spec_is_static()
    &&& external[rec.resolved_module as int]
    &&& !rec.is_export_star
    &&& !rec.is_plain_import
    &&& is_cjs
}

/// An `export *` of an external module: its namespace symbol gets the name
/// `import_<name of the external module>`.
pub open spec fn names_namespace(rec: ImportRecord, external: Seq<bool>) -> bool {
    &&& rec.kind.spec_is_static()
    &&& external[rec.resolved_module as int]
    &&& rec.is_export_star
}

/// `to_esm` once for each of the records `recs` (positions in `records`) that needs it.
pub open spec fn to_esm_refs(
    records: Seq<ImportRecord>,
    recs: Seq<usize>,
    external: Seq<bool>,
    is_cjs: bool,
    to_esm: SymbolRef,
) -> Seq<SymbolOrMemberExprRef>
    decreases recs.len(),
{
    if recs.len() == 0 {
        Seq::empty()
    } else {
        let rest = to_esm_refs(records, recs.drop_last(), external, is_cjs, to_esm);
        if needs_to_esm(records[recs.last() as int], external, is_cjs) {
            rest.push(SymbolOrMemberExprRef::Symbol(to_esm))
        } else {
            rest
        }
    }
}

/// A statement after its needed symbols are referenced: `to_esm` appended once per record
/// that needs it, and a side effect when there is any.
pub open spec fn stmt_after(
    records: Seq<ImportRecord>,
    s: StmtInfo,
    external: Seq<bool>,
    is_cjs: bool,
    to_esm: SymbolRef,
) -> (Seq<SymbolRef>, Seq<SymbolOrMemberExprRef>, bool, Seq<usize>) {
    let added = to_esm_refs(records, s.import_records@, external, is_cjs, to_esm);
    (s.declared_symbols@, s.referenced_symbols@ + added, s.side_effect || added.len() > 0, s.import_records@)
}

/// The renamings that the records `recs` make, in order: the namespace symbol of each
/// `export *` of an external module becomes `import_` and that module's name.
pub open spec fn record_renames(
    records: Seq<ImportRecord>,
    recs: Seq<usize>,
    external: Seq<bool>,
    names: Seq<Seq<char>>,
) -> Seq<(SymbolRef, Seq<char>)>
    decreases recs.len(),
{
    if recs.len() == 0 {
        Seq::empty()
    } else {
        let rest = record_renames(records, recs.drop_last(), external, names);
        let rec = records[recs.last() as int];
        if names_namespace(rec, external) {
            rest.push((rec.namespace_ref, "import_"@ + names[rec.resolved_module as int]))
        } else {
            rest
        }
    }
}

/// The renamings that the statements `stmts` make, statement by statement.
pub open spec fn stmt_renames(
    records: Seq<ImportRecord>,
    stmts: Seq<StmtInfo>,
    external: Seq<bool>,
    names: Seq<Seq<char>>,
) -> Seq<(SymbolRef, Seq<char>)>
    decreases stmts.len(),
{
    if stmts.len() == 0 {
        Seq::empty()
    } else {
        stmt_renames(records, stmts.drop_last(), external, names) + record_renames(
            records,
            stmts.last().import_records@,
            external,
            names,
        )
    }
}

/// The renamings that the bundled modules among the first `upto` make, module by module.
pub open spec fn module_renames(modules: Seq<Module>, upto: int, external: Seq<bool>, names: Seq<Seq<char>>) -> Seq<(SymbolRef, Seq<char>)>
    decreases upto,
{
    if upto <= 0 {
        Seq::empty()
    } else {
        let rest = module_renames(modules, upto - 1, external, names);
        let m = modules[upto - 1];
        if m.is_external {
            rest
        } else {
            rest + stmt_renames(m.import_records@, m.stmt_infos@, external, names)
        }
    }
}

/// The name symbol `s` ends with after the renamings `ops`: the last one given to it, or
/// `init` when none is.
pub open spec fn final_name(ops: Seq<(SymbolRef, Seq<char>)>, s: SymbolRef, init: Seq<char>) -> Seq<char>
    decreases ops.len(),
{
    if ops.len() == 0 {
        init
    } else if ops.last().0 == s {
        ops.last().1
    } else {
        final_name(ops.drop_last(), s, init)
    }
}

/// `db1` is `db0` with the renamings `ops` applied: same symbols, same canonical symbols and
/// aliases, names as `final_name` says.
pub open spec fn renamed(db0: SymbolRefDb, db1: SymbolRefDb, ops: Seq<(SymbolRef, Seq<char>)>) -> bool {
    &&& db1.symbols.len() == db0.symbols.len()
    &&& forall|o: int| 0 <= o < db0.symbols.len() ==> (#[trigger] db1.symbols@[o]).len() == db0.symbols@[o].len()
    &&& forall|o: int, i: int|
        0 <= o < db0.symbols.len() && 0 <= i < db0.symbols@[o].len() ==> {
            let a = #[trigger] db1.symbols@[o]@[i];
            let b = db0.symbols@[o]@[i];
            &&& a.canonical == b.canonical
            &&& a.namespace_alias == b.namespace_alias
            &&& a.name@ == final_name(ops, SymbolRef { owner: o as usize, symbol: i as usize }, b.name@)
        }
}

proof fn lemma_renamed_push(db0: SymbolRefDb, db1: SymbolRefDb, db2: SymbolRefDb, ops: Seq<(SymbolRef, Seq<char>)>, s: SymbolRef, name: Seq<char>)
    requires
        renamed(db0, db1, ops),
        db1.has(s),
        db2.symbols.len() == db1.symbols.len(),
        forall|o: int| 0 <= o < db1.symbols.len() && o != s.owner ==> #[trigger] db2.symbols@[o] == db1.symbols@[o],
        db2.symbols@[s.owner as int]@.len() == db1.symbols@[s.owner as int]@.len(),
        forall|i: int| 0 <= i < db1.symbols@[s.owner as int]@.len() && i != s.symbol ==> #[trigger] db2.symbols@[s.owner as int]@[i]
            == db1.symbols@[s.owner as int]@[i],
        db2.info(s).canonical == db1.info(s).canonical,
        db2.info(s).namespace_alias == db1.info(s).namespace_alias,
        db2.info(s).name@ == name,
    ensures
        renamed(db0, db2, ops.push((s, name))),
{
    let ops2 = ops.push((s, name));
    assert(ops2.drop_last() =~= ops);
    assert forall|o: int| 0 <= o < db0.symbols.len() implies (#[trigger] db2.symbols@[o]).len() == db0.symbols@[o].len() by {
        if o != s.owner {
            assert(db2.symbols@[o] == db1.symbols@[o]);
        }
    }
    assert forall|o: int, i: int| 0 <= o < db0.symbols.len() && 0 <= i < db0.symbols@[o].len() implies {
        let a = #[trigger] db2.symbols@[o]@[i];
        let b = db0.symbols@[o]@[i];
        &&& a.canonical == b.canonical
        &&& a.namespace_alias == b.namespace_alias
        &&& a.name@ == final_name(ops2, SymbolRef { owner: o as usize, symbol: i as usize }, b.name@)
    } by {
        let t = SymbolRef { owner: o as usize, symbol: i as usize };
        assert(db1.symbols@[o]@[i] == db1.symbols@[o]@[i]);
        if o != s.owner {
            assert(db2.symbols@[o] == db1.symbols@[o]);
        } else if i != s.symbol {
            assert(db2.symbols@[o]@[i] == db1.symbols@[o]@[i]);
        } else {
            assert(t == s);
        }
    }
}

impl SymbolRefDb {
    /// Gives symbol `s` the name `name`; nothing else changes.
    pub fn set_name(&mut self, s: SymbolRef, name: String)
        requires
            old(self).wf(),
            old(self).has(s),
        ensures
            final(self).wf(),
            final(self).symbols.len() == old(self).symbols.len(),
            forall|o: int| 0 <= o < old(self).symbols.len() && o != s.owner ==> #[trigger] final(self).symbols@[o] == old(self).symbols@[o],
            final(self).symbols@[s.owner as int]@ == old(self).symbols@[s.owner as int]@.update(
                s.symbol as int,
                SymbolInfo { name, ..old(self).info(s) },
            ),
    {
        let ghost db0 = *self;
        self.symbols[s.owner][s.symbol].name = name;
        proof {
            assert(self.symbols@[s.owner as int]@ =~= db0.symbols@[s.owner as int]@.update(
                s.symbol as int,
                SymbolInfo { name, ..db0.info(s) },
            ));
            assert forall|q: int, k: int|
                0 <= q < self.symbols.len() && 0 <= k < self.symbols[q].len() implies {
                    let c = #[trigger] self.symbols[q][k].canonical;
                    &&& self.has(c)
                    &&& self.info(c).canonical == c
                    &&& (self.symbols[q][k].namespace_alias matches Some(a) ==> self.has(a.namespace_ref))
                } by {
                assert(self.symbols[q]@.len() == db0.symbols[q]@.len()) by {
                    if q != s.owner {
                        assert(self.symbols@[q] == db0.symbols@[q]);
                    }
                }
                let c = db0.symbols[q][k].canonical;
                assert(self.symbols[q][k].canonical == c && self.symbols[q][k].namespace_alias == db0.symbols[q][k].namespace_alias) by {
                    if q != s.owner {
                        assert(self.symbols@[q] == db0.symbols@[q]);
                    }
                }
                assert(db0.has(c) && db0.info(c).canonical == c);
                assert(self.symbols[c.owner as int]@.len() == db0.symbols[c.owner as int]@.len()) by {
                    if c.owner != s.owner {
                        assert(self.symbols@[c.owner as int] == db0.symbols@[c.owner as int]);
                    }
                }
                assert(self.info(c).canonical == db0.info(c).canonical) by {
                    if c.owner != s.owner {
                        assert(self.symbols@[c.owner as int] == db0.symbols@[c.owner as int]);
                    }
                }
                if let Some(a) = db0.symbols[q][k].namespace_alias {
                    assert(self.symbols[a.namespace_ref.owner as int]@.len() == db0.symbols[a.namespace_ref.owner as int]@.len()) by {
                        if a.namespace_ref.owner != s.owner {
                            assert(self.symbols@[a.namespace_ref.owner as int] == db0.symbols@[a.namespace_ref.owner as int]);
                        }
                    }
                }
            }
        }
    }
}


proof fn lemma_final_name_concat(a: Seq<(SymbolRef, Seq<char>)>, b: Seq<(SymbolRef, Seq<char>)>, s: SymbolRef, init: Seq<char>)
    ensures
        final_name(a + b, s, init) == final_name(b, s, final_name(a, s, init)),
    decreases b.len(),
{
    if b.len() == 0 {
        assert(a + b =~= a);
    } else {
        assert((a + b).drop_last() =~= a + b.drop_last());
        assert((a + b).last() == b.last());
        lemma_final_name_concat(a, b.drop_last(), s, init);
    }
}

proof fn lemma_renamed_trans(
    db0: SymbolRefDb,
    db1: SymbolRefDb,
    db2: SymbolRefDb,
    a: Seq<(SymbolRef, Seq<char>)>,
    b: Seq<(SymbolRef, Seq<char>)>,
)
    requires
        renamed(db0, db1, a),
        renamed(db1, db2, b),
    ensures
        renamed(db0, db2, a + b),
{
    assert forall|o: int| 0 <= o < db0.symbols.len() implies (#[trigger] db2.symbols@[o]).len() == db0.symbols@[o].len() by {
        assert(db1.symbols@[o].len() == db0.symbols@[o].len());
    }
    assert forall|o: int, i: int| 0 <= o < db0.symbols.len() && 0 <= i < db0.symbols@[o].len() implies {
        let x = #[trigger] db2.symbols@[o]@[i];
        let y = db0.symbols@[o]@[i];
        &&& x.canonical == y.canonical
        &&& x.namespace_alias == y.namespace_alias
        &&& x.name@ == final_name(a + b, SymbolRef { owner: o as usize, symbol: i as usize }, y.name@)
    } by {
        assert(db1.symbols@[o].len() == db0.symbols@[o].len());
        let m = db1.symbols@[o]@[i];
        lemma_final_name_concat(a, b, SymbolRef { owner: o as usize, symbol: i as usize }, db0.symbols@[o]@[i].name@);
    }
}

/// The bundled-module invariant of a record: it points into the table, and when it needs
/// `__toESM` or names a namespace, what that takes exists.
pub open spec fn record_ok(
    rec: ImportRecord,
    external: Seq<bool>,
    is_cjs: bool,
    db: SymbolRefDb,
    runtime: RuntimeModuleBrief,
) -> bool {
    &&& rec.resolved_module < external.len()
    &&& names_namespace(rec, external) ==> db.has(rec.namespace_ref)
    &&& needs_to_esm(rec, external, is_cjs) ==> runtime.defines("__toESM"@)
}

/// Every record that the statements `stmts` make is a valid position in `records` and
/// satisfies [`record_ok`].
pub open spec fn stmts_ok(
    records: Seq<ImportRecord>,
    stmts: Seq<StmtInfo>,
    external: Seq<bool>,
    is_cjs: bool,
    db: SymbolRefDb,
    runtime: RuntimeModuleBrief,
) -> bool {
    forall|s: int, k: int|
        0 <= s < stmts.len() && 0 <= k < stmts[s].import_records.len() ==> {
            let r = #[trigger] stmts[s].import_records@[k];
            &&& r < records.len()
            &&& record_ok(records[r as int], external, is_cjs, db, runtime)
        }
}

proof fn lemma_record_ok_renamed(
    rec: ImportRecord,
    external: Seq<bool>,
    is_cjs: bool,
    db0: SymbolRefDb,
    db1: SymbolRefDb,
    ops: Seq<(SymbolRef, Seq<char>)>,
    runtime: RuntimeModuleBrief,
)
    requires
        record_ok(rec, external, is_cjs, db0, runtime),
        renamed(db0, db1, ops),
    ensures
        record_ok(rec, external, is_cjs, db1, runtime),
{
    if names_namespace(rec, external) {
        assert(db1.symbols@[rec.namespace_ref.owner as int].len() == db0.symbols@[rec.namespace_ref.owner as int].len());
    }
}

fn reference_in_stmt(
    stmt: &mut StmtInfo,
    records: &Vec<ImportRecord>,
    external: &Vec<bool>,
    names: &Vec<String>,
    is_cjs: bool,
    runtime: &RuntimeModuleBrief,
    symbols: &mut SymbolRefDb,
)
    requires
        old(symbols).wf(),
        names.len() == external.len(),
        forall|k: int| 0 <= k < old(stmt).import_records.len() ==> {
            let r = #[trigger] old(stmt).import_records@[k];
            &&& r < records.len()
            &&& record_ok(records@[r as int], external@, is_cjs, *old(symbols), *runtime)
        },
    ensures
        final(symbols).wf(),
        renamed(*old(symbols), *final(symbols), record_renames(records@, old(stmt).import_records@, external@, crate::strings::views(names@))),
        stmt_view(*final(stmt)) == stmt_after(records@, *old(stmt), external@, is_cjs, runtime.symbol_of("__toESM"@)),
{
    proof {
        reveal_strlit("import_");
    }
    let ghost db0 = *symbols;
    let ghost st0 = *stmt;
    let ghost to_esm = runtime.symbol_of("__toESM"@);
    let ghost nv = crate::strings::views(names@);
    let mut k: usize = 0;
    while k < stmt.import_records.len()
        invariant
            k <= stmt.import_records.len(),
            stmt.import_records@ == st0.import_records@,
            stmt.declared_symbols@ == st0.declared_symbols@,
            names.len() == external.len(),
            nv == crate::strings::views(names@),
            to_esm == runtime.symbol_of("__toESM"@),
            forall|q: int| 0 <= q < st0.import_records.len() ==> {
                let r = #[trigger] st0.import_records@[q];
                &&& r < records.len()
                &&& record_ok(records@[r as int], external@, is_cjs, db0, *runtime)
            },
            symbols.wf(),
            renamed(db0, *symbols, record_renames(records@, st0.import_records@.subrange(0, k as int), external@, nv)),
            stmt.referenced_symbols@ == st0.referenced_symbols@ + to_esm_refs(
                records@,
                st0.import_records@.subrange(0, k as int),
                external@,
                is_cjs,
                to_esm,
            ),
            stmt.side_effect == (st0.side_effect || to_esm_refs(
                records@,
                st0.import_records@.subrange(0, k as int),
                external@,
                is_cjs,
                to_esm,
            ).len() > 0),
        decreases stmt.import_records.len() - k,
    {
        let ghost pre = st0.import_records@.subrange(0, k as int);
        let ghost post = st0.import_records@.subrange(0, k as int + 1);
        proof {
            assert(post.drop_last() =~= pre);
            assert(post.last() == st0.import_records@[k as int]);
        }
        let r = stmt.import_records[k];
        let rec = records[r];
        let ghost db1 = *symbols;
        let is_static = rec.kind.is_static();
        if is_static && external[rec.resolved_module] {
            if rec.is_export_star {
                let mut name = "import_".to_string();
                name.append(names[rec.resolved_module].as_str());
                proof {
                    lemma_record_ok_renamed(rec, external@, is_cjs, db0, db1, record_renames(records@, pre, external@, nv), *runtime);
                }
                let ghost nm = name@;
                symbols.set_name(rec.namespace_ref, name);
                proof {
                    assert(nm == "import_"@ + nv[rec.resolved_module as int]);
                    lemma_renamed_push(db0, db1, *symbols, record_renames(records@, pre, external@, nv), rec.namespace_ref, nm);
                }
            } else if !rec.is_plain_import && is_cjs {
                let sym = runtime.resolve_symbol("__toESM");
                stmt.side_effect = true;
                stmt.referenced_symbols.push(SymbolOrMemberExprRef::Symbol(sym));
            }
        }
        k += 1;
    }
    proof {
        assert(st0.import_records@.subrange(0, k as int) =~= st0.import_records@);
    }
}

fn reference_in_module(
    stmts: &mut Vec<StmtInfo>,
    records: &Vec<ImportRecord>,
    external: &Vec<bool>,
    names: &Vec<String>,
    is_cjs: bool,
    runtime: &RuntimeModuleBrief,
    symbols: &mut SymbolRefDb,
)
    requires
        old(symbols).wf(),
        names.len() == external.len(),
        stmts_ok(records@, old(stmts)@, external@, is_cjs, *old(symbols), *runtime),
    ensures
        final(symbols).wf(),
        renamed(*old(symbols), *final(symbols), stmt_renames(records@, old(stmts)@, external@, crate::strings::views(names@))),
        stmts_view(final(stmts)@) == Seq::new(
            old(stmts)@.len(),
            |s: int| stmt_after(records@, old(stmts)@[s], external@, is_cjs, runtime.symbol_of("__toESM"@)),
        ),
{
    let ghost db0 = *symbols;
    let ghost s0 = stmts@;
    let ghost nv = crate::strings::views(names@);
    let mut s: usize = 0;
    while s < stmts.len()
        invariant
            s <= stmts.len(),
            stmts.len() == s0.len(),
            names.len() == external.len(),
            nv == crate::strings::views(names@),
            stmts_ok(records@, s0, external@, is_cjs, db0, *runtime),
            forall|q: int| s <= q < s0.len() ==> #[trigger] stmts@[q] == s0[q],
            forall|q: int| 0 <= q < s ==> #[trigger] stmt_view(stmts@[q]) == stmt_after(records@, s0[q], external@, is_cjs, runtime.symbol_of("__toESM"@)),
            symbols.wf(),
            renamed(db0, *symbols, stmt_renames(records@, s0.subrange(0, s as int), external@, nv)),
        decreases stmts.len() - s,
    {
        let ghost db1 = *symbols;
        let ghost pre = s0.subrange(0, s as int);
        proof {
            assert forall|k: int| 0 <= k < s0[s as int].import_records.len() implies {
                let r = #[trigger] s0[s as int].import_records@[k];
                &&& r < records.len()
                &&& record_ok(records@[r as int], external@, is_cjs, db1, *runtime)
            } by {
                let r = s0[s as int].import_records@[k];
                assert(r < records.len() && record_ok(records@[r as int], external@, is_cjs, db0, *runtime));
                lemma_record_ok_renamed(records@[r as int], external@, is_cjs, db0, db1, stmt_renames(records@, pre, external@, nv), *runtime);
            }
        }
        reference_in_stmt(&mut stmts[s], records, external, names, is_cjs, runtime, symbols);
        proof {
            let post = s0.subrange(0, s as int + 1);
            assert(post.drop_last() =~= pre);
            assert(post.last() == s0[s as int]);
            lemma_renamed_trans(db0, db1, *symbols, stmt_renames(records@, pre, external@, nv), record_renames(records@, s0[s as int].import_records@, external@, nv));
        }
        s += 1;
    }
    proof {
        assert(s0.subrange(0, s as int) =~= s0);
        assert(stmts_view(stmts@) =~= Seq::new(
            s0.len(),
            |q: int| stmt_after(records@, s0[q], external@, is_cjs, runtime.symbol_of("__toESM"@)),
        ));
    }
}


/// Which modules of the table are external.
pub open spec fn externals(modules: Seq<Module>) -> Seq<bool> {
    Seq::new(modules.len(), |m: int| modules[m].is_external)
}

/// The name of each module's namespace symbol. An external module's namespace symbol is
/// named after the module's id, made a valid identifier, when the module is loaded.
pub open spec fn namespace_names(modules: Seq<Module>, db: SymbolRefDb) -> Seq<Seq<char>> {
    Seq::new(modules.len(), |m: int| db.info(modules[m].namespace_object_ref).name@)
}

proof fn lemma_module_renames_step(modules: Seq<Module>, m: int, external: Seq<bool>, names: Seq<Seq<char>>)
    requires
        0 <= m < modules.len(),
    ensures
        module_renames(modules, m + 1, external, names) == module_renames(modules, m, external, names) + (if modules[m].is_external {
            Seq::empty()
        } else {
            stmt_renames(modules[m].import_records@, modules[m].stmt_infos@, external, names)
        }),
{
    if modules[m].is_external {
        assert(module_renames(modules, m, external, names) + Seq::empty() =~= module_renames(modules, m, external, names));
    }
}

/// References the symbols that imports of external modules need: in CommonJS output, a
/// statement that statically imports or re-exports from an external module (not `export *`,
/// not a plain import) gets a side effect and refers to the runtime's `__toESM` once per
/// such import; the namespace symbol of an `export *` of an external module is named `import_`
/// followed by that module's name. External modules are left as they are.
pub fn reference_needed_symbols(
    modules: &mut Vec<Module>,
    symbols: &mut SymbolRefDb,
    runtime: &RuntimeModuleBrief,
    format: OutputFormat,
)
    requires
        old(symbols).wf(),
        forall|m: int| 0 <= m < old(modules).len() ==> old(symbols).has(#[trigger] old(modules)@[m].namespace_object_ref),
        forall|m: int|
            0 <= m < old(modules).len() && !old(modules)@[m].is_external ==> stmts_ok(
                (#[trigger] old(modules)@[m]).import_records@,
                old(modules)@[m].stmt_infos@,
                externals(old(modules)@),
                format is Cjs,
                *old(symbols),
                *runtime,
            ),
    ensures
        final(symbols).wf(),
        renamed(
            *old(symbols),
            *final(symbols),
            module_renames(
                old(modules)@,
                old(modules)@.len() as int,
                externals(old(modules)@),
                namespace_names(old(modules)@, *old(symbols)),
            ),
        ),
        final(modules).len() == old(modules).len(),
        forall|m: int|
            0 <= m < old(modules).len() ==> #[trigger] final(modules)@[m] == (Module {
                stmt_infos: final(modules)@[m].stmt_infos,
                ..old(modules)@[m]
            }),
        forall|m: int|
            0 <= m < old(modules).len() && old(modules)@[m].is_external ==> #[trigger] final(modules)@[m].stmt_infos
                == old(modules)@[m].stmt_infos,
        forall|m: int|
            0 <= m < old(modules).len() && !old(modules)@[m].is_external ==> stmts_view(
                (#[trigger] final(modules)@[m]).stmt_infos@,
            ) == Seq::new(
                old(modules)@[m].stmt_infos@.len(),
                |s: int|
                    stmt_after(
                        old(modules)@[m].import_records@,
                        old(modules)@[m].stmt_infos@[s],
                        externals(old(modules)@),
                        format is Cjs,
                        runtime.symbol_of("__toESM"@),
                    ),
            ),
{
    let n = modules.len();
    let is_cjs = match format {
        OutputFormat::Cjs => true,
        OutputFormat::Esm => false,
    };
    let ghost db0 = *symbols;
    let ghost m0 = modules@;
    let mut external: Vec<bool> = Vec::new();
    let mut names: Vec<String> = Vec::new();
    let mut q: usize = 0;
    while q < n
        invariant
            q <= n,
            n == modules.len(),
            modules@ == m0,
            *symbols == db0,
            forall|m: int| 0 <= m < n ==> db0.has(#[trigger] m0[m].namespace_object_ref),
            external@ == externals(m0).subrange(0, q as int),
            crate::strings::views(names@) == namespace_names(m0, db0).subrange(0, q as int),
        decreases n - q,
    {
        let ns = modules[q].namespace_object_ref;
        external.push(modules[q].is_external);
        let nm = copy_str(&symbols.symbols[ns.owner][ns.symbol].name);
        let ghost names0 = names@;
        proof {
            assert(crate::strings::views(names0).len() == names0.len());
            assert(names0.len() == q);
        }
        names.push(nm);
        proof {
            assert(names@ == names0.push(nm));
        }
        q += 1;
        proof {
            assert(external@ =~= externals(m0).subrange(0, q as int));
            assert(nm@ == db0.info(m0[q - 1].namespace_object_ref).name@);
            assert forall|i: int| 0 <= i < q implies #[trigger] crate::strings::views(names@)[i] == namespace_names(m0, db0)[i] by {
                if i < q - 1 {
                    assert(names@[i] == names0[i]);
                    assert(crate::strings::views(names0)[i] == namespace_names(m0, db0).subrange(0, q - 1)[i]);
                }
            }
            assert(crate::strings::views(names@) =~= namespace_names(m0, db0).subrange(0, q as int));
        }
    }
    proof {
        assert(external@ =~= externals(m0));
        assert(crate::strings::views(names@) =~= namespace_names(m0, db0));
    }
    let ghost nv = namespace_names(m0, db0);
    let mut m: usize = 0;
    while m < n
        invariant
            m <= n,
            n == modules.len(),
            n == m0.len(),
            external@ == externals(m0),
            names.len() == n,
            crate::strings::views(names@) == nv,
            is_cjs == (format is Cjs),
            forall|k: int|
                0 <= k < n && !m0[k].is_external ==> stmts_ok(
                    (#[trigger] m0[k]).import_records@,
                    m0[k].stmt_infos@,
                    externals(m0),
                    is_cjs,
                    db0,
                    *runtime,
                ),
            symbols.wf(),
            renamed(db0, *symbols, module_renames(m0, m as int, externals(m0), nv)),
            forall|k: int| m <= k < n ==> #[trigger] modules@[k] == m0[k],
            forall|k: int| 0 <= k < m ==> #[trigger] modules@[k] == (Module { stmt_infos: modules@[k].stmt_infos, ..m0[k] }),
            forall|k: int| 0 <= k < m && m0[k].is_external ==> #[trigger] modules@[k].stmt_infos == m0[k].stmt_infos,
            forall|k: int|
                0 <= k < m && !m0[k].is_external ==> stmts_view((#[trigger] modules@[k]).stmt_infos@) == Seq::new(
                    m0[k].stmt_infos@.len(),
                    |s: int| stmt_after(m0[k].import_records@, m0[k].stmt_infos@[s], externals(m0), is_cjs, runtime.symbol_of("__toESM"@)),
                ),
        decreases n - m,
    {
        let ghost db1 = *symbols;
        proof {
            lemma_module_renames_step(m0, m as int, externals(m0), nv);
        }
        if !external[m] {
            proof {
                let st = m0[m as int].stmt_infos@;
                let recs = m0[m as int].import_records@;
                assert forall|s: int, k: int| 0 <= s < st.len() && 0 <= k < st[s].import_records.len() implies {
                    let r = #[trigger] st[s].import_records@[k];
                    &&& r < recs.len()
                    &&& record_ok(recs[r as int], externals(m0), is_cjs, db1, *runtime)
                } by {
                    let r = st[s].import_records@[k];
                    assert(r < recs.len() && record_ok(recs[r as int], externals(m0), is_cjs, db0, *runtime));
                    lemma_record_ok_renamed(recs[r as int], externals(m0), is_cjs, db0, db1, module_renames(m0, m as int, externals(m0), nv), *runtime);
                }
            }
            let mut stmts: Vec<StmtInfo> = Vec::new();
            std::mem::swap(&mut stmts, &mut modules[m].stmt_infos);
            reference_in_module(&mut stmts, &modules[m].import_records, &external, &names, is_cjs, runtime, symbols);
            std::mem::swap(&mut stmts, &mut modules[m].stmt_infos);
            proof {
                lemma_renamed_trans(
                    db0,
                    db1,
                    *symbols,
                    module_renames(m0, m as int, externals(m0), nv),
                    stmt_renames(m0[m as int].import_records@, m0[m as int].stmt_infos@, externals(m0), nv),
                );
            }
        } else {
            proof {
                assert(module_renames(m0, m as int + 1, externals(m0), nv) =~= module_renames(m0, m as int, externals(m0), nv));
            }
        }
        m += 1;
    }
}

} // verus!
