use vstd::prelude::*;

verus! {

/// A module is addressed by its position in the module table.
pub type ModuleIdx = usize;

/// A symbol: the module that owns it and its number inside that module.
#[derive(Clone, Copy, Debug, PartialEq, Eq, Structural)]
pub struct SymbolRef {
    pub owner: usize,
    pub symbol: usize,
}

/// How a module refers to another one.
#[derive(Clone, Copy, Debug, PartialEq, Eq, Structural)]
pub enum ImportKind {
    /// `import ... from '...'` and `export ... from '...'`
    Import,
    /// `import('...')`
    DynamicImport,
    /// `require('...')`
    Require,
    /// `@import` in CSS
    AtImport,
    /// `url()` in CSS
    UrlImport,
    /// `new URL('...', import.meta.url)`
    NewUrl,
}

impl ImportKind {
    /// Every kind but a dynamic `import()` is resolved when the importer runs.
    pub open spec fn spec_is_static(self) -> bool {
        !(self is DynamicImport)
    }

    pub fn is_static(&self) -> (r: bool)
        ensures
            r == self.spec_is_static(),
    {
        match self {
            ImportKind::DynamicImport => false,
            _ => true,
        }
    }

    pub fn is_dynamic(&self) -> (r: bool)
        ensures
            r == (*self is DynamicImport),
    {
        match self {
            ImportKind::DynamicImport => true,
            _ => false,
        }
    }
}

/// One import of a module, already resolved to the module it points at.
#[derive(Clone, Copy, Debug)]
pub struct ImportRecord {
    pub kind: ImportKind,
    /// The module this record resolved to.
    pub resolved_module: ModuleIdx,
    /// A placeholder record that points at no real module.
    pub is_dummy: bool,
    /// `export * from '...'`
    pub is_export_star: bool,
    /// `import '...'` or `import {} from '...'`
    pub is_plain_import: bool,
    /// The symbol that stands for the importee's namespace in the importer.
    pub namespace_ref: SymbolRef,
}

/// What is known of whether evaluating a module has observable effects.
#[derive(Clone, Copy, Debug, PartialEq, Eq, Structural)]
pub enum DeterminedSideEffects {
    /// Found by looking at the module's statements (or its dependencies).
    Analyzed(bool),
    /// Stated by the user, e.g. in `package.json`.
    UserDefined(bool),
    /// The module must be kept whole.
    NoTreeshake,
}

impl DeterminedSideEffects {
    pub open spec fn spec_has_side_effects(self) -> bool {
        match self {
            DeterminedSideEffects::Analyzed(b) => b,
            DeterminedSideEffects::UserDefined(b) => b,
            DeterminedSideEffects::NoTreeshake => true,
        }
    }

    pub fn has_side_effects(&self) -> (r: bool)
        ensures
            r == self.spec_has_side_effects(),
    {
        match self {
            DeterminedSideEffects::Analyzed(b) => *b,
            DeterminedSideEffects::UserDefined(b) => *b,
            DeterminedSideEffects::NoTreeshake => true,
        }
    }
}

/// The kind of source a module was loaded from.
#[derive(Clone, Copy, Debug, PartialEq, Eq, Structural)]
pub enum ModuleType {
    Js,
    Jsx,
    Ts,
    Tsx,
    Json,
    Text,
    Css,
    Empty,
    Asset,
    Base64,
    Binary,
    Dataurl,
}

/// How a module provides its exports.
#[derive(Clone, Copy, Debug, PartialEq, Eq, Structural)]
pub enum ExportsKind {
    /// ES module syntax (`export`).
    Esm,
    /// `module.exports` / `exports`.
    CommonJs,
    /// Not known yet: the module uses neither.
    Unknown,
}

/// How a module's code is wrapped in the output.
#[derive(Clone, Copy, Debug, PartialEq, Eq, Structural)]
pub enum WrapKind {
    /// Not wrapped: the code is hoisted into the chunk.
    Unwrapped,
    /// Wrapped in a CommonJS closure (`__commonJS`).
    Cjs,
    /// Wrapped in a lazy ES module initializer (`__esm`).
    Esm,
}

/// What an import names in its importee.
#[derive(Clone, Debug)]
pub enum Specifier {
    /// `import * as ns`
    Star,
    /// `import { name }`
    Literal(String),
}

/// An import binding declared by a module.
#[derive(Clone, Debug)]
pub struct NamedImport {
    pub imported: Specifier,
    /// The local symbol that the import binds.
    pub imported_as: SymbolRef,
    /// The import record the binding comes from.
    pub record_id: usize,
}

/// An export declared by the module itself.
#[derive(Clone, Debug)]
pub struct LocalExport {
    pub name: String,
    pub referenced: SymbolRef,
}

/// A reference made by a statement: a symbol, or a member expression
/// `ns.a.b` whose resolution is stored in the module's linking metadata
/// (`resolved_member_expr_refs`), at the given position.
#[derive(Clone, Copy, Debug)]
pub enum SymbolOrMemberExprRef {
    Symbol(SymbolRef),
    MemberExpr(usize),
}

/// What the linker knows of one top-level statement.
#[derive(Clone, Debug)]
pub struct StmtInfo {
    pub declared_symbols: Vec<SymbolRef>,
    pub referenced_symbols: Vec<SymbolOrMemberExprRef>,
    pub side_effect: bool,
    /// Positions in the module's import records of the imports this statement makes.
    pub import_records: Vec<usize>,
}

/// A module of the module table as the linker sees it.
#[derive(Debug)]
pub struct Module {
    /// Its own position in the table.
    pub idx: ModuleIdx,
    /// An external module is not bundled: it is imported at run time.
    pub is_external: bool,
    /// The user named this module as an entry.
    pub is_user_defined_entry: bool,
    pub import_records: Vec<ImportRecord>,
    pub side_effects: DeterminedSideEffects,
    pub module_type: ModuleType,
    /// The module calls `eval`, so any of its bindings may be read.
    pub has_eval: bool,
    /// Statement 0 stands for the module namespace object.
    pub stmt_infos: Vec<StmtInfo>,
    pub named_imports: Vec<NamedImport>,
    pub named_exports: Vec<LocalExport>,
    /// The symbol of the module namespace object.
    pub namespace_object_ref: SymbolRef,
    /// The module's id as shown to users.
    pub stable_id: String,
    pub exports_kind: ExportsKind,
    /// The module's exports are produced lazily (e.g. a JSON module turned into exports).
    pub has_lazy_export: bool,
    /// A name for the module usable in identifiers.
    pub repr_name: String,
}

/// Why a module is an entry.
#[derive(Clone, Copy, Debug, PartialEq, Eq, Structural)]
pub enum EntryPointKind {
    /// The user named it.
    UserDefined,
    /// Some module imports it with `import()`.
    DynamicImport,
}

/// A module that starts a chunk of its own.
#[derive(Clone, Debug)]
pub struct EntryPoint {
    pub name: Option<String>,
    pub id: ModuleIdx,
    pub kind: EntryPointKind,
}

/// Facts of a module that the linker gathers.
#[derive(Debug)]
pub struct LinkingMetadata {
    /// Modules that must be included whenever this one is.
    pub dependencies: Vec<ModuleIdx>,
    /// Symbols that the entry chunk of this module refers to.
    pub referenced_symbols_by_entry_point_chunk: Vec<SymbolRef>,
    /// The resolution of each member expression the module makes; `None` when it
    /// resolves to nothing.
    pub resolved_member_expr_refs: Vec<Option<SymbolRef>>,
    /// The module's exports cannot all be known when bundling (some come through
    /// `export *` from an external module).
    pub has_dynamic_exports: bool,
    pub wrap_kind: WrapKind,
    /// The symbol of the module's wrapper function, when it is wrapped.
    pub wrapper_ref: Option<SymbolRef>,
    /// The statement that declares the wrapper, when it is wrapped.
    pub wrapper_stmt_info: Option<usize>,
    /// Symbols made up for imported names that the importee does not export.
    pub shimmed_missing_exports: Vec<(String, SymbolRef)>,
    /// The import records (by position) of `export * from` an external module.
    pub star_exports_from_external_modules: Vec<usize>,
}

/// An import binding that reads a property of a namespace.
#[derive(Clone, Debug)]
pub struct NamespaceAlias {
    pub property_name: String,
    pub namespace_ref: SymbolRef,
}

/// What is known of one symbol.
#[derive(Clone, Debug)]
pub struct SymbolInfo {
    pub name: String,
    /// The symbol this one stands for after linking (itself when unlinked).
    pub canonical: SymbolRef,
    pub namespace_alias: Option<NamespaceAlias>,
}

/// All symbols, by owning module.
#[derive(Debug)]
pub struct SymbolRefDb {
    pub symbols: Vec<Vec<SymbolInfo>>,
}

impl SymbolRefDb {
    /// The symbol exists.
    pub open spec fn has(&self, s: SymbolRef) -> bool {
        s.owner < self.symbols.len() && s.symbol < self.symbols[s.owner as int].len()
    }

    pub open spec fn info(&self, s: SymbolRef) -> SymbolInfo {
        self.symbols[s.owner as int][s.symbol as int]
    }

    /// Every canonical symbol exists and stands for itself, and every alias target exists.
    pub open spec fn wf(&self) -> bool {
        &&& forall|o: int, i: int|
            0 <= o < self.symbols.len() && 0 <= i < self.symbols[o].len() ==> {
                let c = #[trigger] self.symbols[o][i].canonical;
                &&& self.has(c)
                &&& self.info(c).canonical == c
                &&& (self.symbols[o][i].namespace_alias matches Some(a) ==> self.has(a.namespace_ref))
            }
    }

    pub open spec fn spec_canonical_ref_for(&self, s: SymbolRef) -> SymbolRef {
        self.info(s).canonical
    }

    /// The symbol that `s` stands for after linking.
    pub fn canonical_ref_for(&self, s: SymbolRef) -> (r: SymbolRef)
        requires
            self.has(s),
        ensures
            r == self.spec_canonical_ref_for(s),
    {
        self.symbols[s.owner][s.symbol].canonical
    }

    /// The symbols, module by module.
    pub open spec fn view_rows(&self) -> Seq<Seq<SymbolInfo>> {
        Seq::new(self.symbols@.len(), |o: int| self.symbols[o]@)
    }

    /// Makes `base` stand for what `target` stands for: every symbol whose canonical symbol
    /// is `base`'s now has `target`'s. Nothing changes when both already stand for the same.
    pub fn link(&mut self, base: SymbolRef, target: SymbolRef)
        requires
            old(self).wf(),
            old(self).has(base),
            old(self).has(target),
        ensures
            final(self).wf(),
            final(self).view_rows() == linked_rows(
                old(self).view_rows(),
                old(self).spec_canonical_ref_for(base),
                old(self).spec_canonical_ref_for(target),
            ),
    {
        let base_root = self.canonical_ref_for(base);
        let target_root = self.canonical_ref_for(target);
        let ghost rows0 = self.view_rows();
        let ghost db0 = *self;
        if base_root == target_root {
            proof {
                assert(self.view_rows() =~= linked_rows(rows0, base_root, target_root));
            }
            return;
        }
        let mut o: usize = 0;
        while o < self.symbols.len()
            invariant
                db0.wf(),
                db0.has(base_root),
                db0.has(target_root),
                db0.info(base_root).canonical == base_root,
                db0.info(target_root).canonical == target_root,
                base_root != target_root,
                rows0 == db0.view_rows(),
                self.symbols.len() == rows0.len(),
                o <= self.symbols.len(),
                forall|q: int| 0 <= q < rows0.len() ==> #[trigger] self.symbols[q]@.len() == rows0[q].len(),
                forall|q: int, i: int|
                    0 <= q < rows0.len() && 0 <= i < rows0[q].len() ==> #[trigger] self.symbols[q]@[i] == if q < o {
                        linked_rows(rows0, base_root, target_root)[q][i]
                    } else {
                        rows0[q][i]
                    },
            decreases rows0.len() - o,
        {
            let mut i: usize = 0;
            while i < self.symbols[o].len()
                invariant
                    base_root != target_root,
                    self.symbols.len() == rows0.len(),
                    o < self.symbols.len(),
                    i <= self.symbols[o as int]@.len(),
                    forall|q: int| 0 <= q < rows0.len() ==> #[trigger] self.symbols[q]@.len() == rows0[q].len(),
                    forall|q: int, k: int|
                        0 <= q < rows0.len() && 0 <= k < rows0[q].len() ==> #[trigger] self.symbols[q]@[k] == if q < o || (q
                            == o && k < i) {
                            linked_rows(rows0, base_root, target_root)[q][k]
                        } else {
                            rows0[q][k]
                        },
                decreases rows0[o as int].len() - i,
            {
                if self.symbols[o][i].canonical == base_root {
                    let ghost before = self.symbols@;
                    self.symbols[o][i].canonical = target_root;
                    proof {
                        assert forall|q: int| 0 <= q < rows0.len() implies #[trigger] self.symbols[q]@.len() == rows0[q].len() by {
                            if q != o {
                                assert(self.symbols@[q] == before[q]);
                            }
                        }
                        assert forall|q: int, k: int|
                            0 <= q < rows0.len() && 0 <= k < rows0[q].len() implies #[trigger] self.symbols[q]@[k] == if q < o || (
                            q == o && k < i + 1) {
                                linked_rows(rows0, base_root, target_root)[q][k]
                            } else {
                                rows0[q][k]
                            } by {
                            if q != o {
                                assert(self.symbols@[q] == before[q]);
                            } else if k != i {
                                assert(self.symbols@[q]@[k] == before[q]@[k]);
                            }
                        }
                    }
                }
                i += 1;
            }
            o += 1;
        }
        proof {
            let lr = linked_rows(rows0, base_root, target_root);
            assert forall|q: int| 0 <= q < rows0.len() implies #[trigger] self.view_rows()[q] == lr[q] by {
                assert(self.symbols@[q]@ =~= lr[q]);
            }
            assert(self.view_rows() =~= lr);
            assert forall|q: int, k: int|
                0 <= q < self.symbols.len() && 0 <= k < self.symbols[q].len() implies {
                    let c = #[trigger] self.symbols[q][k].canonical;
                    &&& self.has(c)
                    &&& self.info(c).canonical == c
                    &&& (self.symbols[q][k].namespace_alias matches Some(a) ==> self.has(a.namespace_ref))
                } by {
                let c0 = rows0[q][k].canonical;
                assert(db0.symbols[q][k] == rows0[q][k]);
                let c = self.symbols[q][k].canonical;
                assert(self.symbols[c.owner as int][c.symbol as int] == lr[c.owner as int][c.symbol as int]);
                if c0 == base_root {
                    assert(c == target_root);
                } else {
                    assert(c == c0);
                    assert(db0.symbols[c0.owner as int][c0.symbol as int] == rows0[c0.owner as int][c0.symbol as int]);
                }
            }
        }
    }
}

impl SymbolRefDb {
    /// Makes `s` read the property `property_name` of the namespace `namespace_ref`.
    pub fn set_namespace_alias(&mut self, s: SymbolRef, property_name: String, namespace_ref: SymbolRef)
        requires
            old(self).wf(),
            old(self).has(s),
            old(self).has(namespace_ref),
        ensures
            final(self).wf(),
            final(self).view_rows() == old(self).view_rows().update(
                s.owner as int,
                old(self).view_rows()[s.owner as int].update(
                    s.symbol as int,
                    SymbolInfo {
                        name: old(self).info(s).name,
                        canonical: old(self).info(s).canonical,
                        namespace_alias: Some(NamespaceAlias { property_name, namespace_ref }),
                    },
                ),
            ),
    {
        let ghost rows0 = self.view_rows();
        let ghost db0 = *self;
        self.symbols[s.owner][s.symbol].namespace_alias = Some(NamespaceAlias { property_name, namespace_ref });
        proof {
            let expect = rows0.update(
                s.owner as int,
                rows0[s.owner as int].update(
                    s.symbol as int,
                    SymbolInfo {
                        name: db0.info(s).name,
                        canonical: db0.info(s).canonical,
                        namespace_alias: Some(NamespaceAlias { property_name, namespace_ref }),
                    },
                ),
            );
            assert forall|q: int| 0 <= q < rows0.len() implies #[trigger] self.view_rows()[q] == expect[q] by {
                if q == s.owner {
                    assert(self.symbols@[q]@ =~= expect[q]);
                } else {
                    assert(self.symbols@[q] == db0.symbols@[q]);
                }
            }
            assert(self.view_rows() =~= expect);
            assert forall|q: int, k: int|
                0 <= q < self.symbols.len() && 0 <= k < self.symbols[q].len() implies {
                    let c = #[trigger] self.symbols[q][k].canonical;
                    &&& self.has(c)
                    &&& self.info(c).canonical == c
                    &&& (self.symbols[q][k].namespace_alias matches Some(a) ==> self.has(a.namespace_ref))
                } by {
                assert(self.symbols[q]@.len() == db0.symbols[q]@.len()) by {
                    if q != s.owner {
                        assert(self.symbols@[q] == db0.symbols@[q]);
                    }
                }
                let c = db0.symbols[q][k].canonical;
                assert(self.symbols[q][k].canonical == c) by {
                    if q != s.owner {
                        assert(self.symbols@[q] == db0.symbols@[q]);
                    }
                }
                assert(self.symbols[c.owner as int]@.len() == db0.symbols[c.owner as int]@.len()) by {
                    if c.owner != s.owner {
                        assert(self.symbols@[c.owner as int] == db0.symbols@[c.owner as int]);
                    }
                }
                assert(self.symbols[c.owner as int][c.symbol as int].canonical == db0.symbols[c.owner as int][c.symbol as int].canonical) by {
                    if c.owner != s.owner {
                        assert(self.symbols@[c.owner as int] == db0.symbols@[c.owner as int]);
                    }
                }
                if !(q == s.owner && k == s.symbol) {
                    assert(self.symbols[q][k].namespace_alias == db0.symbols[q][k].namespace_alias) by {
                        if q != s.owner {
                            assert(self.symbols@[q] == db0.symbols@[q]);
                        }
                    }
                    if let Some(a) = db0.symbols[q][k].namespace_alias {
                        let t = a.namespace_ref;
                        assert(self.symbols[t.owner as int]@.len() == db0.symbols[t.owner as int]@.len()) by {
                            if t.owner != s.owner {
                                assert(self.symbols@[t.owner as int] == db0.symbols@[t.owner as int]);
                            }
                        }
                    }
                } else {
                    assert(self.symbols[namespace_ref.owner as int]@.len() == db0.symbols[namespace_ref.owner as int]@.len()) by {
                        if namespace_ref.owner != s.owner {
                            assert(self.symbols@[namespace_ref.owner as int] == db0.symbols@[namespace_ref.owner as int]);
                        }
                    }
                }
            }
        }
    }
}

/// The symbols after every symbol that stood for `base_root` is made to stand for `target_root`.
pub open spec fn linked_rows(rows: Seq<Seq<SymbolInfo>>, base_root: SymbolRef, target_root: SymbolRef) -> Seq<Seq<SymbolInfo>> {
    if base_root == target_root {
        rows
    } else {
        Seq::new(
            rows.len(),
            |o: int|
                Seq::new(
                    rows[o].len(),
                    |i: int|
                        if rows[o][i].canonical == base_root {
                            SymbolInfo { name: rows[o][i].name, canonical: target_root, namespace_alias: rows[o][i].namespace_alias }
                        } else {
                            rows[o][i]
                        },
                ),
        )
    }
}

/// Whether record `j` of `m` is a static, non-dummy import of module `b`.
pub open spec fn static_edge_at(m: Module, j: int, b: int) -> bool {
    &&& 0 <= j < m.import_records.len()
    &&& m.import_records[j].kind.spec_is_static()
    &&& !m.import_records[j].is_dummy
    &&& m.import_records[j].resolved_module == b
}

/// Module `a` statically imports module `b` (dummy records aside).
pub open spec fn static_edge(modules: Seq<Module>, a: int, b: int) -> bool {
    0 <= a < modules.len() && exists|j: int| #[trigger] static_edge_at(modules[a], j, b)
}

/// Every import record of every module points into the table.
pub open spec fn records_in_bounds(modules: Seq<Module>) -> bool {
    forall|i: int, j: int|
        0 <= i < modules.len() && 0 <= j < modules[i].import_records.len()
            ==> #[trigger] modules[i].import_records[j].resolved_module < modules.len()
}

/// `p` is a walk along static imports.
pub open spec fn is_static_path(modules: Seq<Module>, p: Seq<usize>) -> bool {
    &&& p.len() >= 1
    &&& forall|i: int| 0 <= i < p.len() - 1 ==> #[trigger] static_edge(modules, p[i] as int, p[i + 1] as int)
}

/// Module `b` can be reached from module `a` along static imports (in zero or more steps).
pub open spec fn static_reaches(modules: Seq<Module>, a: int, b: int) -> bool {
    exists|p: Seq<usize>| #[trigger] is_static_path(modules, p) && p[0] == a && p.last() == b
}

} // verus!
