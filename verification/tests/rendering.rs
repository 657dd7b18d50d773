use minipack::bind::bind_imports_and_exports;
use minipack::finalizer::{namespace_alias_default_symbols, remove_unused_top_level_stmt, TopStmtAction, TopStmtShape};
use minipack::generator::{renderable_ecma_modules, EcmaGenerator, GenerateContext};
use minipack::member_exprs::{resolve_member_expr_refs, MemberExprRef};
use minipack::import_meta::{try_rewrite_import_meta_prop_expr, ImportMetaRewrite, Platform};
use minipack::namespace_object::{generate_declaration_of_module_namespace_object, NamespaceStmt, StarExportTarget};
use minipack::output::{
    get_sorting_file_type, sort_assets_by_preliminary_filename, sort_outputs, OutputFile, SortingFileType,
};
use minipack::render::{
    create_import_declaration, is_valid_identifier_name, render_cjs_chunk_imports, render_import_from_chunk,
    render_import_from_external, to_module_import_export_name, ChunkImportItem, ExternalImportItem, ImportsFromChunk,
    ImportsFromExternal, OutputFormat, SourceJoiner, RenderedModuleSource, render_modules_with_peek_runtime_module_at_first,
};
use minipack::strings::{join_strings, sort_dedup_strings, sort_strings, str_lt};
use minipack::types::{
    DeterminedSideEffects, ExportsKind, ImportKind, ImportRecord, LinkingMetadata, LocalExport, Module, ModuleType,
    NamedImport, NamespaceAlias, Specifier, StmtInfo, SymbolInfo, SymbolOrMemberExprRef, SymbolRef, SymbolRefDb, WrapKind,
};

fn s(x: &str) -> String {
    x.to_string()
}

fn strs(xs: &[&str]) -> Vec<String> {
    xs.iter().map(|x| x.to_string()).collect()
}

fn sym(owner: usize, symbol: usize) -> SymbolRef {
    SymbolRef { owner, symbol }
}

fn module(idx: usize, records: Vec<ImportRecord>) -> Module {
    Module {
        idx,
        is_external: false,
        is_user_defined_entry: false,
        import_records: records,
        side_effects: DeterminedSideEffects::Analyzed(false),
        module_type: ModuleType::Js,
        has_eval: false,
        stmt_infos: vec![StmtInfo { declared_symbols: vec![], referenced_symbols: vec![], side_effect: false, import_records: vec![] }],
        named_imports: vec![],
        named_exports: vec![],
        namespace_object_ref: sym(idx, 0),
        stable_id: format!("m{}.js", idx),
        exports_kind: ExportsKind::Esm,
        has_lazy_export: false,
        repr_name: format!("m{}", idx),
    }
}

fn meta() -> LinkingMetadata {
    LinkingMetadata {
        dependencies: vec![],
        referenced_symbols_by_entry_point_chunk: vec![],
        resolved_member_expr_refs: vec![],
        has_dynamic_exports: false,
        wrap_kind: WrapKind::Unwrapped,
        wrapper_ref: None,
        wrapper_stmt_info: None,
        shimmed_missing_exports: vec![],
        star_exports_from_external_modules: vec![],
    }
}

fn db_for(counts: &[usize]) -> SymbolRefDb {
    SymbolRefDb {
        symbols: counts
            .iter()
            .enumerate()
            .map(|(owner, n)| {
                (0..*n)
                    .map(|i| SymbolInfo { name: format!("s{}_{}", owner, i), canonical: sym(owner, i), namespace_alias: None })
                    .collect()
            })
            .collect(),
    }
}

// ---- strings ----

#[test]
fn strings_sort_and_join() {
    assert_eq!(sort_strings(&strs(&["b", "a", "c", "a"])), strs(&["a", "a", "b", "c"]));
    assert_eq!(sort_dedup_strings(&strs(&["b", "a", "c", "a"])), strs(&["a", "b", "c"]));
    assert_eq!(join_strings(&strs(&["x", "y", "z"]), ", "), "x, y, z");
    assert_eq!(join_strings(&strs(&[]), ", "), "");
    assert!(str_lt("ab", "b"));
    assert!(!str_lt("b", "ab"));
    assert!(str_lt("a", "ab"));
    assert!(!str_lt("a", "a"));
}

// ---- import and export text ----

#[test]
fn import_declarations() {
    assert_eq!(create_import_declaration(strs(&["a", "b as c"]), &vec![], &s("./x.js")), "import { a, b as c } from \"./x.js\";\n");
    assert_eq!(create_import_declaration(strs(&["a"]), &strs(&["d"]), &s("./x.js")), "import d, { a } from \"./x.js\";\n");
    assert_eq!(
        create_import_declaration(vec![], &strs(&["d", "e"]), &s("./x.js")),
        "import d, { default as e } from \"./x.js\";\n"
    );
    assert_eq!(create_import_declaration(vec![], &strs(&["d"]), &s("./x.js")), "import d from \"./x.js\";\n");
    assert_eq!(create_import_declaration(vec![], &vec![], &s("./x.js")), "import \"./x.js\";\n");
}

#[test]
fn identifier_names_and_quoting() {
    assert!(is_valid_identifier_name("$a1"));
    assert!(is_valid_identifier_name("_"));
    assert!(!is_valid_identifier_name("1a"));
    assert!(!is_valid_identifier_name(""));
    assert!(!is_valid_identifier_name("a-b"));
    assert_eq!(to_module_import_export_name(&s("foo")), "foo");
    assert_eq!(to_module_import_export_name(&s("a-b")), "\"a-b\"");
    assert_eq!(to_module_import_export_name(&s("a\"b\\")), "\"a\\\"b\\\\\"");
}

#[test]
fn imports_from_a_chunk_are_sorted() {
    let imports = ImportsFromChunk {
        path: s("./c.js"),
        items: vec![
            ChunkImportItem { export_alias: s("z"), local_name: s("z") },
            ChunkImportItem { export_alias: s("default"), local_name: s("d") },
            ChunkImportItem { export_alias: s("a"), local_name: s("b") },
        ],
        require_binding: s("c"),
    };
    assert_eq!(render_import_from_chunk(&imports), "import d, { a as b, z } from \"./c.js\";\n");
}

#[test]
fn imports_from_an_external_module() {
    let ext = ImportsFromExternal {
        name: s("ext"),
        has_side_effects: true,
        items: vec![
            ExternalImportItem { used: true, local_name: s("y"), imported: Specifier::Literal(s("y")) },
            ExternalImportItem { used: true, local_name: s("x"), imported: Specifier::Literal(s("x")) },
            ExternalImportItem { used: false, local_name: s("w"), imported: Specifier::Literal(s("w")) },
        ],
        namespace_used: false,
        namespace_name: s("ns"),
    };
    assert_eq!(render_import_from_external(&ext), "import { x, y } from \"ext\";\n");
    let bare = ImportsFromExternal { items: vec![], ..ext.clone() };
    assert_eq!(render_import_from_external(&bare), "import \"ext\";\n");
    let quiet = ImportsFromExternal { has_side_effects: false, items: vec![], ..ext };
    assert_eq!(render_import_from_external(&quiet), "");
}

#[test]
fn commonjs_imports() {
    let chunk = ImportsFromChunk {
        path: s("./c.js"),
        items: vec![ChunkImportItem { export_alias: s("a"), local_name: s("a") }],
        require_binding: s("req"),
    };
    let plain = ImportsFromChunk { items: vec![], ..chunk.clone() };
    let ext = ImportsFromExternal {
        name: s("ext"),
        has_side_effects: true,
        items: vec![],
        namespace_used: true,
        namespace_name: s("ns"),
    };
    let side = ImportsFromExternal { namespace_used: false, ..ext.clone() };
    let text = render_cjs_chunk_imports(&vec![chunk, plain], &vec![ext, side], &s("__toESM"));
    assert_eq!(
        text,
        "const req = require('./c.js');\nrequire('./c.js');\nconst ns = __toESM(require(\"ext\"));\nrequire(\"ext\");\n"
    );
}

#[test]
fn sources_are_joined_by_lines() {
    let mut joiner = SourceJoiner::new();
    joiner.append_source(s("a"));
    joiner.append_source(s("b"));
    assert_eq!(joiner.join(), "a\nb");
}

// ---- chunk generation ----

fn context(format: OutputFormat) -> GenerateContext {
    GenerateContext {
        format,
        chunk_modules: vec![0, 1],
        module_is_normal: vec![true, true],
        module_id_to_codegen_ret: vec![Some(s("rt();")), Some(s("a();"))],
        runtime: 0,
        has_renderable_modules: true,
        imports_from_chunks: vec![],
        imports_from_externals: vec![],
        to_esm_fn_name: s("__toESM"),
        external_star_exports: vec![],
        exports: Some(s("module.exports = x;")),
        preliminary_filename: Some(s("a.js")),
        warnings: vec![s("careful")],
    }
}

#[test]
fn commonjs_chunks_put_the_runtime_first() {
    let mut ctx = context(OutputFormat::Cjs);
    let out = EcmaGenerator::instantiate_chunk(&mut ctx).expect("always renders");
    assert_eq!(out.chunks.len(), 1);
    assert_eq!(out.chunks[0].preliminary_filename, "a.js");
    assert_eq!(out.chunks[0].content, "\"use strict\";\nrt();\n\na();\nmodule.exports = x;");
    assert_eq!(out.warnings, vec![s("careful")]);
}

#[test]
fn esm_chunks_write_imports_stars_code_and_exports() {
    let mut ctx = context(OutputFormat::Esm);
    ctx.chunk_modules = vec![1];
    ctx.module_is_normal = vec![false, true];
    ctx.module_id_to_codegen_ret = vec![Some(s("a();"))];
    ctx.imports_from_chunks = vec![ImportsFromChunk {
        path: s("./c.js"),
        items: vec![ChunkImportItem { export_alias: s("x"), local_name: s("x") }],
        require_binding: s("r"),
    }];
    ctx.external_star_exports = strs(&["ext", "ext"]);
    ctx.exports = Some(s("export { a };"));
    let out = EcmaGenerator::instantiate_chunk(&mut ctx).expect("always renders");
    assert_eq!(out.chunks[0].content, "import { x } from \"./c.js\";\n\nexport * from \"ext\"\n\na();\nexport { a };");
}

// ---- binding ----

fn import_record(to: usize) -> ImportRecord {
    ImportRecord {
        kind: ImportKind::Import,
        resolved_module: to,
        is_dummy: false,
        is_export_star: false,
        is_plain_import: false,
        namespace_ref: sym(0, 0),
    }
}

#[test]
fn imports_bind_to_exports_and_missing_ones_are_reported() {
    let mut exporter = module(1, vec![]);
    exporter.named_exports = vec![LocalExport { name: s("x"), referenced: sym(1, 1) }];
    let mut importer = module(2, vec![import_record(1)]);
    importer.named_imports = vec![
        NamedImport { imported: Specifier::Literal(s("x")), imported_as: sym(2, 1), record_id: 0 },
        NamedImport { imported: Specifier::Literal(s("y")), imported_as: sym(2, 2), record_id: 0 },
    ];
    let modules = vec![module(0, vec![]), exporter, importer];
    let mut db = db_for(&[1, 2, 3]);
    let mut deps = vec![vec![], vec![], vec![]];
    let out = bind_imports_and_exports(&modules, true, &mut db, &mut deps);
    assert_eq!(db.symbols[2][1].canonical, sym(1, 1));
    assert_eq!(out.resolved_exports[1].len(), 1);
    assert_eq!(out.sorted_resolved_exports[1], strs(&["x"]));
    assert_eq!(out.errors, vec![s("\"y\" is not exported by \"m1.js\", imported by \"m2.js\".")]);
}

#[test]
fn export_star_brings_names_along() {
    let mut base = module(2, vec![]);
    base.named_exports = vec![LocalExport { name: s("b"), referenced: sym(2, 1) }];
    let mut middle = module(1, vec![ImportRecord { is_export_star: true, ..import_record(2) }]);
    middle.named_exports = vec![LocalExport { name: s("a"), referenced: sym(1, 1) }];
    let modules = vec![module(0, vec![]), middle, base];
    let mut db = db_for(&[1, 2, 2]);
    let mut deps = vec![vec![], vec![], vec![]];
    let out = bind_imports_and_exports(&modules, true, &mut db, &mut deps);
    assert_eq!(out.sorted_resolved_exports[1], strs(&["a", "b"]));
    assert!(out.errors.is_empty());
}

// ---- member expressions ----

#[test]
fn member_expressions_resolve_through_namespaces() {
    let mut exporter = module(1, vec![]);
    exporter.named_exports = vec![LocalExport { name: s("x"), referenced: sym(1, 1) }];
    let mut user = module(0, vec![]);
    user.stmt_infos[0].referenced_symbols = vec![SymbolOrMemberExprRef::MemberExpr(0), SymbolOrMemberExprRef::MemberExpr(1)];
    let modules = vec![user, exporter];
    let mut db = db_for(&[2, 2]);
    // the local `ns` of module 0 stands for module 1's namespace
    db.symbols[0][1].canonical = sym(1, 0);
    let exprs = vec![
        vec![
            MemberExprRef { object_ref: sym(0, 1), props: strs(&["x"]) },
            MemberExprRef { object_ref: sym(0, 1), props: strs(&["y", "z"]) },
        ],
        vec![],
    ];
    let resolved = vec![vec![], vec![minipack::bind::ResolvedExportEntry { name: s("x"), symbol: sym(1, 1), potentially_ambiguous: vec![] }]];
    let sorted = vec![vec![], strs(&["x"])];
    let mut metas = vec![meta(), meta()];
    let (maps, warnings) =
        resolve_member_expr_refs(&modules, &exprs, &db, &resolved, &sorted, &vec![], &vec![false, false], &mut metas);
    let first = maps[0][0].as_ref().expect("resolved");
    assert_eq!(first.symbol, Some(sym(1, 1)));
    assert!(first.props.is_empty());
    let second = maps[0][1].as_ref().expect("resolved");
    assert_eq!(second.symbol, None);
    assert_eq!(second.props, strs(&["y", "z"]));
    assert_eq!(metas[0].resolved_member_expr_refs, vec![Some(sym(1, 1)), None]);
    assert_eq!(
        warnings,
        vec![s("Import `y` will always be undefined because there is no matching export in 'm1.js'")]
    );
}

#[test]
fn sorting_type_of_outputs() {
    assert_eq!(get_sorting_file_type(true, true), SortingFileType::Asset);
    assert_eq!(get_sorting_file_type(false, true), SortingFileType::EntryChunk);
    assert_eq!(get_sorting_file_type(false, false), SortingFileType::SecondaryChunk);
}

#[test]
fn outputs_list_entries_then_chunks_then_assets() {
    let outputs = vec![
        OutputFile { kind: SortingFileType::Asset, filename: s("a.css") },
        OutputFile { kind: SortingFileType::SecondaryChunk, filename: s("shared.js") },
        OutputFile { kind: SortingFileType::EntryChunk, filename: s("main.js") },
        OutputFile { kind: SortingFileType::SecondaryChunk, filename: s("lazy.js") },
        OutputFile { kind: SortingFileType::EntryChunk, filename: s("admin.js") },
    ];
    assert_eq!(sort_outputs(&outputs), vec![4, 2, 3, 1, 0]);
    assert_eq!(sort_outputs(&vec![]), Vec::<usize>::new());
}

#[test]
fn assets_sorted_by_preliminary_name_stably() {
    let names = strs(&["b.js", "a.js", "b.js", "a.css"]);
    assert_eq!(sort_assets_by_preliminary_filename(&names), vec![3, 1, 0, 2]);
}

#[test]
fn runtime_code_comes_before_cjs_imports() {
    let sources = vec![
        RenderedModuleSource { module_idx: 0, sources: Some(s("runtime();")) },
        RenderedModuleSource { module_idx: 1, sources: None },
        RenderedModuleSource { module_idx: 2, sources: Some(s("two();")) },
    ];
    let mut joiner = SourceJoiner::new();
    render_modules_with_peek_runtime_module_at_first(&mut joiner, 0, &sources, s("require('a');"));
    assert_eq!(joiner.join(), "runtime();\nrequire('a');\ntwo();");
    let mut joiner = SourceJoiner::new();
    render_modules_with_peek_runtime_module_at_first(&mut joiner, 5, &sources, s("require('a');"));
    assert_eq!(joiner.join(), "require('a');\nruntime();\ntwo();");
}

#[test]
fn renderable_modules_are_bundled_included_and_non_empty() {
    let chunk = vec![3, 0, 2, 1];
    let normal = vec![true, false, true, true];
    let included = vec![true, true, false, true];
    let empty = vec![false, false, false, true];
    assert_eq!(renderable_ecma_modules(&chunk, &normal, &included, &empty), vec![0]);
    let empty = vec![false, false, false, false];
    assert_eq!(renderable_ecma_modules(&chunk, &normal, &included, &empty), vec![3, 0]);
}

fn target(is_external: bool, name: &str, ns: &str) -> StarExportTarget {
    StarExportTarget { is_external, name: s(name), id: s(name), namespace_name: s(ns) }
}

#[test]
fn namespace_object_declares_exports_and_re_exports_esm() {
    let exports = vec![(s("foo"), sym(1, 2)), (s("not-ident"), sym(1, 3))];
    let targets = vec![target(true, "react", "react_ns"), target(false, "./local.js", "local_ns")];
    let r = generate_declaration_of_module_namespace_object(OutputFormat::Esm, &s("mod_exports"), &exports, &targets);
    assert_eq!(r.len(), 4);
    assert!(matches!(&r[0], NamespaceStmt::Declare(b) if b == "mod_exports"));
    match &r[1] {
        NamespaceStmt::Export(props) => {
            assert_eq!(props.len(), 2);
            assert_eq!(props[0].name, "foo");
            assert!(props[0].is_identifier);
            assert_eq!(props[0].symbol, sym(1, 2));
            assert!(!props[1].is_identifier);
        }
        _ => panic!("expected the __export call"),
    }
    assert!(matches!(&r[2], NamespaceStmt::ImportStar { module, ns } if module == "react" && ns == "react_ns"));
    assert!(matches!(&r[3], NamespaceStmt::ReExport(ns) if ns == "react_ns"));
}

#[test]
fn namespace_object_without_exports_in_cjs() {
    let targets = vec![target(true, "react", "react_ns"), target(false, "./local.js", "local_ns")];
    let r = generate_declaration_of_module_namespace_object(OutputFormat::Cjs, &s("mod_exports"), &vec![], &targets);
    assert_eq!(r.len(), 3);
    assert!(matches!(&r[0], NamespaceStmt::Declare(b) if b == "mod_exports"));
    assert!(matches!(&r[1], NamespaceStmt::ReExportRequire(m) if m == "react"));
    assert!(matches!(&r[2], NamespaceStmt::ReExportRequire(m) if m == "./local.js"));
}

#[test]
fn import_meta_reads_get_node_commonjs_equivalents() {
    let r = |p: Platform, f: OutputFormat, prop: &str| try_rewrite_import_meta_prop_expr(p, f, prop);
    assert_eq!(r(Platform::Node, OutputFormat::Cjs, "url"), Some(ImportMetaRewrite::FileUrl));
    assert_eq!(r(Platform::Node, OutputFormat::Cjs, "dirname"), Some(ImportMetaRewrite::Dirname));
    assert_eq!(r(Platform::Node, OutputFormat::Cjs, "filename"), Some(ImportMetaRewrite::Filename));
    assert_eq!(r(Platform::Node, OutputFormat::Cjs, "env"), None);
    assert_eq!(r(Platform::Node, OutputFormat::Esm, "url"), None);
    assert_eq!(r(Platform::Browser, OutputFormat::Cjs, "dirname"), None);
}

#[test]
fn top_level_statements_are_dropped_unwrapped_or_named() {
    let body = vec![
        TopStmtShape::Import,
        TopStmtShape::ExportDefaultExpression,
        TopStmtShape::ExportDefaultFunction { has_name: false },
        TopStmtShape::ExportNamed { has_source: false, has_declaration: true },
        TopStmtShape::ExportNamed { has_source: false, has_declaration: false },
        TopStmtShape::Other,
        TopStmtShape::ExportDefaultClass { has_name: true },
    ];
    let included = vec![true, true, true, true, true, true, false, true];
    assert_eq!(
        remove_unused_top_level_stmt(&body, &included),
        vec![
            TopStmtAction::Remove,
            TopStmtAction::DefaultToVar,
            TopStmtAction::DefaultFunction { name_it: true },
            TopStmtAction::Unwrap,
            TopStmtAction::Remove,
            TopStmtAction::Remove,
            TopStmtAction::DefaultClass { name_it: false },
        ]
    );
    assert_eq!(remove_unused_top_level_stmt(&body, &vec![true, true]), vec![TopStmtAction::Remove]);
    assert!(remove_unused_top_level_stmt(&body, &vec![]).is_empty());
}

#[test]
fn default_aliases_of_bundled_modules_are_collected() {
    let mut db = db_for(&[1, 4, 1]);
    db.symbols[1][1].namespace_alias = Some(NamespaceAlias { property_name: s("default"), namespace_ref: sym(1, 0) });
    db.symbols[1][2].namespace_alias = Some(NamespaceAlias { property_name: s("other"), namespace_ref: sym(1, 0) });
    db.symbols[1][3].namespace_alias = Some(NamespaceAlias { property_name: s("default"), namespace_ref: sym(1, 0) });
    let records = vec![import_record(0), import_record(2)];
    let imports = vec![
        NamedImport { imported: Specifier::Literal(s("default")), imported_as: sym(1, 1), record_id: 0 },
        NamedImport { imported: Specifier::Literal(s("x")), imported_as: sym(1, 2), record_id: 0 },
        NamedImport { imported: Specifier::Literal(s("default")), imported_as: sym(1, 3), record_id: 1 },
    ];
    assert_eq!(namespace_alias_default_symbols(&imports, &records, &vec![false, false, true], &db), vec![1]);
}

#[test]
fn export_star_skips_default_shadowed_and_cyclic_names() {
    let star = |to: usize| ImportRecord { is_export_star: true, ..import_record(to) };
    // 0: export { c }; export * from 1; export * from 2
    let mut top = module(0, vec![star(1), star(2)]);
    top.named_exports = vec![LocalExport { name: s("c"), referenced: sym(0, 1) }];
    // 1: export { a, c }; export * from 0 (a cycle back to the top)
    let mut one = module(1, vec![star(0)]);
    one.named_exports = vec![
        LocalExport { name: s("a"), referenced: sym(1, 1) },
        LocalExport { name: s("c"), referenced: sym(1, 2) },
    ];
    // 2: export { a, default, d }
    let mut two = module(2, vec![]);
    two.named_exports = vec![
        LocalExport { name: s("a"), referenced: sym(2, 1) },
        LocalExport { name: s("default"), referenced: sym(2, 2) },
        LocalExport { name: s("d"), referenced: sym(2, 3) },
    ];
    let modules = vec![top, one, two];
    let mut db = db_for(&[2, 3, 4]);
    let mut deps = vec![vec![], vec![], vec![]];
    let out = bind_imports_and_exports(&modules, true, &mut db, &mut deps);
    let view: Vec<(String, SymbolRef)> = out.resolved_exports[0].iter().map(|e| (e.name.clone(), e.symbol)).collect();
    assert_eq!(view, vec![(s("c"), sym(0, 1)), (s("a"), sym(1, 1)), (s("d"), sym(2, 3))]);
    // `a` comes from two `export *` paths that stand for different symbols
    assert_eq!(out.resolved_exports[0][1].potentially_ambiguous, vec![sym(2, 1)]);
    assert_eq!(out.sorted_resolved_exports[0], strs(&["c", "d"]));
    let view1: Vec<String> = out.resolved_exports[1].iter().map(|e| e.name.clone()).collect();
    assert_eq!(view1, strs(&["a", "c", "d"]));
}

#[test]
fn export_star_paths_to_one_symbol_are_not_ambiguous() {
    let star = |to: usize| ImportRecord { is_export_star: true, ..import_record(to) };
    // 0: export * from 1; export * from 2
    let top = module(0, vec![star(1), star(2)]);
    // 1 and 2: import { x } from 3; export { x as a }
    let mut one = module(1, vec![import_record(3)]);
    one.named_imports = vec![NamedImport { imported: Specifier::Literal(s("x")), imported_as: sym(1, 1), record_id: 0 }];
    one.named_exports = vec![LocalExport { name: s("a"), referenced: sym(1, 1) }];
    let mut two = module(2, vec![import_record(3)]);
    two.named_imports = vec![NamedImport { imported: Specifier::Literal(s("x")), imported_as: sym(2, 1), record_id: 0 }];
    two.named_exports = vec![LocalExport { name: s("a"), referenced: sym(2, 1) }];
    let mut three = module(3, vec![]);
    three.named_exports = vec![LocalExport { name: s("x"), referenced: sym(3, 1) }];
    let modules = vec![top, one, two, three];
    let mut db = db_for(&[1, 2, 2, 2]);
    let mut deps = vec![vec![], vec![], vec![], vec![]];
    let out = bind_imports_and_exports(&modules, true, &mut db, &mut deps);
    assert_eq!(out.resolved_exports[0][0].potentially_ambiguous, vec![sym(2, 1)]);
    assert_eq!(db.symbols[1][1].canonical, sym(3, 1));
    assert_eq!(db.symbols[2][1].canonical, sym(3, 1));
    assert_eq!(out.sorted_resolved_exports[0], strs(&["a"]));
}

fn external(idx: usize) -> Module {
    Module { is_external: true, ..module(idx, vec![]) }
}

#[test]
fn imports_of_one_external_name_share_a_facade_symbol() {
    // 0 and 1: import { a } from 2 (external)
    let mut main = module(0, vec![import_record(2)]);
    main.named_imports = vec![NamedImport { imported: Specifier::Literal(s("a")), imported_as: sym(0, 1), record_id: 0 }];
    let mut foo = module(1, vec![import_record(2)]);
    foo.named_imports = vec![NamedImport { imported: Specifier::Literal(s("a")), imported_as: sym(1, 1), record_id: 0 }];
    foo.named_exports = vec![LocalExport { name: s("a"), referenced: sym(1, 1) }];
    let modules = vec![main, foo, external(2)];
    let mut db = db_for(&[2, 2, 1]);
    let mut deps = vec![vec![], vec![], vec![]];
    let out = bind_imports_and_exports(&modules, true, &mut db, &mut deps);
    assert_eq!(out.external_imports.len(), 1);
    assert_eq!(db.symbols[2].len(), 2);
    assert_eq!(db.symbols[2][1].name, "a");
    assert_eq!(db.symbols[2][1].canonical, sym(2, 1));
    assert_eq!(db.symbols[0][1].canonical, sym(2, 1));
    assert_eq!(db.symbols[1][1].canonical, sym(2, 1));
}

#[test]
fn default_and_odd_external_names_get_usable_facades() {
    // 0: import foo from 2; import { "a-b" as c } from 2.  1: import bar from 2
    let mut first = module(0, vec![import_record(2)]);
    first.named_imports = vec![
        NamedImport { imported: Specifier::Literal(s("default")), imported_as: sym(0, 1), record_id: 0 },
        NamedImport { imported: Specifier::Literal(s("a-b")), imported_as: sym(0, 2), record_id: 0 },
    ];
    let mut second = module(1, vec![import_record(2)]);
    second.named_imports = vec![NamedImport { imported: Specifier::Literal(s("default")), imported_as: sym(1, 1), record_id: 0 }];
    let modules = vec![first, second, external(2)];
    let mut db = db_for(&[3, 2, 1]);
    db.symbols[0][1].name = s("foo");
    db.symbols[1][1].name = s("bar");
    let mut deps = vec![vec![], vec![], vec![]];
    let _ = bind_imports_and_exports(&modules, true, &mut db, &mut deps);
    // groups in order of first import: default, then "a-b"
    assert_eq!(db.symbols[2].len(), 3);
    assert_eq!(db.symbols[2][1].name, "foo");
    assert_eq!(db.symbols[2][2].name, "a_b");
    assert_eq!(db.symbols[0][1].canonical, sym(2, 1));
    assert_eq!(db.symbols[1][1].canonical, sym(2, 1));
    assert_eq!(db.symbols[0][2].canonical, sym(2, 2));
}

#[test]
fn commonjs_output_links_no_external_facades() {
    let mut main = module(0, vec![import_record(1)]);
    main.named_imports = vec![NamedImport { imported: Specifier::Literal(s("a")), imported_as: sym(0, 1), record_id: 0 }];
    let modules = vec![main, external(1)];
    let mut db = db_for(&[2, 1]);
    let mut deps = vec![vec![], vec![]];
    let out = bind_imports_and_exports(&modules, false, &mut db, &mut deps);
    assert!(out.external_imports.is_empty());
    assert_eq!(db.symbols[1].len(), 1);
}

#[test]
fn missing_members_of_dynamic_namespaces_are_left_alone() {
    let mut exporter = module(1, vec![]);
    exporter.named_exports = vec![LocalExport { name: s("x"), referenced: sym(1, 1) }];
    let mut user = module(0, vec![]);
    user.stmt_infos[0].referenced_symbols = vec![SymbolOrMemberExprRef::MemberExpr(0)];
    let modules = vec![user, exporter];
    let mut db = db_for(&[2, 2]);
    db.symbols[0][1].canonical = sym(1, 0);
    let exprs = vec![vec![MemberExprRef { object_ref: sym(0, 1), props: strs(&["y", "z"]) }], vec![]];
    let resolved = vec![vec![], vec![minipack::bind::ResolvedExportEntry { name: s("x"), symbol: sym(1, 1), potentially_ambiguous: vec![] }]];
    let sorted = vec![vec![], strs(&["x"])];
    let mut metas = vec![meta(), meta()];
    metas[1].has_dynamic_exports = true;
    let (maps, warnings) =
        resolve_member_expr_refs(&modules, &exprs, &db, &resolved, &sorted, &vec![], &vec![false, false], &mut metas);
    assert!(maps[0][0].is_none());
    assert!(warnings.is_empty());
}
