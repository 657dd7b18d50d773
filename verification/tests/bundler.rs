use minipack::entries::{check_user_entries, external_entry_error, ResolvedEntry};
use minipack::code_splitting::{generate_chunks, ChunkKind};
use minipack::sort_modules::sort_modules;
use minipack::tree_shaking::include_statements;
use minipack::types::{
    DeterminedSideEffects, EntryPoint, ExportsKind, WrapKind, EntryPointKind, ImportKind, ImportRecord, LinkingMetadata, Module,
    ModuleType, StmtInfo, SymbolInfo, SymbolOrMemberExprRef, SymbolRef, SymbolRefDb,
};

fn sym(owner: usize, symbol: usize) -> SymbolRef {
    SymbolRef { owner, symbol }
}

fn record(to: usize, kind: ImportKind) -> ImportRecord {
    ImportRecord {
        kind,
        resolved_module: to,
        is_dummy: false,
        is_export_star: false,
        is_plain_import: false,
        namespace_ref: sym(0, 0),
    }
}

fn stmt(declared: Vec<SymbolRef>, referenced: Vec<SymbolRef>, side_effect: bool) -> StmtInfo {
    StmtInfo {
        declared_symbols: declared,
        referenced_symbols: referenced.into_iter().map(SymbolOrMemberExprRef::Symbol).collect(),
        side_effect,
        import_records: vec![],
    }
}

fn module(idx: usize, records: Vec<ImportRecord>, stmts: Vec<StmtInfo>, side_effects: bool) -> Module {
    Module {
        idx,
        is_external: false,
        is_user_defined_entry: false,
        import_records: records,
        side_effects: DeterminedSideEffects::Analyzed(side_effects),
        module_type: ModuleType::Js,
        has_eval: false,
        stmt_infos: stmts,
        named_imports: vec![],
        named_exports: vec![],
        namespace_object_ref: sym(idx, 0),
        stable_id: format!("m{}.js", idx),
        exports_kind: ExportsKind::Esm,
        has_lazy_export: false,
        repr_name: format!("m{}", idx),
    }
}

fn meta(deps: Vec<usize>, entry_refs: Vec<SymbolRef>) -> LinkingMetadata {
    LinkingMetadata {
        dependencies: deps,
        referenced_symbols_by_entry_point_chunk: entry_refs,
        resolved_member_expr_refs: vec![],
        has_dynamic_exports: false,
        wrap_kind: WrapKind::Unwrapped,
        wrapper_ref: None,
        wrapper_stmt_info: None,
        shimmed_missing_exports: vec![],
        star_exports_from_external_modules: vec![],
    }
}

fn db_for(counts: &[usize]) -> SymbolRefDb {
    SymbolRefDb {
        symbols: counts
            .iter()
            .enumerate()
            .map(|(owner, n)| {
                (0..*n)
                    .map(|i| SymbolInfo { name: format!("s{}_{}", owner, i), canonical: sym(owner, i), namespace_alias: None })
                    .collect()
            })
            .collect(),
    }
}

#[test]
fn test_rust_syntax_errors() {}

#[test]
fn sort_modules_runs_dependencies_first() {
    // 0: runtime, 1: entry importing 2, 2 importing 3
    let modules = vec![
        module(0, vec![], vec![], false),
        module(1, vec![record(2, ImportKind::Import)], vec![], true),
        module(2, vec![record(3, ImportKind::Import)], vec![], true),
        module(3, vec![], vec![], true),
    ];
    let sorted = sort_modules(&modules, &vec![1], 0);
    assert_eq!(sorted.sorted_modules, vec![0, 3, 2, 1]);
    assert_eq!(sorted.exec_orders, vec![0, 3, 2, 1]);
    assert!(sorted.cycles.is_empty());
}

#[test]
fn sort_modules_reports_a_cycle() {
    let modules = vec![
        module(0, vec![], vec![], false),
        module(1, vec![record(2, ImportKind::Import)], vec![], true),
        module(2, vec![record(1, ImportKind::Import)], vec![], true),
    ];
    let sorted = sort_modules(&modules, &vec![1], 0);
    assert_eq!(sorted.cycles.len(), 1);
    assert_eq!(sorted.cycles[0], vec![1, 2, 1]);
    assert_eq!(sorted.sorted_modules.len(), 3);
}

#[test]
fn tree_shaking_drops_unused_statements() {
    // module 1 (entry) refers to symbol (2,1); module 2 declares (2,1) and (2,2).
    let modules = vec![
        module(0, vec![], vec![stmt(vec![], vec![], false)], false),
        module(
            1,
            vec![record(2, ImportKind::Import)],
            vec![stmt(vec![], vec![], false), stmt(vec![], vec![sym(2, 1)], true)],
            true,
        ),
        module(
            2,
            vec![],
            vec![stmt(vec![], vec![], false), stmt(vec![sym(2, 1)], vec![], false), stmt(vec![sym(2, 2)], vec![], false)],
            false,
        ),
    ];
    let metas = vec![meta(vec![], vec![]), meta(vec![2], vec![]), meta(vec![], vec![])];
    let db = db_for(&[1, 1, 3]);
    let r = include_statements(&modules, &metas, &db, &vec![1], 0);
    assert_eq!(r.module_included, vec![false, true, true]);
    assert_eq!(r.stmt_included[1], vec![false, true]);
    assert_eq!(r.stmt_included[2], vec![false, true, false]);
    assert_eq!(r.used_symbol_refs, vec![sym(2, 1)]);
}

#[test]
fn code_splitting_makes_a_common_chunk() {
    // entries 1 and 2 both import 3
    let mut modules = vec![
        module(0, vec![], vec![], false),
        module(1, vec![], vec![], true),
        module(2, vec![], vec![], true),
        module(3, vec![], vec![], true),
    ];
    modules[1].is_user_defined_entry = true;
    modules[2].is_user_defined_entry = true;
    let metas = vec![meta(vec![], vec![]), meta(vec![3], vec![]), meta(vec![3], vec![]), meta(vec![], vec![])];
    let entries = vec![
        EntryPoint { name: Some("a".to_string()), id: 1, kind: EntryPointKind::UserDefined },
        EntryPoint { name: Some("b".to_string()), id: 2, kind: EntryPointKind::UserDefined },
    ];
    let included = vec![false, true, true, true];
    let exec_orders = vec![0, 2, 3, 1];
    let g = generate_chunks(&modules, &metas, &included, &exec_orders, &entries);
    assert_eq!(g.chunk_table.len(), 3);
    assert_eq!(g.chunk_table[0].modules, vec![1]);
    assert_eq!(g.chunk_table[1].modules, vec![2]);
    assert_eq!(g.chunk_table[2].modules, vec![3]);
    assert_eq!(g.chunk_table[2].kind, ChunkKind::Common);
    assert_eq!(g.chunk_table[2].bits, vec![true, true]);
    assert_eq!(g.module_to_chunk, vec![None, Some(0), Some(1), Some(2)]);
    // common chunk's first module runs first
    assert_eq!(g.chunk_table[2].exec_order, 0);
    assert_eq!(g.chunk_table[0].exec_order, 1);
    assert_eq!(g.chunk_table[1].exec_order, 2);
    assert_eq!(g.sorted_chunk_idx_vec, vec![0, 1, 2]);
    assert_eq!(g.entry_module_to_entry_chunk, vec![None, Some(0), Some(1), None]);
}

#[test]
fn entries_must_resolve_and_not_be_external() {
    let ok = |name: Option<&str>, id: &str| -> Result<ResolvedEntry, String> {
        Ok(ResolvedEntry { name: name.map(|n| n.to_string()), id: id.to_string(), is_external: false })
    };
    let entries = check_user_entries(&vec![ok(Some("main"), "/src/main.js"), ok(None, "/src/admin.js")]).unwrap();
    assert_eq!(entries.len(), 2);
    assert_eq!(entries[0].name.as_deref(), Some("main"));
    assert_eq!(entries[1].id, "/src/admin.js");

    let external = Ok(ResolvedEntry { name: None, id: "react".to_string(), is_external: true });
    let err = check_user_entries(&vec![ok(None, "/src/main.js"), external, Err("ResolveError: NotFound".to_string())])
        .unwrap_err();
    assert_eq!(err, "Failed to resolve \"react\" - entry can't be external");

    let err = check_user_entries(&vec![Err("ResolveError: NotFound".to_string()), ok(None, "/src/main.js")]).unwrap_err();
    assert_eq!(err, "ResolveError: NotFound");
    assert!(check_user_entries(&vec![]).unwrap().is_empty());
}

#[test]
fn external_entry_error_quotes_the_id() {
    assert_eq!(external_entry_error("\"a\\\"b\""), "Failed to resolve \"a\\\"b\" - entry can't be external");
}

#[test]
fn included_modules_keep_dependencies_with_side_effects() {
    // 1 is the entry; it depends on 2 (with side effects) and 3 (without); nothing refers to either.
    let modules = vec![
        module(0, vec![], vec![stmt(vec![], vec![], false)], false),
        module(1, vec![], vec![stmt(vec![], vec![], false)], false),
        module(2, vec![], vec![stmt(vec![], vec![], false), stmt(vec![], vec![], true)], true),
        module(3, vec![], vec![stmt(vec![], vec![], false), stmt(vec![sym(3, 1)], vec![], false)], false),
    ];
    let metas = vec![meta(vec![], vec![]), meta(vec![2, 3], vec![]), meta(vec![], vec![]), meta(vec![], vec![])];
    let db = db_for(&[1, 1, 1, 2]);
    let r = include_statements(&modules, &metas, &db, &vec![1], 0);
    assert_eq!(r.module_included, vec![false, true, true, false]);
    assert_eq!(r.stmt_included[2], vec![false, true]);
    assert_eq!(r.stmt_included[3], vec![false, false]);
}

#[test]
fn sort_modules_runs_the_runtime_module_first() {
    // 0: entry importing 1, 1: leaf, 2: runtime
    let modules = vec![
        module(0, vec![record(1, ImportKind::Import)], vec![], true),
        module(1, vec![], vec![], true),
        module(2, vec![], vec![], false),
    ];
    let sorted = sort_modules(&modules, &vec![0], 2);
    assert_eq!(sorted.sorted_modules, vec![2, 1, 0]);
    assert_eq!(sorted.exec_orders, vec![2, 1, 0]);
}
