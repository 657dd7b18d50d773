use minipack::code_splitting::{Chunk, ChunkGraph, ChunkKind};
use minipack::css::create_css_view;
use minipack::dependencies::{init_linking_metadata, patch_module_dependencies};
use minipack::export_info::process_entry_point_module_exports;
use minipack::exports_kind::determine_module_exports_kind;
use minipack::loader::{
    check_build_input, check_input, external_module_side_effects, runtime_source_parts, RuntimePart, load_error_message, module_side_effects, module_type_from_extension, reads_source_as_bytes,
    source_module_type, split_imported_ids, HookSideEffects, ModuleLoaderState, SpawnDecision,
};
use minipack::module_exports::{canonical_export_symbols, create_exports_for_ecma_modules, RuntimeModuleBrief};
use minipack::needed_symbols::reference_needed_symbols;
use minipack::naming::{generate_chunk_names, pre_generated_chunk_name, UniqueNames};
use minipack::bind::ResolvedExportEntry;
use minipack::render::OutputFormat;
use minipack::side_effects::determine_side_effects;
use minipack::types::{
    DeterminedSideEffects, EntryPoint, EntryPointKind, ExportsKind, ImportKind, ImportRecord, LinkingMetadata, Module,
    ModuleType, NamespaceAlias, StmtInfo, SymbolInfo, SymbolOrMemberExprRef, SymbolRef, SymbolRefDb, WrapKind,
};
use minipack::wrap::wrap_modules;

fn sym(owner: usize, symbol: usize) -> SymbolRef {
    SymbolRef { owner, symbol }
}

fn rec(to: usize, kind: ImportKind) -> ImportRecord {
    ImportRecord {
        kind,
        resolved_module: to,
        is_dummy: false,
        is_export_star: false,
        is_plain_import: false,
        namespace_ref: sym(0, 0),
    }
}

fn star(to: usize) -> ImportRecord {
    ImportRecord { is_export_star: true, ..rec(to, ImportKind::Import) }
}

fn stmt(referenced: Vec<SymbolRef>, side_effect: bool) -> StmtInfo {
    StmtInfo {
        declared_symbols: vec![],
        referenced_symbols: referenced.into_iter().map(SymbolOrMemberExprRef::Symbol).collect(),
        side_effect,
        import_records: vec![],
    }
}

fn module(idx: usize, records: Vec<ImportRecord>, side_effects: DeterminedSideEffects) -> Module {
    Module {
        idx,
        is_external: false,
        is_user_defined_entry: false,
        import_records: records,
        side_effects,
        module_type: ModuleType::Js,
        has_eval: false,
        stmt_infos: vec![stmt(vec![], false)],
        named_imports: vec![],
        named_exports: vec![],
        namespace_object_ref: sym(idx, 0),
        stable_id: format!("m{}.js", idx),
        exports_kind: ExportsKind::Unknown,
        has_lazy_export: false,
        repr_name: format!("m{}", idx),
    }
}

fn pure(idx: usize, records: Vec<ImportRecord>) -> Module {
    module(idx, records, DeterminedSideEffects::Analyzed(false))
}

fn meta() -> LinkingMetadata {
    LinkingMetadata {
        dependencies: vec![],
        referenced_symbols_by_entry_point_chunk: vec![],
        resolved_member_expr_refs: vec![],
        has_dynamic_exports: false,
        wrap_kind: WrapKind::Unwrapped,
        wrapper_ref: None,
        wrapper_stmt_info: None,
        shimmed_missing_exports: vec![],
        star_exports_from_external_modules: vec![],
    }
}

fn db_for(counts: &[usize]) -> SymbolRefDb {
    SymbolRefDb {
        symbols: counts
            .iter()
            .enumerate()
            .map(|(owner, n)| {
                (0..*n)
                    .map(|i| SymbolInfo { name: format!("s{}_{}", owner, i), canonical: sym(owner, i), namespace_alias: None })
                    .collect()
            })
            .collect(),
    }
}

// ---- side effects ----

#[test]
fn side_effects_come_from_imports() {
    let mut modules = vec![
        pure(0, vec![rec(1, ImportKind::Import)]),
        module(1, vec![], DeterminedSideEffects::Analyzed(true)),
        pure(2, vec![]),
    ];
    determine_side_effects(&mut modules);
    assert_eq!(modules[0].side_effects, DeterminedSideEffects::Analyzed(true));
    assert_eq!(modules[1].side_effects, DeterminedSideEffects::Analyzed(true));
    assert_eq!(modules[2].side_effects, DeterminedSideEffects::Analyzed(false));
}

#[test]
fn side_effects_travel_through_chains() {
    let mut modules = vec![
        pure(0, vec![rec(1, ImportKind::Import)]),
        pure(1, vec![rec(2, ImportKind::Import)]),
        module(2, vec![], DeterminedSideEffects::NoTreeshake),
    ];
    determine_side_effects(&mut modules);
    assert_eq!(modules[0].side_effects, DeterminedSideEffects::Analyzed(true));
    assert_eq!(modules[1].side_effects, DeterminedSideEffects::Analyzed(true));
    assert_eq!(modules[2].side_effects, DeterminedSideEffects::NoTreeshake);
}

#[test]
fn side_effects_stated_by_the_user_stay() {
    let mut modules = vec![
        module(0, vec![rec(1, ImportKind::Import)], DeterminedSideEffects::UserDefined(false)),
        module(1, vec![], DeterminedSideEffects::Analyzed(true)),
    ];
    determine_side_effects(&mut modules);
    assert_eq!(modules[0].side_effects, DeterminedSideEffects::UserDefined(false));
}

#[test]
fn side_effects_of_external_modules_stay() {
    let mut external = pure(0, vec![rec(1, ImportKind::Import)]);
    external.is_external = true;
    let mut modules = vec![external, module(1, vec![], DeterminedSideEffects::Analyzed(true))];
    determine_side_effects(&mut modules);
    assert_eq!(modules[0].side_effects, DeterminedSideEffects::Analyzed(false));
}

#[test]
fn side_effects_ignore_placeholder_records() {
    let mut dummy = rec(1, ImportKind::Import);
    dummy.is_dummy = true;
    let mut modules = vec![pure(0, vec![dummy]), module(1, vec![], DeterminedSideEffects::Analyzed(true))];
    determine_side_effects(&mut modules);
    assert_eq!(modules[0].side_effects, DeterminedSideEffects::Analyzed(false));
}

#[test]
fn side_effects_in_a_cycle_use_the_module_being_visited() {
    // 0 imports 1 then 2; 1 imports 0; 2 has side effects. 1 is settled while 0 is still
    // being visited, so it takes 0's own (none).
    let mut modules = vec![
        pure(0, vec![rec(1, ImportKind::Import), rec(2, ImportKind::Import)]),
        pure(1, vec![rec(0, ImportKind::Import)]),
        module(2, vec![], DeterminedSideEffects::Analyzed(true)),
    ];
    determine_side_effects(&mut modules);
    assert_eq!(modules[0].side_effects, DeterminedSideEffects::Analyzed(true));
    assert_eq!(modules[1].side_effects, DeterminedSideEffects::Analyzed(false));
}

#[test]
fn side_effects_in_a_cycle_follow_the_walk_order() {
    // the same cycle, walked from the other module first: 0 imports 1; 1 imports 0 then 2
    let mut modules = vec![
        pure(0, vec![rec(1, ImportKind::Import)]),
        pure(1, vec![rec(0, ImportKind::Import), rec(2, ImportKind::Import)]),
        module(2, vec![], DeterminedSideEffects::Analyzed(true)),
    ];
    determine_side_effects(&mut modules);
    assert_eq!(modules[0].side_effects, DeterminedSideEffects::Analyzed(true));
    assert_eq!(modules[1].side_effects, DeterminedSideEffects::Analyzed(true));
}

// ---- dynamic exports ----

#[test]
fn export_star_of_an_external_module_makes_exports_dynamic() {
    let mut external = pure(1, vec![]);
    external.is_external = true;
    let modules = vec![pure(0, vec![star(1)]), external, pure(2, vec![star(3)]), pure(3, vec![])];
    let mut metas = vec![meta(), meta(), meta(), meta()];
    wrap_modules(&modules, &vec![0, 2, 3], &mut metas);
    assert!(metas[0].has_dynamic_exports);
    assert!(metas[1].has_dynamic_exports);
    assert!(!metas[2].has_dynamic_exports);
    assert!(!metas[3].has_dynamic_exports);
}

#[test]
fn dynamic_exports_travel_through_export_star_chains() {
    let mut external = pure(2, vec![]);
    external.is_external = true;
    let modules = vec![pure(0, vec![star(1)]), pure(1, vec![star(2)]), external];
    let mut metas = vec![meta(), meta(), meta()];
    wrap_modules(&modules, &vec![0, 1], &mut metas);
    assert!(metas[0].has_dynamic_exports);
    assert!(metas[1].has_dynamic_exports);
}

#[test]
fn export_star_of_itself_is_ignored() {
    let modules = vec![pure(0, vec![star(0)])];
    let mut metas = vec![meta()];
    wrap_modules(&modules, &vec![0], &mut metas);
    assert!(!metas[0].has_dynamic_exports);
}

// ---- exports kind ----

#[test]
fn import_makes_a_module_esm_and_require_wraps() {
    let mut modules = vec![
        pure(0, vec![rec(1, ImportKind::Import), rec(2, ImportKind::Require), rec(3, ImportKind::Require)]),
        pure(1, vec![]),
        pure(2, vec![]),
        pure(3, vec![]),
    ];
    modules[3].exports_kind = ExportsKind::Esm;
    let mut metas = vec![meta(), meta(), meta(), meta()];
    determine_module_exports_kind(&mut modules, &mut metas, &vec![], OutputFormat::Esm, false);
    assert_eq!(modules[1].exports_kind, ExportsKind::Esm);
    assert_eq!(metas[1].wrap_kind, WrapKind::Unwrapped);
    assert_eq!(modules[2].exports_kind, ExportsKind::CommonJs);
    assert_eq!(metas[2].wrap_kind, WrapKind::Cjs);
    assert_eq!(modules[3].exports_kind, ExportsKind::Esm);
    assert_eq!(metas[3].wrap_kind, WrapKind::Esm);
    assert_eq!(modules[0].exports_kind, ExportsKind::Unknown);
}

#[test]
fn commonjs_entries_are_wrapped_only_for_esm_output() {
    let mut modules = vec![pure(0, vec![])];
    modules[0].exports_kind = ExportsKind::CommonJs;
    let entries = vec![EntryPoint { name: None, id: 0, kind: EntryPointKind::UserDefined }];
    let mut metas = vec![meta()];
    determine_module_exports_kind(&mut modules, &mut metas, &entries, OutputFormat::Cjs, false);
    assert_eq!(metas[0].wrap_kind, WrapKind::Unwrapped);
    let mut metas = vec![meta()];
    determine_module_exports_kind(&mut modules, &mut metas, &entries, OutputFormat::Esm, false);
    assert_eq!(metas[0].wrap_kind, WrapKind::Cjs);
}

#[test]
fn inlined_dynamic_imports_wrap_like_require() {
    let mut modules = vec![pure(0, vec![rec(1, ImportKind::DynamicImport)]), pure(1, vec![])];
    let mut metas = vec![meta(), meta()];
    determine_module_exports_kind(&mut modules, &mut metas, &vec![], OutputFormat::Esm, false);
    assert_eq!(metas[1].wrap_kind, WrapKind::Unwrapped);
    assert_eq!(modules[1].exports_kind, ExportsKind::Unknown);
    determine_module_exports_kind(&mut modules, &mut metas, &vec![], OutputFormat::Esm, true);
    assert_eq!(metas[1].wrap_kind, WrapKind::Cjs);
    assert_eq!(modules[1].exports_kind, ExportsKind::CommonJs);
}

#[test]
fn lazy_export_modules_keep_an_unknown_kind_on_import() {
    let mut modules = vec![pure(0, vec![rec(1, ImportKind::Import)]), pure(1, vec![])];
    modules[1].has_lazy_export = true;
    let mut metas = vec![meta(), meta()];
    determine_module_exports_kind(&mut modules, &mut metas, &vec![], OutputFormat::Esm, false);
    assert_eq!(modules[1].exports_kind, ExportsKind::Unknown);
}

// ---- loading ----

#[test]
fn module_types_follow_the_extension() {
    assert_eq!(module_type_from_extension("a.js"), ModuleType::Js);
    assert_eq!(module_type_from_extension("a.mjs"), ModuleType::Js);
    assert_eq!(module_type_from_extension("a.cjs"), ModuleType::Js);
    assert_eq!(module_type_from_extension("src/b.ts"), ModuleType::Ts);
    assert_eq!(module_type_from_extension("b.mts"), ModuleType::Ts);
    assert_eq!(module_type_from_extension("c.jsx"), ModuleType::Jsx);
    assert_eq!(module_type_from_extension("d.tsx"), ModuleType::Tsx);
    assert_eq!(module_type_from_extension("e.json"), ModuleType::Json);
    assert_eq!(module_type_from_extension("f.txt"), ModuleType::Text);
    assert_eq!(module_type_from_extension("g.css"), ModuleType::Css);
    assert_eq!(module_type_from_extension("h.png"), ModuleType::Js);
    assert_eq!(module_type_from_extension("noext"), ModuleType::Js);
    assert_eq!(module_type_from_extension("x.min.tsx"), ModuleType::Tsx);
}

#[test]
fn asserted_and_ignored_module_types() {
    assert_eq!(source_module_type(true, None, "a.css"), ModuleType::Empty);
    assert_eq!(source_module_type(true, Some(ModuleType::Text), "a.css"), ModuleType::Text);
    assert_eq!(source_module_type(false, Some(ModuleType::Asset), "a.css"), ModuleType::Asset);
    assert_eq!(source_module_type(false, None, "a.css"), ModuleType::Css);
    assert!(reads_source_as_bytes(ModuleType::Asset));
    assert!(reads_source_as_bytes(ModuleType::Base64));
    assert!(!reads_source_as_bytes(ModuleType::Js));
}

#[test]
fn side_effects_decided_when_loading() {
    let stmts = vec![stmt(vec![], false), stmt(vec![], true)];
    let quiet = vec![stmt(vec![], false)];
    assert_eq!(module_side_effects(None, ModuleType::Js, Some(false), &stmts), DeterminedSideEffects::UserDefined(false));
    assert_eq!(module_side_effects(None, ModuleType::Js, None, &stmts), DeterminedSideEffects::Analyzed(true));
    assert_eq!(
        module_side_effects(Some(HookSideEffects::False), ModuleType::Js, None, &stmts),
        DeterminedSideEffects::UserDefined(false)
    );
    assert_eq!(
        module_side_effects(Some(HookSideEffects::NoTreeshake), ModuleType::Js, None, &quiet),
        DeterminedSideEffects::NoTreeshake
    );
    assert_eq!(
        module_side_effects(Some(HookSideEffects::True), ModuleType::Css, Some(false), &quiet),
        DeterminedSideEffects::Analyzed(true)
    );
    assert_eq!(
        module_side_effects(Some(HookSideEffects::True), ModuleType::Js, Some(false), &stmts),
        DeterminedSideEffects::UserDefined(false)
    );
    assert_eq!(
        module_side_effects(Some(HookSideEffects::True), ModuleType::Js, None, &stmts),
        DeterminedSideEffects::Analyzed(true)
    );
    assert_eq!(
        module_side_effects(Some(HookSideEffects::True), ModuleType::Js, None, &quiet),
        DeterminedSideEffects::Analyzed(false)
    );
    assert_eq!(external_module_side_effects(None), DeterminedSideEffects::NoTreeshake);
    assert_eq!(external_module_side_effects(Some(HookSideEffects::True)), DeterminedSideEffects::UserDefined(true));
    assert_eq!(external_module_side_effects(Some(HookSideEffects::False)), DeterminedSideEffects::UserDefined(false));
}

#[test]
fn imported_ids_are_split_and_kept_once() {
    let kinds = vec![ImportKind::Import, ImportKind::DynamicImport, ImportKind::Require, ImportKind::Import, ImportKind::NewUrl];
    let ids: Vec<String> = vec!["a", "b", "c", "a", "d"].into_iter().map(String::from).collect();
    let (imported, dynamic) = split_imported_ids(&kinds, &ids);
    assert_eq!(imported, vec!["a".to_string(), "c".to_string(), "d".to_string()]);
    assert_eq!(dynamic, vec!["b".to_string()]);
}

#[test]
fn loading_needs_an_input() {
    assert_eq!(check_input(0), Err("You must supply options.input to rolldown".to_string()));
    assert_eq!(check_input(2), Ok(()));
}

#[test]
fn a_build_needs_an_input() {
    assert_eq!(check_build_input(0), Err("You must supply `options.input`.".to_string()));
    assert_eq!(check_build_input(1), Ok(()));
}

#[test]
fn the_loader_gives_each_id_one_module() {
    let mut state = ModuleLoaderState::new(&"rt".to_string());
    assert_eq!(state.remaining, 1);
    let (entry, d) = state.add_user_defined_entry(Some("main".to_string()), &"/a.js".to_string(), false, None);
    assert_eq!(d, SpawnDecision::Spawn(1));
    assert_eq!(entry.id, 1);
    assert_eq!(entry.name, Some("main".to_string()));
    assert_eq!(state.remaining, 2);
    assert_eq!(state.try_spawn_new_task(&"/a.js".to_string(), false, None), SpawnDecision::Visited(1));
    assert_eq!(state.remaining, 2);
    assert_eq!(state.try_spawn_new_task(&"rt".to_string(), false, None), SpawnDecision::Visited(0));
    assert_eq!(
        state.try_spawn_new_task(&"lodash".to_string(), true, Some(HookSideEffects::False)),
        SpawnDecision::External(2, DeterminedSideEffects::UserDefined(false))
    );
    assert_eq!(state.remaining, 2);
    state.task_finished();
    state.task_finished();
    assert!(state.is_done());
}

#[test]
fn the_loader_records_importers_and_dynamic_entries() {
    let mut state = ModuleLoaderState::new(&"rt".to_string());
    let _ = state.add_user_defined_entry(None, &"/a.js".to_string(), false, None);
    let d = state.add_import_record(&"/a.js".to_string(), ImportKind::DynamicImport, &"/z.js".to_string(), false, None);
    assert_eq!(d, SpawnDecision::Spawn(2));
    let d = state.add_import_record(&"/a.js".to_string(), ImportKind::DynamicImport, &"/b.js".to_string(), false, None);
    assert_eq!(d, SpawnDecision::Spawn(3));
    let d = state.add_import_record(&"/b.js".to_string(), ImportKind::Import, &"/z.js".to_string(), false, None);
    assert_eq!(d, SpawnDecision::Visited(2));
    // importing a user entry dynamically does not make it a dynamic entry
    let _ = state.add_import_record(&"/b.js".to_string(), ImportKind::DynamicImport, &"/a.js".to_string(), false, None);
    assert_eq!(state.dynamic_import_entry_ids, vec![2, 3]);
    let (stat, dynamic) = state.importers_of(2);
    assert_eq!(stat, vec!["/b.js".to_string()]);
    assert_eq!(dynamic, vec!["/a.js".to_string()]);
    let stable: Vec<String> = vec!["rt", "a.js", "z.js", "b.js"].into_iter().map(String::from).collect();
    let entries = state.dynamic_entry_points(&stable, false);
    assert_eq!(entries.iter().map(|e| e.id).collect::<Vec<_>>(), vec![3, 2]);
    assert!(entries.iter().all(|e| e.name.is_none() && e.kind == EntryPointKind::DynamicImport));
    assert!(state.dynamic_entry_points(&stable, true).is_empty());
}

// ---- chunk names ----

#[test]
fn unique_names_count_up() {
    let mut names = UniqueNames::new();
    assert_eq!(names.make_unique_name(&"a".to_string()), "a");
    assert_eq!(names.make_unique_name(&"a".to_string()), "a2");
    assert_eq!(names.make_unique_name(&"a".to_string()), "a3");
    assert_eq!(names.make_unique_name(&"a2".to_string()), "a22");
    assert_eq!(names.make_unique_name(&"b".to_string()), "b");
    assert_eq!(names.used.len(), 5);
}

#[test]
fn unique_names_skip_names_taken_by_counting() {
    let mut names = UniqueNames::new();
    assert_eq!(names.make_unique_name(&"a2".to_string()), "a2");
    assert_eq!(names.make_unique_name(&"a".to_string()), "a");
    // "a" is taken; its count gives "a2", taken too, whose count gives "a2" again and then "a3"
    let third = names.make_unique_name(&"a".to_string());
    assert_eq!(third, "a3");
}

fn chunk(name: Option<&str>, kind: ChunkKind, modules: Vec<usize>) -> Chunk {
    Chunk { name: name.map(String::from), bits: vec![], modules, kind, exec_order: 0 }
}

#[test]
fn chunk_names_before_file_names() {
    let ids: Vec<String> = vec!["/rt", "/src/main.js", "/src/lib/util.js", "/src/.."].into_iter().map(String::from).collect();
    let reprs: Vec<String> = vec!["rt", "main", "util", "src"].into_iter().map(String::from).collect();
    let named = chunk(Some("vendor"), ChunkKind::Common, vec![2]);
    assert_eq!(pre_generated_chunk_name(&named, &ids, &reprs, 0), "vendor");
    let user = chunk(None, ChunkKind::EntryPoint { is_user_defined: true, bit: 0, module: 1 }, vec![1]);
    assert_eq!(pre_generated_chunk_name(&user, &ids, &reprs, 0), "main");
    let no_stem = chunk(None, ChunkKind::EntryPoint { is_user_defined: true, bit: 0, module: 3 }, vec![3]);
    assert_eq!(pre_generated_chunk_name(&no_stem, &ids, &reprs, 0), "input");
    let dynamic = chunk(None, ChunkKind::EntryPoint { is_user_defined: false, bit: 1, module: 2 }, vec![2]);
    assert_eq!(pre_generated_chunk_name(&dynamic, &ids, &reprs, 0), "util");
    let common = chunk(None, ChunkKind::Common, vec![2, 0]);
    assert_eq!(pre_generated_chunk_name(&common, &ids, &reprs, 0), "util");
    let runtime_only = chunk(None, ChunkKind::Common, vec![0]);
    assert_eq!(pre_generated_chunk_name(&runtime_only, &ids, &reprs, 0), "chunk");
}

#[test]
fn chunks_are_named_in_output_order() {
    let ids: Vec<String> = vec!["/rt", "/src/main.js", "/src/util.js"].into_iter().map(String::from).collect();
    let reprs: Vec<String> = vec!["rt", "main", "util"].into_iter().map(String::from).collect();
    let mut graph = ChunkGraph {
        chunk_table: vec![
            chunk(None, ChunkKind::Common, vec![2]),
            chunk(None, ChunkKind::EntryPoint { is_user_defined: true, bit: 0, module: 1 }, vec![1]),
        ],
        sorted_chunk_idx_vec: vec![1, 0],
        module_to_chunk: vec![None, Some(1), Some(0)],
        entry_module_to_entry_chunk: vec![None, Some(1), None],
    };
    let names = generate_chunk_names(&mut graph, &ids, &reprs, 0);
    assert_eq!(names, vec![(1, "main".to_string()), (0, "util".to_string())]);
    assert_eq!(graph.chunk_table[0].name, Some("util".to_string()));
    assert_eq!(graph.chunk_table[1].name, Some("main".to_string()));
}

// ---- css ----

#[test]
fn css_imports_and_urls_become_records() {
    let source = "@import './a.css';\n.a { background: url(./b.png); }\n";
    let view = create_css_view(source).expect("spans fit");
    assert_eq!(view.import_records.len(), 2);
    assert_eq!(view.import_records[0].kind, ImportKind::AtImport);
    assert_eq!(view.import_records[0].request, "./a.css");
    assert_eq!(view.import_records[1].kind, ImportKind::UrlImport);
    assert_eq!(view.import_records[1].request, "./b.png");
    let (s, e) = view.record_spans[1];
    assert_eq!(&source[s as usize..e as usize], "./b.png");
    assert_eq!(view.at_import_ranges.len(), 1);
    let (rs, re) = view.at_import_ranges[0];
    assert_eq!(rs, 0);
    assert_eq!(&source[re..re + 2], ".a");
}

#[test]
fn css_quoted_urls_span_inside_the_quotes() {
    let source = ".a { background: url(\"./c.png\"); }";
    let view = create_css_view(source).expect("spans fit");
    assert_eq!(view.import_records.len(), 1);
    let (s, e) = view.record_spans[0];
    assert_eq!(&source[s as usize..e as usize], "./c.png");
    assert!(view.at_import_ranges.is_empty());
}

// ---- exports ----

fn runtime_brief() -> RuntimeModuleBrief {
    let names = ["__commonJS", "__commonJSMin", "__esm", "__esmMin", "__export", "__reExport", "__toESM"];
    RuntimeModuleBrief {
        id: 0,
        name_to_symbol: names.iter().enumerate().map(|(i, n)| (n.to_string(), sym(0, i + 1))).collect(),
    }
}

#[test]
fn canonical_exports_follow_sorted_names() {
    let entries = vec![
        ResolvedExportEntry { name: "b".to_string(), symbol: sym(1, 2), potentially_ambiguous: vec![] },
        ResolvedExportEntry { name: "a".to_string(), symbol: sym(1, 1), potentially_ambiguous: vec![] },
    ];
    let sorted = vec!["a".to_string(), "b".to_string()];
    assert_eq!(canonical_export_symbols(&entries, &sorted), vec![sym(1, 1), sym(1, 2)]);
}

#[test]
fn wrapped_modules_get_a_wrapper_and_esm_modules_a_namespace() {
    let rt = runtime_brief();
    let mut modules = vec![pure(0, vec![]), pure(1, vec![]), pure(2, vec![])];
    modules[1].exports_kind = ExportsKind::CommonJs;
    modules[2].exports_kind = ExportsKind::Esm;
    let mut metas = vec![meta(), meta(), meta()];
    metas[1].wrap_kind = WrapKind::Cjs;
    metas[2].shimmed_missing_exports = vec![("missing".to_string(), sym(2, 3))];
    let mut db = db_for(&[8, 2, 4]);
    let canon = vec![vec![], vec![], vec![sym(2, 1)]];
    create_exports_for_ecma_modules(&mut modules, &mut metas, &mut db, &rt, &canon, OutputFormat::Esm, false);
    // module 1: wrapper symbol (1, 2) named require_m1, declared by a new statement
    assert_eq!(metas[1].wrapper_ref, Some(sym(1, 2)));
    assert_eq!(metas[1].wrapper_stmt_info, Some(1));
    assert_eq!(db.symbols[1].len(), 3);
    assert_eq!(db.symbols[1][2].name, "require_m1");
    assert_eq!(modules[1].stmt_infos.len(), 2);
    assert_eq!(modules[1].stmt_infos[1].declared_symbols, vec![sym(1, 2)]);
    assert!(matches!(modules[1].stmt_infos[1].referenced_symbols[0], SymbolOrMemberExprRef::Symbol(s) if s == sym(0, 1)));
    // module 2: a statement for the shim, and the namespace statement in place of the first
    assert_eq!(metas[2].wrapper_ref, None);
    assert_eq!(modules[2].stmt_infos.len(), 2);
    assert_eq!(modules[2].stmt_infos[1].declared_symbols, vec![sym(2, 3)]);
    assert_eq!(modules[2].stmt_infos[0].declared_symbols, vec![sym(2, 0)]);
    let refs: Vec<SymbolRef> = modules[2].stmt_infos[0]
        .referenced_symbols
        .iter()
        .map(|r| match r {
            SymbolOrMemberExprRef::Symbol(s) => *s,
            SymbolOrMemberExprRef::MemberExpr(_) => panic!("no member expressions"),
        })
        .collect();
    assert_eq!(refs, vec![sym(0, 5), sym(2, 1)]);
    assert_eq!(db.symbols[2].len(), 4);
}

// ---- dependencies ----

#[test]
fn initial_dependencies_skip_dynamic_imports_and_repeats() {
    let mut external = pure(3, vec![]);
    external.is_external = true;
    let modules = vec![
        pure(0, vec![rec(1, ImportKind::Import), rec(2, ImportKind::DynamicImport), rec(1, ImportKind::Require), star(3)]),
        pure(1, vec![]),
        pure(2, vec![]),
        external,
    ];
    let metas = init_linking_metadata(&modules, false);
    assert_eq!(metas[0].dependencies, vec![1, 3]);
    assert_eq!(metas[0].star_exports_from_external_modules, vec![3]);
    let metas = init_linking_metadata(&modules, true);
    assert_eq!(metas[0].dependencies, vec![1, 2, 3]);
}

#[test]
fn included_references_add_dependencies() {
    let mut modules = vec![pure(0, vec![]), pure(1, vec![]), pure(2, vec![])];
    modules[1].stmt_infos = vec![stmt(vec![], false), stmt(vec![sym(2, 1)], false), stmt(vec![sym(0, 1)], false)];
    let mut db = db_for(&[2, 2, 2]);
    db.symbols[2][1].namespace_alias = Some(NamespaceAlias { property_name: "x".to_string(), namespace_ref: sym(0, 0) });
    let mut metas = vec![meta(), meta(), meta()];
    metas[1].dependencies = vec![2];
    metas[1].referenced_symbols_by_entry_point_chunk = vec![sym(1, 1)];
    let included = vec![vec![true], vec![true, true, false], vec![true]];
    patch_module_dependencies(&mut metas, &modules, &db, &included);
    assert_eq!(metas[1].dependencies, vec![2, 1, 0]);
    assert_eq!(metas[0].dependencies, Vec::<usize>::new());
}

// ---- needed symbols ----

fn externals_setup() -> (Vec<Module>, SymbolRefDb) {
    let dynamic = ImportRecord { namespace_ref: sym(1, 1), ..rec(2, ImportKind::DynamicImport) };
    let static_import = ImportRecord { namespace_ref: sym(1, 2), ..rec(2, ImportKind::Import) };
    let star = ImportRecord { is_export_star: true, namespace_ref: sym(1, 3), ..rec(2, ImportKind::Import) };
    let mut importer = pure(1, vec![dynamic, static_import, star]);
    importer.stmt_infos = vec![
        stmt(vec![], false),
        StmtInfo { import_records: vec![0, 1], ..stmt(vec![sym(1, 4)], false) },
        StmtInfo { import_records: vec![2], ..stmt(vec![], false) },
    ];
    let mut external = pure(2, vec![]);
    external.is_external = true;
    let mut db = db_for(&[8, 5, 1]);
    db.symbols[2][0].name = "react".to_string();
    (vec![pure(0, vec![]), importer, external], db)
}

#[test]
fn cjs_static_imports_of_externals_need_to_esm() {
    let (mut modules, mut db) = externals_setup();
    reference_needed_symbols(&mut modules, &mut db, &runtime_brief(), OutputFormat::Cjs);
    let s = &modules[1].stmt_infos[1];
    assert!(s.side_effect);
    assert_eq!(s.referenced_symbols.len(), 2);
    assert!(matches!(s.referenced_symbols[0], SymbolOrMemberExprRef::Symbol(x) if x == sym(1, 4)));
    assert!(matches!(s.referenced_symbols[1], SymbolOrMemberExprRef::Symbol(x) if x == sym(0, 7)));
    assert!(!modules[1].stmt_infos[2].side_effect);
    assert!(modules[1].stmt_infos[2].referenced_symbols.is_empty());
    assert_eq!(db.symbols[1][3].name, "import_react");
    assert_eq!(db.symbols[1][1].name, "s1_1");
}

#[test]
fn esm_output_needs_no_to_esm() {
    let (mut modules, mut db) = externals_setup();
    reference_needed_symbols(&mut modules, &mut db, &runtime_brief(), OutputFormat::Esm);
    let s = &modules[1].stmt_infos[1];
    assert!(!s.side_effect);
    assert_eq!(s.referenced_symbols.len(), 1);
    assert!(matches!(s.referenced_symbols[0], SymbolOrMemberExprRef::Symbol(x) if x == sym(1, 4)));
    assert_eq!(db.symbols[1][3].name, "import_react");
}

#[test]
fn entry_chunks_refer_to_all_exports_of_bundled_entries() {
    let mut external = pure(2, vec![]);
    external.is_external = true;
    let modules = vec![pure(0, vec![]), pure(1, vec![]), external];
    let mut metadata = vec![meta(), meta(), meta()];
    metadata[1].referenced_symbols_by_entry_point_chunk = vec![sym(1, 9)];
    let entries = vec![
        EntryPoint { name: None, id: 1, kind: EntryPointKind::UserDefined },
        EntryPoint { name: None, id: 2, kind: EntryPointKind::UserDefined },
    ];
    let canonical = vec![vec![], vec![sym(1, 1), sym(3, 0)], vec![sym(2, 1)]];
    process_entry_point_module_exports(&entries, &modules, &mut metadata, &canonical);
    assert_eq!(metadata[1].referenced_symbols_by_entry_point_chunk, vec![sym(1, 9), sym(1, 1), sym(3, 0)]);
    assert!(metadata[0].referenced_symbols_by_entry_point_chunk.is_empty());
    assert!(metadata[2].referenced_symbols_by_entry_point_chunk.is_empty());
}

#[test]
fn load_errors_name_the_module_and_its_importer() {
    assert_eq!(
        load_error_message("src/missing.js", Some("src/main.js"), "No such file"),
        "Could not load src/missing.js (imported by src/main.js) - No such file."
    );
    assert_eq!(load_error_message("main.js", None, "denied"), "Could not load main.js - denied.");
}

#[test]
fn chunk_graph_places_modules_in_chunks() {
    let mut graph = ChunkGraph::new(3);
    assert_eq!(graph.module_to_chunk, vec![None, None, None]);
    let chunk = Chunk { name: None, bits: vec![true], modules: vec![], kind: ChunkKind::Common, exec_order: 0 };
    let c = graph.add_chunk(chunk);
    assert_eq!(c, 0);
    graph.add_module_to_chunk(2, c);
    graph.add_module_to_chunk(0, c);
    assert_eq!(graph.chunk_table[0].modules, vec![2, 0]);
    assert_eq!(graph.module_to_chunk, vec![Some(0), None, Some(0)]);
}

#[test]
fn user_entry_names_are_sanitized_file_stems() {
    let ids: Vec<String> =
        vec!["/rt", "/src/.env", "/src/a.b.c", "/src/b?.js", "main.ts"].into_iter().map(String::from).collect();
    let reprs: Vec<String> = vec!["rt", "env", "a", "b", "main"].into_iter().map(String::from).collect();
    let entry = |module: usize| chunk(None, ChunkKind::EntryPoint { is_user_defined: true, bit: 0, module }, vec![module]);
    assert_eq!(pre_generated_chunk_name(&entry(1), &ids, &reprs, 0), ".env");
    assert_eq!(pre_generated_chunk_name(&entry(2), &ids, &reprs, 0), "a.b");
    assert_eq!(pre_generated_chunk_name(&entry(3), &ids, &reprs, 0), "b");
    assert_eq!(pre_generated_chunk_name(&entry(4), &ids, &reprs, 0), "main");
}

#[test]
fn unique_names_follow_the_count_of_each_candidate() {
    let mut names = UniqueNames::new();
    assert_eq!(names.make_unique_name(&"x".to_string()), "x");
    assert_eq!(names.make_unique_name(&"x2".to_string()), "x2");
    assert_eq!(names.make_unique_name(&"x".to_string()), "x3");
    assert_eq!(names.make_unique_name(&"x".to_string()), "x4");
    let counts: Vec<(String, u32)> = names.used.iter().map(|u| (u.name.clone(), u.next_count)).collect();
    assert_eq!(
        counts,
        vec![("x".to_string(), 4), ("x2".to_string(), 5), ("x3".to_string(), 3), ("x4".to_string(), 2)]
    );
}

#[test]
fn a_new_importer_keeps_the_earlier_ones() {
    let mut state = ModuleLoaderState::new(&"rt".to_string());
    let _ = state.add_user_defined_entry(None, &"/a.js".to_string(), false, None);
    let _ = state.add_user_defined_entry(None, &"/b.js".to_string(), false, None);
    let first = state.add_import_record(&"/a.js".to_string(), ImportKind::Import, &"/c.js".to_string(), false, None);
    assert_eq!(first, SpawnDecision::Spawn(3));
    let second = state.add_import_record(&"/b.js".to_string(), ImportKind::DynamicImport, &"/c.js".to_string(), false, None);
    assert_eq!(second, SpawnDecision::Visited(3));
    let paths: Vec<(String, ImportKind)> =
        state.importers[3].iter().map(|r| (r.importer_path.clone(), r.kind)).collect();
    assert_eq!(paths, vec![("/a.js".to_string(), ImportKind::Import), ("/b.js".to_string(), ImportKind::DynamicImport)]);
    assert!(state.importers[1].is_empty());
    assert!(state.importers[2].is_empty());
}

#[test]
fn the_runtime_source_depends_on_the_output() {
    assert_eq!(runtime_source_parts(true), vec![RuntimePart::HeadNode, RuntimePart::Base, RuntimePart::TailNode]);
    assert_eq!(runtime_source_parts(false), vec![RuntimePart::Base, RuntimePart::Tail]);
}

#[test]
fn chunk_names_are_the_same_for_the_same_graph() {
    let ids: Vec<String> = vec!["/rt", "/src/ma*in.js", "/src/util.js"].into_iter().map(String::from).collect();
    let reprs: Vec<String> = vec!["rt", "main", "util"].into_iter().map(String::from).collect();
    let make = || ChunkGraph {
        chunk_table: vec![
            chunk(None, ChunkKind::Common, vec![2]),
            chunk(None, ChunkKind::EntryPoint { is_user_defined: true, bit: 0, module: 1 }, vec![1]),
        ],
        sorted_chunk_idx_vec: vec![1, 0, 1],
        module_to_chunk: vec![None, Some(1), Some(0)],
        entry_module_to_entry_chunk: vec![None, Some(1), None],
    };
    let (mut g1, mut g2) = (make(), make());
    let a = generate_chunk_names(&mut g1, &ids, &reprs, 0);
    let b = generate_chunk_names(&mut g2, &ids, &reprs, 0);
    assert_eq!(a, vec![(1, "main".to_string()), (0, "util".to_string())]);
    assert_eq!(a, b);
}

#[test]
fn user_entries_imported_dynamically_are_not_dynamic_entries() {
    let mut state = ModuleLoaderState::new(&"rt".to_string());
    let _ = state.add_user_defined_entry(None, &"/a.js".to_string(), false, None);
    let _ = state.add_import_record(&"/a.js".to_string(), ImportKind::DynamicImport, &"/a.js".to_string(), false, None);
    let _ = state.add_import_record(&"/a.js".to_string(), ImportKind::DynamicImport, &"/c.js".to_string(), false, None);
    let _ = state.add_import_record(&"/a.js".to_string(), ImportKind::DynamicImport, &"/c.js".to_string(), false, None);
    assert_eq!(state.dynamic_import_entry_ids, vec![2]);
    let stable: Vec<String> = vec!["rt", "a.js", "c.js"].into_iter().map(String::from).collect();
    let entries = state.dynamic_entry_points(&stable, false);
    assert_eq!(entries.len(), 1);
    assert_eq!(entries[0].id, 2);
}
