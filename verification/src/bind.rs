use vstd::prelude::*;

use crate::strings::{sort_strings, sorted_strs, str_eq, views};
use crate::util::lemma_prefix_trans;
use vstd::string::*;
use crate::types::{linked_rows, Module, ModuleIdx, NamedImport, NamespaceAlias, Specifier, SymbolInfo, SymbolRef, SymbolRefDb};
use crate::external_bindings::{groups_merged, groups_ok, in_rows, lemma_groups_ok_grow};

verus! {

/// An export as resolved for a module: its name and the symbol it stands for.
#[derive(Clone, Debug)]
pub struct ResolvedExportEntry {
    pub name: String,
    pub symbol: SymbolRef,
    /// Other symbols that `export *` offered under the same name.
    pub potentially_ambiguous: Vec<SymbolRef>,
}

/// An import being followed through re-exports.
#[derive(Clone, Debug)]
pub struct ImportTracker {
    pub importer: ModuleIdx,
    pub importee: ModuleIdx,
    pub imported: Specifier,
    pub imported_as: SymbolRef,
}

/// What one step of following an import finds.
#[derive(Clone, Copy, Debug, PartialEq, Eq, Structural)]
pub enum ImportStatus {
    /// The imported module has no such export.
    NoMatch,
    /// The import names this symbol.
    Matched(SymbolRef),
    /// The imported module is external; this is its namespace.
    External(SymbolRef),
}

/// What an import resolves to.
#[derive(Clone, Debug)]
pub enum MatchImportKind {
    /// Following the import leads back to an import already being followed.
    Cycle,
    /// Some module on the way has no such export.
    NoMatch,
    /// The import is the namespace of an external module.
    Namespace(SymbolRef),
    /// The import is this symbol, reached through these re-exported imports.
    Normal { symbol: SymbolRef, reexports: Vec<SymbolRef> },
    /// The import is the property `alias` of an external module's namespace.
    NormalAndNamespace { namespace_ref: SymbolRef, alias: String },
}

/// The named import of `m` that binds `sym`, if any.
pub open spec fn named_import_of(m: Module, sym: SymbolRef) -> Option<NamedImport> {
    if exists|j: int| 0 <= j < m.named_imports.len() && (#[trigger] m.named_imports[j]).imported_as == sym {
        let j = choose|j: int| 0 <= j < m.named_imports.len() && (#[trigger] m.named_imports[j]).imported_as == sym;
        Some(m.named_imports[j])
    } else {
        None
    }
}

/// The symbol that `entries` resolve `name` to, if any.
pub open spec fn lookup_export(entries: Seq<ResolvedExportEntry>, name: Seq<char>) -> Option<SymbolRef> {
    if exists|k: int| 0 <= k < entries.len() && (#[trigger] entries[k]).name@ == name {
        let k = choose|k: int| 0 <= k < entries.len() && (#[trigger] entries[k]).name@ == name;
        Some(entries[k].symbol)
    } else {
        None
    }
}

/// The module that the named import of `m` binding `sym` imports from.
pub open spec fn import_target(modules: Seq<Module>, m: int, sym: SymbolRef) -> int {
    let ni = named_import_of(modules[m], sym)->0;
    modules[m].import_records[ni.record_id as int].resolved_module as int
}

/// One step of following the import of `m` binding `sym`.
pub open spec fn advance_spec(modules: Seq<Module>, resolved: Seq<Seq<ResolvedExportEntry>>, m: int, sym: SymbolRef) -> ImportStatus {
    let t = import_target(modules, m, sym);
    if modules[t].is_external {
        ImportStatus::External(modules[t].namespace_object_ref)
    } else {
        match named_import_of(modules[m], sym)->0.imported {
            Specifier::Star => ImportStatus::Matched(modules[t].namespace_object_ref),
            Specifier::Literal(name) => match lookup_export(resolved[t], name@) {
                Some(s) => ImportStatus::Matched(s),
                None => ImportStatus::NoMatch,
            },
        }
    }
}

/// One step of following an import binding `j` of module `m` into a bundled module `t`:
/// a namespace (`* as`) import binds to `t`'s namespace object (it is never "not
/// exported"); a named import binds to the symbol `t` resolves that name to, and is "not
/// exported" exactly when `t` resolves no such name. An import from an external module
/// stays external, with that module's namespace.
pub proof fn lemma_import_step(modules: Seq<Module>, resolved: Seq<Seq<ResolvedExportEntry>>, m: int, j: int)
    requires
        bind_input_ok(modules, resolved),
        0 <= m < modules.len(),
        0 <= j < modules[m].named_imports.len(),
    ensures
        ({
            let ni = modules[m].named_imports[j];
            let t = modules[m].import_records[ni.record_id as int].resolved_module as int;
            let r = advance_spec(modules, resolved, m, ni.imported_as);
            &&& modules[t].is_external ==> r == ImportStatus::External(modules[t].namespace_object_ref)
            &&& !modules[t].is_external && ni.imported is Star ==> r == ImportStatus::Matched(modules[t].namespace_object_ref)
            &&& (!modules[t].is_external && ni.imported is Literal) ==> (r is NoMatch <==> forall|k: int|
                0 <= k < resolved[t].len() ==> resolved[t][k].name@ != ni.imported->Literal_0@)
            &&& forall|k: int|
                (!modules[t].is_external && ni.imported is Literal && 0 <= k < resolved[t].len()
                    && #[trigger] resolved[t][k].name@ == ni.imported->Literal_0@) ==> r == ImportStatus::Matched(resolved[t][k].symbol)
        }),
{
    let ni = modules[m].named_imports[j];
    let c = choose|c: int| 0 <= c < modules[m].named_imports.len() && (#[trigger] modules[m].named_imports[c]).imported_as == ni.imported_as;
    if c != j {
        assert(modules[m].named_imports[c].imported_as != modules[m].named_imports[j].imported_as);
    }
    assert(named_import_of(modules[m], ni.imported_as) == Some(ni));
    let t = modules[m].import_records[ni.record_id as int].resolved_module as int;
    if let Specifier::Literal(name) = ni.imported {
        if exists|k: int| 0 <= k < resolved[t].len() && (#[trigger] resolved[t][k]).name@ == name@ {
            let k0 = choose|k: int| 0 <= k < resolved[t].len() && (#[trigger] resolved[t][k]).name@ == name@;
            assert forall|k: int|
                0 <= k < resolved[t].len() && #[trigger] resolved[t][k].name@ == name@ implies k == k0 by {
                if k != k0 {
                    assert(resolved[t][k].name@ != resolved[t][k0].name@);
                }
            }
        }
    }
}

/// The import to follow next, when the step from (`m`, `sym`) finds a symbol that is itself
/// an import binding of a module imported from a bundled module.
pub open spec fn next_import(modules: Seq<Module>, resolved: Seq<Seq<ResolvedExportEntry>>, m: int, sym: SymbolRef) -> Option<
    (usize, SymbolRef),
> {
    match advance_spec(modules, resolved, m, sym) {
        ImportStatus::Matched(s) => if named_import_of(modules[s.owner as int], s) is Some && !modules[import_target(
            modules,
            s.owner as int,
            s,
        )].is_external {
            Some((s.owner, s))
        } else {
            None
        },
        _ => None,
    }
}

/// The inputs describe one module table: import bindings are unique per module and point at
/// records and modules that exist, export names are unique per module, and resolved symbols
/// belong to bundled modules.
pub open spec fn bind_input_ok(modules: Seq<Module>, resolved: Seq<Seq<ResolvedExportEntry>>) -> bool {
    &&& resolved.len() == modules.len()
    &&& forall|m: int| 0 <= m < modules.len() ==> (#[trigger] modules[m]).namespace_object_ref.owner == m
    &&& forall|m: int, j1: int, j2: int|
        0 <= m < modules.len() && 0 <= j1 < modules[m].named_imports.len() && 0 <= j2 < modules[m].named_imports.len()
            && j1 != j2 ==> #[trigger] modules[m].named_imports[j1].imported_as
            != #[trigger] modules[m].named_imports[j2].imported_as
    &&& forall|m: int, j: int|
        0 <= m < modules.len() && 0 <= j < modules[m].named_imports.len() ==> (#[trigger] modules[m].named_imports[j]).record_id
            < modules[m].import_records.len()
    &&& forall|m: int, r: int|
        0 <= m < modules.len() && 0 <= r < modules[m].import_records.len() ==> (#[trigger] modules[m].import_records[r]).resolved_module
            < modules.len()
    &&& forall|m: int, k1: int, k2: int|
        0 <= m < resolved.len() && 0 <= k1 < resolved[m].len() && 0 <= k2 < resolved[m].len() && k1 != k2
            ==> (#[trigger] resolved[m][k1]).name@ != (#[trigger] resolved[m][k2]).name@
    &&& forall|m: int, k: int|
        0 <= m < resolved.len() && 0 <= k < resolved[m].len() ==> (#[trigger] resolved[m][k]).symbol.owner
            < modules.len() && !modules[resolved[m][k].symbol.owner as int].is_external
}

/// (`m`, `sym`) is an import binding of a bundled module.
pub open spec fn is_import_key(modules: Seq<Module>, m: int, sym: SymbolRef) -> bool {
    0 <= m < modules.len() && !modules[m].is_external && named_import_of(modules[m], sym) is Some
}

/// Every import binding of the table, module by module.
pub open spec fn all_import_keys(modules: Seq<Module>) -> Seq<(usize, SymbolRef)>
    decreases modules.len(),
{
    if modules.len() == 0 {
        seq![]
    } else {
        let last = modules.last();
        all_import_keys(modules.drop_last()) + Seq::new(
            last.named_imports.len() as nat,
            |j: int| ((modules.len() - 1) as usize, last.named_imports[j].imported_as),
        )
    }
}

proof fn lemma_import_key_listed(modules: Seq<Module>, m: int, sym: SymbolRef)
    requires
        0 <= m < modules.len(),
        modules.len() <= usize::MAX,
        named_import_of(modules[m], sym) is Some,
    ensures
        all_import_keys(modules).contains((m as usize, sym)),
    decreases modules.len(),
{
    let rest = all_import_keys(modules.drop_last());
    let last = modules.last();
    let tail = Seq::new(
        last.named_imports.len() as nat,
        |j: int| ((modules.len() - 1) as usize, last.named_imports[j].imported_as),
    );
    if m == modules.len() - 1 {
        let j = choose|j: int| 0 <= j < last.named_imports.len() && (#[trigger] last.named_imports[j]).imported_as == sym;
        assert((rest + tail)[rest.len() + j] == (m as usize, sym));
    } else {
        assert(modules.drop_last()[m] == modules[m]);
        lemma_import_key_listed(modules.drop_last(), m, sym);
        let k = choose|k: int| 0 <= k < rest.len() && rest[k] == (m as usize, sym);
        assert((rest + tail)[k] == (m as usize, sym));
    }
}

/// The keys on a stack of trackers.
pub open spec fn tracker_keys(stack: Seq<ImportTracker>) -> Seq<(usize, SymbolRef)> {
    Seq::new(stack.len(), |i: int| (stack[i].importer, stack[i].imported_as))
}

proof fn lemma_stack_bound(modules: Seq<Module>, keys: Seq<(usize, SymbolRef)>)
    requires
        modules.len() <= usize::MAX,
        keys.no_duplicates(),
        forall|i: int| 0 <= i < keys.len() ==> is_import_key(modules, #[trigger] keys[i].0 as int, keys[i].1),
    ensures
        keys.len() <= all_import_keys(modules).len(),
{
    let all = all_import_keys(modules);
    assert forall|x: (usize, SymbolRef)| keys.to_set().contains(x) implies all.to_set().contains(x) by {
        let i = choose|i: int| 0 <= i < keys.len() && keys[i] == x;
        assert(is_import_key(modules, keys[i].0 as int, keys[i].1));
        lemma_import_key_listed(modules, x.0 as int, x.1);
    }
    keys.unique_seq_to_set();
    all.lemma_cardinality_of_set();
    vstd::set_lib::lemma_len_subset(keys.to_set(), all.to_set());
}

/// The index of the named import of `m` that binds `sym`.
fn find_named_import(m: &Module, sym: SymbolRef) -> (r: Option<usize>)
    requires
        forall|j1: int, j2: int|
            0 <= j1 < m.named_imports.len() && 0 <= j2 < m.named_imports.len() && j1 != j2
                ==> #[trigger] m.named_imports[j1].imported_as != #[trigger] m.named_imports[j2].imported_as,
    ensures
        match r {
            Some(j) => j < m.named_imports.len() && named_import_of(*m, sym) == Some(m.named_imports[j as int]),
            None => named_import_of(*m, sym) is None,
        },
{
    let mut j: usize = 0;
    while j < m.named_imports.len()
        invariant
            j <= m.named_imports.len(),
            forall|k: int| 0 <= k < j ==> (#[trigger] m.named_imports[k]).imported_as != sym,
            forall|j1: int, j2: int|
                0 <= j1 < m.named_imports.len() && 0 <= j2 < m.named_imports.len() && j1 != j2
                    ==> #[trigger] m.named_imports[j1].imported_as != #[trigger] m.named_imports[j2].imported_as,
        decreases m.named_imports.len() - j,
    {
        if m.named_imports[j].imported_as == sym {
            proof {
                let c = choose|k: int| 0 <= k < m.named_imports.len() && (#[trigger] m.named_imports[k]).imported_as == sym;
                if c != j {
                    assert(m.named_imports[c].imported_as != m.named_imports[j as int].imported_as);
                }
            }
            return Some(j);
        }
        j += 1;
    }
    None
}

/// The symbol that `entries` resolve `name` to.
fn find_export(entries: &Vec<ResolvedExportEntry>, name: &String) -> (r: Option<SymbolRef>)
    requires
        forall|k1: int, k2: int|
            0 <= k1 < entries.len() && 0 <= k2 < entries.len() && k1 != k2 ==> (#[trigger] entries[k1]).name@
                != (#[trigger] entries[k2]).name@,
    ensures
        r == lookup_export(entries@, name@),
{
    let mut k: usize = 0;
    while k < entries.len()
        invariant
            k <= entries.len(),
            forall|q: int| 0 <= q < k ==> (#[trigger] entries[q]).name@ != name@,
            forall|k1: int, k2: int|
                0 <= k1 < entries.len() && 0 <= k2 < entries.len() && k1 != k2 ==> (#[trigger] entries[k1]).name@
                    != (#[trigger] entries[k2]).name@,
        decreases entries.len() - k,
    {
        if entries[k].name == *name {
            proof {
                let c = choose|q: int| 0 <= q < entries.len() && (#[trigger] entries[q]).name@ == name@;
                if c != k {
                    assert(entries[c].name@ != entries[k as int].name@);
                }
            }
            return Some(entries[k].symbol);
        }
        k += 1;
    }
    None
}

/// One step of following an import: what the imported module offers under the imported name.
pub fn advance_import_tracker(
    modules: &Vec<Module>,
    resolved: &Vec<Vec<ResolvedExportEntry>>,
    tracker: &ImportTracker,
) -> (r: ImportStatus)
    requires
        bind_input_ok(modules@, views_of(resolved@)),
        is_import_key(modules@, tracker.importer as int, tracker.imported_as),
    ensures
        r == advance_spec(modules@, views_of(resolved@), tracker.importer as int, tracker.imported_as),
{
    let importer = &modules[tracker.importer];
    let j = match find_named_import(importer, tracker.imported_as) {
        Some(j) => j,
        None => {
            return ImportStatus::NoMatch;
        },
    };
    let named_import = &importer.named_imports[j];
    let importee_idx = importer.import_records[named_import.record_id].resolved_module;
    let importee = &modules[importee_idx];
    if importee.is_external {
        return ImportStatus::External(importee.namespace_object_ref);
    }
    match &named_import.imported {
        Specifier::Star => ImportStatus::Matched(importee.namespace_object_ref),
        Specifier::Literal(name) => match find_export(&resolved[importee_idx], name) {
            Some(s) => ImportStatus::Matched(s),
            None => ImportStatus::NoMatch,
        },
    }
}

/// The views of the resolved exports of each module.
pub open spec fn views_of(resolved: Seq<Vec<ResolvedExportEntry>>) -> Seq<Seq<ResolvedExportEntry>> {
    Seq::new(resolved.len(), |m: int| resolved[m]@)
}

/// `r` is what following the import (`m`, `sym`) gives when that import does not lead to
/// another one; `reexports` are the imports passed through on the way.
pub open spec fn final_match_ok(
    modules: Seq<Module>,
    resolved: Seq<Seq<ResolvedExportEntry>>,
    is_esm: bool,
    m: int,
    sym: SymbolRef,
    reexports: Seq<SymbolRef>,
    r: MatchImportKind,
) -> bool {
    match advance_spec(modules, resolved, m, sym) {
        ImportStatus::NoMatch => r is NoMatch,
        ImportStatus::Matched(s) => if named_import_of(modules[s.owner as int], s) is Some {
            // an import of an external module: it is its own declaration
            r matches MatchImportKind::Normal { symbol, reexports: rx } && symbol == s && rx@.len() == 0
        } else {
            r matches MatchImportKind::Normal { symbol, reexports: rx } && symbol == s && rx@ == reexports
        },
        ImportStatus::External(ns) => if is_esm {
            r matches MatchImportKind::Normal { symbol, reexports: rx } && symbol == sym && rx@.len() == 0
        } else {
            match named_import_of(modules[m], sym)->0.imported {
                Specifier::Star => r matches MatchImportKind::Namespace(n) && n == ns,
                Specifier::Literal(a) => r matches MatchImportKind::NormalAndNamespace { namespace_ref, alias }
                    && namespace_ref == ns && alias@ == a@,
            }
        },
    }
}

/// `chain` follows imports from its first element: each element but the last leads to the
/// next, and none of them repeats an earlier one or one of `seen`.
pub open spec fn import_chain_ok(
    modules: Seq<Module>,
    resolved: Seq<Seq<ResolvedExportEntry>>,
    seen: Seq<(usize, SymbolRef)>,
    chain: Seq<(usize, SymbolRef)>,
) -> bool {
    &&& chain.len() >= 1
    &&& forall|i: int|
        0 <= i < chain.len() - 1 ==> next_import(modules, resolved, chain[i].0 as int, chain[i].1) == Some(
            #[trigger] chain[i + 1],
        )
    &&& forall|i: int| 0 <= i < chain.len() - 1 ==> !(seen + chain.subrange(0, i)).contains(#[trigger] chain[i])
}

/// The imports passed through by a chain: all but its first.
pub open spec fn chain_reexports(chain: Seq<(usize, SymbolRef)>) -> Seq<SymbolRef> {
    Seq::new((chain.len() - 1) as nat, |i: int| chain[i + 1].1)
}

proof fn lemma_next_is_key(modules: Seq<Module>, resolved: Seq<Seq<ResolvedExportEntry>>, m: int, sym: SymbolRef)
    requires
        bind_input_ok(modules, resolved),
        is_import_key(modules, m, sym),
        next_import(modules, resolved, m, sym) is Some,
    ensures
        match next_import(modules, resolved, m, sym) {
            Some(k) => is_import_key(modules, k.0 as int, k.1),
            None => true,
        },
{
    let ni = named_import_of(modules[m], sym)->0;
    let j = choose|j: int| 0 <= j < modules[m].named_imports.len() && (#[trigger] modules[m].named_imports[j]).imported_as == sym;
    assert(modules[m].named_imports[j].record_id < modules[m].import_records.len());
    let t = import_target(modules, m, sym);
    assert(0 <= t < modules.len());
    match advance_spec(modules, resolved, m, sym) {
        ImportStatus::Matched(s) => {
            match ni.imported {
                Specifier::Star => {
                    assert(modules[t].namespace_object_ref.owner == t);
                },
                Specifier::Literal(name) => {
                    let k = choose|k: int| 0 <= k < resolved[t].len() && (#[trigger] resolved[t][k]).name@ == name@;
                    assert(resolved[t][k].symbol.owner < modules.len());
                },
            }
        },
        _ => {},
    }
}

fn clone_specifier(s: &Specifier) -> (r: Specifier)
    ensures
        r == *s,
{
    match s {
        Specifier::Star => Specifier::Star,
        Specifier::Literal(n) => Specifier::Literal(n.clone()),
    }
}

fn clone_tracker(t: &ImportTracker) -> (r: ImportTracker)
    ensures
        r == *t,
{
    ImportTracker { importer: t.importer, importee: t.importee, imported: clone_specifier(&t.imported), imported_as: t.imported_as }
}

/// Following the import `first`, with `seen` already being followed, goes along `chain` and
/// gives `r`, leaving `final_keys` followed.
pub open spec fn match_outcome_ok(
    modules: Seq<Module>,
    resolved: Seq<Seq<ResolvedExportEntry>>,
    is_esm: bool,
    seen: Seq<(usize, SymbolRef)>,
    first: (usize, SymbolRef),
    chain: Seq<(usize, SymbolRef)>,
    final_keys: Seq<(usize, SymbolRef)>,
    r: MatchImportKind,
) -> bool {
    &&& import_chain_ok(modules, resolved, seen, chain)
    &&& chain[0] == first
    &&& if (seen + chain.drop_last()).contains(chain.last()) {
        r is Cycle && final_keys == seen + chain.drop_last()
    } else {
        &&& next_import(modules, resolved, chain.last().0 as int, chain.last().1) is None
        &&& final_match_ok(modules, resolved, is_esm, chain.last().0 as int, chain.last().1, chain_reexports(chain), r)
        &&& final_keys == seen + chain
    }
}

/// Follows an import through re-exports to what it finally names: a symbol (with the
/// re-exported imports passed through), an external module's namespace or a property of it,
/// nothing (no such export), or a cycle back to an import already being followed (on
/// `tracker_stack`). Each followed import is pushed on `tracker_stack`.
pub fn match_import_with_export(
    modules: &Vec<Module>,
    resolved: &Vec<Vec<ResolvedExportEntry>>,
    is_esm: bool,
    tracker_stack: &mut Vec<ImportTracker>,
    tracker: ImportTracker,
) -> (r: MatchImportKind)
    requires
        bind_input_ok(modules@, views_of(resolved@)),
        is_import_key(modules@, tracker.importer as int, tracker.imported_as),
        tracker.imported == named_import_of(modules[tracker.importer as int], tracker.imported_as)->0.imported,
        tracker_keys(old(tracker_stack)@).no_duplicates(),
        forall|i: int|
            0 <= i < old(tracker_stack)@.len() ==> is_import_key(
                modules@,
                #[trigger] old(tracker_stack)@[i].importer as int,
                old(tracker_stack)@[i].imported_as,
            ),
    ensures
        exists|chain: Seq<(usize, SymbolRef)>|
            #[trigger] match_outcome_ok(
                modules@,
                views_of(resolved@),
                is_esm,
                tracker_keys(old(tracker_stack)@),
                (tracker.importer, tracker.imported_as),
                chain,
                tracker_keys(final(tracker_stack)@),
                r,
            ),
{
    let ghost ms = modules@;
    let ghost rs = views_of(resolved@);
    let ghost seen = tracker_keys(tracker_stack@);
    let ghost mut chain: Seq<(usize, SymbolRef)> = seq![(tracker.importer, tracker.imported_as)];
    let ghost first = (tracker.importer, tracker.imported_as);
    let mut cur = clone_tracker(&tracker);
    let mut reexports: Vec<SymbolRef> = Vec::new();
    proof {
        assert(modules@.len() == modules.len());
        assert(chain.drop_last() =~= Seq::<(usize, SymbolRef)>::empty());
        assert(seen + chain.drop_last() =~= seen);
    }
    loop
        invariant
            seen == tracker_keys(old(tracker_stack)@),
            first == (tracker.importer, tracker.imported_as),
            chain[0] == first,
            ms == modules@,
            rs == views_of(resolved@),
            bind_input_ok(ms, rs),
            ms.len() <= usize::MAX,
            import_chain_ok(ms, rs, seen, chain),
            chain.last() == (cur.importer, cur.imported_as),
            is_import_key(ms, cur.importer as int, cur.imported_as),
            cur.imported == named_import_of(ms[cur.importer as int], cur.imported_as)->0.imported,
            tracker_keys(tracker_stack@) == seen + chain.drop_last(),
            tracker_keys(tracker_stack@).no_duplicates(),
            forall|i: int|
                0 <= i < tracker_stack@.len() ==> is_import_key(
                    ms,
                    #[trigger] tracker_stack@[i].importer as int,
                    tracker_stack@[i].imported_as,
                ),
            reexports@ == chain_reexports(chain),
        decreases all_import_keys(ms).len() - tracker_stack@.len(),
    {
        let ghost keys = tracker_keys(tracker_stack@);
        let mut i: usize = tracker_stack.len();
        while i > 0
            invariant
                i <= tracker_stack.len(),
                keys == tracker_keys(tracker_stack@),
                keys == seen + chain.drop_last(),
                import_chain_ok(ms, rs, seen, chain),
                seen == tracker_keys(old(tracker_stack)@),
                first == (tracker.importer, tracker.imported_as),
                ms == modules@,
                rs == views_of(resolved@),
                chain[0] == first,
                chain.last() == (cur.importer, cur.imported_as),
                forall|k: int| i <= k < keys.len() ==> #[trigger] keys[k] != (cur.importer, cur.imported_as),
            decreases i,
        {
            i -= 1;
            if tracker_stack[i].importer == cur.importer && tracker_stack[i].imported_as == cur.imported_as {
                proof {
                    assert(keys[i as int] == chain.last());
                    assert(keys.contains(chain.last()));
                    assert((seen + chain.drop_last()).contains(chain.last()));
                    assert(import_chain_ok(ms, rs, seen, chain));
                    assert(match_outcome_ok(ms, rs, is_esm, seen, first, chain, tracker_keys(tracker_stack@), MatchImportKind::Cycle));
                }
                return MatchImportKind::Cycle;
            }
        }
        proof {
            assert(!keys.contains(chain.last()));
            lemma_stack_bound(ms, keys.push(chain.last()));
        }
        let ghost before = tracker_stack@;
        tracker_stack.push(clone_tracker(&cur));
        proof {
            assert(tracker_keys(tracker_stack@) =~= keys.push(chain.last()));
            assert(seen + chain =~= keys.push(chain.last()));
        }
        match advance_import_tracker(modules, resolved, &cur) {
            ImportStatus::NoMatch => {
                proof {
                    assert(import_chain_ok(ms, rs, seen, chain));
                    assert(!(seen + chain.drop_last()).contains(chain.last()));
                    assert(tracker_keys(tracker_stack@) == seen + chain);
                    assert(advance_spec(ms, rs, chain.last().0 as int, chain.last().1) is NoMatch);
                    assert(next_import(ms, rs, chain.last().0 as int, chain.last().1) is None);
                    assert(final_match_ok(ms, rs, is_esm, chain.last().0 as int, chain.last().1, chain_reexports(chain), MatchImportKind::NoMatch));
                    assert(match_outcome_ok(ms, rs, is_esm, seen, first, chain, tracker_keys(tracker_stack@), MatchImportKind::NoMatch));
                }
                return MatchImportKind::NoMatch;
            },
            ImportStatus::Matched(symbol) => {
                proof {
                    lemma_advance_owner(ms, rs, cur.importer as int, cur.imported_as);
                }
                let owner = &modules[symbol.owner];
                match find_named_import(owner, symbol) {
                    Some(j) => {
                        let another = &owner.named_imports[j];
                        let rec_target = owner.import_records[another.record_id].resolved_module;
                        if modules[rec_target].is_external {
                            let r = MatchImportKind::Normal { symbol: another.imported_as, reexports: Vec::new() };
                            proof {
                                assert(import_chain_ok(ms, rs, seen, chain));
                                assert(!(seen + chain.drop_last()).contains(chain.last()));
                                assert(final_match_ok(ms, rs, is_esm, chain.last().0 as int, chain.last().1, chain_reexports(chain), r));
                                assert(match_outcome_ok(ms, rs, is_esm, seen, first, chain, tracker_keys(tracker_stack@), r));
                            }
                            return r;
                        }
                        let ghost c0 = chain;
                        proof {
                            chain = chain.push((symbol.owner, symbol));
                            assert(next_import(ms, rs, c0.last().0 as int, c0.last().1) == Some((symbol.owner, symbol)));
                            lemma_next_is_key(ms, rs, c0.last().0 as int, c0.last().1);
                            assert(chain.drop_last() =~= c0);
                            assert forall|q: int| 0 <= q < chain.len() - 1 implies next_import(
                                ms,
                                rs,
                                chain[q].0 as int,
                                chain[q].1,
                            ) == Some(#[trigger] chain[q + 1]) by {
                                if q < c0.len() - 1 {
                                    assert(chain[q] == c0[q] && chain[q + 1] == c0[q + 1]);
                                }
                            }
                            assert forall|q: int| 0 <= q < chain.len() - 1 implies !(seen + chain.subrange(0, q)).contains(
                                #[trigger] chain[q],
                            ) by {
                                assert(chain.subrange(0, q) =~= c0.subrange(0, q));
                                assert(chain[q] == c0[q]);
                                if q == c0.len() - 1 {
                                    assert(seen + c0.subrange(0, q) =~= keys);
                                }
                            }
                        }
                        cur = ImportTracker {
                            importer: symbol.owner,
                            importee: rec_target,
                            imported: clone_specifier(&another.imported),
                            imported_as: another.imported_as,
                        };
                        reexports.push(another.imported_as);
                        proof {
                            assert(reexports@ =~= chain_reexports(chain));
                        }
                    },
                    None => {
                        let r = MatchImportKind::Normal { symbol, reexports };
                        proof {
                            assert(import_chain_ok(ms, rs, seen, chain));
                            assert(!(seen + chain.drop_last()).contains(chain.last()));
                            assert(tracker_keys(tracker_stack@) == seen + chain);
                            assert(advance_spec(ms, rs, chain.last().0 as int, chain.last().1) == ImportStatus::Matched(symbol));
                            assert(named_import_of(ms[symbol.owner as int], symbol) is None);
                            assert(next_import(ms, rs, chain.last().0 as int, chain.last().1) is None);
                            assert(final_match_ok(ms, rs, is_esm, chain.last().0 as int, chain.last().1, chain_reexports(chain), r));
                            assert(match_outcome_ok(ms, rs, is_esm, seen, first, chain, tracker_keys(tracker_stack@), r));
                        }
                        return r;
                    },
                }
            },
            ImportStatus::External(namespace_ref) => {
                proof {
                    assert(import_chain_ok(ms, rs, seen, chain));
                    assert(!(seen + chain.drop_last()).contains(chain.last()));
                }
                let r = if is_esm {
                    MatchImportKind::Normal { symbol: cur.imported_as, reexports: Vec::new() }
                } else {
                    match &cur.imported {
                        Specifier::Star => MatchImportKind::Namespace(namespace_ref),
                        Specifier::Literal(alias) => MatchImportKind::NormalAndNamespace { namespace_ref, alias: alias.clone() },
                    }
                };
                proof {
                    assert(tracker_keys(tracker_stack@) == seen + chain);
                    assert(next_import(ms, rs, chain.last().0 as int, chain.last().1) is None);
                    assert(final_match_ok(ms, rs, is_esm, chain.last().0 as int, chain.last().1, chain_reexports(chain), r));
                    assert(match_outcome_ok(ms, rs, is_esm, seen, first, chain, tracker_keys(tracker_stack@), r));
                }
                return r;
            },
        }
    }
}

proof fn lemma_advance_owner(modules: Seq<Module>, resolved: Seq<Seq<ResolvedExportEntry>>, m: int, sym: SymbolRef)
    requires
        bind_input_ok(modules, resolved),
        is_import_key(modules, m, sym),
    ensures
        advance_spec(modules, resolved, m, sym) matches ImportStatus::Matched(s) ==> s.owner < modules.len()
            && !modules[s.owner as int].is_external,
{
    let j = choose|j: int| 0 <= j < modules[m].named_imports.len() && (#[trigger] modules[m].named_imports[j]).imported_as == sym;
    assert(modules[m].named_imports[j].record_id < modules[m].import_records.len());
    let t = import_target(modules, m, sym);
    assert(0 <= t < modules.len());
    match advance_spec(modules, resolved, m, sym) {
        ImportStatus::Matched(s) => {
            match named_import_of(modules[m], sym)->0.imported {
                Specifier::Star => {
                    assert(modules[t].namespace_object_ref.owner == t);
                },
                Specifier::Literal(name) => {
                    let k = choose|k: int| 0 <= k < resolved[t].len() && (#[trigger] resolved[t][k]).name@ == name@;
                    assert(resolved[t][k].symbol.owner < modules.len());
                },
            }
        },
        _ => {},
    }
}

/// Following the import (`m`, `sym`) alone gives `r`.
pub open spec fn resolves_to(
    modules: Seq<Module>,
    resolved: Seq<Seq<ResolvedExportEntry>>,
    is_esm: bool,
    m: int,
    sym: SymbolRef,
    r: MatchImportKind,
) -> bool {
    exists|chain: Seq<(usize, SymbolRef)>, final_keys: Seq<(usize, SymbolRef)>|
        #[trigger] match_outcome_ok(modules, resolved, is_esm, seq![], (m as usize, sym), chain, final_keys, r)
}

/// The imports of external modules by name: the module, the imported name, and the local
/// bindings, each once, in the order they were met.
#[derive(Clone, Debug)]
pub struct ExternalImportGroup {
    pub module: ModuleIdx,
    pub name: String,
    pub symbols: Vec<SymbolRef>,
}

/// An import bound to a symbol, with the re-exported imports it went through.
#[derive(Clone, Debug)]
pub struct ReexportChain {
    pub imported_as: SymbolRef,
    pub reexports: Vec<SymbolRef>,
}

/// How a specifier is shown to users.
pub open spec fn specifier_text(s: Specifier) -> Seq<char> {
    match s {
        Specifier::Star => "*"@,
        Specifier::Literal(n) => n@,
    }
}

/// The error for an import with no matching export.
pub open spec fn no_match_message(imported: Specifier, importee: Seq<char>, importer: Seq<char>) -> Seq<char> {
    "\""@ + specifier_text(imported) + "\" is not exported by \""@ + importee + "\", imported by \""@ + importer
        + "\"."@
}

/// The canonical symbol of `s` in `rows`.
pub open spec fn canonical_in(rows: Seq<Seq<SymbolInfo>>, s: SymbolRef) -> SymbolRef {
    rows[s.owner as int][s.symbol as int].canonical
}

/// The symbols after binding the import `sym` to `r`.
pub open spec fn bind_rows_step(rows: Seq<Seq<SymbolInfo>>, sym: SymbolRef, r: MatchImportKind) -> Seq<Seq<SymbolInfo>> {
    match r {
        MatchImportKind::Namespace(ns) => linked_rows(rows, canonical_in(rows, sym), canonical_in(rows, ns)),
        MatchImportKind::Normal { symbol, .. } => linked_rows(rows, canonical_in(rows, sym), canonical_in(rows, symbol)),
        MatchImportKind::NormalAndNamespace { namespace_ref, alias } => {
            let info = rows[sym.owner as int][sym.symbol as int];
            rows.update(
                sym.owner as int,
                rows[sym.owner as int].update(
                    sym.symbol as int,
                    SymbolInfo {
                        name: info.name,
                        canonical: info.canonical,
                        namespace_alias: Some(NamespaceAlias { property_name: alias, namespace_ref }),
                    },
                ),
            )
        },
        _ => rows,
    }
}

/// `deps` with the owner of each re-exported import that has side effects, each added once.
pub open spec fn add_reexport_owners(deps: Seq<usize>, reexports: Seq<SymbolRef>, side_effects: Seq<bool>) -> Seq<usize>
    decreases reexports.len(),
{
    if reexports.len() == 0 {
        deps
    } else {
        let d = add_reexport_owners(deps, reexports.drop_last(), side_effects);
        let o = reexports.last().owner;
        if side_effects[o as int] && !d.contains(o) {
            d.push(o)
        } else {
            d
        }
    }
}

/// `groups` with `sym` recorded as a binding of `name` imported from module `m`.
pub open spec fn add_external_import(
    groups: Seq<(usize, Seq<char>, Seq<SymbolRef>)>,
    m: usize,
    name: Seq<char>,
    sym: SymbolRef,
) -> Seq<(usize, Seq<char>, Seq<SymbolRef>)> {
    if exists|k: int| 0 <= k < groups.len() && (#[trigger] groups[k]).0 == m && groups[k].1 == name {
        let k = choose|k: int| 0 <= k < groups.len() && (#[trigger] groups[k]).0 == m && groups[k].1 == name;
        if groups[k].2.contains(sym) {
            groups
        } else {
            groups.update(k, (m, name, groups[k].2.push(sym)))
        }
    } else {
        groups.push((m, name, seq![sym]))
    }
}

pub(crate) proof fn lemma_groups_ok_add(
    groups: Seq<(usize, Seq<char>, Seq<SymbolRef>)>,
    rows: Seq<Seq<SymbolInfo>>,
    m: usize,
    name: Seq<char>,
    sym: SymbolRef,
)
    requires
        groups_ok(groups, rows),
        m < rows.len(),
        in_rows(rows, sym),
    ensures
        groups_ok(add_external_import(groups, m, name, sym), rows),
{
    let r = add_external_import(groups, m, name, sym);
    assert forall|q: int| 0 <= q < r.len() implies (#[trigger] r[q]).0 < rows.len() && forall|i: int|
        0 <= i < r[q].2.len() ==> in_rows(rows, #[trigger] r[q].2[i]) by {
        if q < groups.len() {
            assert(groups[q].0 < rows.len());
            assert forall|i: int| 0 <= i < r[q].2.len() implies in_rows(rows, #[trigger] r[q].2[i]) by {
                if i < groups[q].2.len() {
                    assert(in_rows(rows, groups[q].2[i]));
                }
            }
        }
    }
}

/// The views of external import groups.
pub open spec fn group_views(g: Seq<ExternalImportGroup>) -> Seq<(usize, Seq<char>, Seq<SymbolRef>)> {
    Seq::new(g.len(), |k: int| (g[k].module, g[k].name@, g[k].symbols@))
}

/// The views of re-export chains.
pub open spec fn chain_views(c: Seq<ReexportChain>) -> Seq<(SymbolRef, Seq<SymbolRef>)> {
    Seq::new(c.len(), |k: int| (c[k].imported_as, c[k].reexports@))
}

/// The state of binding, as views: symbols, dependencies of the importing module, errors,
/// external imports, re-export chains.
pub open spec fn bind_fold(
    modules: Seq<Module>,
    is_esm: bool,
    side_effects: Seq<bool>,
    m: int,
    nis: Seq<NamedImport>,
    results: Seq<MatchImportKind>,
    rows: Seq<Seq<SymbolInfo>>,
    deps: Seq<usize>,
    errors: Seq<Seq<char>>,
    groups: Seq<(usize, Seq<char>, Seq<SymbolRef>)>,
    chains: Seq<(SymbolRef, Seq<SymbolRef>)>,
) -> (Seq<Seq<SymbolInfo>>, Seq<usize>, Seq<Seq<char>>, Seq<(usize, Seq<char>, Seq<SymbolRef>)>, Seq<(SymbolRef, Seq<SymbolRef>)>)
    decreases nis.len(),
{
    if nis.len() == 0 {
        (rows, deps, errors, groups, chains)
    } else {
        let prev = bind_fold(
            modules,
            is_esm,
            side_effects,
            m,
            nis.drop_last(),
            results.subrange(0, nis.len() - 1),
            rows,
            deps,
            errors,
            groups,
            chains,
        );
        let ni = nis.last();
        let r = results[nis.len() - 1];
        let target = modules[m].import_records[ni.record_id as int].resolved_module;
        let groups2 = if is_esm && modules[target as int].is_external {
            match ni.imported {
                Specifier::Literal(name) => add_external_import(prev.3, target, name@, ni.imported_as),
                Specifier::Star => prev.3,
            }
        } else {
            prev.3
        };
        (
            bind_rows_step(prev.0, ni.imported_as, r),
            match r {
                MatchImportKind::Normal { reexports, .. } => add_reexport_owners(prev.1, reexports@, side_effects),
                _ => prev.1,
            },
            match r {
                MatchImportKind::NoMatch => prev.2.push(
                    no_match_message(ni.imported, modules[target as int].stable_id@, modules[m].stable_id@),
                ),
                _ => prev.2,
            },
            groups2,
            match r {
                MatchImportKind::Normal { reexports, .. } => prev.4.push((ni.imported_as, reexports@)),
                _ => prev.4,
            },
        )
    }
}

/// The symbols that binding reads and writes exist.
pub open spec fn bind_db_ok(modules: Seq<Module>, resolved: Seq<Seq<ResolvedExportEntry>>, db: SymbolRefDb) -> bool {
    &&& db.wf()
    &&& forall|m: int| 0 <= m < modules.len() ==> db.has(#[trigger] modules[m].namespace_object_ref)
    &&& forall|m: int, j: int|
        0 <= m < modules.len() && 0 <= j < modules[m].named_imports.len() ==> db.has(
            #[trigger] modules[m].named_imports[j].imported_as,
        )
    &&& forall|m: int, k: int| 0 <= m < resolved.len() && 0 <= k < resolved[m].len() ==> db.has(#[trigger] resolved[m][k].symbol)
}

/// Two symbol tables have the same shape.
pub open spec fn same_shape(a: Seq<Seq<SymbolInfo>>, b: Seq<Seq<SymbolInfo>>) -> bool {
    a.len() == b.len() && forall|o: int| 0 <= o < a.len() ==> #[trigger] a[o].len() == b[o].len()
}

proof fn lemma_same_shape_has(db1: SymbolRefDb, db2: SymbolRefDb, s: SymbolRef)
    requires
        same_shape(db1.view_rows(), db2.view_rows()),
        db1.has(s),
    ensures
        db2.has(s),
{
    assert(db1.view_rows()[s.owner as int].len() == db2.view_rows()[s.owner as int].len());
}

proof fn lemma_has_grow(db1: SymbolRefDb, db2: SymbolRefDb, s: SymbolRef)
    requires
        db1.has(s),
        db2.symbols.len() == db1.symbols.len(),
        forall|o: int| 0 <= o < db1.symbols.len() ==> (#[trigger] db2.symbols@[o]).len() >= db1.symbols@[o].len(),
    ensures
        db2.has(s),
{
    assert(db2.symbols@[s.owner as int].len() >= db1.symbols@[s.owner as int].len());
}

proof fn lemma_chain_keys(
    modules: Seq<Module>,
    resolved: Seq<Seq<ResolvedExportEntry>>,
    seen: Seq<(usize, SymbolRef)>,
    chain: Seq<(usize, SymbolRef)>,
    i: int,
)
    requires
        bind_input_ok(modules, resolved),
        import_chain_ok(modules, resolved, seen, chain),
        is_import_key(modules, chain[0].0 as int, chain[0].1),
        0 <= i < chain.len(),
    ensures
        is_import_key(modules, chain[i].0 as int, chain[i].1),
    decreases i,
{
    if i > 0 {
        lemma_chain_keys(modules, resolved, seen, chain, i - 1);
        assert(next_import(modules, resolved, chain[i - 1].0 as int, chain[i - 1].1) == Some(chain[(i - 1) + 1]));
        lemma_next_is_key(modules, resolved, chain[i - 1].0 as int, chain[i - 1].1);
    }
}

proof fn lemma_result_symbols_exist(
    modules: Seq<Module>,
    resolved: Seq<Seq<ResolvedExportEntry>>,
    db: SymbolRefDb,
    is_esm: bool,
    m: int,
    sym: SymbolRef,
    r: MatchImportKind,
)
    requires
        bind_input_ok(modules, resolved),
        bind_db_ok(modules, resolved, db),
        is_import_key(modules, m, sym),
        resolves_to(modules, resolved, is_esm, m, sym, r),
    ensures
        match r {
            MatchImportKind::Normal { symbol, reexports } => db.has(symbol) && forall|i: int|
                0 <= i < reexports.len() ==> (#[trigger] reexports@[i]).owner < modules.len(),
            MatchImportKind::Namespace(ns) => db.has(ns),
            MatchImportKind::NormalAndNamespace { namespace_ref, .. } => db.has(namespace_ref),
            _ => true,
        },
{
    let (chain, fk) = choose|chain: Seq<(usize, SymbolRef)>, final_keys: Seq<(usize, SymbolRef)>|
        #[trigger] match_outcome_ok(modules, resolved, is_esm, seq![], (m as usize, sym), chain, final_keys, r);
    if !(seq![] + chain.drop_last()).contains(chain.last()) {
        assert forall|i: int| 0 <= i < chain.len() - 1 implies (#[trigger] chain_reexports(chain)[i]).owner < modules.len() by {
            lemma_chain_keys(modules, resolved, seq![], chain, i);
            lemma_chain_keys(modules, resolved, seq![], chain, i + 1);
            assert(next_import(modules, resolved, chain[i].0 as int, chain[i].1) == Some(chain[i + 1]));
        }
        lemma_chain_keys(modules, resolved, seq![], chain, chain.len() - 1);
        let lm = chain.last().0 as int;
        let ls = chain.last().1;
        let j = choose|j: int| 0 <= j < modules[lm].named_imports.len() && (#[trigger] modules[lm].named_imports[j]).imported_as == ls;
        assert(db.has(modules[lm].named_imports[j].imported_as));
        assert(modules[lm].named_imports[j].record_id < modules[lm].import_records.len());
        let t = import_target(modules, lm, ls);
        assert(0 <= t < modules.len());
        assert(db.has(modules[t].namespace_object_ref));
        match advance_spec(modules, resolved, lm, ls) {
            ImportStatus::Matched(s) => {
                match named_import_of(modules[lm], ls)->0.imported {
                    Specifier::Literal(name) => {
                        if !modules[t].is_external {
                            let k = choose|k: int| 0 <= k < resolved[t].len() && (#[trigger] resolved[t][k]).name@ == name@;
                            assert(db.has(resolved[t][k].symbol));
                        }
                    },
                    _ => {},
                }
            },
            _ => {},
        }
    }
}

fn add_dependency_owners(deps: &mut Vec<usize>, reexports: &Vec<SymbolRef>, side_effects: &Vec<bool>)
    requires
        forall|i: int| 0 <= i < reexports.len() ==> (#[trigger] reexports[i]).owner < side_effects.len(),
    ensures
        final(deps)@ == add_reexport_owners(old(deps)@, reexports@, side_effects@),
{
    let ghost d0 = deps@;
    let mut i: usize = 0;
    while i < reexports.len()
        invariant
            i <= reexports.len(),
            forall|k: int| 0 <= k < reexports.len() ==> (#[trigger] reexports[k]).owner < side_effects.len(),
            deps@ == add_reexport_owners(d0, reexports@.subrange(0, i as int), side_effects@),
        decreases reexports.len() - i,
    {
        let o = reexports[i].owner;
        let ghost sub = reexports@.subrange(0, i as int + 1);
        proof {
            assert(sub.drop_last() =~= reexports@.subrange(0, i as int));
        }
        if side_effects[o] {
            let mut present = false;
            let mut k: usize = 0;
            while k < deps.len()
                invariant
                    k <= deps.len(),
                    present == deps@.subrange(0, k as int).contains(o),
                decreases deps.len() - k,
            {
                if deps[k] == o {
                    present = true;
                }
                proof {
                    let p = deps@.subrange(0, k as int + 1);
                    assert(p.drop_last() =~= deps@.subrange(0, k as int));
                    if deps[k as int] == o {
                        assert(p[k as int] == o);
                    }
                    if p.contains(o) && !deps@.subrange(0, k as int).contains(o) {
                        let q = choose|q: int| 0 <= q < p.len() && p[q] == o;
                        assert(q == k);
                    }
                    if deps@.subrange(0, k as int).contains(o) {
                        let q = choose|q: int| 0 <= q < k && deps@.subrange(0, k as int)[q] == o;
                        assert(p[q] == o);
                    }
                }
                k += 1;
            }
            proof {
                assert(deps@.subrange(0, deps.len() as int) =~= deps@);
            }
            if !present {
                deps.push(o);
            }
        }
        i += 1;
    }
    proof {
        assert(reexports@.subrange(0, reexports.len() as int) =~= reexports@);
    }
}

fn record_external_import(groups: &mut Vec<ExternalImportGroup>, m: usize, name: &String, sym: SymbolRef)
    requires
        forall|k1: int, k2: int|
            0 <= k1 < old(groups).len() && 0 <= k2 < old(groups).len() && k1 != k2 ==> !((#[trigger] old(groups)[k1]).module
                == (#[trigger] old(groups)[k2]).module && old(groups)[k1].name@ == old(groups)[k2].name@),
    ensures
        group_views(final(groups)@) == add_external_import(group_views(old(groups)@), m, name@, sym),
        forall|k1: int, k2: int|
            0 <= k1 < final(groups).len() && 0 <= k2 < final(groups).len() && k1 != k2 ==> !((#[trigger] final(groups)[k1]).module
                == (#[trigger] final(groups)[k2]).module && final(groups)[k1].name@ == final(groups)[k2].name@),
{
    let ghost g0 = group_views(groups@);
    let mut k: usize = 0;
    while k < groups.len()
        invariant
            k <= groups.len(),
            g0 == group_views(groups@),
            groups@ == old(groups)@,
            forall|q: int| 0 <= q < k ==> !((#[trigger] groups[q]).module == m && groups[q].name@ == name@),
            forall|k1: int, k2: int|
                0 <= k1 < groups.len() && 0 <= k2 < groups.len() && k1 != k2 ==> !((#[trigger] groups[k1]).module
                    == (#[trigger] groups[k2]).module && groups[k1].name@ == groups[k2].name@),
        decreases groups.len() - k,
    {
        if groups[k].module == m && groups[k].name == *name {
            proof {
                assert(g0[k as int] == (groups[k as int].module, groups[k as int].name@, groups[k as int].symbols@));
                let c = choose|q: int| 0 <= q < g0.len() && (#[trigger] g0[q]).0 == m && g0[q].1 == name@;
                assert(g0[c] == (groups[c].module, groups[c].name@, groups[c].symbols@));
                if c != k {
                    assert(!(groups[c].module == groups[k as int].module && groups[c].name@ == groups[k as int].name@));
                }
            }
            let mut present = false;
            let mut q: usize = 0;
            while q < groups[k].symbols.len()
                invariant
                    k < groups.len(),
                    g0 == group_views(groups@),
                    groups@ == old(groups)@,
                    q <= groups[k as int].symbols.len(),
                    present == groups[k as int].symbols@.subrange(0, q as int).contains(sym),
                decreases groups[k as int].symbols.len() - q,
            {
                if groups[k].symbols[q] == sym {
                    present = true;
                }
                proof {
                    let p = groups[k as int].symbols@.subrange(0, q as int + 1);
                    let p0 = groups[k as int].symbols@.subrange(0, q as int);
                    assert(p.drop_last() =~= p0);
                    if groups[k as int].symbols@[q as int] == sym {
                        assert(p[q as int] == sym);
                    }
                    if p.contains(sym) && !p0.contains(sym) {
                        let w = choose|w: int| 0 <= w < p.len() && p[w] == sym;
                        assert(w == q);
                    }
                    if p0.contains(sym) {
                        let w = choose|w: int| 0 <= w < q && p0[w] == sym;
                        assert(p[w] == sym);
                    }
                }
                q += 1;
            }
            proof {
                assert(groups[k as int].symbols@.subrange(0, groups[k as int].symbols.len() as int) =~= groups[k as int].symbols@);
            }
            if !present {
                let ghost before = groups@;
                groups[k].symbols.push(sym);
                proof {
                    assert(group_views(groups@) =~= g0.update(k as int, (m, name@, g0[k as int].2.push(sym))));
                    assert forall|k1: int, k2: int|
                        0 <= k1 < groups.len() && 0 <= k2 < groups.len() && k1 != k2 implies !((#[trigger] groups[k1]).module
                            == (#[trigger] groups[k2]).module && groups[k1].name@ == groups[k2].name@) by {
                        assert(groups[k1].module == before[k1].module && groups[k1].name == before[k1].name);
                        assert(groups[k2].module == before[k2].module && groups[k2].name == before[k2].name);
                    }
                }
            }
            return;
        }
        k += 1;
    }
    let mut symbols: Vec<SymbolRef> = Vec::new();
    symbols.push(sym);
    let ghost before = groups@;
    groups.push(ExternalImportGroup { module: m, name: name.clone(), symbols });
    proof {
        assert forall|q: int| 0 <= q < g0.len() && (#[trigger] g0[q]).0 == m implies g0[q].1 != name@ by {
            assert(g0[q] == (before[q].module, before[q].name@, before[q].symbols@));
        }
        assert(group_views(groups@) =~= g0.push((m, name@, seq![sym])));
        assert forall|k1: int, k2: int|
            0 <= k1 < groups.len() && 0 <= k2 < groups.len() && k1 != k2 implies !((#[trigger] groups[k1]).module
                == (#[trigger] groups[k2]).module && groups[k1].name@ == groups[k2].name@) by {
            if k1 < before.len() {
                assert(groups[k1] == before[k1]);
            }
            if k2 < before.len() {
                assert(groups[k2] == before[k2]);
            }
        }
    }
}

/// Writes the error for an import with no matching export.
fn no_match_error(imported: &Specifier, importee: &String, importer: &String) -> (r: String)
    ensures
        r@ == no_match_message(*imported, importee@, importer@),
{
    let mut s = String::from_str("\"");
    match imported {
        Specifier::Star => s.append("*"),
        Specifier::Literal(n) => s.append(n.as_str()),
    }
    s.append("\" is not exported by \"");
    s.append(importee.as_str());
    s.append("\", imported by \"");
    s.append(importer.as_str());
    s.append("\".");
    s
}

proof fn lemma_named_import_at(m: Module, j: int)
    requires
        0 <= j < m.named_imports.len(),
        forall|j1: int, j2: int|
            0 <= j1 < m.named_imports.len() && 0 <= j2 < m.named_imports.len() && j1 != j2
                ==> #[trigger] m.named_imports[j1].imported_as != #[trigger] m.named_imports[j2].imported_as,
    ensures
        named_import_of(m, m.named_imports[j].imported_as) == Some(m.named_imports[j]),
{
    let sym = m.named_imports[j].imported_as;
    let c = choose|k: int| 0 <= k < m.named_imports.len() && (#[trigger] m.named_imports[k]).imported_as == sym;
    if c != j {
        assert(m.named_imports[c].imported_as != m.named_imports[j].imported_as);
    }
}

/// The imports of module `m` resolve to `results`, and binding them in order takes the
/// binding state from `before` to `after`.
pub open spec fn module_imports_bound(
    modules: Seq<Module>,
    resolved: Seq<Seq<ResolvedExportEntry>>,
    is_esm: bool,
    side_effects: Seq<bool>,
    m: int,
    results: Seq<MatchImportKind>,
    before: (Seq<Seq<SymbolInfo>>, Seq<usize>, Seq<Seq<char>>, Seq<(usize, Seq<char>, Seq<SymbolRef>)>, Seq<(SymbolRef, Seq<SymbolRef>)>),
    after: (Seq<Seq<SymbolInfo>>, Seq<usize>, Seq<Seq<char>>, Seq<(usize, Seq<char>, Seq<SymbolRef>)>, Seq<(SymbolRef, Seq<SymbolRef>)>),
) -> bool {
    let nis: Seq<NamedImport> = if modules[m].is_external {
        seq![]
    } else {
        modules[m].named_imports@
    };
    &&& results.len() == nis.len()
    &&& forall|j: int| 0 <= j < nis.len() ==> resolves_to(modules, resolved, is_esm, m, nis[j].imported_as, #[trigger] results[j])
    &&& bind_fold(modules, is_esm, side_effects, m, nis, results, before.0, before.1, before.2, before.3, before.4) == after
}

/// Binds every import of a module to what it resolves to: an import of a symbol or of a
/// namespace is linked to it, an import of a property of an external namespace records the
/// alias, and an import with no matching export is reported. Imports by name from external
/// modules are grouped for ES module output, and the modules with side effects that a bound
/// import was re-exported through become dependencies of the module.
pub fn match_imports_with_exports(
    modules: &Vec<Module>,
    resolved: &Vec<Vec<ResolvedExportEntry>>,
    is_esm: bool,
    side_effects_modules: &Vec<bool>,
    module_idx: ModuleIdx,
    symbol_db: &mut SymbolRefDb,
    dependencies: &mut Vec<ModuleIdx>,
    errors: &mut Vec<String>,
    external_imports: &mut Vec<ExternalImportGroup>,
    chain_map: &mut Vec<ReexportChain>,
)
    requires
        bind_input_ok(modules@, views_of(resolved@)),
        bind_db_ok(modules@, views_of(resolved@), *old(symbol_db)),
        module_idx < modules.len(),
        side_effects_modules.len() == modules.len(),
        forall|k1: int, k2: int|
            0 <= k1 < old(external_imports).len() && 0 <= k2 < old(external_imports).len() && k1 != k2 ==> !((#[trigger] old(
                external_imports,
            )[k1]).module == (#[trigger] old(external_imports)[k2]).module && old(external_imports)[k1].name@ == old(
                external_imports,
            )[k2].name@),
        groups_ok(group_views(old(external_imports)@), old(symbol_db).view_rows()),
    ensures
        bind_db_ok(modules@, views_of(resolved@), *final(symbol_db)),
        same_shape(old(symbol_db).view_rows(), final(symbol_db).view_rows()),
        groups_ok(group_views(final(external_imports)@), final(symbol_db).view_rows()),
        forall|k1: int, k2: int|
            0 <= k1 < final(external_imports).len() && 0 <= k2 < final(external_imports).len() && k1 != k2 ==> !((#[trigger] final(external_imports)[k1]).module == (#[trigger] final(external_imports)[k2]).module && final(external_imports)[k1].name@ == final(external_imports)[k2].name@),
        exists|results: Seq<MatchImportKind>|
            #[trigger] module_imports_bound(
                modules@,
                views_of(resolved@),
                is_esm,
                side_effects_modules@,
                module_idx as int,
                results,
                (
                    old(symbol_db).view_rows(),
                    old(dependencies)@,
                    views(old(errors)@),
                    group_views(old(external_imports)@),
                    chain_views(old(chain_map)@),
                ),
                (
                    final(symbol_db).view_rows(),
                    final(dependencies)@,
                    views(final(errors)@),
                    group_views(final(external_imports)@),
                    chain_views(final(chain_map)@),
                ),
            ),
{
    let ghost ms = modules@;
    let ghost rs = views_of(resolved@);
    let ghost rows0 = symbol_db.view_rows();
    let ghost deps0 = dependencies@;
    let ghost errs0 = views(errors@);
    let ghost groups0 = group_views(external_imports@);
    let ghost chains0 = chain_views(chain_map@);
    let ghost mut results: Seq<MatchImportKind> = seq![];
    let module = &modules[module_idx];
    if module.is_external {
        proof {
            assert(bind_fold(ms, is_esm, side_effects_modules@, module_idx as int, seq![], results, rows0, deps0, errs0, groups0, chains0)
                == (rows0, deps0, errs0, groups0, chains0));
            assert(module_imports_bound(ms, rs, is_esm, side_effects_modules@, module_idx as int, results,
                (rows0, deps0, errs0, groups0, chains0),
                (symbol_db.view_rows(), dependencies@, views(errors@), group_views(external_imports@), chain_views(chain_map@))));
        }
        return;
    }
    let ghost nis = module.named_imports@;
    let mut j: usize = 0;
    while j < module.named_imports.len()
        invariant
            ms == modules@,
            rs == views_of(resolved@),
            *module == ms[module_idx as int],
            !module.is_external,
            nis == module.named_imports@,
            bind_input_ok(ms, rs),
            module_idx < ms.len(),
            side_effects_modules.len() == ms.len(),
            j <= nis.len(),
            results.len() == j,
            bind_db_ok(ms, rs, *symbol_db),
            same_shape(rows0, symbol_db.view_rows()),
            groups_ok(group_views(external_imports@), symbol_db.view_rows()),
            forall|k1: int, k2: int|
                0 <= k1 < external_imports.len() && 0 <= k2 < external_imports.len() && k1 != k2 ==> !((
                #[trigger] external_imports[k1]).module == (#[trigger] external_imports[k2]).module
                    && external_imports[k1].name@ == external_imports[k2].name@),
            forall|q: int|
                0 <= q < j ==> resolves_to(ms, rs, is_esm, module_idx as int, nis[q].imported_as, #[trigger] results[q]),
            bind_fold(
                ms,
                is_esm,
                side_effects_modules@,
                module_idx as int,
                nis.subrange(0, j as int),
                results,
                rows0,
                deps0,
                errs0,
                groups0,
                chains0,
            ) == (
                symbol_db.view_rows(),
                dependencies@,
                views(errors@),
                group_views(external_imports@),
                chain_views(chain_map@),
            ),
        decreases nis.len() - j,
    {
        let ni = &module.named_imports[j];
        let imported_as = ni.imported_as;
        proof {
            lemma_named_import_at(*module, j as int);
            assert(ms[module_idx as int].named_imports[j as int] == *ni);
            assert(ni.record_id < module.import_records.len());
        }
        let target = module.import_records[ni.record_id].resolved_module;
        let ghost prev = (symbol_db.view_rows(), dependencies@, views(errors@), group_views(external_imports@), chain_views(chain_map@));
        if is_esm && modules[target].is_external {
            match &ni.imported {
                Specifier::Literal(name) => {
                    let ghost g_before = group_views(external_imports@);
                    record_external_import(external_imports, target, name, imported_as);
                    proof {
                        assert(symbol_db.has(ms[target as int].namespace_object_ref));
                        assert(symbol_db.view_rows()[imported_as.owner as int].len() == symbol_db.symbols@[imported_as.owner as int].len());
                        lemma_groups_ok_add(g_before, symbol_db.view_rows(), target, name@, imported_as);
                    }
                },
                Specifier::Star => {},
            }
        }
        let ghost groups2 = group_views(external_imports@);
        let tracker = ImportTracker {
            importer: module_idx,
            importee: target,
            imported: clone_specifier(&ni.imported),
            imported_as,
        };
        let mut stack: Vec<ImportTracker> = Vec::new();
        proof {
            assert(tracker_keys(stack@) =~= Seq::<(usize, SymbolRef)>::empty());
            assert(modules@.len() == modules.len());
        }
        let ret = match_import_with_export(modules, resolved, is_esm, &mut stack, tracker);
        proof {
            assert(tracker_keys(seq![]) =~= seq![]);
            let chain = choose|chain: Seq<(usize, SymbolRef)>|
                #[trigger] match_outcome_ok(ms, rs, is_esm, tracker_keys(seq![]), (module_idx, imported_as), chain, tracker_keys(stack@), ret);
            assert(match_outcome_ok(ms, rs, is_esm, seq![], (module_idx, imported_as), chain, tracker_keys(stack@), ret));
            assert(resolves_to(ms, rs, is_esm, module_idx as int, imported_as, ret));
            lemma_result_symbols_exist(ms, rs, *symbol_db, is_esm, module_idx as int, imported_as, ret);
            assert(symbol_db.has(imported_as));
        }
        let ghost db_before = *symbol_db;
        let ghost retg = ret;
        let ghost errs_before = errors@;
        let ghost chains_before = chain_map@;
        match ret {
            MatchImportKind::Namespace(ns) => {
                symbol_db.link(imported_as, ns);
            },
            MatchImportKind::Normal { symbol, reexports } => {
                add_dependency_owners(dependencies, &reexports, side_effects_modules);
                let ghost rx = reexports@;
                chain_map.push(ReexportChain { imported_as, reexports });
                proof {
                    assert(chain_views(chain_map@) =~= chain_views(chains_before).push((imported_as, rx)));
                }
                symbol_db.link(imported_as, symbol);
            },
            MatchImportKind::NormalAndNamespace { namespace_ref, alias } => {
                symbol_db.set_namespace_alias(imported_as, alias, namespace_ref);
            },
            MatchImportKind::NoMatch => {
                let msg = no_match_error(&ni.imported, &modules[target].stable_id, &module.stable_id);
                errors.push(msg);
                proof {
                    assert(views(errors@) =~= views(errs_before).push(msg@));
                }
            },
            MatchImportKind::Cycle => {},
        }
        proof {
            let r0 = results;
            results = results.push(retg);
            assert(nis.subrange(0, j as int + 1).drop_last() =~= nis.subrange(0, j as int));
            assert(nis.subrange(0, j as int + 1).last() == *ni);
            assert(results.subrange(0, j as int) =~= r0);
            assert forall|q: int| 0 <= q < j + 1 implies resolves_to(ms, rs, is_esm, module_idx as int, nis[q].imported_as, #[trigger] results[q]) by {
                if q < j {
                    assert(results[q] == r0[q]);
                }
            }
            assert(canonical_in(db_before.view_rows(), imported_as) == db_before.info(imported_as).canonical);
            match retg {
                MatchImportKind::Namespace(ns) => {
                    assert(canonical_in(db_before.view_rows(), ns) == db_before.info(ns).canonical);
                },
                MatchImportKind::Normal { symbol, .. } => {
                    assert(canonical_in(db_before.view_rows(), symbol) == db_before.info(symbol).canonical);
                },
                MatchImportKind::NormalAndNamespace { .. } => {
                    assert(db_before.view_rows()[imported_as.owner as int][imported_as.symbol as int] == db_before.info(imported_as));
                },
                _ => {},
            }
            assert(same_shape(db_before.view_rows(), symbol_db.view_rows()));
            lemma_groups_ok_grow(group_views(external_imports@), db_before.view_rows(), symbol_db.view_rows());
            assert forall|m2: int| 0 <= m2 < ms.len() implies symbol_db.has(#[trigger] ms[m2].namespace_object_ref) by {
                lemma_same_shape_has(db_before, *symbol_db, ms[m2].namespace_object_ref);
            }
            assert forall|m2: int, j2: int|
                0 <= m2 < ms.len() && 0 <= j2 < ms[m2].named_imports.len() implies symbol_db.has(
                    #[trigger] ms[m2].named_imports[j2].imported_as,
                ) by {
                lemma_same_shape_has(db_before, *symbol_db, ms[m2].named_imports[j2].imported_as);
            }
            assert forall|m2: int, k: int| 0 <= m2 < rs.len() && 0 <= k < rs[m2].len() implies symbol_db.has(#[trigger] rs[m2][k].symbol) by {
                lemma_same_shape_has(db_before, *symbol_db, rs[m2][k].symbol);
            }
        }
        j += 1;
    }
    proof {
        assert(nis.subrange(0, nis.len() as int) =~= nis);
        assert(module_imports_bound(ms, rs, is_esm, side_effects_modules@, module_idx as int, results,
            (rows0, deps0, errs0, groups0, chains0),
            (symbol_db.view_rows(), dependencies@, views(errors@), group_views(external_imports@), chain_views(chain_map@))));
    }
}

/// Module `a` exports `name` itself.
pub open spec fn exports_name(m: Module, name: Seq<char>) -> bool {
    exists|k: int| 0 <= k < m.named_exports.len() && (#[trigger] m.named_exports[k]).name@ == name
}

/// Some module exports `sym` under `name` itself.
pub open spec fn exported_somewhere(modules: Seq<Module>, name: Seq<char>, sym: SymbolRef) -> bool {
    exists|m: int, k: int|
        0 <= m < modules.len() && 0 <= k < modules[m].named_exports.len() && (#[trigger] modules[m].named_exports[k]).name@
            == name && modules[m].named_exports[k].referenced == sym
}

/// The names of `entries`.
pub open spec fn entry_names(entries: Seq<ResolvedExportEntry>) -> Seq<Seq<char>> {
    Seq::new(entries.len(), |k: int| entries[k].name@)
}

/// Export names are unique.
pub open spec fn unique_names(entries: Seq<ResolvedExportEntry>) -> bool {
    forall|k1: int, k2: int|
        0 <= k1 < entries.len() && 0 <= k2 < entries.len() && k1 != k2 ==> (#[trigger] entries[k1]).name@
            != (#[trigger] entries[k2]).name@
}

/// Inputs to resolving `export *`: records point into the table, and each module's exports
/// have unique names and refer to the module's own symbols.
pub open spec fn star_input_ok(modules: Seq<Module>) -> bool {
    &&& forall|m: int, r: int|
        0 <= m < modules.len() && 0 <= r < modules[m].import_records.len() ==> (#[trigger] modules[m].import_records[r]).resolved_module
            < modules.len()
    &&& forall|m: int, k1: int, k2: int|
        0 <= m < modules.len() && 0 <= k1 < modules[m].named_exports.len() && 0 <= k2 < modules[m].named_exports.len() && k1
            != k2 ==> (#[trigger] modules[m].named_exports[k1]).name@ != (#[trigger] modules[m].named_exports[k2]).name@
    &&& forall|m: int, k: int|
        0 <= m < modules.len() && 0 <= k < modules[m].named_exports.len() ==> (#[trigger] modules[m].named_exports[k]).referenced.owner
            == m
}

proof fn lemma_nodup_bound(s: Seq<usize>, n: nat)
    requires
        s.no_duplicates(),
        forall|i: int| 0 <= i < s.len() ==> #[trigger] s[i] < n,
    ensures
        s.len() <= n,
{
    let ints = Seq::new(s.len(), |i: int| s[i] as int);
    assert(ints.no_duplicates()) by {
        assert forall|i: int, j: int| 0 <= i < ints.len() && 0 <= j < ints.len() && i != j implies ints[i] != ints[j] by {
            assert(s[i] != s[j]);
        }
    }
    ints.unique_seq_to_set();
    vstd::set_lib::lemma_int_range(0, n as int);
    assert(ints.to_set().subset_of(vstd::set_lib::set_int_range(0, n as int))) by {
        assert forall|x: int| ints.to_set().contains(x) implies vstd::set_lib::set_int_range(0, n as int).contains(x) by {
            let i = choose|i: int| 0 <= i < ints.len() && ints[i] == x;
            assert(s[i] < n);
        }
    }
    vstd::set_lib::lemma_len_subset(ints.to_set(), vstd::set_lib::set_int_range(0, n as int));
}

fn stack_contains(stack: &Vec<ModuleIdx>, m: ModuleIdx) -> (r: bool)
    ensures
        r == stack@.contains(m),
{
    let mut i: usize = 0;
    while i < stack.len()
        invariant
            i <= stack.len(),
            forall|k: int| 0 <= k < i ==> stack@[k] != m,
        decreases stack.len() - i,
    {
        if stack[i] == m {
            proof {
                assert(stack@[i as int] == m);
            }
            return true;
        }
        i += 1;
    }
    false
}

fn find_export_name(entries: &Vec<ResolvedExportEntry>, name: &String) -> (r: bool)
    ensures
        r == entry_names(entries@).contains(name@),
{
    let mut k: usize = 0;
    while k < entries.len()
        invariant
            k <= entries.len(),
            forall|q: int| 0 <= q < k ==> (#[trigger] entries[q]).name@ != name@,
        decreases entries.len() - k,
    {
        if entries[k].name == *name {
            proof {
                assert(entry_names(entries@)[k as int] == name@);
            }
            return true;
        }
        k += 1;
    }
    proof {
        if entry_names(entries@).contains(name@) {
            let q = choose|q: int| 0 <= q < entries.len() && entry_names(entries@)[q] == name@;
            assert(entries[q].name@ == name@);
        }
    }
    false
}

/// The position of the entry named `name`, if any.
fn find_export_index(entries: &Vec<ResolvedExportEntry>, name: &String) -> (r: Option<usize>)
    ensures
        match r {
            Some(q) => q < entries.len() && entries@[q as int].name@ == name@,
            None => forall|q: int| 0 <= q < entries.len() ==> (#[trigger] entries@[q]).name@ != name@,
        },
{
    let mut k: usize = 0;
    while k < entries.len()
        invariant
            k <= entries.len(),
            forall|q: int| 0 <= q < k ==> (#[trigger] entries@[q]).name@ != name@,
        decreases entries.len() - k,
    {
        if entries[k].name == *name {
            return Some(k);
        }
        k += 1;
    }
    None
}

/// Whether some bundled module on the stack exports `name` itself.
fn stack_exports_name(modules: &Vec<Module>, stack: &Vec<ModuleIdx>, name: &String) -> (r: bool)
    requires
        forall|i: int| 0 <= i < stack.len() ==> #[trigger] stack@[i] < modules.len(),
    ensures
        r == exists|i: int|
            0 <= i < stack.len() && !modules[#[trigger] stack@[i] as int].is_external && exports_name(
                modules[stack@[i] as int],
                name@,
            ),
{
    let mut i: usize = 0;
    while i < stack.len()
        invariant
            i <= stack.len(),
            forall|q: int| 0 <= q < stack.len() ==> #[trigger] stack@[q] < modules.len(),
            forall|q: int|
                0 <= q < i ==> !(!modules[#[trigger] stack@[q] as int].is_external && exports_name(modules[stack@[q] as int], name@)),
        decreases stack.len() - i,
    {
        let m = &modules[stack[i]];
        if !m.is_external {
            let mut k: usize = 0;
            while k < m.named_exports.len()
                invariant
                    i < stack.len(),
                    forall|q: int| 0 <= q < stack.len() ==> #[trigger] stack@[q] < modules.len(),
                    *m == modules@[stack@[i as int] as int],
                    !m.is_external,
                    k <= m.named_exports.len(),
                    forall|q: int| 0 <= q < k ==> (#[trigger] m.named_exports[q]).name@ != name@,
                decreases m.named_exports.len() - k,
            {
                if m.named_exports[k].name == *name {
                    proof {
                        assert(exports_name(*m, name@));
                        assert(modules[stack@[i as int] as int] == *m);
                        assert(0 <= i < stack.len() && !modules[stack@[i as int] as int].is_external && exports_name(
                            modules[stack@[i as int] as int],
                            name@,
                        ));
                    }
                    return true;
                }
                k += 1;
            }
        }
        i += 1;
    }
    false
}

/// Resolved exports as plain values: name, symbol, and the other symbols `export *`
/// offered under that name.
pub open spec fn entries_view(entries: Seq<ResolvedExportEntry>) -> Seq<(Seq<char>, SymbolRef, Seq<SymbolRef>)> {
    Seq::new(entries.len(), |k: int| (entries[k].name@, entries[k].symbol, entries[k].potentially_ambiguous@))
}

/// Resolved exports by name and symbol alone.
pub open spec fn entry_keys(entries: Seq<ResolvedExportEntry>) -> Seq<(Seq<char>, SymbolRef)> {
    Seq::new(entries.len(), |k: int| (entries[k].name@, entries[k].symbol))
}

/// The position of the entry named `name`.
pub open spec fn name_pos(res: Seq<(Seq<char>, SymbolRef, Seq<SymbolRef>)>, name: Seq<char>) -> int {
    choose|q: int| 0 <= q < res.len() && res[q].0 == name
}

/// Some entry is named `name`.
pub open spec fn view_has_name(res: Seq<(Seq<char>, SymbolRef, Seq<SymbolRef>)>, name: Seq<char>) -> bool {
    exists|q: int| 0 <= q < res.len() && res[q].0 == name
}

/// A module on the stack that is bundled exports `name` itself.
pub open spec fn stack_exports(modules: Seq<Module>, stack: Seq<ModuleIdx>, name: Seq<char>) -> bool {
    exists|i: int| 0 <= i < stack.len() && !modules[#[trigger] stack[i] as int].is_external && exports_name(modules[stack[i] as int], name)
}

/// The exports after the first `k` named exports of `dep` are offered through `export *`:
/// each is added unless it is `default` or a module on the stack exports the name itself;
/// when the name is already resolved to another symbol, that symbol is recorded as
/// potentially ambiguous instead.
pub open spec fn star_dep_exports(
    modules: Seq<Module>,
    dep: int,
    k: int,
    stack: Seq<ModuleIdx>,
    res: Seq<(Seq<char>, SymbolRef, Seq<SymbolRef>)>,
) -> Seq<(Seq<char>, SymbolRef, Seq<SymbolRef>)>
    decreases k,
{
    if k <= 0 {
        res
    } else {
        let prev = star_dep_exports(modules, dep, k - 1, stack, res);
        let e = modules[dep].named_exports[k - 1];
        if e.name@ == "default"@ || stack_exports(modules, stack, e.name@) {
            prev
        } else if view_has_name(prev, e.name@) {
            let q = name_pos(prev, e.name@);
            if prev[q].1 != e.referenced {
                prev.update(q, (prev[q].0, prev[q].1, prev[q].2.push(e.referenced)))
            } else {
                prev
            }
        } else {
            prev.push((e.name@, e.referenced, Seq::empty()))
        }
    }
}

/// The exports after module `m` (with `stack` the modules being resolved) brings in what
/// it re-exports with `export *`: nothing when `m` is on the stack or external; else, for
/// each of its `export *` records in order whose module is bundled, that module's own
/// exports and then, recursively, what it re-exports.
pub open spec fn star_module(
    modules: Seq<Module>,
    m: int,
    stack: Seq<ModuleIdx>,
    res: Seq<(Seq<char>, SymbolRef, Seq<SymbolRef>)>,
) -> Seq<(Seq<char>, SymbolRef, Seq<SymbolRef>)>
    decreases modules.len() - stack.len(), modules[m].import_records.len() + 1,
{
    if stack.contains(m as usize) || stack.len() >= modules.len() || !(0 <= m < modules.len()) || modules[m].is_external {
        res
    } else {
        star_records(modules, m, modules[m].import_records.len() as int, stack.push(m as usize), res)
    }
}

/// The exports after the first `n` records of module `m` are followed (see [`star_module`]).
pub open spec fn star_records(
    modules: Seq<Module>,
    m: int,
    n: int,
    stack: Seq<ModuleIdx>,
    res: Seq<(Seq<char>, SymbolRef, Seq<SymbolRef>)>,
) -> Seq<(Seq<char>, SymbolRef, Seq<SymbolRef>)>
    decreases modules.len() - stack.len() + 1, n,
{
    if n <= 0 || stack.len() > modules.len() {
        res
    } else {
        let prev = star_records(modules, m, n - 1, stack, res);
        let rec = modules[m].import_records[n - 1];
        let dep = rec.resolved_module as int;
        if rec.is_export_star && 0 <= dep < modules.len() && !modules[dep].is_external {
            star_module(
                modules,
                dep,
                stack,
                star_dep_exports(modules, dep, modules[dep].named_exports.len() as int, stack, prev),
            )
        } else {
            prev
        }
    }
}

/// Adds to `resolved` the exports that `module_idx` gets from `export * from` (followed
/// through further `export *`), skipping `default`, names that a module on the stack exports
/// itself, and names already resolved. Modules already on `module_stack` are not revisited.
pub fn add_exports_for_export_star(
    module_idx: ModuleIdx,
    modules: &Vec<Module>,
    module_stack: &mut Vec<ModuleIdx>,
    resolved: &mut Vec<ResolvedExportEntry>,
)
    requires
        star_input_ok(modules@),
        module_idx < modules.len(),
        old(module_stack)@.no_duplicates(),
        forall|i: int| 0 <= i < old(module_stack).len() ==> #[trigger] old(module_stack)@[i] < modules.len(),
        unique_names(old(resolved)@),
        forall|k: int| 0 <= k < old(resolved).len() ==> (#[trigger] old(resolved)[k]).symbol.owner < modules.len()
            && !modules[old(resolved)[k].symbol.owner as int].is_external,
    ensures
        final(module_stack)@ == if !old(module_stack)@.contains(module_idx) && modules[module_idx as int].is_external {
            old(module_stack)@.push(module_idx)
        } else {
            old(module_stack)@
        },
        final(resolved).len() >= old(resolved).len(),
        entry_keys(final(resolved)@).subrange(0, old(resolved).len() as int) == entry_keys(old(resolved)@),
        unique_names(final(resolved)@),
        forall|k: int| 0 <= k < final(resolved).len() ==> (#[trigger] final(resolved)[k]).symbol.owner < modules.len()
            && !modules[final(resolved)[k].symbol.owner as int].is_external,
        forall|k: int|
            old(resolved).len() <= k < final(resolved).len() ==> (#[trigger] final(resolved)[k]).name@ != "default"@,
        forall|k: int|
            old(resolved).len() <= k < final(resolved).len() ==> exported_somewhere(
                modules@,
                (#[trigger] final(resolved)[k]).name@,
                final(resolved)[k].symbol,
            ),
        entries_view(final(resolved)@) == star_module(
            modules@,
            module_idx as int,
            old(module_stack)@,
            entries_view(old(resolved)@),
        ),
    decreases modules.len() - old(module_stack).len(),
{
    if stack_contains(module_stack, module_idx) {
        return;
    }
    proof {
        lemma_nodup_bound(module_stack@.push(module_idx), modules.len() as nat);
    }
    module_stack.push(module_idx);
    let module = &modules[module_idx];
    if module.is_external {
        return;
    }
    let ghost stack1 = module_stack@;
    let ghost r0 = resolved@;
    let mut r: usize = 0;
    while r < module.import_records.len()
        invariant
            star_input_ok(modules@),
            module_idx < modules.len(),
            *module == modules@[module_idx as int],
            !module.is_external,
            module_stack@ == stack1,
            stack1.len() == old(module_stack)@.len() + 1,
            stack1.no_duplicates(),
            stack1.len() <= modules.len(),
            forall|i: int| 0 <= i < stack1.len() ==> #[trigger] stack1[i] < modules.len(),
            r <= module.import_records.len(),
            resolved.len() >= r0.len(),
            entry_keys(resolved@).subrange(0, r0.len() as int) == entry_keys(r0),
            unique_names(resolved@),
            forall|k: int| 0 <= k < resolved.len() ==> (#[trigger] resolved[k]).symbol.owner < modules.len()
                && !modules[resolved[k].symbol.owner as int].is_external,
            forall|k: int| r0.len() <= k < resolved.len() ==> (#[trigger] resolved[k]).name@ != "default"@,
            forall|k: int| r0.len() <= k < resolved.len() ==> exported_somewhere(modules@, (#[trigger] resolved[k]).name@, resolved[k].symbol),
            stack1 == old(module_stack)@.push(module_idx),
            entries_view(resolved@) == star_records(modules@, module_idx as int, r as int, stack1, entries_view(r0)),
        decreases module.import_records.len() - r,
    {
        let ghost prev = entries_view(resolved@);
        let rec = &module.import_records[r];
        if rec.is_export_star {
            let dep_idx = rec.resolved_module;
            proof {
                assert(modules@[module_idx as int].import_records[r as int].resolved_module < modules.len());
            }
            let dep = &modules[dep_idx];
            if !dep.is_external {
                let mut k: usize = 0;
                while k < dep.named_exports.len()
                    invariant
                        star_input_ok(modules@),
                        *dep == modules@[dep_idx as int],
                        dep_idx < modules.len(),
                        !dep.is_external,
                        module_stack@ == stack1,
                        stack1.no_duplicates(),
                        forall|i: int| 0 <= i < stack1.len() ==> #[trigger] stack1[i] < modules.len(),
                        k <= dep.named_exports.len(),
                        resolved.len() >= r0.len(),
                        entry_keys(resolved@).subrange(0, r0.len() as int) == entry_keys(r0),
                        unique_names(resolved@),
                        forall|q: int| 0 <= q < resolved.len() ==> (#[trigger] resolved[q]).symbol.owner < modules.len()
                            && !modules[resolved[q].symbol.owner as int].is_external,
                        forall|q: int| r0.len() <= q < resolved.len() ==> (#[trigger] resolved[q]).name@ != "default"@,
                        forall|q: int| r0.len() <= q < resolved.len() ==> exported_somewhere(modules@, (#[trigger] resolved[q]).name@, resolved[q].symbol),
                        stack1.len() <= modules.len(),
                        entries_view(resolved@) == star_dep_exports(modules@, dep_idx as int, k as int, stack1, prev),
                    decreases dep.named_exports.len() - k,
                {
                    let ghost pk = entries_view(resolved@);
                    let export = &dep.named_exports[k];
                    proof {
                        reveal_strlit("default");
                        assert(modules@[dep_idx as int].named_exports[k as int] == *export);
                        assert(entry_names(resolved@).contains(export.name@) == view_has_name(pk, export.name@)) by {
                            if view_has_name(pk, export.name@) {
                                let q = choose|q: int| 0 <= q < pk.len() && pk[q].0 == export.name@;
                                assert(entry_names(resolved@)[q] == export.name@);
                            }
                            if entry_names(resolved@).contains(export.name@) {
                                let q = choose|q: int| 0 <= q < entry_names(resolved@).len() && entry_names(resolved@)[q] == export.name@;
                                assert(pk[q].0 == export.name@);
                            }
                        }
                    }
                    if !str_eq(export.name.as_str(), "default") && !stack_exports_name(modules, module_stack, &export.name) {
                        match find_export_index(resolved, &export.name) {
                            None => {
                                let ghost before = resolved@;
                                resolved.push(ResolvedExportEntry { name: export.name.clone(), symbol: export.referenced, potentially_ambiguous: Vec::new() });
                                proof {
                                    assert(!view_has_name(pk, export.name@)) by {
                                        if view_has_name(pk, export.name@) {
                                            let q = choose|q: int| 0 <= q < pk.len() && pk[q].0 == export.name@;
                                            assert(before[q].name@ == export.name@);
                                        }
                                    }
                                    assert(modules@[dep_idx as int].named_exports[k as int] == *export);
                                    assert(exported_somewhere(modules@, export.name@, export.referenced));
                                    assert(modules@[dep_idx as int].named_exports[k as int].referenced.owner == dep_idx);
                                    assert(entry_keys(resolved@).subrange(0, r0.len() as int) =~= entry_keys(before).subrange(0, r0.len() as int));
                                    assert forall|k1: int, k2: int|
                                        0 <= k1 < resolved.len() && 0 <= k2 < resolved.len() && k1 != k2 implies (#[trigger] resolved[k1]).name@
                                            != (#[trigger] resolved[k2]).name@ by {
                                        if k1 == before.len() && k2 < before.len() {
                                            assert(resolved[k2] == before[k2]);
                                        } else if k2 == before.len() && k1 < before.len() {
                                            assert(resolved[k1] == before[k1]);
                                        } else {
                                            assert(resolved[k1] == before[k1] && resolved[k2] == before[k2]);
                                        }
                                    }
                                    assert(entries_view(resolved@) =~= pk.push((export.name@, export.referenced, Seq::<SymbolRef>::empty())));
                                }
                            },
                            Some(q) => {
                                proof {
                                    assert(pk[q as int].0 == export.name@);
                                    assert(view_has_name(pk, export.name@));
                                    let c = name_pos(pk, export.name@);
                                    assert(0 <= c < pk.len() && pk[c].0 == export.name@);
                                    if c != q as int {
                                        assert(resolved[c].name@ != resolved[q as int].name@);
                                    }
                                }
                                if resolved[q].symbol != export.referenced {
                                    let ghost before = resolved@;
                                    let mut amb: Vec<SymbolRef> = Vec::new();
                                    std::mem::swap(&mut amb, &mut resolved[q].potentially_ambiguous);
                                    amb.push(export.referenced);
                                    std::mem::swap(&mut amb, &mut resolved[q].potentially_ambiguous);
                                    proof {
                                        assert forall|j: int| 0 <= j < resolved.len() && j != q implies #[trigger] resolved[j] == before[j] by {}
                                        assert(resolved[q as int].name == before[q as int].name);
                                        assert(resolved[q as int].symbol == before[q as int].symbol);
                                        assert(entry_keys(resolved@) =~= entry_keys(before));
                                        assert(entry_keys(resolved@).subrange(0, r0.len() as int) =~= entry_keys(before).subrange(0, r0.len() as int));
                                        assert forall|k1: int, k2: int|
                                            0 <= k1 < resolved.len() && 0 <= k2 < resolved.len() && k1 != k2 implies (#[trigger] resolved[k1]).name@
                                                != (#[trigger] resolved[k2]).name@ by {
                                            assert(before[k1].name@ != before[k2].name@);
                                        }
                                        assert(entries_view(resolved@) =~= pk.update(q as int, (pk[q as int].0, pk[q as int].1, pk[q as int].2.push(export.referenced))));
                                    }
                                }
                            },
                        }
                    }
                    k += 1;
                }
                let ghost before_call = resolved@;
                proof {
                    assert(dep.named_exports.len() == modules@[dep_idx as int].named_exports.len());
                }
                add_exports_for_export_star(dep_idx, modules, module_stack, resolved);
                proof {
                    lemma_prefix_trans(entry_keys(r0), entry_keys(before_call), entry_keys(resolved@));
                    assert forall|q: int| r0.len() <= q < resolved.len() implies (#[trigger] resolved[q]).name@ != "default"@
                        && exported_somewhere(modules@, resolved[q].name@, resolved[q].symbol) by {
                        if q < before_call.len() {
                            assert(entry_keys(resolved@).subrange(0, before_call.len() as int)[q] == entry_keys(resolved@)[q]);
                            assert(entry_keys(before_call)[q] == entry_keys(resolved@)[q]);
                        }
                    }
                }
            }
        }
        proof {
            let post = star_records(modules@, module_idx as int, r as int + 1, stack1, entries_view(r0));
            assert(modules@[module_idx as int].import_records[r as int] == *rec);
            assert(post == if rec.is_export_star && 0 <= rec.resolved_module < modules.len() && !modules@[rec.resolved_module as int].is_external {
                star_module(
                    modules@,
                    rec.resolved_module as int,
                    stack1,
                    star_dep_exports(modules@, rec.resolved_module as int, modules@[rec.resolved_module as int].named_exports.len() as int, stack1, prev),
                )
            } else {
                prev
            });
        }
        r += 1;
    }
    module_stack.pop();
    proof {
        assert(module_stack@ =~= stack1.drop_last());
        assert(stack1.drop_last() =~= old(module_stack)@);
    }
}

/// The binding state shared by all modules: symbols, errors, external imports, re-export chains.
pub open spec fn shared_state(
    rows: Seq<Seq<SymbolInfo>>,
    errors: Seq<Seq<char>>,
    groups: Seq<(usize, Seq<char>, Seq<SymbolRef>)>,
    chains: Seq<(SymbolRef, Seq<SymbolRef>)>,
) -> (Seq<Seq<SymbolInfo>>, Seq<Seq<char>>, Seq<(usize, Seq<char>, Seq<SymbolRef>)>, Seq<(SymbolRef, Seq<SymbolRef>)>) {
    (rows, errors, groups, chains)
}

/// Binding module `m` takes the shared state from `s0` to `s1` and its dependencies from
/// `d0` to `d1`.
/// Whether each module, by index, is known to have side effects.
pub open spec fn side_effect_flags(modules: Seq<Module>) -> Seq<bool> {
    Seq::new(modules.len(), |i: int| modules[i].side_effects.spec_has_side_effects())
}

pub open spec fn module_step_ok(
    modules: Seq<Module>,
    resolved: Seq<Seq<ResolvedExportEntry>>,
    is_esm: bool,
    side_effects: Seq<bool>,
    m: int,
    s0: (Seq<Seq<SymbolInfo>>, Seq<Seq<char>>, Seq<(usize, Seq<char>, Seq<SymbolRef>)>, Seq<(SymbolRef, Seq<SymbolRef>)>),
    s1: (Seq<Seq<SymbolInfo>>, Seq<Seq<char>>, Seq<(usize, Seq<char>, Seq<SymbolRef>)>, Seq<(SymbolRef, Seq<SymbolRef>)>),
    d0: Seq<usize>,
    d1: Seq<usize>,
) -> bool {
    exists|results: Seq<MatchImportKind>|
        #[trigger] module_imports_bound(modules, resolved, is_esm, side_effects, m, results, (s0.0, d0, s0.1, s0.2, s0.3), (s1.0, d1, s1.1, s1.2, s1.3))
}

/// The exports of a module before `export *` is resolved: its own, in order.
pub open spec fn own_exports_ok(m: Module, entries: Seq<ResolvedExportEntry>) -> bool {
    &&& entries.len() >= m.named_exports.len()
    &&& forall|k: int|
        0 <= k < m.named_exports.len() ==> (#[trigger] entries[k]).name@ == m.named_exports[k].name@ && entries[k].symbol
            == m.named_exports[k].referenced
}

/// A module's own exports as plain values, in order.
pub open spec fn own_exports_view(m: Module) -> Seq<(Seq<char>, SymbolRef, Seq<SymbolRef>)> {
    Seq::new(m.named_exports@.len(), |k: int| (m.named_exports[k].name@, m.named_exports[k].referenced, Seq::<SymbolRef>::empty()))
}

/// The module has an `export * from` record.
pub open spec fn has_star(m: Module) -> bool {
    exists|k: int| 0 <= k < m.import_records.len() && (#[trigger] m.import_records[k]).is_export_star
}

/// The resolved exports of module `m`: none for an external module; else its own exports,
/// followed (when it has `export *`) by what `export *` brings in, resolved from an empty
/// stack.
pub open spec fn resolved_exports_of(modules: Seq<Module>, m: int) -> Seq<(Seq<char>, SymbolRef, Seq<SymbolRef>)> {
    if modules[m].is_external {
        Seq::empty()
    } else if has_star(modules[m]) {
        star_module(modules, m, Seq::empty(), own_exports_view(modules[m]))
    } else {
        own_exports_view(modules[m])
    }
}

/// `s` is the local symbol of some module's own export.
pub open spec fn is_exported_ref(modules: Seq<Module>, s: SymbolRef) -> bool {
    exists|mm: int, kk: int|
        0 <= mm < modules.len() && 0 <= kk < modules[mm].named_exports.len() && (#[trigger] modules[mm].named_exports[kk]).referenced
            == s
}

/// Every symbol recorded as potentially ambiguous is the local symbol of some module's export.
pub open spec fn ambiguous_refs_exported(modules: Seq<Module>, res: Seq<(Seq<char>, SymbolRef, Seq<SymbolRef>)>) -> bool {
    forall|q: int, i: int| 0 <= q < res.len() && 0 <= i < res[q].2.len() ==> is_exported_ref(modules, #[trigger] res[q].2[i])
}

proof fn lemma_star_dep_refs(
    modules: Seq<Module>,
    dep: int,
    k: int,
    stack: Seq<ModuleIdx>,
    res: Seq<(Seq<char>, SymbolRef, Seq<SymbolRef>)>,
)
    requires
        ambiguous_refs_exported(modules, res),
        0 <= dep < modules.len(),
        k <= modules[dep].named_exports.len(),
    ensures
        ambiguous_refs_exported(modules, star_dep_exports(modules, dep, k, stack, res)),
    decreases k,
{
    if k > 0 {
        lemma_star_dep_refs(modules, dep, k - 1, stack, res);
        let prev = star_dep_exports(modules, dep, k - 1, stack, res);
        let e = modules[dep].named_exports[k - 1];
        let r = star_dep_exports(modules, dep, k, stack, res);
        if !(e.name@ == "default"@ || stack_exports(modules, stack, e.name@)) && view_has_name(prev, e.name@) {
            let q = name_pos(prev, e.name@);
            if prev[q].1 != e.referenced {
                assert forall|q2: int, i: int| 0 <= q2 < r.len() && 0 <= i < r[q2].2.len() implies is_exported_ref(
                    modules,
                    #[trigger] r[q2].2[i],
                ) by {
                    if q2 == q && i == prev[q].2.len() {
                        assert(modules[dep].named_exports[k - 1].referenced == r[q2].2[i]);
                    } else {
                        assert(r[q2].2[i] == prev[q2].2[i]);
                    }
                }
            }
        } else if !(e.name@ == "default"@ || stack_exports(modules, stack, e.name@)) {
            assert forall|q2: int, i: int| 0 <= q2 < r.len() && 0 <= i < r[q2].2.len() implies is_exported_ref(
                modules,
                #[trigger] r[q2].2[i],
            ) by {
                assert(r[q2] == prev[q2]);
            }
        }
    }
}

proof fn lemma_star_module_refs(
    modules: Seq<Module>,
    m: int,
    stack: Seq<ModuleIdx>,
    res: Seq<(Seq<char>, SymbolRef, Seq<SymbolRef>)>,
)
    requires
        ambiguous_refs_exported(modules, res),
    ensures
        ambiguous_refs_exported(modules, star_module(modules, m, stack, res)),
    decreases modules.len() - stack.len(), modules[m].import_records.len() + 1,
{
    if !(stack.contains(m as usize) || stack.len() >= modules.len() || !(0 <= m < modules.len()) || modules[m].is_external) {
        lemma_star_records_refs(modules, m, modules[m].import_records.len() as int, stack.push(m as usize), res);
    }
}

proof fn lemma_star_records_refs(
    modules: Seq<Module>,
    m: int,
    n: int,
    stack: Seq<ModuleIdx>,
    res: Seq<(Seq<char>, SymbolRef, Seq<SymbolRef>)>,
)
    requires
        ambiguous_refs_exported(modules, res),
    ensures
        ambiguous_refs_exported(modules, star_records(modules, m, n, stack, res)),
    decreases modules.len() - stack.len() + 1, n,
{
    if !(n <= 0 || stack.len() > modules.len()) {
        lemma_star_records_refs(modules, m, n - 1, stack, res);
        let prev = star_records(modules, m, n - 1, stack, res);
        let rec = modules[m].import_records[n - 1];
        let dep = rec.resolved_module as int;
        if rec.is_export_star && 0 <= dep < modules.len() && !modules[dep].is_external {
            let d = star_dep_exports(modules, dep, modules[dep].named_exports.len() as int, stack, prev);
            lemma_star_dep_refs(modules, dep, modules[dep].named_exports.len() as int, stack, prev);
            lemma_star_module_refs(modules, dep, stack, d);
        }
    }
}

/// No two symbols offered under the export's name stand for different things: each
/// potentially ambiguous symbol has the same canonical symbol as the export's.
pub open spec fn unambiguous(rows: Seq<Seq<SymbolInfo>>, e: (Seq<char>, SymbolRef, Seq<SymbolRef>)) -> bool {
    forall|i: int| 0 <= i < e.2.len() ==> canonical_in(rows, #[trigger] e.2[i]) == canonical_in(rows, e.1)
}

/// The names of the unambiguous exports, in order.
pub open spec fn unambiguous_names(es: Seq<(Seq<char>, SymbolRef, Seq<SymbolRef>)>, rows: Seq<Seq<SymbolInfo>>) -> Seq<Seq<char>>
    decreases es.len(),
{
    if es.len() == 0 {
        Seq::empty()
    } else {
        let p = unambiguous_names(es.drop_last(), rows);
        if unambiguous(rows, es.last()) {
            p.push(es.last().0)
        } else {
            p
        }
    }
}

fn is_unambiguous(e: &ResolvedExportEntry, db: &SymbolRefDb) -> (r: bool)
    requires
        db.has(e.symbol),
        forall|i: int| 0 <= i < e.potentially_ambiguous.len() ==> db.has(#[trigger] e.potentially_ambiguous@[i]),
    ensures
        r == unambiguous(db.view_rows(), (e.name@, e.symbol, e.potentially_ambiguous@)),
{
    let main_ref = db.canonical_ref_for(e.symbol);
    proof {
        assert(canonical_in(db.view_rows(), e.symbol) == main_ref);
    }
    let mut i: usize = 0;
    while i < e.potentially_ambiguous.len()
        invariant
            i <= e.potentially_ambiguous.len(),
            main_ref == canonical_in(db.view_rows(), e.symbol),
            forall|q: int| 0 <= q < e.potentially_ambiguous.len() ==> db.has(#[trigger] e.potentially_ambiguous@[q]),
            forall|q: int| 0 <= q < i ==> canonical_in(db.view_rows(), #[trigger] e.potentially_ambiguous@[q]) == main_ref,
        decreases e.potentially_ambiguous.len() - i,
    {
        let a = db.canonical_ref_for(e.potentially_ambiguous[i]);
        proof {
            assert(canonical_in(db.view_rows(), e.potentially_ambiguous@[i as int]) == a);
        }
        if a != main_ref {
            proof {
                let t = (e.name@, e.symbol, e.potentially_ambiguous@);
                assert(t.2[i as int] == e.potentially_ambiguous@[i as int]);
                assert(canonical_in(db.view_rows(), t.2[i as int]) != canonical_in(db.view_rows(), t.1));
            }
            return false;
        }
        i += 1;
    }
    true
}

/// The names of a module's exports that are not ambiguous, sorted.
fn sorted_unambiguous_names(entries: &Vec<ResolvedExportEntry>, db: &SymbolRefDb) -> (r: Vec<String>)
    requires
        forall|k: int| 0 <= k < entries.len() ==> db.has(#[trigger] entries@[k].symbol),
        forall|k: int, i: int|
            0 <= k < entries.len() && 0 <= i < entries@[k].potentially_ambiguous.len() ==> db.has(
                #[trigger] entries@[k].potentially_ambiguous@[i],
            ),
    ensures
        sorted_strs(views(r@)),
        views(r@).to_multiset() == unambiguous_names(entries_view(entries@), db.view_rows()).to_multiset(),
{
    let ghost ev = entries_view(entries@);
    let mut names: Vec<String> = Vec::new();
    let mut e: usize = 0;
    while e < entries.len()
        invariant
            e <= entries.len(),
            ev == entries_view(entries@),
            forall|k: int| 0 <= k < entries.len() ==> db.has(#[trigger] entries@[k].symbol),
            forall|k: int, i: int|
                0 <= k < entries.len() && 0 <= i < entries@[k].potentially_ambiguous.len() ==> db.has(
                    #[trigger] entries@[k].potentially_ambiguous@[i],
                ),
            views(names@) == unambiguous_names(ev.subrange(0, e as int), db.view_rows()),
        decreases entries.len() - e,
    {
        let ok = is_unambiguous(&entries[e], db);
        proof {
            let sub = ev.subrange(0, e as int + 1);
            assert(sub.drop_last() =~= ev.subrange(0, e as int));
            assert(sub.last() == (entries@[e as int].name@, entries@[e as int].symbol, entries@[e as int].potentially_ambiguous@));
        }
        if ok {
            let ghost before = names@;
            names.push(entries[e].name.clone());
            proof {
                assert(views(names@) =~= views(before).push(entries@[e as int].name@));
            }
        }
        e += 1;
    }
    proof {
        assert(ev.subrange(0, entries.len() as int) =~= ev);
    }
    sort_strings(&names)
}

/// What binding imports and exports produces besides the symbols and dependencies it updates.
pub struct BindOutput {
    /// For each module, its exports: its own, then those it gets from `export *`.
    pub resolved_exports: Vec<Vec<ResolvedExportEntry>>,
    /// For each module, the names of its exports that are not ambiguous (no two `export *`
    /// paths give them symbols that stand for different things), sorted.
    pub sorted_resolved_exports: Vec<Vec<String>>,
    pub errors: Vec<String>,
    pub external_imports: Vec<ExternalImportGroup>,
    pub normal_symbol_exports_chain_map: Vec<ReexportChain>,
}

fn has_star_export(m: &Module) -> (r: bool)
    ensures
        r == exists|k: int| 0 <= k < m.import_records.len() && (#[trigger] m.import_records[k]).is_export_star,
{
    let mut k: usize = 0;
    while k < m.import_records.len()
        invariant
            k <= m.import_records.len(),
            forall|q: int| 0 <= q < k ==> !(#[trigger] m.import_records[q]).is_export_star,
        decreases m.import_records.len() - k,
    {
        if m.import_records[k].is_export_star {
            return true;
        }
        k += 1;
    }
    false
}

/// Resolves every module's exports (its own and those from `export *`), then binds every
/// import of every module, in module order, to what it resolves to (see
/// [`match_imports_with_exports`]); for ES module output, gives each name imported from an
/// external module one symbol of that module and links every import of the name to it
/// (see [`crate::external_bindings::link_external_import_bindings`]); and sorts each
/// module's export names that are not ambiguous.
pub fn bind_imports_and_exports(
    modules: &Vec<Module>,
    is_esm: bool,
    symbol_db: &mut SymbolRefDb,
    dependencies: &mut Vec<Vec<ModuleIdx>>,
) -> (out: BindOutput)
    requires
        star_input_ok(modules@),
        old(dependencies).len() == modules.len(),
        forall|m: int| 0 <= m < modules.len() ==> (#[trigger] modules[m]).namespace_object_ref.owner == m,
        forall|m: int, j1: int, j2: int|
            0 <= m < modules.len() && 0 <= j1 < modules[m].named_imports.len() && 0 <= j2 < modules[m].named_imports.len()
                && j1 != j2 ==> #[trigger] modules[m].named_imports[j1].imported_as
                != #[trigger] modules[m].named_imports[j2].imported_as,
        forall|m: int, j: int|
            0 <= m < modules.len() && 0 <= j < modules[m].named_imports.len() ==> (#[trigger] modules[m].named_imports[j]).record_id
                < modules[m].import_records.len(),
        old(symbol_db).wf(),
        forall|m: int| 0 <= m < modules.len() ==> old(symbol_db).has(#[trigger] modules[m].namespace_object_ref),
        forall|m: int, j: int|
            0 <= m < modules.len() && 0 <= j < modules[m].named_imports.len() ==> old(symbol_db).has(
                #[trigger] modules[m].named_imports[j].imported_as,
            ),
        forall|m: int, k: int|
            0 <= m < modules.len() && 0 <= k < modules[m].named_exports.len() ==> old(symbol_db).has(
                #[trigger] modules[m].named_exports[k].referenced,
            ),
    ensures
        final(symbol_db).wf(),
        final(dependencies).len() == modules.len(),
        out.resolved_exports.len() == modules.len(),
        forall|m: int|
            0 <= m < modules.len() ==> {
                let e = (#[trigger] out.resolved_exports[m])@;
                &&& unique_names(e)
                &&& modules[m].is_external ==> e.len() == 0
                &&& !modules[m].is_external ==> own_exports_ok(modules[m], e)
                &&& forall|k: int|
                    modules[m].named_exports.len() <= k < e.len() ==> (#[trigger] e[k]).name@ != "default"@ && exported_somewhere(
                        modules@,
                        e[k].name@,
                        e[k].symbol,
                    )
            },
        forall|m: int| 0 <= m < modules.len() ==> entries_view((#[trigger] out.resolved_exports[m])@) == resolved_exports_of(modules@, m),
        out.sorted_resolved_exports.len() == modules.len(),
        forall|m: int|
            0 <= m < modules.len() ==> sorted_strs(views((#[trigger] out.sorted_resolved_exports[m])@)) && views(
                out.sorted_resolved_exports[m]@,
            ).to_multiset() == unambiguous_names(entries_view(out.resolved_exports[m]@), final(symbol_db).view_rows()).to_multiset(),
        exists|states: Seq<(Seq<Seq<SymbolInfo>>, Seq<Seq<char>>, Seq<(usize, Seq<char>, Seq<SymbolRef>)>, Seq<(SymbolRef, Seq<SymbolRef>)>)>|
            states.len() == modules.len() + 1 && states[0] == shared_state(old(symbol_db).view_rows(), seq![], seq![], seq![])
                && states[modules.len() as int].1 == views(out.errors@)
                && states[modules.len() as int].2 == group_views(out.external_imports@)
                && states[modules.len() as int].3 == chain_views(out.normal_symbol_exports_chain_map@)
                && groups_merged(states[modules.len() as int].0, final(symbol_db).view_rows(), group_views(out.external_imports@))
                && forall|m: int|
                0 <= m < modules.len() ==> #[trigger] module_step_ok(
                    modules@,
                    views_of(out.resolved_exports@),
                    is_esm,
                    side_effect_flags(modules@),
                    m,
                    states[m],
                    states[m + 1],
                    old(dependencies)[m]@,
                    final(dependencies)[m]@,
                ),
{
    let n = modules.len();
    let mut resolved: Vec<Vec<ResolvedExportEntry>> = Vec::new();
    let mut m: usize = 0;
    while m < n
        invariant
            n == modules.len(),
            star_input_ok(modules@),
            m <= n,
            resolved.len() == m,
            forall|q: int|
                0 <= q < m ==> {
                    let e = (#[trigger] resolved[q])@;
                    &&& unique_names(e)
                    &&& modules[q].is_external ==> e.len() == 0
                    &&& !modules[q].is_external ==> own_exports_ok(modules[q], e)
                    &&& forall|k: int|
                        modules[q].named_exports.len() <= k < e.len() ==> (#[trigger] e[k]).name@ != "default"@
                            && exported_somewhere(modules@, e[k].name@, e[k].symbol)
                    &&& forall|k: int| 0 <= k < e.len() ==> (#[trigger] e[k]).symbol.owner < modules.len()
                        && !modules[e[k].symbol.owner as int].is_external
                },
            forall|q: int| 0 <= q < m ==> entries_view((#[trigger] resolved[q])@) == resolved_exports_of(modules@, q),
        decreases n - m,
    {
        let module = &modules[m];
        let mut entries: Vec<ResolvedExportEntry> = Vec::new();
        if !module.is_external {
            let mut k: usize = 0;
            while k < module.named_exports.len()
                invariant
                    star_input_ok(modules@),
                    m < modules.len(),
                    *module == modules@[m as int],
                    !module.is_external,
                    k <= module.named_exports.len(),
                    entries.len() == k,
                    forall|q: int|
                        0 <= q < k ==> (#[trigger] entries[q]).name@ == module.named_exports[q].name@ && entries[q].symbol
                            == module.named_exports[q].referenced && entries[q].potentially_ambiguous@ == Seq::<SymbolRef>::empty(),
                decreases module.named_exports.len() - k,
            {
                let e = &module.named_exports[k];
                entries.push(ResolvedExportEntry { name: e.name.clone(), symbol: e.referenced, potentially_ambiguous: Vec::new() });
                k += 1;
            }
            proof {
                assert forall|k1: int, k2: int|
                    0 <= k1 < entries.len() && 0 <= k2 < entries.len() && k1 != k2 implies (#[trigger] entries[k1]).name@
                        != (#[trigger] entries[k2]).name@ by {
                    assert(modules@[m as int].named_exports[k1].name@ != modules@[m as int].named_exports[k2].name@);
                }
                assert forall|q: int| 0 <= q < entries.len() implies (#[trigger] entries[q]).symbol.owner < modules.len()
                    && !modules[entries[q].symbol.owner as int].is_external by {
                    assert(modules@[m as int].named_exports[q].referenced.owner == m);
                }
            }
            proof {
                assert(entries_view(entries@) =~= own_exports_view(modules@[m as int]));
            }
            if has_star_export(module) {
                let ghost before = entries@;
                let mut stack: Vec<ModuleIdx> = Vec::new();
                add_exports_for_export_star(m, modules, &mut stack, &mut entries);
                proof {
                    assert forall|q: int| 0 <= q < module.named_exports.len() implies (#[trigger] entries[q]).name@
                        == module.named_exports[q].name@ && entries[q].symbol == module.named_exports[q].referenced by {
                        assert(entry_keys(entries@).subrange(0, before.len() as int)[q] == entry_keys(entries@)[q]);
                    }
                }
            }
        }
        proof {
            if module.is_external {
                assert(entries_view(entries@) =~= Seq::<(Seq<char>, SymbolRef, Seq<SymbolRef>)>::empty());
            }
        }
        resolved.push(entries);
        proof {
            let r_m = resolved[m as int];
            assert forall|q: int| 0 <= q < m + 1 implies {
                let e = (#[trigger] resolved[q])@;
                &&& unique_names(e)
                &&& modules[q].is_external ==> e.len() == 0
                &&& !modules[q].is_external ==> own_exports_ok(modules[q], e)
                &&& forall|k: int|
                    modules[q].named_exports.len() <= k < e.len() ==> (#[trigger] e[k]).name@ != "default"@
                        && exported_somewhere(modules@, e[k].name@, e[k].symbol)
                &&& forall|k: int| 0 <= k < e.len() ==> (#[trigger] e[k]).symbol.owner < modules.len()
                    && !modules[e[k].symbol.owner as int].is_external
            } by {}
        }
        m += 1;
    }
    let mut side_effects: Vec<bool> = Vec::new();
    let mut q: usize = 0;
    while q < n
        invariant
            n == modules.len(),
            q <= n,
            side_effects@ == side_effect_flags(modules@.subrange(0, q as int)),
        decreases n - q,
    {
        side_effects.push(modules[q].side_effects.has_side_effects());
        q += 1;
        proof {
            assert(side_effects@ =~= side_effect_flags(modules@.subrange(0, q as int)));
        }
    }
    proof {
        assert(modules@.subrange(0, n as int) =~= modules@);
    }
    let mut errors: Vec<String> = Vec::new();
    let mut external_imports: Vec<ExternalImportGroup> = Vec::new();
    let mut chains: Vec<ReexportChain> = Vec::new();
    let ghost deps0 = dependencies@;
    let ghost rows_init = symbol_db.view_rows();
    let ghost mut states: Seq<(Seq<Seq<SymbolInfo>>, Seq<Seq<char>>, Seq<(usize, Seq<char>, Seq<SymbolRef>)>, Seq<(SymbolRef, Seq<SymbolRef>)>)> = seq![
        shared_state(symbol_db.view_rows(), seq![], seq![], seq![]),
    ];
    proof {
        assert(views(errors@) =~= seq![]);
        assert(group_views(external_imports@) =~= seq![]);
        assert(groups_ok(group_views(external_imports@), symbol_db.view_rows()));
        assert(chain_views(chains@) =~= seq![]);
        assert(bind_input_ok(modules@, views_of(resolved@)));
        assert(bind_db_ok(modules@, views_of(resolved@), *symbol_db)) by {
            assert forall|m2: int, k: int|
                0 <= m2 < views_of(resolved@).len() && 0 <= k < views_of(resolved@)[m2].len() implies symbol_db.has(
                    #[trigger] views_of(resolved@)[m2][k].symbol,
                ) by {
                let e = resolved[m2]@;
                if k < modules[m2].named_exports.len() {
                    assert(e[k].symbol == modules[m2].named_exports[k].referenced);
                } else {
                    let (mm, kk) = choose|mm: int, kk: int|
                        0 <= mm < modules.len() && 0 <= kk < modules[mm].named_exports.len() && (
                        #[trigger] modules[mm].named_exports[kk]).name@ == e[k].name@ && modules[mm].named_exports[kk].referenced
                            == e[k].symbol;
                }
            }
        }
    }
    let mut m: usize = 0;
    while m < n
        invariant
            n == modules.len(),
            m <= n,
            bind_input_ok(modules@, views_of(resolved@)),
            bind_db_ok(modules@, views_of(resolved@), *symbol_db),
            side_effects@ == side_effect_flags(modules@),
            dependencies.len() == n,
            deps0 == old(dependencies)@,
            states[0] == shared_state(old(symbol_db).view_rows(), seq![], seq![], seq![]),
            deps0.len() == n,
            forall|i: int| m <= i < n ==> #[trigger] dependencies@[i] == deps0[i],
            forall|k1: int, k2: int|
                0 <= k1 < external_imports.len() && 0 <= k2 < external_imports.len() && k1 != k2 ==> !((
                #[trigger] external_imports[k1]).module == (#[trigger] external_imports[k2]).module
                    && external_imports[k1].name@ == external_imports[k2].name@),
            groups_ok(group_views(external_imports@), symbol_db.view_rows()),
            same_shape(rows_init, symbol_db.view_rows()),
            states.len() == m + 1,
            states[m as int] == shared_state(
                symbol_db.view_rows(),
                views(errors@),
                group_views(external_imports@),
                chain_views(chains@),
            ),
            forall|i: int|
                0 <= i < m ==> #[trigger] module_step_ok(
                    modules@,
                    views_of(resolved@),
                    is_esm,
                    side_effects@,
                    i,
                    states[i],
                    states[i + 1],
                    deps0[i]@,
                    dependencies@[i]@,
                ),
        decreases n - m,
    {
        let ghost s0 = states[m as int];
        let ghost dm0 = dependencies@[m as int]@;
        match_imports_with_exports(
            modules,
            &resolved,
            is_esm,
            &side_effects,
            m,
            symbol_db,
            &mut dependencies[m],
            &mut errors,
            &mut external_imports,
            &mut chains,
        );
        proof {
            let s1 = shared_state(symbol_db.view_rows(), views(errors@), group_views(external_imports@), chain_views(chains@));
            assert(same_shape(rows_init, symbol_db.view_rows())) by {
                assert(same_shape(s0.0, symbol_db.view_rows()));
            }
            assert(module_step_ok(modules@, views_of(resolved@), is_esm, side_effects@, m as int, s0, s1, dm0, dependencies@[m as int]@));
            let st0 = states;
            states = states.push(s1);
            assert forall|i: int|
                0 <= i < m + 1 implies #[trigger] module_step_ok(
                    modules@,
                    views_of(resolved@),
                    is_esm,
                    side_effects@,
                    i,
                    states[i],
                    states[i + 1],
                    deps0[i]@,
                    dependencies@[i]@,
                ) by {
                if i < m {
                    assert(states[i] == st0[i] && states[i + 1] == st0[i + 1]);
                }
            }
        }
        m += 1;
    }
    let ghost rows_matched = symbol_db.view_rows();
    let ghost db_matched = *symbol_db;
    crate::external_bindings::link_external_import_bindings(&external_imports, symbol_db);
    proof {
        assert forall|q: int, e: int| 0 <= q < n && 0 <= e < resolved@[q].len() implies symbol_db.has(#[trigger] resolved@[q]@[e].symbol)
            && forall|i: int| 0 <= i < resolved@[q]@[e].potentially_ambiguous.len() ==> symbol_db.has(
                #[trigger] resolved@[q]@[e].potentially_ambiguous@[i],
            ) by {
            assert(views_of(resolved@)[q][e] == resolved@[q]@[e]);
            assert(db_matched.has(resolved@[q]@[e].symbol));
            lemma_has_grow(db_matched, *symbol_db, resolved@[q]@[e].symbol);
            assert forall|i: int| 0 <= i < resolved@[q]@[e].potentially_ambiguous.len() implies symbol_db.has(
                #[trigger] resolved@[q]@[e].potentially_ambiguous@[i],
            ) by {
                let a = resolved@[q]@[e].potentially_ambiguous@[i];
                let ev = entries_view(resolved@[q]@);
                assert(ev[e].2[i] == a);
                if has_star(modules@[q]) && !modules@[q].is_external {
                    assert(ambiguous_refs_exported(modules@, own_exports_view(modules@[q])));
                    lemma_star_module_refs(modules@, q, Seq::empty(), own_exports_view(modules@[q]));
                } else if !modules@[q].is_external {
                    assert(ev[e].2 == own_exports_view(modules@[q])[e].2);
                }
                assert(is_exported_ref(modules@, a));
                let (mm, kk) = choose|mm: int, kk: int|
                    0 <= mm < modules.len() && 0 <= kk < modules[mm].named_exports.len() && (
                    #[trigger] modules@[mm].named_exports[kk]).referenced == a;
                assert(old(symbol_db).has(modules@[mm].named_exports[kk].referenced));
                lemma_same_shape_has(*old(symbol_db), db_matched, a);
                lemma_has_grow(db_matched, *symbol_db, a);
            }
        }
    }
    let mut sorted: Vec<Vec<String>> = Vec::new();
    let mut k: usize = 0;
    while k < n
        invariant
            n == resolved.len(),
            k <= n,
            sorted.len() == k,
            forall|q: int, e: int| 0 <= q < n && 0 <= e < resolved@[q].len() ==> symbol_db.has(#[trigger] resolved@[q]@[e].symbol)
                && forall|i: int| 0 <= i < resolved@[q]@[e].potentially_ambiguous.len() ==> symbol_db.has(
                    #[trigger] resolved@[q]@[e].potentially_ambiguous@[i],
                ),
            forall|q: int|
                0 <= q < k ==> sorted_strs(views((#[trigger] sorted[q])@)) && views(sorted[q]@).to_multiset()
                    == unambiguous_names(entries_view(resolved[q]@), symbol_db.view_rows()).to_multiset(),
        decreases n - k,
    {
        proof {
            assert forall|e: int| 0 <= e < resolved@[k as int].len() implies symbol_db.has(#[trigger] resolved@[k as int]@[e].symbol) by {
                assert(symbol_db.has(resolved@[k as int]@[e].symbol));
            }
            assert forall|e: int, i: int|
                0 <= e < resolved@[k as int].len() && 0 <= i < resolved@[k as int]@[e].potentially_ambiguous.len() implies symbol_db.has(
                    #[trigger] resolved@[k as int]@[e].potentially_ambiguous@[i],
                ) by {
                assert(symbol_db.has(resolved@[k as int]@[e].symbol));
            }
        }
        sorted.push(sorted_unambiguous_names(&resolved[k], symbol_db));
        k += 1;
    }
    proof {
        assert(states.len() == modules.len() + 1);
        assert(states[modules.len() as int].0 == rows_matched);
    }
    BindOutput {
        resolved_exports: resolved,
        sorted_resolved_exports: sorted,
        errors,
        external_imports,
        normal_symbol_exports_chain_map: chains,
    }
}

} // verus!
