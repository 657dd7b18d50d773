use vstd::prelude::*;

use crate::reach::{lemma_closed_holds_reached, lemma_reaches_refl, lemma_reaches_step, reaches};
use crate::util::{
    count_false, count_false_rows, lemma_count_false_rows_set, lemma_count_false_set, lemma_prefix_contains, lemma_prefix_trans,
    lemma_push_prefix, vec_of,
};
use crate::types::{
    DeterminedSideEffects, LinkingMetadata, Module, ModuleIdx, ModuleType, StmtInfo, SymbolOrMemberExprRef,
    SymbolRef, SymbolRefDb,
};

verus! {

/// Something that tree shaking may keep: a whole module, or one of its statements.
#[derive(Clone, Copy, Debug, PartialEq, Eq, Structural)]
pub enum IncludeItem {
    Module(ModuleIdx),
    Stmt(ModuleIdx, usize),
}

/// What tree shaking keeps.
pub struct IncludedStatements {
    /// For each module, whether it is included.
    pub module_included: Vec<bool>,
    /// For each module and each of its statements, whether the statement is included.
    pub stmt_included: Vec<Vec<bool>>,
    /// The symbols that included code refers to, each once.
    pub used_symbol_refs: Vec<SymbolRef>,
}

/// The symbol that a reference to `x` reads: its canonical symbol, or the namespace
/// that the canonical symbol is an alias into.
pub open spec fn effective_ref(db: SymbolRefDb, x: SymbolRef) -> SymbolRef {
    let c = db.info(x).canonical;
    match db.info(c).namespace_alias {
        Some(a) => a.namespace_ref,
        None => c,
    }
}

/// Statement `s` of `m` is kept as soon as `m` is included.
pub open spec fn stmt_kept_with_module(m: Module, s: int) -> bool {
    if m.side_effects is NoTreeshake {
        s != 0
    } else {
        m.stmt_infos[s].side_effect || (m.has_eval && m.stmt_infos[s].declared_symbols.len() > 0 && s != 0)
    }
}

/// Statement `s` of `m` declares `c`.
pub open spec fn declares(m: Module, s: int, c: SymbolRef) -> bool {
    0 <= s < m.stmt_infos.len() && m.stmt_infos[s].declared_symbols@.contains(c)
}

/// Including a reference to `x` includes `b`.
pub open spec fn symbol_target(modules: Seq<Module>, db: SymbolRefDb, x: SymbolRef, b: IncludeItem) -> bool {
    let c = effective_ref(db, x);
    &&& c.owner < modules.len()
    &&& !modules[c.owner as int].is_external
    &&& (b == IncludeItem::Module(c.owner) || (b matches IncludeItem::Stmt(m2, s) && m2 == c.owner && declares(
        modules[m2 as int],
        s as int,
        c,
    )))
}

/// The symbol that reference `r` of module `m` stands for, if any.
pub open spec fn ref_target(metas: Seq<LinkingMetadata>, m: int, r: SymbolOrMemberExprRef) -> Option<SymbolRef> {
    match r {
        SymbolOrMemberExprRef::Symbol(x) => Some(x),
        SymbolOrMemberExprRef::MemberExpr(k) => if k < metas[m].resolved_member_expr_refs.len() {
            metas[m].resolved_member_expr_refs[k as int]
        } else {
            None
        },
    }
}

/// An included module `m` that calls `eval` keeps its import bindings, `x` among them.
pub open spec fn module_uses_symbol(modules: Seq<Module>, runtime: usize, m: int, x: SymbolRef) -> bool {
    &&& 0 <= m < modules.len()
    &&& !modules[m].is_external
    &&& m != runtime
    &&& modules[m].has_eval
    &&& (modules[m].module_type == ModuleType::Js || modules[m].module_type == ModuleType::Jsx)
    &&& exists|j: int| 0 <= j < modules[m].named_imports.len() && #[trigger] modules[m].named_imports[j].imported_as == x
}

/// Statement `s` of module `m` refers to `x`.
pub open spec fn stmt_uses_symbol(
    modules: Seq<Module>,
    metas: Seq<LinkingMetadata>,
    m: int,
    s: int,
    x: SymbolRef,
) -> bool {
    &&& 0 <= m < modules.len()
    &&& 0 <= s < modules[m].stmt_infos.len()
    &&& exists|j: int|
        0 <= j < modules[m].stmt_infos[s].referenced_symbols.len() && ref_target(
            metas,
            m,
            #[trigger] modules[m].stmt_infos[s].referenced_symbols[j],
        ) == Some(x)
}

/// `b` is included because `a` is.
pub open spec fn include_edge(
    modules: Seq<Module>,
    metas: Seq<LinkingMetadata>,
    db: SymbolRefDb,
    runtime: usize,
    a: IncludeItem,
    b: IncludeItem,
) -> bool {
    match a {
        IncludeItem::Module(m) => {
            &&& m < modules.len()
            &&& !modules[m as int].is_external
            &&& m != runtime
            &&& {
                ||| (b matches IncludeItem::Stmt(m2, s) && m2 == m && s < modules[m as int].stmt_infos.len()
                    && stmt_kept_with_module(modules[m as int], s as int))
                ||| (b matches IncludeItem::Module(d) && metas[m as int].dependencies@.contains(d) && d
                    < modules.len() && !modules[d as int].is_external
                    && modules[d as int].side_effects.spec_has_side_effects())
                ||| exists|x: SymbolRef|
                    #[trigger] module_uses_symbol(modules, runtime, m as int, x) && symbol_target(
                        modules,
                        db,
                        x,
                        b,
                    )
            }
        },
        IncludeItem::Stmt(m, s) => exists|x: SymbolRef|
            #[trigger] stmt_uses_symbol(modules, metas, m as int, s as int, x) && symbol_target(
                modules,
                db,
                x,
                b,
            ),
    }
}

/// The relation "`b` is included because `a` is", as a function.
pub open spec fn include_rel(
    modules: Seq<Module>,
    metas: Seq<LinkingMetadata>,
    db: SymbolRefDb,
    runtime: usize,
) -> spec_fn(IncludeItem, IncludeItem) -> bool {
    |x: IncludeItem, y: IncludeItem| include_edge(modules, metas, db, runtime, x, y)
}

/// `x` is referred to by the entry chunk of a (non-external) entry.
pub open spec fn entry_symbol(
    modules: Seq<Module>,
    metas: Seq<LinkingMetadata>,
    entries: Seq<usize>,
    x: SymbolRef,
) -> bool {
    exists|e: usize|
        #![trigger entries.contains(e), metas[e as int]]
        entries.contains(e) && !modules[e as int].is_external
            && metas[e as int].referenced_symbols_by_entry_point_chunk@.contains(x)
}

/// Tree shaking starts from the entries and from what their chunks refer to.
pub open spec fn include_seed(
    modules: Seq<Module>,
    metas: Seq<LinkingMetadata>,
    db: SymbolRefDb,
    entries: Seq<usize>,
    b: IncludeItem,
) -> bool {
    ||| (b matches IncludeItem::Module(e) && entries.contains(e) && e < modules.len() && !modules[e as int].is_external)
    ||| exists|x: SymbolRef| #[trigger] entry_symbol(modules, metas, entries, x) && symbol_target(modules, db, x, b)
}

/// `b` is reached from a seed.
pub open spec fn is_included_item(
    modules: Seq<Module>,
    metas: Seq<LinkingMetadata>,
    db: SymbolRefDb,
    entries: Seq<usize>,
    runtime: usize,
    b: IncludeItem,
) -> bool {
    exists|a: IncludeItem|
        #[trigger] include_seed(modules, metas, db, entries, a) && reaches(
            include_rel(modules, metas, db, runtime),
            a,
            b,
        )
}

/// Included code refers to `x`.
pub open spec fn symbol_is_used(
    modules: Seq<Module>,
    metas: Seq<LinkingMetadata>,
    db: SymbolRefDb,
    entries: Seq<usize>,
    runtime: usize,
    x: SymbolRef,
) -> bool {
    ||| entry_symbol(modules, metas, entries, x)
    ||| exists|m: int|
        #[trigger] module_uses_symbol(modules, runtime, m, x) && is_included_item(
            modules,
            metas,
            db,
            entries,
            runtime,
            IncludeItem::Module(m as usize),
        )
    ||| exists|m: int, s: int|
        #[trigger] stmt_uses_symbol(modules, metas, m, s, x) && is_included_item(
            modules,
            metas,
            db,
            entries,
            runtime,
            IncludeItem::Stmt(m as usize, s as usize),
        )
}

/// A module that calls `eval` may read any of its names at run time: when it is included
/// (and is a bundled module other than the runtime), every statement of it but the
/// namespace statement that declares a symbol is included too, whether or not anything
/// refers to that symbol.
pub proof fn lemma_eval_keeps_declarations(
    modules: Seq<Module>,
    metas: Seq<LinkingMetadata>,
    db: SymbolRefDb,
    entries: Seq<usize>,
    runtime: usize,
    m: usize,
    s: usize,
)
    requires
        m < modules.len(),
        !modules[m as int].is_external,
        m != runtime,
        modules[m as int].has_eval,
        0 < s < modules[m as int].stmt_infos.len(),
        modules[m as int].stmt_infos[s as int].declared_symbols.len() > 0,
        is_included_item(modules, metas, db, entries, runtime, IncludeItem::Module(m)),
    ensures
        is_included_item(modules, metas, db, entries, runtime, IncludeItem::Stmt(m, s)),
{
    assert(include_edge(modules, metas, db, runtime, IncludeItem::Module(m), IncludeItem::Stmt(m, s)));
    lemma_included_step(modules, metas, db, entries, runtime, IncludeItem::Module(m), IncludeItem::Stmt(m, s));
}

/// An included bundled module other than the runtime keeps each statement that has side
/// effects, and, when it is not to be tree-shaken, every statement but the namespace one.
pub proof fn lemma_included_module_keeps_effects(
    modules: Seq<Module>,
    metas: Seq<LinkingMetadata>,
    db: SymbolRefDb,
    entries: Seq<usize>,
    runtime: usize,
    m: usize,
    s: usize,
)
    requires
        m < modules.len(),
        !modules[m as int].is_external,
        m != runtime,
        s < modules[m as int].stmt_infos.len(),
        modules[m as int].stmt_infos[s as int].side_effect && !(modules[m as int].side_effects is NoTreeshake) || (
        modules[m as int].side_effects is NoTreeshake && s != 0),
        is_included_item(modules, metas, db, entries, runtime, IncludeItem::Module(m)),
    ensures
        is_included_item(modules, metas, db, entries, runtime, IncludeItem::Stmt(m, s)),
{
    assert(include_edge(modules, metas, db, runtime, IncludeItem::Module(m), IncludeItem::Stmt(m, s)));
    lemma_included_step(modules, metas, db, entries, runtime, IncludeItem::Module(m), IncludeItem::Stmt(m, s));
}

/// The inputs of tree shaking refer to existing modules, statements and symbols.
pub open spec fn include_input_ok(
    modules: Seq<Module>,
    metas: Seq<LinkingMetadata>,
    db: SymbolRefDb,
    entries: Seq<usize>,
    runtime: usize,
) -> bool {
    &&& modules.len() == metas.len()
    &&& modules.len() == db.symbols.len()
    &&& db.wf()
    &&& runtime < modules.len()
    &&& forall|i: int| 0 <= i < entries.len() ==> #[trigger] entries[i] < modules.len()
    &&& forall|m: int, j: int|
        0 <= m < metas.len() && 0 <= j < metas[m].dependencies.len() ==> #[trigger] metas[m].dependencies[j]
            < modules.len()
    &&& forall|m: int, j: int|
        0 <= m < metas.len() && 0 <= j < metas[m].referenced_symbols_by_entry_point_chunk.len() ==> db.has(
            #[trigger] metas[m].referenced_symbols_by_entry_point_chunk[j],
        )
    &&& forall|m: int, j: int|
        0 <= m < metas.len() && 0 <= j < metas[m].resolved_member_expr_refs.len() ==> (
        #[trigger] metas[m].resolved_member_expr_refs[j] matches Some(x) ==> db.has(x))
    &&& forall|m: int, j: int|
        0 <= m < modules.len() && 0 <= j < modules[m].named_imports.len() ==> db.has(
            #[trigger] modules[m].named_imports[j].imported_as,
        )
    &&& forall|m: int, s: int, j: int|
        0 <= m < modules.len() && 0 <= s < modules[m].stmt_infos.len() && 0 <= j
            < modules[m].stmt_infos[s].referenced_symbols.len() ==> (
        #[trigger] modules[m].stmt_infos[s].referenced_symbols[j] matches SymbolOrMemberExprRef::Symbol(x)
            ==> db.has(x))
}

fn declares_symbol(stmt: &StmtInfo, c: SymbolRef) -> (r: bool)
    ensures
        r == stmt.declared_symbols@.contains(c),
{
    let mut i: usize = 0;
    while i < stmt.declared_symbols.len()
        invariant
            i <= stmt.declared_symbols.len(),
            forall|j: int| 0 <= j < i ==> stmt.declared_symbols@[j] != c,
        decreases stmt.declared_symbols.len() - i,
    {
        if stmt.declared_symbols[i] == c {
            return true;
        }
        i += 1;
    }
    false
}

fn contains_symbol(v: &Vec<SymbolRef>, c: SymbolRef) -> (r: bool)
    ensures
        r == v@.contains(c),
{
    let mut i: usize = 0;
    while i < v.len()
        invariant
            i <= v.len(),
            forall|j: int| 0 <= j < i ==> v@[j] != c,
        decreases v.len() - i,
    {
        if v[i] == c {
            return true;
        }
        i += 1;
    }
    false
}

/// Includes what a reference to `x` needs: it records the symbol read as used, and
/// queues the module that declares it and the statements that declare it.
fn include_symbol(
    modules: &Vec<Module>,
    db: &SymbolRefDb,
    x: SymbolRef,
    worklist: &mut Vec<IncludeItem>,
    used: &mut Vec<SymbolRef>,
)
    requires
        modules.len() == db.symbols.len(),
        db.wf(),
        db.has(x),
    ensures
        final(worklist)@.len() >= old(worklist)@.len(),
        final(worklist)@.subrange(0, old(worklist)@.len() as int) == old(worklist)@,
        forall|i: int|
            old(worklist)@.len() <= i < final(worklist)@.len() ==> symbol_target(
                modules@,
                *db,
                x,
                #[trigger] final(worklist)@[i],
            ),
        forall|b: IncludeItem| symbol_target(modules@, *db, x, b) ==> #[trigger] final(worklist)@.contains(b),
        forall|c: SymbolRef| #[trigger] final(used)@.contains(c) <==> (old(used)@.contains(c) || c == effective_ref(*db, x)),
        old(used)@.no_duplicates() ==> final(used)@.no_duplicates(),
{
    let canonical = db.canonical_ref_for(x);
    let c = match &db.symbols[canonical.owner][canonical.symbol].namespace_alias {
        Some(alias) => alias.namespace_ref,
        None => canonical,
    };
    if !contains_symbol(used, c) {
        used.push(c);
    }
    proof {
        assert forall|c2: SymbolRef| #[trigger] used@.contains(c2) <==> (old(used)@.contains(c2) || c2 == c) by {
            if used@.contains(c2) && !old(used)@.contains(c2) {
                let t = choose|t: int| 0 <= t < used@.len() && used@[t] == c2;
                if t < old(used)@.len() {
                    assert(old(used)@[t] == c2);
                }
            }
            if old(used)@.contains(c2) {
                let t = choose|t: int| 0 <= t < old(used)@.len() && old(used)@[t] == c2;
                assert(used@[t] == c2);
            }
            if c2 == c && !old(used)@.contains(c2) {
                assert(used@[used@.len() - 1] == c);
            }
        }
    }
    let ghost w0 = worklist@;
    if !modules[c.owner].is_external {
        worklist.push(IncludeItem::Module(c.owner));
        proof {
            lemma_push_prefix(w0, IncludeItem::Module(c.owner));
        }
        let m = &modules[c.owner];
        let mut s: usize = 0;
        while s < m.stmt_infos.len()
            invariant
                *m == modules@[c.owner as int],
                c == effective_ref(*db, x),
                c.owner < modules.len(),
                !modules@[c.owner as int].is_external,
                s <= m.stmt_infos.len(),
                worklist@.len() >= w0.len() + 1,
                worklist@.subrange(0, w0.len() as int) == w0,
                worklist@[w0.len() as int] == IncludeItem::Module(c.owner),
                forall|i: int| w0.len() <= i < worklist@.len() ==> symbol_target(modules@, *db, x, #[trigger] worklist@[i]),
                forall|t: usize| t < s && declares(*m, t as int, c) ==> #[trigger] worklist@.contains(IncludeItem::Stmt(c.owner, t)),
            decreases m.stmt_infos.len() - s,
        {
            if declares_symbol(&m.stmt_infos[s], c) {
                let ghost before = worklist@;
                worklist.push(IncludeItem::Stmt(c.owner, s));
                proof {
                    lemma_push_prefix(before, IncludeItem::Stmt(c.owner, s));
                    lemma_prefix_trans(w0, before, worklist@);
                    assert forall|t: usize| t <= s && declares(*m, t as int, c) implies #[trigger] worklist@.contains(IncludeItem::Stmt(c.owner, t)) by {
                        if t < s {
                            lemma_prefix_contains(before, worklist@, IncludeItem::Stmt(c.owner, t));
                        }
                    }
                }
            }
            s += 1;
        }
        proof {
            assert forall|b: IncludeItem| symbol_target(modules@, *db, x, b) implies #[trigger] worklist@.contains(b) by {
                if b == IncludeItem::Module(c.owner) {
                    assert(worklist@[w0.len() as int] == b);
                } else {
                    if let IncludeItem::Stmt(m2, t) = b {
                        assert(declares(*m, t as int, c));
                        assert(worklist@.contains(IncludeItem::Stmt(c.owner, t)));
                    }
                }
            }
        }
    } else {
        proof {
            assert(worklist@.subrange(0, w0.len() as int) =~= w0);
        }
    }
}

/// Whether statement `s` of `m` is kept as soon as `m` is included.
fn keeps_with_module(m: &Module, s: usize) -> (r: bool)
    requires
        s < m.stmt_infos.len(),
    ensures
        r == stmt_kept_with_module(*m, s as int),
{
    match m.side_effects {
        DeterminedSideEffects::NoTreeshake => s != 0,
        _ => m.stmt_infos[s].side_effect || (m.has_eval && m.stmt_infos[s].declared_symbols.len() > 0 && s != 0),
    }
}




/// Queues everything an included module keeps by itself.
fn process_module(
    modules: &Vec<Module>,
    metadata: &Vec<LinkingMetadata>,
    db: &SymbolRefDb,
    entries: &Vec<ModuleIdx>,
    runtime: ModuleIdx,
    m: ModuleIdx,
    worklist: &mut Vec<IncludeItem>,
    used: &mut Vec<SymbolRef>,
)
    requires
        include_input_ok(modules@, metadata@, *db, entries@, runtime),
        m < modules.len(),
        !modules[m as int].is_external,
        m != runtime,
    ensures
        final(worklist)@.len() >= old(worklist)@.len(),
        final(worklist)@.subrange(0, old(worklist)@.len() as int) == old(worklist)@,
        forall|i: int|
            old(worklist)@.len() <= i < final(worklist)@.len() ==> include_edge(
                modules@,
                metadata@,
                *db,
                runtime,
                IncludeItem::Module(m),
                #[trigger] final(worklist)@[i],
            ),
        forall|b: IncludeItem|
            include_edge(modules@, metadata@, *db, runtime, IncludeItem::Module(m), b)
                ==> #[trigger] final(worklist)@.contains(b),
        forall|c: SymbolRef|
            #[trigger] final(used)@.contains(c) <==> (old(used)@.contains(c) || exists|x: SymbolRef|
                module_uses_symbol(modules@, runtime, m as int, x) && #[trigger] effective_ref(*db, x) == c),
        old(used)@.no_duplicates() ==> final(used)@.no_duplicates(),
{
    let ghost ms = modules@;
    let ghost mt = metadata@;
    let ghost w0 = worklist@;
    let ghost u0 = used@;
    let ghost a = IncludeItem::Module(m);
    let md = &modules[m];
    let mut s: usize = 0;
    while s < md.stmt_infos.len()
        invariant
            *md == ms[m as int],
            a == IncludeItem::Module(m),
            ms == modules@,
            mt == metadata@,
            include_input_ok(modules@, metadata@, *db, entries@, runtime),
            m < modules.len(),
            !ms[m as int].is_external,
            m != runtime,
            used@ == u0,
            s <= md.stmt_infos.len(),
            worklist@.len() >= w0.len(),
            worklist@.subrange(0, w0.len() as int) == w0,
            forall|i: int| w0.len() <= i < worklist@.len() ==> include_edge(ms, mt, *db, runtime, a, #[trigger] worklist@[i]),
            forall|t: usize|
                t < s && stmt_kept_with_module(*md, t as int) ==> #[trigger] worklist@.contains(IncludeItem::Stmt(m, t)),
        decreases md.stmt_infos.len() - s,
    {
        if keeps_with_module(md, s) {
            let ghost before = worklist@;
            worklist.push(IncludeItem::Stmt(m, s));
            proof {
                lemma_push_prefix(before, IncludeItem::Stmt(m, s));
                lemma_prefix_trans(w0, before, worklist@);
                assert forall|t: usize|
                    t <= s && stmt_kept_with_module(*md, t as int) implies #[trigger] worklist@.contains(IncludeItem::Stmt(m, t)) by {
                    if t < s {
                        lemma_prefix_contains(before, worklist@, IncludeItem::Stmt(m, t));
                    }
                }
            }
        }
        s += 1;
    }
    let ghost w1 = worklist@;
    let deps = &metadata[m].dependencies;
    let mut j: usize = 0;
    while j < deps.len()
        invariant
            *md == ms[m as int],
            *deps == mt[m as int].dependencies,
            a == IncludeItem::Module(m),
            ms == modules@,
            mt == metadata@,
            include_input_ok(modules@, metadata@, *db, entries@, runtime),
            m < modules.len(),
            !ms[m as int].is_external,
            m != runtime,
            used@ == u0,
            j <= deps.len(),
            w1.len() >= w0.len(),
            w1.subrange(0, w0.len() as int) == w0,
            worklist@.len() >= w1.len(),
            worklist@.subrange(0, w1.len() as int) == w1,
            forall|i: int| w0.len() <= i < worklist@.len() ==> include_edge(ms, mt, *db, runtime, a, #[trigger] worklist@[i]),
            forall|t: usize|
                t < md.stmt_infos.len() && stmt_kept_with_module(*md, t as int) ==> #[trigger] w1.contains(IncludeItem::Stmt(m, t)),
            forall|t: int|
                0 <= t < j && !ms[deps@[t] as int].is_external && ms[deps@[t] as int].side_effects.spec_has_side_effects()
                    ==> #[trigger] worklist@.contains(IncludeItem::Module(deps@[t])),
        decreases deps.len() - j,
    {
        let d = deps[j];
        if !modules[d].is_external && modules[d].side_effects.has_side_effects() {
            let ghost before = worklist@;
            worklist.push(IncludeItem::Module(d));
            proof {
                lemma_push_prefix(before, IncludeItem::Module(d));
                lemma_prefix_trans(w1, before, worklist@);
                assert(deps@.contains(d)) by {
                    assert(deps@[j as int] == d);
                }
                assert(include_edge(ms, mt, *db, runtime, a, IncludeItem::Module(d)));
                assert forall|t: int|
                    0 <= t <= j && !ms[deps@[t] as int].is_external && ms[deps@[t] as int].side_effects.spec_has_side_effects()
                        implies #[trigger] worklist@.contains(IncludeItem::Module(deps@[t])) by {
                    if t < j {
                        lemma_prefix_contains(before, worklist@, IncludeItem::Module(deps@[t]));
                    } else {
                        assert(worklist@[worklist@.len() - 1] == IncludeItem::Module(deps@[t]));
                    }
                }
            }
        }
        j += 1;
    }
    let ghost w2 = worklist@;
    proof {
        lemma_prefix_trans(w0, w1, w2);
    }
    if md.has_eval && (md.module_type == ModuleType::Js || md.module_type == ModuleType::Jsx) {
        let mut k: usize = 0;
        while k < md.named_imports.len()
            invariant
                *md == ms[m as int],
                a == IncludeItem::Module(m),
                ms == modules@,
                mt == metadata@,
                include_input_ok(modules@, metadata@, *db, entries@, runtime),
                m < modules.len(),
                !ms[m as int].is_external,
                m != runtime,
                md.has_eval,
                md.module_type == ModuleType::Js || md.module_type == ModuleType::Jsx,
                k <= md.named_imports.len(),
                w2.len() >= w0.len(),
                w2.subrange(0, w0.len() as int) == w0,
                worklist@.len() >= w2.len(),
                worklist@.subrange(0, w2.len() as int) == w2,
                forall|i: int| w0.len() <= i < worklist@.len() ==> include_edge(ms, mt, *db, runtime, a, #[trigger] worklist@[i]),
                forall|t: int, b: IncludeItem|
                    0 <= t < k && #[trigger] symbol_target(ms, *db, md.named_imports[t].imported_as, b) ==> worklist@.contains(b),
                forall|c: SymbolRef|
                    #[trigger] used@.contains(c) <==> (u0.contains(c) || exists|t: int|
                        0 <= t < k && #[trigger] effective_ref(*db, md.named_imports[t].imported_as) == c),
                u0.no_duplicates() ==> used@.no_duplicates(),
            decreases md.named_imports.len() - k,
        {
            let x = md.named_imports[k].imported_as;
            let ghost before = worklist@;
            let ghost ub = used@;
            proof {
                assert(db.has(ms[m as int].named_imports[k as int].imported_as));
            }
            include_symbol(modules, db, x, worklist, used);
            proof {
                lemma_prefix_trans(w2, before, worklist@);
                assert(module_uses_symbol(ms, runtime, m as int, x)) by {
                    assert(md.named_imports[k as int].imported_as == x);
                }
                assert forall|i: int| w0.len() <= i < worklist@.len() implies include_edge(
                    ms,
                    mt,
                    *db,
                    runtime,
                    a,
                    #[trigger] worklist@[i],
                ) by {
                    if i < before.len() {
                        assert(worklist@.subrange(0, before.len() as int)[i] == worklist@[i]);
                    } else {
                        assert(symbol_target(ms, *db, x, worklist@[i]));
                    }
                }
                assert forall|t: int, b: IncludeItem|
                    0 <= t <= k && #[trigger] symbol_target(ms, *db, md.named_imports[t].imported_as, b) implies worklist@.contains(b) by {
                    if t < k {
                        lemma_prefix_contains(before, worklist@, b);
                    }
                }
                assert forall|c: SymbolRef|
                    #[trigger] used@.contains(c) <==> (u0.contains(c) || exists|t: int|
                        0 <= t < k + 1 && #[trigger] effective_ref(*db, md.named_imports[t].imported_as) == c) by {
                    if c == effective_ref(*db, x) {
                        assert(effective_ref(*db, md.named_imports[k as int].imported_as) == c);
                    }
                    if exists|t: int| 0 <= t < k + 1 && #[trigger] effective_ref(*db, md.named_imports[t].imported_as) == c {
                        let t = choose|t: int| 0 <= t < k + 1 && #[trigger] effective_ref(*db, md.named_imports[t].imported_as) == c;
                        if t < k {
                            assert(ub.contains(c));
                        }
                    }
                }
            }
            k += 1;
        }
        proof {
            assert forall|c: SymbolRef|
                #[trigger] used@.contains(c) <==> (u0.contains(c) || exists|x: SymbolRef|
                    module_uses_symbol(ms, runtime, m as int, x) && #[trigger] effective_ref(*db, x) == c) by {
                if exists|x: SymbolRef| module_uses_symbol(ms, runtime, m as int, x) && #[trigger] effective_ref(*db, x) == c {
                    let x = choose|x: SymbolRef| module_uses_symbol(ms, runtime, m as int, x) && #[trigger] effective_ref(*db, x) == c;
                    let t = choose|t: int| 0 <= t < md.named_imports.len() && #[trigger] md.named_imports[t].imported_as == x;
                    assert(effective_ref(*db, md.named_imports[t].imported_as) == c);
                }
                if exists|t: int| 0 <= t < md.named_imports.len() && #[trigger] effective_ref(*db, md.named_imports[t].imported_as) == c {
                    let t = choose|t: int| 0 <= t < md.named_imports.len() && #[trigger] effective_ref(*db, md.named_imports[t].imported_as) == c;
                    let x = md.named_imports[t].imported_as;
                    assert(module_uses_symbol(ms, runtime, m as int, x));
                }
            }
            assert forall|b: IncludeItem| include_edge(ms, mt, *db, runtime, a, b) implies #[trigger] worklist@.contains(b) by {
                let own = match b {
                    IncludeItem::Stmt(m2, t) => m2 == m && t < md.stmt_infos.len() && stmt_kept_with_module(*md, t as int),
                    IncludeItem::Module(d) => mt[m as int].dependencies@.contains(d) && d < ms.len()
                        && !ms[d as int].is_external && ms[d as int].side_effects.spec_has_side_effects(),
                };
                if own {
                    match b {
                        IncludeItem::Stmt(m2, t) => {
                            assert(w1.contains(IncludeItem::Stmt(m, t)));
                            lemma_prefix_contains(w1, w2, b);
                            lemma_prefix_contains(w2, worklist@, b);
                        },
                        IncludeItem::Module(d) => {
                            let t = choose|t: int| 0 <= t < deps@.len() && deps@[t] == d;
                            lemma_prefix_contains(w2, worklist@, b);
                        },
                    }
                } else {
                    let x = choose|x: SymbolRef| #[trigger] module_uses_symbol(ms, runtime, m as int, x) && symbol_target(ms, *db, x, b);
                    let t = choose|t: int| 0 <= t < md.named_imports.len() && #[trigger] md.named_imports[t].imported_as == x;
                    assert(symbol_target(ms, *db, md.named_imports[t].imported_as, b));
                }
            }
        }
    } else {
        proof {
            assert forall|c: SymbolRef|
                #[trigger] used@.contains(c) <==> (u0.contains(c) || exists|x: SymbolRef|
                    module_uses_symbol(ms, runtime, m as int, x) && #[trigger] effective_ref(*db, x) == c) by {}
            assert forall|b: IncludeItem| include_edge(ms, mt, *db, runtime, a, b) implies #[trigger] worklist@.contains(b) by {
                match b {
                    IncludeItem::Stmt(m2, t) => {
                        assert(w1.contains(IncludeItem::Stmt(m, t)));
                        lemma_prefix_contains(w1, w2, b);
                    },
                    IncludeItem::Module(d) => {
                        let t = choose|t: int| 0 <= t < deps@.len() && deps@[t] == d;
                    },
                }
            }
        }
    }
}

proof fn lemma_stmt_edge(
    modules: Seq<Module>,
    metas: Seq<LinkingMetadata>,
    db: SymbolRefDb,
    runtime: usize,
    m: usize,
    s: usize,
    x: SymbolRef,
    b: IncludeItem,
)
    requires
        stmt_uses_symbol(modules, metas, m as int, s as int, x),
        symbol_target(modules, db, x, b),
    ensures
        include_edge(modules, metas, db, runtime, IncludeItem::Stmt(m, s), b),
{
    let a = IncludeItem::Stmt(m, s);
    assert(exists|y: SymbolRef| #[trigger] stmt_uses_symbol(modules, metas, m as int, s as int, y) && symbol_target(modules, db, y, b));
    if let IncludeItem::Stmt(m1, s1) = a {
        assert(m1 == m && s1 == s);
        assert(exists|y: SymbolRef| #[trigger] stmt_uses_symbol(modules, metas, m1 as int, s1 as int, y) && symbol_target(modules, db, y, b));
    }
}

/// Queues everything an included statement refers to.
fn process_stmt(
    modules: &Vec<Module>,
    metadata: &Vec<LinkingMetadata>,
    db: &SymbolRefDb,
    entries: &Vec<ModuleIdx>,
    runtime: ModuleIdx,
    m: ModuleIdx,
    s: usize,
    worklist: &mut Vec<IncludeItem>,
    used: &mut Vec<SymbolRef>,
)
    requires
        include_input_ok(modules@, metadata@, *db, entries@, runtime),
        m < modules.len(),
        s < modules[m as int].stmt_infos.len(),
    ensures
        final(worklist)@.len() >= old(worklist)@.len(),
        final(worklist)@.subrange(0, old(worklist)@.len() as int) == old(worklist)@,
        forall|i: int|
            old(worklist)@.len() <= i < final(worklist)@.len() ==> include_edge(
                modules@,
                metadata@,
                *db,
                runtime,
                IncludeItem::Stmt(m, s),
                #[trigger] final(worklist)@[i],
            ),
        forall|b: IncludeItem|
            include_edge(modules@, metadata@, *db, runtime, IncludeItem::Stmt(m, s), b)
                ==> #[trigger] final(worklist)@.contains(b),
        forall|c: SymbolRef|
            #[trigger] final(used)@.contains(c) <==> (old(used)@.contains(c) || exists|x: SymbolRef|
                stmt_uses_symbol(modules@, metadata@, m as int, s as int, x) && #[trigger] effective_ref(*db, x)
                    == c),
        old(used)@.no_duplicates() ==> final(used)@.no_duplicates(),
{
    let ghost ms = modules@;
    let ghost mt = metadata@;
    let ghost w0 = worklist@;
    let ghost u0 = used@;
    let ghost a = IncludeItem::Stmt(m, s);
    let refs = &modules[m].stmt_infos[s].referenced_symbols;
    let resolved = &metadata[m].resolved_member_expr_refs;
    let mut k: usize = 0;
    while k < refs.len()
        invariant
            *refs == ms[m as int].stmt_infos[s as int].referenced_symbols,
            a == IncludeItem::Stmt(m, s),
            *resolved == mt[m as int].resolved_member_expr_refs,
            ms == modules@,
            mt == metadata@,
            include_input_ok(modules@, metadata@, *db, entries@, runtime),
            m < modules.len(),
            s < ms[m as int].stmt_infos.len(),
            k <= refs.len(),
            worklist@.len() >= w0.len(),
            worklist@.subrange(0, w0.len() as int) == w0,
            forall|i: int| w0.len() <= i < worklist@.len() ==> include_edge(ms, mt, *db, runtime, a, #[trigger] worklist@[i]),
            forall|t: int, x: SymbolRef, b: IncludeItem|
                #![trigger refs@[t], symbol_target(ms, *db, x, b)]
                0 <= t < k && ref_target(mt, m as int, refs@[t]) == Some(x) && symbol_target(ms, *db, x, b)
                    ==> worklist@.contains(b),
            forall|c: SymbolRef|
                #[trigger] used@.contains(c) <==> (u0.contains(c) || exists|t: int, x: SymbolRef| #![trigger refs@[t], effective_ref(*db, x)]
                    0 <= t < k && ref_target(mt, m as int, refs@[t]) == Some(x) && effective_ref(*db, x) == c),
            u0.no_duplicates() ==> used@.no_duplicates(),
        decreases refs.len() - k,
    {
        let target: Option<SymbolRef> = match refs[k] {
            SymbolOrMemberExprRef::Symbol(x) => Some(x),
            SymbolOrMemberExprRef::MemberExpr(e) => {
                if e < resolved.len() {
                    resolved[e]
                } else {
                    None
                }
            },
        };
        proof {
            assert(target == ref_target(mt, m as int, refs@[k as int]));
        }
        let ghost before = worklist@;
        let ghost ub = used@;
        match target {
            Some(x) => {
                proof {
                    assert(ms[m as int].stmt_infos[s as int].referenced_symbols[k as int] == refs@[k as int]);
                    assert(db.has(x));
                }
                include_symbol(modules, db, x, worklist, used);
                proof {
                    lemma_prefix_trans(w0, before, worklist@);
                    assert(stmt_uses_symbol(ms, mt, m as int, s as int, x)) by {
                        assert(ms[m as int].stmt_infos[s as int].referenced_symbols[k as int] == refs@[k as int]);
                    }
                    assert forall|i: int| w0.len() <= i < worklist@.len() implies include_edge(
                        ms,
                        mt,
                        *db,
                        runtime,
                        a,
                        #[trigger] worklist@[i],
                    ) by {
                        if i < before.len() {
                            assert(worklist@.subrange(0, before.len() as int)[i] == worklist@[i]);
                            assert(include_edge(ms, mt, *db, runtime, a, before[i]));
                        } else {
                            lemma_stmt_edge(ms, mt, *db, runtime, m, s, x, worklist@[i]);
                        }
                    }
                    assert forall|t: int, x2: SymbolRef, b: IncludeItem|
                        #![trigger refs@[t], symbol_target(ms, *db, x2, b)]
                        0 <= t < k + 1 && ref_target(mt, m as int, refs@[t]) == Some(x2) && symbol_target(ms, *db, x2, b)
                            implies worklist@.contains(b) by {
                        if t < k {
                            lemma_prefix_contains(before, worklist@, b);
                        }
                    }
                    assert forall|c: SymbolRef|
                        #[trigger] used@.contains(c) <==> (u0.contains(c) || exists|t: int, x2: SymbolRef| #![trigger refs@[t], effective_ref(*db, x2)]
                            0 <= t < k + 1 && ref_target(mt, m as int, refs@[t]) == Some(x2) && effective_ref(*db, x2) == c) by {
                        if c == effective_ref(*db, x) {
                            assert(ref_target(mt, m as int, refs@[k as int]) == Some(x));
                        }
                        if exists|t: int, x2: SymbolRef| #![trigger refs@[t], effective_ref(*db, x2)]
                            0 <= t < k + 1 && ref_target(mt, m as int, refs@[t]) == Some(x2) && effective_ref(*db, x2) == c {
                            let (t, x2) = choose|t: int, x2: SymbolRef| #![trigger refs@[t], effective_ref(*db, x2)]
                                0 <= t < k + 1 && ref_target(mt, m as int, refs@[t]) == Some(x2) && effective_ref(*db, x2) == c;
                            if t < k {
                                assert(ub.contains(c));
                            }
                        }
                    }
                }
            },
            None => {
                proof {
                    assert(worklist@.subrange(0, w0.len() as int) == w0);
                }
            },
        }
        k += 1;
    }
    proof {
        assert forall|c: SymbolRef|
            #[trigger] used@.contains(c) <==> (u0.contains(c) || exists|x: SymbolRef|
                stmt_uses_symbol(ms, mt, m as int, s as int, x) && #[trigger] effective_ref(*db, x) == c) by {
            if exists|x: SymbolRef| stmt_uses_symbol(ms, mt, m as int, s as int, x) && #[trigger] effective_ref(*db, x) == c {
                let x = choose|x: SymbolRef| stmt_uses_symbol(ms, mt, m as int, s as int, x) && #[trigger] effective_ref(*db, x) == c;
                let t = choose|t: int|
                    0 <= t < refs@.len() && ref_target(mt, m as int, #[trigger] ms[m as int].stmt_infos[s as int].referenced_symbols[t]) == Some(x);
                assert(ref_target(mt, m as int, refs@[t]) == Some(x));
            }
            if exists|t: int, x2: SymbolRef| #![trigger refs@[t], effective_ref(*db, x2)]
                0 <= t < refs.len() && ref_target(mt, m as int, refs@[t]) == Some(x2) && effective_ref(*db, x2) == c {
                let (t, x2) = choose|t: int, x2: SymbolRef| #![trigger refs@[t], effective_ref(*db, x2)]
                    0 <= t < refs.len() && ref_target(mt, m as int, refs@[t]) == Some(x2) && effective_ref(*db, x2) == c;
                assert(ms[m as int].stmt_infos[s as int].referenced_symbols[t] == refs@[t]);
                assert(stmt_uses_symbol(ms, mt, m as int, s as int, x2));
            }
        }
        assert forall|b: IncludeItem| include_edge(ms, mt, *db, runtime, a, b) implies #[trigger] worklist@.contains(b) by {
            let x = choose|x: SymbolRef| #[trigger] stmt_uses_symbol(ms, mt, m as int, s as int, x) && symbol_target(ms, *db, x, b);
            let t = choose|t: int|
                0 <= t < refs@.len() && ref_target(mt, m as int, #[trigger] ms[m as int].stmt_infos[s as int].referenced_symbols[t]) == Some(x);
            assert(ref_target(mt, m as int, refs@[t]) == Some(x));
        }
    }
}


/// Whether `b` is marked, given the module marks `mi` and the statement marks `si`.
pub open spec fn item_marked(mi: Seq<bool>, si: Seq<Seq<bool>>, b: IncludeItem) -> bool {
    match b {
        IncludeItem::Module(m) => m < mi.len() && mi[m as int],
        IncludeItem::Stmt(m, s) => m < si.len() && s < si[m as int].len() && si[m as int][s as int],
    }
}

/// `b` is a bundled module of the table, or one of its statements.
pub open spec fn item_valid(modules: Seq<Module>, b: IncludeItem) -> bool {
    match b {
        IncludeItem::Module(m) => m < modules.len() && !modules[m as int].is_external,
        IncludeItem::Stmt(m, s) => m < modules.len() && !modules[m as int].is_external && s
            < modules[m as int].stmt_infos.len(),
    }
}

/// The rows of a table of flags.
pub open spec fn rows_view(v: Seq<Vec<bool>>) -> Seq<Seq<bool>> {
    Seq::new(v.len(), |i: int| v[i]@)
}

/// Entry `e` is bundled and its chunk refers to `x`.
pub open spec fn entry_symbol_of(modules: Seq<Module>, metas: Seq<LinkingMetadata>, e: usize, x: SymbolRef) -> bool {
    &&& !modules[e as int].is_external
    &&& metas[e as int].referenced_symbols_by_entry_point_chunk@.contains(x)
}

/// The marked code, or an entry chunk, refers to `x`.
pub open spec fn used_by_marked(
    modules: Seq<Module>,
    metas: Seq<LinkingMetadata>,
    entries: Seq<usize>,
    runtime: usize,
    mi: Seq<bool>,
    si: Seq<Seq<bool>>,
    x: SymbolRef,
) -> bool {
    ||| entry_symbol(modules, metas, entries, x)
    ||| exists|m: int|
        #[trigger] module_uses_symbol(modules, runtime, m, x) && item_marked(mi, si, IncludeItem::Module(m as usize))
    ||| exists|m: int, s: int|
        #[trigger] stmt_uses_symbol(modules, metas, m, s, x) && item_marked(
            mi,
            si,
            IncludeItem::Stmt(m as usize, s as usize),
        )
}

proof fn lemma_seed_included(
    modules: Seq<Module>,
    metas: Seq<LinkingMetadata>,
    db: SymbolRefDb,
    entries: Seq<usize>,
    runtime: usize,
    b: IncludeItem,
)
    requires
        include_seed(modules, metas, db, entries, b),
    ensures
        is_included_item(modules, metas, db, entries, runtime, b),
        item_valid(modules, b),
{
    lemma_reaches_refl(include_rel(modules, metas, db, runtime), b);
}

proof fn lemma_included_step(
    modules: Seq<Module>,
    metas: Seq<LinkingMetadata>,
    db: SymbolRefDb,
    entries: Seq<usize>,
    runtime: usize,
    a: IncludeItem,
    b: IncludeItem,
)
    requires
        is_included_item(modules, metas, db, entries, runtime, a),
        include_edge(modules, metas, db, runtime, a, b),
    ensures
        is_included_item(modules, metas, db, entries, runtime, b),
        item_valid(modules, b),
{
    let rel = include_rel(modules, metas, db, runtime);
    let s0 = choose|s0: IncludeItem| #[trigger] include_seed(modules, metas, db, entries, s0) && reaches(rel, s0, a);
    assert(rel(a, b));
    lemma_reaches_step(rel, s0, a, b);
}

/// Queues the seeds that entry `entries[i]` brings: what its chunk refers to, and itself.
fn seed_entry(
    modules: &Vec<Module>,
    metadata: &Vec<LinkingMetadata>,
    db: &SymbolRefDb,
    entries: &Vec<ModuleIdx>,
    runtime: ModuleIdx,
    i: usize,
    worklist: &mut Vec<IncludeItem>,
    used: &mut Vec<SymbolRef>,
)
    requires
        include_input_ok(modules@, metadata@, *db, entries@, runtime),
        i < entries.len(),
    ensures
        final(worklist)@.len() >= old(worklist)@.len(),
        final(worklist)@.subrange(0, old(worklist)@.len() as int) == old(worklist)@,
        forall|k: int|
            old(worklist)@.len() <= k < final(worklist)@.len() ==> include_seed(
                modules@,
                metadata@,
                *db,
                entries@,
                #[trigger] final(worklist)@[k],
            ),
        !modules[entries[i as int] as int].is_external ==> final(worklist)@.contains(
            IncludeItem::Module(entries[i as int]),
        ),
        forall|x: SymbolRef, b: IncludeItem|
            entry_symbol_of(modules@, metadata@, entries[i as int], x) && #[trigger] symbol_target(
                modules@,
                *db,
                x,
                b,
            ) ==> final(worklist)@.contains(b),
        forall|c: SymbolRef|
            #[trigger] final(used)@.contains(c) <==> (old(used)@.contains(c) || exists|x: SymbolRef|
                entry_symbol_of(modules@, metadata@, entries[i as int], x) && #[trigger] effective_ref(*db, x)
                    == c),
        old(used)@.no_duplicates() ==> final(used)@.no_duplicates(),
{
    let ghost ms = modules@;
    let ghost mt = metadata@;
    let ghost w0 = worklist@;
    let ghost u0 = used@;
    let e = entries[i];
    if modules[e].is_external {
        proof {
            assert(worklist@.subrange(0, w0.len() as int) =~= w0);
        }
        return;
    }
    proof {
        assert(entries@.contains(e)) by {
            assert(entries@[i as int] == e);
        }
    }
    let refs = &metadata[e].referenced_symbols_by_entry_point_chunk;
    let mut k: usize = 0;
    while k < refs.len()
        invariant
            *refs == mt[e as int].referenced_symbols_by_entry_point_chunk,
            ms == modules@,
            mt == metadata@,
            include_input_ok(modules@, metadata@, *db, entries@, runtime),
            e < modules.len(),
            e == entries@[i as int],
            entries@.contains(e),
            !ms[e as int].is_external,
            k <= refs.len(),
            worklist@.len() >= w0.len(),
            worklist@.subrange(0, w0.len() as int) == w0,
            forall|j: int| w0.len() <= j < worklist@.len() ==> include_seed(ms, mt, *db, entries@, #[trigger] worklist@[j]),
            forall|t: int, b: IncludeItem|
                0 <= t < k && #[trigger] symbol_target(ms, *db, refs@[t], b) ==> worklist@.contains(b),
            forall|c: SymbolRef|
                #[trigger] used@.contains(c) <==> (u0.contains(c) || exists|t: int|
                    0 <= t < k && #[trigger] effective_ref(*db, refs@[t]) == c),
            u0.no_duplicates() ==> used@.no_duplicates(),
        decreases refs.len() - k,
    {
        let x = refs[k];
        let ghost before = worklist@;
        let ghost ub = used@;
        proof {
            assert(db.has(mt[e as int].referenced_symbols_by_entry_point_chunk[k as int]));
        }
        include_symbol(modules, db, x, worklist, used);
        proof {
            lemma_prefix_trans(w0, before, worklist@);
            assert(entry_symbol(ms, mt, entries@, x)) by {
                assert(refs@[k as int] == x);
                assert(mt[e as int].referenced_symbols_by_entry_point_chunk@.contains(x));
            }
            assert forall|j: int| w0.len() <= j < worklist@.len() implies include_seed(
                ms,
                mt,
                *db,
                entries@,
                #[trigger] worklist@[j],
            ) by {
                if j < before.len() {
                    assert(worklist@.subrange(0, before.len() as int)[j] == worklist@[j]);
                } else {
                    assert(symbol_target(ms, *db, x, worklist@[j]));
                }
            }
            assert forall|t: int, b: IncludeItem|
                0 <= t < k + 1 && #[trigger] symbol_target(ms, *db, refs@[t], b) implies worklist@.contains(b) by {
                if t < k {
                    lemma_prefix_contains(before, worklist@, b);
                }
            }
            assert forall|c: SymbolRef|
                #[trigger] used@.contains(c) <==> (u0.contains(c) || exists|t: int|
                    0 <= t < k + 1 && #[trigger] effective_ref(*db, refs@[t]) == c) by {
                if c == effective_ref(*db, x) {
                    assert(effective_ref(*db, refs@[k as int]) == c);
                }
                if exists|t: int| 0 <= t < k + 1 && #[trigger] effective_ref(*db, refs@[t]) == c {
                    let t = choose|t: int| 0 <= t < k + 1 && #[trigger] effective_ref(*db, refs@[t]) == c;
                    if t < k {
                        assert(ub.contains(c));
                    }
                }
            }
        }
        k += 1;
    }
    let ghost w1 = worklist@;
    worklist.push(IncludeItem::Module(e));
    proof {
        lemma_push_prefix(w1, IncludeItem::Module(e));
        lemma_prefix_trans(w0, w1, worklist@);
        assert(worklist@[worklist@.len() - 1] == IncludeItem::Module(e));
        assert(include_seed(ms, mt, *db, entries@, IncludeItem::Module(e)));
        assert forall|j: int| w0.len() <= j < worklist@.len() implies include_seed(
            ms,
            mt,
            *db,
            entries@,
            #[trigger] worklist@[j],
        ) by {
            if j < w1.len() {
                assert(worklist@.subrange(0, w1.len() as int)[j] == worklist@[j]);
            }
        }
        assert forall|x: SymbolRef, b: IncludeItem|
            entry_symbol_of(ms, mt, e, x) && #[trigger] symbol_target(ms, *db, x, b) implies worklist@.contains(b) by {
            let t = choose|t: int| 0 <= t < refs@.len() && refs@[t] == x;
            assert(symbol_target(ms, *db, refs@[t], b));
            lemma_prefix_contains(w1, worklist@, b);
        }
        assert forall|c: SymbolRef|
            #[trigger] used@.contains(c) <==> (u0.contains(c) || exists|x: SymbolRef|
                entry_symbol_of(ms, mt, e, x) && #[trigger] effective_ref(*db, x) == c) by {
            if exists|x: SymbolRef| entry_symbol_of(ms, mt, e, x) && #[trigger] effective_ref(*db, x) == c {
                let x = choose|x: SymbolRef| entry_symbol_of(ms, mt, e, x) && #[trigger] effective_ref(*db, x) == c;
                let t = choose|t: int| 0 <= t < refs@.len() && refs@[t] == x;
                assert(effective_ref(*db, refs@[t]) == c);
            }
            if exists|t: int| 0 <= t < refs.len() && #[trigger] effective_ref(*db, refs@[t]) == c {
                let t = choose|t: int| 0 <= t < refs.len() && #[trigger] effective_ref(*db, refs@[t]) == c;
                assert(entry_symbol_of(ms, mt, e, refs@[t]));
            }
        }
    }
}

proof fn lemma_pop_contains<A>(wl: Seq<A>, b: A)
    requires
        wl.len() > 0,
        wl.contains(b),
    ensures
        b == wl.last() || wl.subrange(0, wl.len() - 1).contains(b),
{
    let k = choose|k: int| 0 <= k < wl.len() && wl[k] == b;
    if k < wl.len() - 1 {
        assert(wl.subrange(0, wl.len() - 1)[k] == b);
    }
}

proof fn lemma_used_by_mark_module(
    modules: Seq<Module>,
    metas: Seq<LinkingMetadata>,
    entries: Seq<usize>,
    runtime: usize,
    mi: Seq<bool>,
    si: Seq<Seq<bool>>,
    m: usize,
    x: SymbolRef,
)
    requires
        m < mi.len(),
        mi.len() == modules.len(),
        modules.len() <= usize::MAX,
    ensures
        used_by_marked(modules, metas, entries, runtime, mi.update(m as int, true), si, x) <==> (used_by_marked(
            modules,
            metas,
            entries,
            runtime,
            mi,
            si,
            x,
        ) || module_uses_symbol(modules, runtime, m as int, x)),
{
    let mi2 = mi.update(m as int, true);
    if module_uses_symbol(modules, runtime, m as int, x) {
        assert(item_marked(mi2, si, IncludeItem::Module(m)));
    }
    if exists|m2: int| #[trigger] module_uses_symbol(modules, runtime, m2, x) && item_marked(mi, si, IncludeItem::Module(m2 as usize)) {
        let m2 = choose|m2: int| #[trigger] module_uses_symbol(modules, runtime, m2, x) && item_marked(mi, si, IncludeItem::Module(m2 as usize));
        assert(item_marked(mi2, si, IncludeItem::Module(m2 as usize)));
    }
    if exists|m2: int| #[trigger] module_uses_symbol(modules, runtime, m2, x) && item_marked(mi2, si, IncludeItem::Module(m2 as usize)) {
        let m2 = choose|m2: int| #[trigger] module_uses_symbol(modules, runtime, m2, x) && item_marked(mi2, si, IncludeItem::Module(m2 as usize));
        assert(0 <= m2 < modules.len());
        assert((m2 as usize) as int == m2);
        if m2 != m as int {
            assert(mi2[m2] == mi[m2]);
            assert(item_marked(mi, si, IncludeItem::Module(m2 as usize)));
        }
    }
}

proof fn lemma_used_by_mark_stmt(
    modules: Seq<Module>,
    metas: Seq<LinkingMetadata>,
    entries: Seq<usize>,
    runtime: usize,
    mi: Seq<bool>,
    si: Seq<Seq<bool>>,
    m: usize,
    s: usize,
    x: SymbolRef,
)
    requires
        m < si.len(),
        s < si[m as int].len(),
        si.len() == modules.len(),
        modules.len() <= usize::MAX,
        forall|i: int| 0 <= i < si.len() ==> #[trigger] si[i].len() == modules[i].stmt_infos.len(),
    ensures
        used_by_marked(modules, metas, entries, runtime, mi, si.update(m as int, si[m as int].update(s as int, true)), x)
            <==> (used_by_marked(modules, metas, entries, runtime, mi, si, x) || stmt_uses_symbol(
            modules,
            metas,
            m as int,
            s as int,
            x,
        )),
{
    let si2 = si.update(m as int, si[m as int].update(s as int, true));
    if stmt_uses_symbol(modules, metas, m as int, s as int, x) {
        assert(item_marked(mi, si2, IncludeItem::Stmt(m, s)));
    }
    if exists|m2: int, s2: int|
        #[trigger] stmt_uses_symbol(modules, metas, m2, s2, x) && item_marked(mi, si, IncludeItem::Stmt(m2 as usize, s2 as usize)) {
        let (m2, s2) = choose|m2: int, s2: int|
            #[trigger] stmt_uses_symbol(modules, metas, m2, s2, x) && item_marked(mi, si, IncludeItem::Stmt(m2 as usize, s2 as usize));
        assert(item_marked(mi, si2, IncludeItem::Stmt(m2 as usize, s2 as usize)));
    }
    if exists|m2: int, s2: int|
        #[trigger] stmt_uses_symbol(modules, metas, m2, s2, x) && item_marked(mi, si2, IncludeItem::Stmt(m2 as usize, s2 as usize)) {
        let (m2, s2) = choose|m2: int, s2: int|
            #[trigger] stmt_uses_symbol(modules, metas, m2, s2, x) && item_marked(mi, si2, IncludeItem::Stmt(m2 as usize, s2 as usize));
        assert(0 <= m2 < modules.len() && 0 <= s2 < modules[m2].stmt_infos.len());
        assert((m2 as usize) as int == m2 && (s2 as usize) as int == s2);
        if m2 != m as int {
            assert(si2[m2] == si[m2]);
            assert(item_marked(mi, si, IncludeItem::Stmt(m2 as usize, s2 as usize)));
        } else if s2 != s as int {
            assert(si2[m2][s2] == si[m2][s2]);
            assert(item_marked(mi, si, IncludeItem::Stmt(m2 as usize, s2 as usize)));
        }
    }
}

/// Tree shaking: marks the modules and statements that the bundle keeps, starting from
/// the entries (each bundled entry module, and what its chunk refers to) and closing
/// under "an included module keeps its statements with side effects (all of them when it
/// must not be shaken, and those that declare symbols when it calls `eval`), its
/// dependencies with side effects and, when it calls `eval`, its import bindings" and
/// "an included statement keeps what it refers to". A reference keeps the module that
/// declares its canonical symbol (or the namespace the symbol is an alias into) and the
/// statements that declare that symbol; external modules are never included. The runtime
/// module is included only through references into it.
#[verifier::rlimit(50)]
pub fn include_statements(
    modules: &Vec<Module>,
    metadata: &Vec<LinkingMetadata>,
    db: &SymbolRefDb,
    entries: &Vec<ModuleIdx>,
    runtime: ModuleIdx,
) -> (r: IncludedStatements)
    requires
        include_input_ok(modules@, metadata@, *db, entries@, runtime),
    ensures
        r.module_included.len() == modules.len(),
        forall|m: int|
            0 <= m < modules.len() ==> (#[trigger] r.module_included[m] <==> is_included_item(
                modules@,
                metadata@,
                *db,
                entries@,
                runtime,
                IncludeItem::Module(m as usize),
            )),
        r.stmt_included.len() == modules.len(),
        forall|m: int| 0 <= m < modules.len() ==> #[trigger] r.stmt_included[m].len() == modules[m].stmt_infos.len(),
        forall|m: int, s: int|
            0 <= m < modules.len() && 0 <= s < modules[m].stmt_infos.len() ==> (#[trigger] r.stmt_included[m][s]
                <==> is_included_item(
                modules@,
                metadata@,
                *db,
                entries@,
                runtime,
                IncludeItem::Stmt(m as usize, s as usize),
            )),
        r.used_symbol_refs@.no_duplicates(),
        forall|c: SymbolRef|
            #[trigger] r.used_symbol_refs@.contains(c) <==> exists|x: SymbolRef|
                symbol_is_used(modules@, metadata@, *db, entries@, runtime, x) && #[trigger] effective_ref(*db, x)
                    == c,
{
    let ghost ms = modules@;
    let ghost mt = metadata@;
    let ghost es = entries@;
    let n = modules.len();
    let mut module_included: Vec<bool> = vec_of(false, n);
    let mut stmt_included: Vec<Vec<bool>> = Vec::new();
    let mut m: usize = 0;
    while m < n
        invariant
            n == modules.len(),
            m <= n,
            stmt_included.len() == m,
            forall|i: int| 0 <= i < m ==> #[trigger] stmt_included[i].len() == modules[i].stmt_infos.len(),
            forall|i: int, j: int| 0 <= i < m && 0 <= j < stmt_included[i].len() ==> !#[trigger] stmt_included[i][j],
        decreases n - m,
    {
        stmt_included.push(vec_of(false, modules[m].stmt_infos.len()));
        m += 1;
    }
    let mut worklist: Vec<IncludeItem> = Vec::new();
    let mut used: Vec<SymbolRef> = Vec::new();
    let mut i: usize = 0;
    while i < entries.len()
        invariant
            ms == modules@,
            mt == metadata@,
            es == entries@,
            include_input_ok(ms, mt, *db, es, runtime),
            i <= entries.len(),
            forall|k: int| 0 <= k < worklist@.len() ==> include_seed(ms, mt, *db, es, #[trigger] worklist@[k]),
            forall|t: int|
                0 <= t < i && !ms[es[t] as int].is_external ==> worklist@.contains(IncludeItem::Module(#[trigger] es[t])),
            forall|t: int, x: SymbolRef, b: IncludeItem|
                #![trigger es[t], symbol_target(ms, *db, x, b)]
                0 <= t < i && entry_symbol_of(ms, mt, es[t], x) && symbol_target(ms, *db, x, b) ==> worklist@.contains(b),
            forall|c: SymbolRef|
                #[trigger] used@.contains(c) <==> exists|t: int, x: SymbolRef|
                    #![trigger es[t], effective_ref(*db, x)]
                    0 <= t < i && entry_symbol_of(ms, mt, es[t], x) && effective_ref(*db, x) == c,
            used@.no_duplicates(),
        decreases entries.len() - i,
    {
        let ghost before = worklist@;
        let ghost ub = used@;
        seed_entry(modules, metadata, db, entries, runtime, i, &mut worklist, &mut used);
        proof {
            assert forall|k: int| 0 <= k < worklist@.len() implies include_seed(ms, mt, *db, es, #[trigger] worklist@[k]) by {
                if k < before.len() {
                    assert(worklist@.subrange(0, before.len() as int)[k] == worklist@[k]);
                }
            }
            assert forall|t: int|
                0 <= t < i + 1 && !ms[es[t] as int].is_external implies worklist@.contains(IncludeItem::Module(#[trigger] es[t])) by {
                if t < i {
                    lemma_prefix_contains(before, worklist@, IncludeItem::Module(es[t]));
                }
            }
            assert forall|t: int, x: SymbolRef, b: IncludeItem|
                #![trigger es[t], symbol_target(ms, *db, x, b)]
                0 <= t < i + 1 && entry_symbol_of(ms, mt, es[t], x) && symbol_target(ms, *db, x, b) implies worklist@.contains(b) by {
                if t < i {
                    lemma_prefix_contains(before, worklist@, b);
                }
            }
            assert forall|c: SymbolRef|
                #[trigger] used@.contains(c) <==> exists|t: int, x: SymbolRef|
                    #![trigger es[t], effective_ref(*db, x)]
                    0 <= t < i + 1 && entry_symbol_of(ms, mt, es[t], x) && effective_ref(*db, x) == c by {
                if exists|t: int, x: SymbolRef|
                    #![trigger es[t], effective_ref(*db, x)]
                    0 <= t < i + 1 && entry_symbol_of(ms, mt, es[t], x) && effective_ref(*db, x) == c {
                    let (t, x) = choose|t: int, x: SymbolRef|
                        #![trigger es[t], effective_ref(*db, x)]
                        0 <= t < i + 1 && entry_symbol_of(ms, mt, es[t], x) && effective_ref(*db, x) == c;
                    if t < i {
                        assert(ub.contains(c));
                    } else {
                        assert(entry_symbol_of(ms, mt, entries[i as int], x));
                    }
                }
                if used@.contains(c) && !ub.contains(c) {
                    let x = choose|x: SymbolRef| entry_symbol_of(ms, mt, entries[i as int], x) && #[trigger] effective_ref(*db, x) == c;
                    assert(es[i as int] == entries[i as int]);
                }
            }
        }
        i += 1;
    }
    proof {
        let mi = module_included@;
        let si = rows_view(stmt_included@);
        assert forall|b: IncludeItem| #[trigger] include_seed(ms, mt, *db, es, b) implies item_marked(mi, si, b) || worklist@.contains(b) by {
            if b matches IncludeItem::Module(e) && es.contains(e) && e < ms.len() && !ms[e as int].is_external {
                let t = choose|t: int| 0 <= t < es.len() && IncludeItem::Module(es[t]) == b;
            } else {
                let x = choose|x: SymbolRef| #[trigger] entry_symbol(ms, mt, es, x) && symbol_target(ms, *db, x, b);
                let e = choose|e: usize|
                    #![trigger es.contains(e), mt[e as int]]
                    es.contains(e) && !ms[e as int].is_external && mt[e as int].referenced_symbols_by_entry_point_chunk@.contains(x);
                let t = choose|t: int| 0 <= t < es.len() && es[t] == e;
                assert(entry_symbol_of(ms, mt, es[t], x));
            }
        }
        assert forall|k: int| 0 <= k < worklist@.len() implies item_valid(ms, #[trigger] worklist@[k])
            && is_included_item(ms, mt, *db, es, runtime, worklist@[k]) by {
            lemma_seed_included(ms, mt, *db, es, runtime, worklist@[k]);
        }
        assert forall|c: SymbolRef|
            #[trigger] used@.contains(c) <==> exists|x: SymbolRef|
                used_by_marked(ms, mt, es, runtime, mi, si, x) && #[trigger] effective_ref(*db, x) == c by {
            if used@.contains(c) {
                let (t, x) = choose|t: int, x: SymbolRef|
                    #![trigger es[t], effective_ref(*db, x)]
                    0 <= t < es.len() && entry_symbol_of(ms, mt, es[t], x) && effective_ref(*db, x) == c;
                assert(es.contains(es[t]));
                assert(entry_symbol(ms, mt, es, x));
                assert(used_by_marked(ms, mt, es, runtime, mi, si, x));
            }
            if exists|x: SymbolRef| used_by_marked(ms, mt, es, runtime, mi, si, x) && #[trigger] effective_ref(*db, x) == c {
                let x = choose|x: SymbolRef| used_by_marked(ms, mt, es, runtime, mi, si, x) && #[trigger] effective_ref(*db, x) == c;
                assert(entry_symbol(ms, mt, es, x));
                let e = choose|e: usize|
                    #![trigger es.contains(e), mt[e as int]]
                    es.contains(e) && !ms[e as int].is_external && mt[e as int].referenced_symbols_by_entry_point_chunk@.contains(x);
                let t = choose|t: int| 0 <= t < es.len() && es[t] == e;
                assert(entry_symbol_of(ms, mt, es[t], x));
            }
        }
    }
    while worklist.len() > 0
        invariant
            ms == modules@,
            mt == metadata@,
            es == entries@,
            include_input_ok(ms, mt, *db, es, runtime),
            n == ms.len(),
            module_included.len() == n,
            stmt_included.len() == n,
            forall|i: int| 0 <= i < n ==> #[trigger] stmt_included[i].len() == ms[i].stmt_infos.len(),
            forall|k: int|
                0 <= k < worklist@.len() ==> item_valid(ms, #[trigger] worklist@[k]) && is_included_item(
                    ms,
                    mt,
                    *db,
                    es,
                    runtime,
                    worklist@[k],
                ),
            forall|b: IncludeItem|
                #[trigger] item_marked(module_included@, rows_view(stmt_included@), b) ==> is_included_item(
                    ms,
                    mt,
                    *db,
                    es,
                    runtime,
                    b,
                ),
            forall|a: IncludeItem, b: IncludeItem|
                item_marked(module_included@, rows_view(stmt_included@), a) && #[trigger] include_edge(
                    ms,
                    mt,
                    *db,
                    runtime,
                    a,
                    b,
                ) ==> item_marked(module_included@, rows_view(stmt_included@), b) || worklist@.contains(b),
            forall|b: IncludeItem|
                #[trigger] include_seed(ms, mt, *db, es, b) ==> item_marked(module_included@, rows_view(stmt_included@), b)
                    || worklist@.contains(b),
            forall|c: SymbolRef|
                #[trigger] used@.contains(c) <==> exists|x: SymbolRef|
                    used_by_marked(ms, mt, es, runtime, module_included@, rows_view(stmt_included@), x)
                        && #[trigger] effective_ref(*db, x) == c,
            used@.no_duplicates(),
        decreases count_false(module_included@) + count_false_rows(rows_view(stmt_included@)), worklist@.len(),
    {
        let ghost wl = worklist@;
        let ghost mi = module_included@;
        let ghost si = rows_view(stmt_included@);
        let ghost u0 = used@;
        let item = worklist.pop().unwrap();
        let ghost popped = worklist@;
        proof {
            assert(popped == wl.subrange(0, wl.len() - 1));
            assert(item == wl[wl.len() - 1]);
            assert(item_valid(ms, item) && is_included_item(ms, mt, *db, es, runtime, item));
        }
        match item {
            IncludeItem::Module(m) => {
                if !module_included[m] {
                    module_included.set(m, true);
                    if m != runtime {
                        process_module(modules, metadata, db, entries, runtime, m, &mut worklist, &mut used);
                    }
                    proof {
                        let mi2 = module_included@;
                        assert(mi2 == mi.update(m as int, true));
                        assert(rows_view(stmt_included@) == si);
                        lemma_count_false_set(mi, m as int);
                        if m == runtime {
                            assert(worklist@.subrange(0, popped.len() as int) =~= popped);
                        }
                        assert forall|k: int| 0 <= k < worklist@.len() implies item_valid(ms, #[trigger] worklist@[k])
                            && is_included_item(ms, mt, *db, es, runtime, worklist@[k]) by {
                            if k < popped.len() {
                                assert(worklist@.subrange(0, popped.len() as int)[k] == worklist@[k]);
                                assert(wl[k] == popped[k]);
                            } else {
                                lemma_included_step(ms, mt, *db, es, runtime, item, worklist@[k]);
                            }
                        }
                        assert forall|b: IncludeItem|
                            #[trigger] item_marked(mi2, si, b) implies is_included_item(ms, mt, *db, es, runtime, b) by {
                            if b != item {
                                assert(item_marked(mi, si, b));
                            }
                        }
                        assert forall|a: IncludeItem, b: IncludeItem|
                            item_marked(mi2, si, a) && #[trigger] include_edge(ms, mt, *db, runtime, a, b) implies item_marked(
                                mi2,
                                si,
                                b,
                            ) || worklist@.contains(b) by {
                            if a != item {
                                assert(item_marked(mi, si, a));
                                if !item_marked(mi, si, b) {
                                    lemma_pop_contains(wl, b);
                                    if b != item {
                                        lemma_prefix_contains(popped, worklist@, b);
                                    }
                                }
                            }
                        }
                        assert forall|b: IncludeItem|
                            #[trigger] include_seed(ms, mt, *db, es, b) implies item_marked(mi2, si, b) || worklist@.contains(b) by {
                            if !item_marked(mi, si, b) {
                                lemma_pop_contains(wl, b);
                                if b != item {
                                    lemma_prefix_contains(popped, worklist@, b);
                                }
                            }
                        }
                        assert forall|c: SymbolRef|
                            #[trigger] used@.contains(c) <==> exists|x: SymbolRef|
                                used_by_marked(ms, mt, es, runtime, mi2, si, x) && #[trigger] effective_ref(*db, x) == c by {
                            if exists|x: SymbolRef| used_by_marked(ms, mt, es, runtime, mi2, si, x) && #[trigger] effective_ref(*db, x) == c {
                                let x = choose|x: SymbolRef| used_by_marked(ms, mt, es, runtime, mi2, si, x) && #[trigger] effective_ref(*db, x) == c;
                                lemma_used_by_mark_module(ms, mt, es, runtime, mi, si, m, x);
                            }
                            if used@.contains(c) {
                                if u0.contains(c) {
                                    let x = choose|x: SymbolRef| used_by_marked(ms, mt, es, runtime, mi, si, x) && #[trigger] effective_ref(*db, x) == c;
                                    lemma_used_by_mark_module(ms, mt, es, runtime, mi, si, m, x);
                                } else {
                                    let x = choose|x: SymbolRef| module_uses_symbol(ms, runtime, m as int, x) && #[trigger] effective_ref(*db, x) == c;
                                    lemma_used_by_mark_module(ms, mt, es, runtime, mi, si, m, x);
                                }
                            }
                        }
                    }
                } else {
                    proof {
                        assert(worklist@.subrange(0, popped.len() as int) =~= popped);
                        assert forall|a: IncludeItem, b: IncludeItem|
                            item_marked(mi, si, a) && #[trigger] include_edge(ms, mt, *db, runtime, a, b) implies item_marked(
                                mi,
                                si,
                                b,
                            ) || worklist@.contains(b) by {
                            if !item_marked(mi, si, b) {
                                lemma_pop_contains(wl, b);
                            }
                        }
                        assert forall|b: IncludeItem|
                            #[trigger] include_seed(ms, mt, *db, es, b) implies item_marked(mi, si, b) || worklist@.contains(b) by {
                            if !item_marked(mi, si, b) {
                                lemma_pop_contains(wl, b);
                            }
                        }
                        assert forall|k: int| 0 <= k < worklist@.len() implies item_valid(ms, #[trigger] worklist@[k])
                            && is_included_item(ms, mt, *db, es, runtime, worklist@[k]) by {
                            assert(wl[k] == popped[k]);
                        }
                    }
                }
            },
            IncludeItem::Stmt(m, s) => {
                proof {
                    assert(stmt_included[m as int].len() == ms[m as int].stmt_infos.len());
                    assert(si[m as int] == stmt_included@[m as int]@);
                    assert forall|i: int| 0 <= i < si.len() implies #[trigger] si[i].len() == ms[i].stmt_infos.len() by {
                        assert(si[i] == stmt_included@[i]@);
                        assert(stmt_included[i].len() == ms[i].stmt_infos.len());
                    }
                }
                if !stmt_included[m][s] {
                    stmt_included[m].set(s, true);
                    process_stmt(modules, metadata, db, entries, runtime, m, s, &mut worklist, &mut used);
                    proof {
                        let si2 = rows_view(stmt_included@);
                        assert(si2 =~= si.update(m as int, si[m as int].update(s as int, true)));
                        assert(module_included@ == mi);
                        lemma_count_false_rows_set(si, m as int, s as int);
                        assert forall|k: int| 0 <= k < worklist@.len() implies item_valid(ms, #[trigger] worklist@[k])
                            && is_included_item(ms, mt, *db, es, runtime, worklist@[k]) by {
                            if k < popped.len() {
                                assert(worklist@.subrange(0, popped.len() as int)[k] == worklist@[k]);
                                assert(wl[k] == popped[k]);
                            } else {
                                lemma_included_step(ms, mt, *db, es, runtime, item, worklist@[k]);
                            }
                        }
                        assert forall|b: IncludeItem|
                            #[trigger] item_marked(mi, si2, b) implies is_included_item(ms, mt, *db, es, runtime, b) by {
                            if b != item {
                                assert(item_marked(mi, si, b));
                            }
                        }
                        assert forall|a: IncludeItem, b: IncludeItem|
                            item_marked(mi, si2, a) && #[trigger] include_edge(ms, mt, *db, runtime, a, b) implies item_marked(
                                mi,
                                si2,
                                b,
                            ) || worklist@.contains(b) by {
                            if a != item {
                                assert(item_marked(mi, si, a));
                                if !item_marked(mi, si, b) {
                                    lemma_pop_contains(wl, b);
                                    if b != item {
                                        lemma_prefix_contains(popped, worklist@, b);
                                    }
                                } else {
                                    assert(item_marked(mi, si2, b));
                                }
                            }
                        }
                        assert forall|b: IncludeItem|
                            #[trigger] include_seed(ms, mt, *db, es, b) implies item_marked(mi, si2, b) || worklist@.contains(b) by {
                            if !item_marked(mi, si, b) {
                                lemma_pop_contains(wl, b);
                                if b != item {
                                    lemma_prefix_contains(popped, worklist@, b);
                                }
                            } else {
                                assert(item_marked(mi, si2, b));
                            }
                        }
                        assert forall|c: SymbolRef|
                            #[trigger] used@.contains(c) <==> exists|x: SymbolRef|
                                used_by_marked(ms, mt, es, runtime, mi, si2, x) && #[trigger] effective_ref(*db, x) == c by {
                            if exists|x: SymbolRef| used_by_marked(ms, mt, es, runtime, mi, si2, x) && #[trigger] effective_ref(*db, x) == c {
                                let x = choose|x: SymbolRef| used_by_marked(ms, mt, es, runtime, mi, si2, x) && #[trigger] effective_ref(*db, x) == c;
                                lemma_used_by_mark_stmt(ms, mt, es, runtime, mi, si, m, s, x);
                            }
                            if used@.contains(c) {
                                if u0.contains(c) {
                                    let x = choose|x: SymbolRef| used_by_marked(ms, mt, es, runtime, mi, si, x) && #[trigger] effective_ref(*db, x) == c;
                                    lemma_used_by_mark_stmt(ms, mt, es, runtime, mi, si, m, s, x);
                                } else {
                                    let x = choose|x: SymbolRef| stmt_uses_symbol(ms, mt, m as int, s as int, x) && #[trigger] effective_ref(*db, x) == c;
                                    lemma_used_by_mark_stmt(ms, mt, es, runtime, mi, si, m, s, x);
                                }
                            }
                        }
                    }
                } else {
                    proof {
                        assert(worklist@.subrange(0, popped.len() as int) =~= popped);
                        assert forall|a: IncludeItem, b: IncludeItem|
                            item_marked(mi, si, a) && #[trigger] include_edge(ms, mt, *db, runtime, a, b) implies item_marked(
                                mi,
                                si,
                                b,
                            ) || worklist@.contains(b) by {
                            if !item_marked(mi, si, b) {
                                lemma_pop_contains(wl, b);
                            }
                        }
                        assert forall|b: IncludeItem|
                            #[trigger] include_seed(ms, mt, *db, es, b) implies item_marked(mi, si, b) || worklist@.contains(b) by {
                            if !item_marked(mi, si, b) {
                                lemma_pop_contains(wl, b);
                            }
                        }
                        assert forall|k: int| 0 <= k < worklist@.len() implies item_valid(ms, #[trigger] worklist@[k])
                            && is_included_item(ms, mt, *db, es, runtime, worklist@[k]) by {
                            assert(wl[k] == popped[k]);
                        }
                    }
                }
            },
        }
    }
    proof {
        let mi = module_included@;
        let si = rows_view(stmt_included@);
        let rel = include_rel(ms, mt, *db, runtime);
        let mk = |b: IncludeItem| item_marked(mi, si, b);
        assert forall|x: IncludeItem, y: IncludeItem| mk(x) && #[trigger] rel(x, y) implies mk(y) by {
            assert(include_edge(ms, mt, *db, runtime, x, y));
        }
        assert forall|b: IncludeItem| #[trigger] is_included_item(ms, mt, *db, es, runtime, b) implies item_marked(mi, si, b) by {
            let a0 = choose|a0: IncludeItem| #[trigger] include_seed(ms, mt, *db, es, a0) && reaches(rel, a0, b);
            assert(mk(a0));
            lemma_closed_holds_reached(rel, mk, a0, b);
        }
        assert forall|m: int| 0 <= m < ms.len() implies (#[trigger] module_included@[m] <==> is_included_item(
            ms,
            mt,
            *db,
            es,
            runtime,
            IncludeItem::Module(m as usize),
        )) by {
            assert(item_marked(mi, si, IncludeItem::Module(m as usize)) == mi[m]);
        }
        assert forall|m: int, s: int|
            0 <= m < ms.len() && 0 <= s < ms[m].stmt_infos.len() implies (#[trigger] stmt_included@[m]@[s] <==> is_included_item(
                ms,
                mt,
                *db,
                es,
                runtime,
                IncludeItem::Stmt(m as usize, s as usize),
            )) by {
            assert(stmt_included[m].len() == ms[m].stmt_infos.len());
            assert(si[m] == stmt_included@[m]@);
            assert(item_marked(mi, si, IncludeItem::Stmt(m as usize, s as usize)) == stmt_included@[m]@[s]);
        }
        assert forall|x: SymbolRef|
            used_by_marked(ms, mt, es, runtime, mi, si, x) <==> #[trigger] symbol_is_used(ms, mt, *db, es, runtime, x) by {
            if exists|m: int| #[trigger] module_uses_symbol(ms, runtime, m, x) && item_marked(mi, si, IncludeItem::Module(m as usize)) {
                let m = choose|m: int| #[trigger] module_uses_symbol(ms, runtime, m, x) && item_marked(mi, si, IncludeItem::Module(m as usize));
                assert(is_included_item(ms, mt, *db, es, runtime, IncludeItem::Module(m as usize)));
            }
            if exists|m: int| #[trigger] module_uses_symbol(ms, runtime, m, x) && is_included_item(ms, mt, *db, es, runtime, IncludeItem::Module(m as usize)) {
                let m = choose|m: int| #[trigger] module_uses_symbol(ms, runtime, m, x) && is_included_item(ms, mt, *db, es, runtime, IncludeItem::Module(m as usize));
                assert(item_marked(mi, si, IncludeItem::Module(m as usize)));
            }
            if exists|m: int, s: int| #[trigger] stmt_uses_symbol(ms, mt, m, s, x) && item_marked(mi, si, IncludeItem::Stmt(m as usize, s as usize)) {
                let (m, s) = choose|m: int, s: int| #[trigger] stmt_uses_symbol(ms, mt, m, s, x) && item_marked(mi, si, IncludeItem::Stmt(m as usize, s as usize));
                assert(is_included_item(ms, mt, *db, es, runtime, IncludeItem::Stmt(m as usize, s as usize)));
            }
            if exists|m: int, s: int| #[trigger] stmt_uses_symbol(ms, mt, m, s, x) && is_included_item(ms, mt, *db, es, runtime, IncludeItem::Stmt(m as usize, s as usize)) {
                let (m, s) = choose|m: int, s: int| #[trigger] stmt_uses_symbol(ms, mt, m, s, x) && is_included_item(ms, mt, *db, es, runtime, IncludeItem::Stmt(m as usize, s as usize));
                assert(item_marked(mi, si, IncludeItem::Stmt(m as usize, s as usize)));
            }
        }
    }
    IncludedStatements { module_included, stmt_included, used_symbol_refs: used }
}


/// Tree shaking keeps what an included module needs: a bundled module other than the
/// runtime, once included, includes each of its dependencies that is bundled and has side
/// effects, and each statement that is kept along with it.
pub proof fn lemma_included_module_keeps_its_needs(
    modules: Seq<Module>,
    metas: Seq<LinkingMetadata>,
    db: SymbolRefDb,
    entries: Seq<usize>,
    runtime: usize,
    m: usize,
)
    requires
        m < modules.len(),
        !modules[m as int].is_external,
        m != runtime,
        is_included_item(modules, metas, db, entries, runtime, IncludeItem::Module(m)),
    ensures
        forall|d: usize|
            #![trigger metas[m as int].dependencies@.contains(d)]
            metas[m as int].dependencies@.contains(d) && d < modules.len() && !modules[d as int].is_external
                && modules[d as int].side_effects.spec_has_side_effects() ==> is_included_item(
                modules,
                metas,
                db,
                entries,
                runtime,
                IncludeItem::Module(d),
            ),
        forall|s: usize|
            s < modules[m as int].stmt_infos.len() && #[trigger] stmt_kept_with_module(modules[m as int], s as int) ==> is_included_item(
                modules,
                metas,
                db,
                entries,
                runtime,
                IncludeItem::Stmt(m, s),
            ),
{
    let rel = include_rel(modules, metas, db, runtime);
    let a = choose|a: IncludeItem| #[trigger] include_seed(modules, metas, db, entries, a) && reaches(rel, a, IncludeItem::Module(m));
    assert forall|d: usize|
        #![trigger metas[m as int].dependencies@.contains(d)]
        metas[m as int].dependencies@.contains(d) && d < modules.len() && !modules[d as int].is_external
            && modules[d as int].side_effects.spec_has_side_effects() implies is_included_item(
            modules,
            metas,
            db,
            entries,
            runtime,
            IncludeItem::Module(d),
        ) by {
        assert(include_edge(modules, metas, db, runtime, IncludeItem::Module(m), IncludeItem::Module(d)));
        lemma_reaches_step(rel, a, IncludeItem::Module(m), IncludeItem::Module(d));
    }
    assert forall|s: usize|
        s < modules[m as int].stmt_infos.len() && #[trigger] stmt_kept_with_module(modules[m as int], s as int) implies is_included_item(
            modules,
            metas,
            db,
            entries,
            runtime,
            IncludeItem::Stmt(m, s),
        ) by {
        assert(include_edge(modules, metas, db, runtime, IncludeItem::Module(m), IncludeItem::Stmt(m, s)));
        lemma_reaches_step(rel, a, IncludeItem::Module(m), IncludeItem::Stmt(m, s));
    }
}

} // verus!
