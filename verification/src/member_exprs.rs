use vstd::prelude::*;
use vstd::string::*;

use crate::bind::{ReexportChain, ResolvedExportEntry};
use crate::strings::{copy_str, str_eq, views};
use crate::dependencies::insert_all;
use crate::types::{LinkingMetadata, Module, ModuleIdx, SymbolOrMemberExprRef, SymbolRef, SymbolRefDb};

verus! {

/// A static member expression `ns.a.b` rooted at a symbol.
#[derive(Clone, Debug)]
pub struct MemberExprRef {
    pub object_ref: SymbolRef,
    pub props: Vec<String>,
}

/// What a member expression resolves to: the symbol it reads (none when it always reads
/// `undefined`) and the properties still read from it.
#[derive(Clone, Debug)]
pub struct MemberExprResolution {
    pub symbol: Option<SymbolRef>,
    pub props: Vec<String>,
}

/// How following a member expression through namespaces ends.
pub enum WalkEnd {
    /// At symbol `c`, with the properties from `cursor` on still to read.
    Done(SymbolRef, nat),
    /// Property `cursor` is not exported by namespace module `owner`.
    Missing(nat, ModuleIdx),
    /// Property `cursor` is exported but not among the module's listed export names.
    Hidden(nat),
}

/// The symbol that `entries` export as `name` (the first such entry).
pub open spec fn find_export(entries: Seq<ResolvedExportEntry>, name: Seq<char>) -> Option<SymbolRef> {
    if exists|k: int| 0 <= k < entries.len() && (#[trigger] entries[k]).name@ == name {
        Some(entries[first_entry(entries, name)].symbol)
    } else {
        None
    }
}

pub open spec fn first_entry(entries: Seq<ResolvedExportEntry>, name: Seq<char>) -> int {
    choose|k: int| 0 <= k < entries.len() && entries[k].name@ == name && forall|j: int| 0 <= j < k ==> (#[trigger] entries[j]).name@ != name
}

/// The imports re-exported on the way to `s` (from the first chain recorded for it).
pub open spec fn chain_of(chains: Seq<ReexportChain>, s: SymbolRef) -> Seq<SymbolRef> {
    if exists|k: int| 0 <= k < chains.len() && (#[trigger] chains[k]).imported_as == s {
        chains[first_chain(chains, s)].reexports@
    } else {
        Seq::empty()
    }
}

pub open spec fn first_chain(chains: Seq<ReexportChain>, s: SymbolRef) -> int {
    choose|k: int| 0 <= k < chains.len() && chains[k].imported_as == s && forall|j: int| 0 <= j < k ==> (#[trigger] chains[j]).imported_as != s
}

/// The owners, in order, of the symbols of `chain` whose modules have side effects.
pub open spec fn side_effect_owners(chain: Seq<SymbolRef>, side_effects: Seq<bool>) -> Seq<usize>
    decreases chain.len(),
{
    if chain.len() == 0 {
        Seq::empty()
    } else {
        let rest = side_effect_owners(chain.drop_last(), side_effects);
        if side_effects[chain.last().owner as int] {
            rest.push(chain.last().owner)
        } else {
            rest
        }
    }
}

/// Follows property `cursor` of `props` on from symbol `c` while `c` is a module's
/// namespace: each property exported (and listed) by that module moves to the canonical
/// symbol of the export. Also gives the modules with side effects that were re-exported
/// through on the way.
pub open spec fn walk(
    modules: Seq<Module>,
    db: SymbolRefDb,
    resolved: Seq<Seq<ResolvedExportEntry>>,
    sorted: Seq<Seq<Seq<char>>>,
    chains: Seq<ReexportChain>,
    side_effects: Seq<bool>,
    props: Seq<Seq<char>>,
    c: SymbolRef,
    cursor: nat,
) -> (WalkEnd, Seq<usize>)
    decreases props.len() - cursor,
{
    if cursor >= props.len() || modules[c.owner as int].namespace_object_ref != c {
        (WalkEnd::Done(c, cursor), Seq::empty())
    } else {
        let name = props[cursor as int];
        match find_export(resolved[c.owner as int], name) {
            None => (WalkEnd::Missing(cursor, c.owner), Seq::empty()),
            Some(sym) => if !sorted[c.owner as int].contains(name) {
                (WalkEnd::Hidden(cursor), Seq::empty())
            } else {
                let deps = side_effect_owners(chain_of(chains, sym), side_effects);
                let next = walk(modules, db, resolved, sorted, chains, side_effects, props, db.info(sym).canonical, cursor + 1);
                (next.0, deps + next.1)
            },
        }
    }
}

/// Whether each module's exports can only be known at run time.
pub open spec fn dynamic_flags(metas: Seq<LinkingMetadata>) -> Seq<bool> {
    Seq::new(metas.len(), |m: int| metas[m].has_dynamic_exports)
}

/// The warning for a property that a namespace module does not export.
pub open spec fn undefined_import_warning(name: Seq<char>, stable_id: Seq<char>) -> Seq<char> {
    "Import `"@ + name + "` will always be undefined because there is no matching export in '"@ + stable_id + "'"@
}

/// What resolving one member expression gives: its entry in the resolution map (none when
/// it is left as it is), the modules it depends on, and a warning (if any). A property that
/// a namespace does not export makes the rest read `void 0` (with a warning) only when the
/// module's exports are all known (`dynamic` is false for it); after at least one resolved
/// step the chain is rewritten from the namespace reached.
pub open spec fn member_expr_outcome(
    modules: Seq<Module>,
    db: SymbolRefDb,
    resolved: Seq<Seq<ResolvedExportEntry>>,
    sorted: Seq<Seq<Seq<char>>>,
    chains: Seq<ReexportChain>,
    side_effects: Seq<bool>,
    dynamic: Seq<bool>,
    object_ref: SymbolRef,
    props: Seq<Seq<char>>,
) -> (Option<(Option<SymbolRef>, Seq<Seq<char>>)>, Seq<usize>, Option<Seq<char>>) {
    let c0 = db.info(object_ref).canonical;
    if modules[c0.owner as int].is_external {
        (None, Seq::empty(), None)
    } else {
        let (end, deps) = walk(modules, db, resolved, sorted, chains, side_effects, props, c0, 0);
        match end {
            WalkEnd::Done(c, cur) => (if cur > 0 {
                Some((Some(c), props.subrange(cur as int, props.len() as int)))
            } else {
                None
            }, deps, None),
            WalkEnd::Missing(cur, owner) => (
                if cur > 0 {
                    Some((Some(modules[owner as int].namespace_object_ref), props.subrange(cur as int, props.len() as int)))
                } else if dynamic[owner as int] {
                    None
                } else {
                    Some((None, props.subrange(cur as int, props.len() as int)))
                },
                deps,
                if dynamic[owner as int] {
                    None
                } else {
                    Some(undefined_import_warning(props[cur as int], modules[owner as int].stable_id@))
                },
            ),
            WalkEnd::Hidden(cur) => (Some((None, props.subrange(cur as int, props.len() as int))), deps, None),
        }
    }
}

/// The inputs to resolving member expressions hold together: every export's symbol exists
/// and stands (canonically) for a symbol of a bundled module, and the symbol table covers
/// the module table.
pub open spec fn member_input_ok(modules: Seq<Module>, db: SymbolRefDb, resolved: Seq<Seq<ResolvedExportEntry>>, side_effects: Seq<bool>) -> bool {
    &&& db.wf()
    &&& db.symbols.len() == modules.len()
    &&& resolved.len() == modules.len()
    &&& side_effects.len() == modules.len()
    &&& forall|m: int, k: int|
        0 <= m < resolved.len() && 0 <= k < resolved[m].len() ==> db.has(#[trigger] resolved[m][k].symbol)
            && !modules[db.info(resolved[m][k].symbol).canonical.owner as int].is_external
}

/// Every symbol of every chain belongs to a module of the table.
pub open spec fn chains_ok(chains: Seq<ReexportChain>, n: nat) -> bool {
    forall|k: int, i: int| 0 <= k < chains.len() && 0 <= i < chains[k].reexports.len() ==> (#[trigger] chains[k].reexports@[i]).owner < n
}

fn find_export_exec(entries: &Vec<ResolvedExportEntry>, name: &String) -> (r: Option<SymbolRef>)
    ensures
        r == find_export(entries@, name@),
        r matches Some(s) ==> exists|k: int| 0 <= k < entries.len() && (#[trigger] entries@[k]).symbol == s,
{
    let mut k: usize = 0;
    while k < entries.len()
        invariant
            k <= entries.len(),
            forall|j: int| 0 <= j < k ==> (#[trigger] entries@[j]).name@ != name@,
        decreases entries.len() - k,
    {
        if str_eq(entries[k].name.as_str(), name.as_str()) {
            proof {
                let f = first_entry(entries@, name@);
                assert(0 <= f < entries.len() && entries@[f].name@ == name@ && forall|j: int| 0 <= j < f ==> (#[trigger] entries@[j]).name@ != name@);
                if f < k {
                    assert(entries@[f].name@ != name@);
                }
                if k < f {
                    assert(entries@[k as int].name@ != name@);
                }
            }
            return Some(entries[k].symbol);
        }
        k += 1;
    }
    None
}

fn listed(sorted: &Vec<String>, name: &String) -> (r: bool)
    ensures
        r == views(sorted@).contains(name@),
{
    let mut k: usize = 0;
    while k < sorted.len()
        invariant
            k <= sorted.len(),
            forall|j: int| 0 <= j < k ==> (#[trigger] sorted@[j])@ != name@,
        decreases sorted.len() - k,
    {
        if str_eq(sorted[k].as_str(), name.as_str()) {
            proof {
                assert(views(sorted@)[k as int] == name@);
            }
            return true;
        }
        k += 1;
    }
    proof {
        if views(sorted@).contains(name@) {
            let j = choose|j: int| 0 <= j < views(sorted@).len() && views(sorted@)[j] == name@;
            assert(sorted@[j]@ == name@);
        }
    }
    false
}

fn chain_owners(chains: &Vec<ReexportChain>, s: SymbolRef, side_effects: &Vec<bool>) -> (r: Vec<usize>)
    requires
        chains_ok(chains@, side_effects.len() as nat),
    ensures
        r@ == side_effect_owners(chain_of(chains@, s), side_effects@),
{
    let mut k: usize = 0;
    while k < chains.len()
        invariant
            k <= chains.len(),
            chains_ok(chains@, side_effects.len() as nat),
            forall|j: int| 0 <= j < k ==> (#[trigger] chains@[j]).imported_as != s,
        decreases chains.len() - k,
    {
        if chains[k].imported_as == s {
            proof {
                let f = first_chain(chains@, s);
                assert(0 <= f < chains.len() && chains@[f].imported_as == s && forall|j: int| 0 <= j < f ==> (#[trigger] chains@[j]).imported_as != s);
                if f < k {
                    assert(chains@[f].imported_as != s);
                }
                if k < f {
                    assert(chains@[k as int].imported_as != s);
                }
            }
            let chain = &chains[k].reexports;
            let mut r: Vec<usize> = Vec::new();
            let mut i: usize = 0;
            while i < chain.len()
                invariant
                    k < chains.len(),
                    *chain == chains@[k as int].reexports,
                    chains_ok(chains@, side_effects.len() as nat),
                    i <= chain.len(),
                    r@ == side_effect_owners(chain@.subrange(0, i as int), side_effects@),
                decreases chain.len() - i,
            {
                let item = chain[i];
                proof {
                    assert(chain@.subrange(0, i + 1).drop_last() =~= chain@.subrange(0, i as int));
                    assert(item.owner < side_effects.len());
                }
                if side_effects[item.owner] {
                    r.push(item.owner);
                }
                i += 1;
            }
            proof {
                assert(chain@.subrange(0, chain.len() as int) =~= chain@);
            }
            return r;
        }
        k += 1;
    }
    Vec::new()
}

fn suffix(props: &Vec<String>, from: usize) -> (r: Vec<String>)
    requires
        from <= props.len(),
    ensures
        views(r@) == views(props@).subrange(from as int, props.len() as int),
{
    let mut r: Vec<String> = Vec::new();
    let mut i: usize = from;
    while i < props.len()
        invariant
            from <= i <= props.len(),
            views(r@) == views(props@).subrange(from as int, i as int),
        decreases props.len() - i,
    {
        let ghost before = r@;
        r.push(copy_str(&props[i]));
        proof {
            assert(r@ == before.push(r@[r@.len() - 1]));
            assert(r@[r@.len() - 1]@ == props@[i as int]@);
            assert(views(r@) =~= views(before).push(props@[i as int]@));
            assert(views(props@).subrange(from as int, i + 1) =~= views(props@).subrange(from as int, i as int).push(props@[i as int]@));
        }
        i += 1;
    }
    r
}

/// The views of a resolution.
pub open spec fn resolution_view(r: MemberExprResolution) -> (Option<SymbolRef>, Seq<Seq<char>>) {
    (r.symbol, views(r.props@))
}

/// Resolves one member expression (see [`member_expr_outcome`]).
pub fn resolve_member_expr(
    modules: &Vec<Module>,
    db: &SymbolRefDb,
    resolved: &Vec<Vec<ResolvedExportEntry>>,
    sorted: &Vec<Vec<String>>,
    chains: &Vec<ReexportChain>,
    side_effects: &Vec<bool>,
    dynamic: &Vec<bool>,
    expr: &MemberExprRef,
) -> (r: (Option<MemberExprResolution>, Vec<usize>, Option<String>))
    requires
        member_input_ok(modules@, *db, crate::bind::views_of(resolved@), side_effects@),
        sorted.len() == modules.len(),
        dynamic.len() == modules.len(),
        chains_ok(chains@, side_effects.len() as nat),
        db.has(expr.object_ref),
    ensures
        ({
            let o = member_expr_outcome(
                modules@,
                *db,
                crate::bind::views_of(resolved@),
                sorted_views(sorted@),
                chains@,
                side_effects@,
                dynamic@,
                expr.object_ref,
                views(expr.props@),
            );
            &&& (match r.0 {
                Some(res) => o.0 == Some(resolution_view(res)),
                None => o.0 is None,
            })
            &&& r.1@ == o.1
            &&& (match r.2 {
                Some(w) => o.2 == Some(w@),
                None => o.2 is None,
            })
        }),
{
    let ghost mods = modules@;
    let ghost rv = crate::bind::views_of(resolved@);
    let ghost sv = sorted_views(sorted@);
    let ghost pv = views(expr.props@);
    let c0 = db.canonical_ref_for(expr.object_ref);
    if modules[c0.owner].is_external {
        return (None, Vec::new(), None);
    }
    let mut c = c0;
    let mut cursor: usize = 0;
    let mut deps: Vec<usize> = Vec::new();
    let ghost full = walk(mods, *db, rv, sv, chains@, side_effects@, pv, c0, 0);
    while cursor < expr.props.len() && modules[c.owner].namespace_object_ref == c
        invariant
            member_input_ok(mods, *db, rv, side_effects@),
            mods == modules@,
            rv == crate::bind::views_of(resolved@),
            sv == sorted_views(sorted@),
            pv == views(expr.props@),
            sorted.len() == modules.len(),
            chains_ok(chains@, side_effects.len() as nat),
            dynamic.len() == modules.len(),
            cursor <= expr.props.len(),
            chains_ok(chains@, side_effects.len() as nat),
            dynamic.len() == modules.len(),
            db.has(c),
            c.owner < modules.len(),
            !modules@[c.owner as int].is_external,
            full == walk(mods, *db, rv, sv, chains@, side_effects@, pv, c0, 0),
            c0 == db.info(expr.object_ref).canonical,
            !mods[c0.owner as int].is_external,
            full.0 == walk(mods, *db, rv, sv, chains@, side_effects@, pv, c, cursor as nat).0,
            full.1 == deps@ + walk(mods, *db, rv, sv, chains@, side_effects@, pv, c, cursor as nat).1,
        decreases expr.props.len() - cursor,
    {
        let name = &expr.props[cursor];
        let owner = c.owner;
        proof {
            assert(rv[owner as int] == resolved@[owner as int]@);
            assert(pv[cursor as int] == name@);
            assert(sv[owner as int] == views(sorted@[owner as int]@));
        }
        match find_export_exec(&resolved[owner], name) {
            None => {
                proof {
                    assert(find_export(rv[owner as int], pv[cursor as int]) is None);
                    assert(walk(mods, *db, rv, sv, chains@, side_effects@, pv, c, cursor as nat) == (WalkEnd::Missing(cursor as nat, owner), Seq::<usize>::empty()));
                    assert(full.1 == deps@ + Seq::<usize>::empty());
                    assert(deps@ + Seq::<usize>::empty() =~= deps@);
                }
                if dynamic[owner] {
                    if cursor > 0 {
                        let props = suffix(&expr.props, cursor);
                        return (Some(MemberExprResolution { symbol: Some(c), props }), deps, None);
                    }
                    return (None, deps, None);
                }
                let mut w = String::from_str("Import `");
                w.append(name.as_str());
                w.append("` will always be undefined because there is no matching export in '");
                w.append(modules[owner].stable_id.as_str());
                w.append("'");
                let props = suffix(&expr.props, cursor);
                proof {
                    assert(find_export(rv[owner as int], pv[cursor as int]) is None);
                    assert(walk(mods, *db, rv, sv, chains@, side_effects@, pv, c, cursor as nat) == (WalkEnd::Missing(cursor as nat, owner), Seq::<usize>::empty()));
                    assert(full.1 == deps@ + Seq::<usize>::empty());
                    assert(deps@ + Seq::<usize>::empty() =~= deps@);
                    assert(w@ == undefined_import_warning(pv[cursor as int], mods[owner as int].stable_id@));
                }
                if cursor > 0 {
                    return (Some(MemberExprResolution { symbol: Some(c), props }), deps, Some(w));
                }
                return (Some(MemberExprResolution { symbol: None, props }), deps, Some(w));
            },
            Some(sym) => {
                if !listed(&sorted[owner], name) {
                    let props = suffix(&expr.props, cursor);
                    proof {
                        assert(!sv[owner as int].contains(pv[cursor as int]));
                        assert(walk(mods, *db, rv, sv, chains@, side_effects@, pv, c, cursor as nat) == (WalkEnd::Hidden(cursor as nat), Seq::<usize>::empty()));
                        assert(deps@ + Seq::<usize>::empty() =~= deps@);
                    }
                    return (Some(MemberExprResolution { symbol: None, props }), deps, None);
                }
                let mut more = chain_owners(chains, sym, side_effects);
                let ghost before = deps@;
                deps.append(&mut more);
                proof {
                    let k = choose|k: int| 0 <= k < resolved@[owner as int].len() && (#[trigger] resolved@[owner as int]@[k]).symbol == sym;
                    assert(rv[owner as int][k].symbol == sym);
                    assert(db.has(sym));
                    let rest = walk(mods, *db, rv, sv, chains@, side_effects@, pv, db.info(sym).canonical, (cursor + 1) as nat);
                    assert(before + (side_effect_owners(chain_of(chains@, sym), side_effects@) + rest.1) =~= deps@ + rest.1);
                }
                c = db.canonical_ref_for(sym);
                cursor += 1;
            },
        }
    }
    proof {
        assert(deps@ + Seq::<usize>::empty() =~= deps@);
    }
    if cursor > 0 {
        let props = suffix(&expr.props, cursor);
        (Some(MemberExprResolution { symbol: Some(c), props }), deps, None)
    } else {
        (None, deps, None)
    }
}

/// The listed export names of each module, as views.
pub open spec fn sorted_views(sorted: Seq<Vec<String>>) -> Seq<Seq<Seq<char>>> {
    Seq::new(sorted.len(), |m: int| views(sorted[m]@))
}


/// The outcome of each reference of a statement, in order: a member expression is
/// resolved, a plain symbol gives nothing.
pub open spec fn ref_outcome(
    modules: Seq<Module>,
    db: SymbolRefDb,
    resolved: Seq<Seq<ResolvedExportEntry>>,
    sorted: Seq<Seq<Seq<char>>>,
    chains: Seq<ReexportChain>,
    side_effects: Seq<bool>,
    dynamic: Seq<bool>,
    exprs: Seq<MemberExprRef>,
    r: SymbolOrMemberExprRef,
) -> (Option<(Option<SymbolRef>, Seq<Seq<char>>)>, Seq<usize>, Option<Seq<char>>) {
    match r {
        SymbolOrMemberExprRef::MemberExpr(k) => member_expr_outcome(
            modules,
            db,
            resolved,
            sorted,
            chains,
            side_effects,
            dynamic,
            exprs[k as int].object_ref,
            views(exprs[k as int].props@),
        ),
        SymbolOrMemberExprRef::Symbol(_) => (None, Seq::empty(), None),
    }
}

/// The references of a module's statements, in order.
pub open spec fn module_refs(m: Module) -> Seq<SymbolOrMemberExprRef> {
    flatten_refs(Seq::new(m.stmt_infos@.len(), |j: int| m.stmt_infos@[j].referenced_symbols@))
}

pub open spec fn flatten_refs(ss: Seq<Seq<SymbolOrMemberExprRef>>) -> Seq<SymbolOrMemberExprRef>
    decreases ss.len(),
{
    if ss.len() == 0 {
        Seq::empty()
    } else {
        flatten_refs(ss.drop_last()) + ss.last()
    }
}

/// What resolving the first `n` references of a module gives: the dependencies, in order,
/// and the warnings, in order.
pub open spec fn refs_fold(
    modules: Seq<Module>,
    db: SymbolRefDb,
    resolved: Seq<Seq<ResolvedExportEntry>>,
    sorted: Seq<Seq<Seq<char>>>,
    chains: Seq<ReexportChain>,
    side_effects: Seq<bool>,
    dynamic: Seq<bool>,
    exprs: Seq<MemberExprRef>,
    refs: Seq<SymbolOrMemberExprRef>,
) -> (Seq<usize>, Seq<Seq<char>>)
    decreases refs.len(),
{
    if refs.len() == 0 {
        (Seq::empty(), Seq::empty())
    } else {
        let prev = refs_fold(modules, db, resolved, sorted, chains, side_effects, dynamic, exprs, refs.drop_last());
        let o = ref_outcome(modules, db, resolved, sorted, chains, side_effects, dynamic, exprs, refs.last());
        (prev.0 + o.1, match o.2 {
            Some(w) => prev.1.push(w),
            None => prev.1,
        })
    }
}

/// Member expression `k` is referenced by some statement of the module.
pub open spec fn referenced(refs: Seq<SymbolOrMemberExprRef>, k: usize) -> bool {
    refs.contains(SymbolOrMemberExprRef::MemberExpr(k))
}

/// The member expressions each statement refers to exist, with their root symbols.
pub open spec fn exprs_ok(m: Module, exprs: Seq<MemberExprRef>, db: SymbolRefDb) -> bool {
    &&& forall|k: int| 0 <= k < exprs.len() ==> db.has(#[trigger] exprs[k].object_ref)
    &&& forall|j: int, i: int|
        0 <= j < m.stmt_infos.len() && 0 <= i < m.stmt_infos@[j].referenced_symbols.len() ==> (
        #[trigger] m.stmt_infos@[j].referenced_symbols@[i] matches SymbolOrMemberExprRef::MemberExpr(k) ==> k < exprs.len())
}

/// The resolution map of a module (by member expression), as views.
pub open spec fn map_views(map: Seq<Option<MemberExprResolution>>) -> Seq<Option<(Option<SymbolRef>, Seq<Seq<char>>)>> {
    Seq::new(map.len(), |k: int| match map[k] {
        Some(r) => Some(resolution_view(r)),
        None => None,
    })
}

proof fn lemma_flatten_refs_push(ss: Seq<Seq<SymbolOrMemberExprRef>>, s: Seq<SymbolOrMemberExprRef>)
    ensures
        flatten_refs(ss.push(s)) == flatten_refs(ss) + s,
{
    assert(ss.push(s).drop_last() =~= ss);
}

proof fn lemma_refs_fold_append(
    modules: Seq<Module>,
    db: SymbolRefDb,
    resolved: Seq<Seq<ResolvedExportEntry>>,
    sorted: Seq<Seq<Seq<char>>>,
    chains: Seq<ReexportChain>,
    side_effects: Seq<bool>,
    dynamic: Seq<bool>,
    exprs: Seq<MemberExprRef>,
    a: Seq<SymbolOrMemberExprRef>,
    x: SymbolOrMemberExprRef,
)
    ensures
        refs_fold(modules, db, resolved, sorted, chains, side_effects, dynamic, exprs, a.push(x)) == ({
            let prev = refs_fold(modules, db, resolved, sorted, chains, side_effects, dynamic, exprs, a);
            let o = ref_outcome(modules, db, resolved, sorted, chains, side_effects, dynamic, exprs, x);
            (prev.0 + o.1, match o.2 {
                Some(w) => prev.1.push(w),
                None => prev.1,
            })
        }),
{
    assert(a.push(x).drop_last() =~= a);
}

/// Resolves the member expressions that a module's statements refer to, in order: the
/// module's resolution map, its dependencies, and its warnings appended to `warnings`.
fn resolve_module_member_exprs(
    modules: &Vec<Module>,
    m: usize,
    exprs: &Vec<MemberExprRef>,
    db: &SymbolRefDb,
    resolved: &Vec<Vec<ResolvedExportEntry>>,
    sorted: &Vec<Vec<String>>,
    chains: &Vec<ReexportChain>,
    side_effects: &Vec<bool>,
    dynamic: &Vec<bool>,
    warnings: &mut Vec<String>,
) -> (r: (Vec<Option<MemberExprResolution>>, Vec<usize>))
    requires
        m < modules.len(),
        member_input_ok(modules@, *db, crate::bind::views_of(resolved@), side_effects@),
        sorted.len() == modules.len(),
        chains_ok(chains@, side_effects.len() as nat),
        dynamic.len() == modules.len(),
        exprs_ok(modules@[m as int], exprs@, *db),
    ensures
        ({
            let mods = modules@;
            let rv = crate::bind::views_of(resolved@);
            let sv = sorted_views(sorted@);
            let refs = if mods[m as int].is_external {
                Seq::<SymbolOrMemberExprRef>::empty()
            } else {
                module_refs(mods[m as int])
            };
            let f = refs_fold(mods, *db, rv, sv, chains@, side_effects@, dynamic@, exprs@, refs);
            &&& r.0@.len() == exprs@.len()
            &&& forall|k: int| 0 <= k < exprs.len() ==> map_views(r.0@)[k] == (if referenced(refs, k as usize) {
                member_expr_outcome(mods, *db, rv, sv, chains@, side_effects@, dynamic@, exprs@[k].object_ref, views(exprs@[k].props@)).0
            } else {
                None
            })
            &&& r.1@ == f.0
            &&& views(final(warnings)@) == views(old(warnings)@) + f.1
        }),
{
    let ghost mods = modules@;
    let ghost rv = crate::bind::views_of(resolved@);
    let ghost sv = sorted_views(sorted@);
    let module = &modules[m];
    let ghost refs = if module.is_external { Seq::<SymbolOrMemberExprRef>::empty() } else { module_refs(*module) };
    let mut map: Vec<Option<MemberExprResolution>> = Vec::new();
    let mut z: usize = 0;
    while z < exprs.len()
        invariant
            z <= exprs.len(),
            map.len() == z,
            forall|k: int| 0 <= k < z ==> (#[trigger] map@[k]) is None,
        decreases exprs.len() - z,
    {
        map.push(None);
        z += 1;
    }
    let ghost w0 = views(warnings@);
    let mut deps: Vec<usize> = Vec::new();
    let ghost mut done: Seq<SymbolOrMemberExprRef> = Seq::empty();
    proof {
        assert(forall|k: int| 0 <= k < exprs.len() ==> !#[trigger] referenced(done, k as usize));
    }
    if !module.is_external {
        let mut j: usize = 0;
        while j < module.stmt_infos.len()
            invariant
                *module == mods[m as int],
                !module.is_external,
                exprs_ok(*module, exprs@, *db),
                member_input_ok(mods, *db, rv, side_effects@),
                mods == modules@,
                rv == crate::bind::views_of(resolved@),
                sv == sorted_views(sorted@),
                sorted.len() == modules.len(),
                chains_ok(chains@, side_effects.len() as nat),
                dynamic.len() == modules.len(),
                j <= module.stmt_infos.len(),
                map.len() == exprs.len(),
                done == flatten_refs(Seq::new(j as nat, |jj: int| module.stmt_infos@[jj].referenced_symbols@)),
                (deps@, views(warnings@).subrange(w0.len() as int, views(warnings@).len() as int)) == refs_fold(mods, *db, rv, sv, chains@, side_effects@, dynamic@, exprs@, done),
                w0.len() <= views(warnings@).len(),
                views(warnings@).subrange(0, w0.len() as int) == w0,
                forall|k: int| 0 <= k < exprs.len() ==> map_views(map@)[k] == (if referenced(done, k as usize) {
                    member_expr_outcome(mods, *db, rv, sv, chains@, side_effects@, dynamic@, exprs@[k].object_ref, views(exprs@[k].props@)).0
                } else {
                    None
                }),
            decreases module.stmt_infos.len() - j,
        {
            let st = &module.stmt_infos[j];
            let ghost d_j = done;
            let mut i: usize = 0;
            while i < st.referenced_symbols.len()
                invariant
                    *st == module.stmt_infos@[j as int],
                    j < module.stmt_infos.len(),
                    *module == mods[m as int],
                    !module.is_external,
                    exprs_ok(*module, exprs@, *db),
                    member_input_ok(mods, *db, rv, side_effects@),
                    mods == modules@,
                    rv == crate::bind::views_of(resolved@),
                    sv == sorted_views(sorted@),
                    sorted.len() == modules.len(),
                    chains_ok(chains@, side_effects.len() as nat),
                    dynamic.len() == modules.len(),
                    i <= st.referenced_symbols.len(),
                    map.len() == exprs.len(),
                    done == d_j + st.referenced_symbols@.subrange(0, i as int),
                    (deps@, views(warnings@).subrange(w0.len() as int, views(warnings@).len() as int)) == refs_fold(mods, *db, rv, sv, chains@, side_effects@, dynamic@, exprs@, done),
                    w0.len() <= views(warnings@).len(),
                    views(warnings@).subrange(0, w0.len() as int) == w0,
                    forall|k: int| 0 <= k < exprs.len() ==> map_views(map@)[k] == (if referenced(done, k as usize) {
                        member_expr_outcome(mods, *db, rv, sv, chains@, side_effects@, dynamic@, exprs@[k].object_ref, views(exprs@[k].props@)).0
                    } else {
                        None
                    }),
                decreases st.referenced_symbols.len() - i,
            {
                let r = st.referenced_symbols[i];
                let ghost before_done = done;
                let ghost before_w = views(warnings@);
                let ghost before_deps = deps@;
                let ghost before_map = map_views(map@);
                proof {
                    lemma_refs_fold_append(mods, *db, rv, sv, chains@, side_effects@, dynamic@, exprs@, before_done, r);
                    assert(st.referenced_symbols@.subrange(0, i + 1) =~= st.referenced_symbols@.subrange(0, i as int).push(r));
                    assert(d_j + st.referenced_symbols@.subrange(0, i + 1) =~= before_done.push(r));
                }
                match r {
                    SymbolOrMemberExprRef::MemberExpr(k) => {
                        proof {
                            assert(k < exprs.len());
                            assert(db.has(exprs@[k as int].object_ref));
                        }
                        let (res, mut more, w) = resolve_member_expr(modules, db, resolved, sorted, chains, side_effects, dynamic, &exprs[k]);
                        let ghost has_res = res is Some;
                        match res {
                            Some(x) => {
                                map.set(k, Some(x));
                            },
                            None => {},
                        }
                        deps.append(&mut more);
                        match w {
                            Some(t) => {
                                warnings.push(t);
                            },
                            None => {},
                        }
                        proof {
                            done = before_done.push(r);
                            assert forall|kk: int| 0 <= kk < exprs.len() implies map_views(map@)[kk] == (if referenced(done, kk as usize) {
                                member_expr_outcome(mods, *db, rv, sv, chains@, side_effects@, dynamic@, exprs@[kk].object_ref, views(exprs@[kk].props@)).0
                            } else {
                                None
                            }) by {
                                if kk == k as int {
                                    assert(done[done.len() - 1] == r);
                                } else {
                                    assert(map_views(map@)[kk] == before_map[kk]);
                                    if referenced(done, kk as usize) {
                                        let p = choose|p: int| 0 <= p < done.len() && done[p] == SymbolOrMemberExprRef::MemberExpr(kk as usize);
                                        assert(p < before_done.len());
                                        assert(before_done[p] == done[p]);
                                    }
                                    if referenced(before_done, kk as usize) {
                                        let p = choose|p: int| 0 <= p < before_done.len() && before_done[p] == SymbolOrMemberExprRef::MemberExpr(kk as usize);
                                        assert(done[p] == before_done[p]);
                                    }
                                }
                            }
                            let wv = views(warnings@);
                            assert(wv.subrange(0, w0.len() as int) =~= w0) by {
                                assert(wv.subrange(0, before_w.len() as int) =~= before_w);
                            }
                            assert(wv.subrange(w0.len() as int, wv.len() as int) =~= refs_fold(mods, *db, rv, sv, chains@, side_effects@, dynamic@, exprs@, done).1);
                        }
                    },
                    SymbolOrMemberExprRef::Symbol(_) => {
                        proof {
                            done = before_done.push(r);
                            assert(deps@ + Seq::<usize>::empty() =~= deps@);
                            assert forall|kk: int| 0 <= kk < exprs.len() implies map_views(map@)[kk] == (if referenced(done, kk as usize) {
                                member_expr_outcome(mods, *db, rv, sv, chains@, side_effects@, dynamic@, exprs@[kk].object_ref, views(exprs@[kk].props@)).0
                            } else {
                                None
                            }) by {
                                if referenced(done, kk as usize) {
                                    let p = choose|p: int| 0 <= p < done.len() && done[p] == SymbolOrMemberExprRef::MemberExpr(kk as usize);
                                    if p == done.len() - 1 {
                                        assert(done[p] == r);
                                    }
                                    assert(before_done[p] == done[p]);
                                }
                                if referenced(before_done, kk as usize) {
                                    let p = choose|p: int| 0 <= p < before_done.len() && before_done[p] == SymbolOrMemberExprRef::MemberExpr(kk as usize);
                                    assert(done[p] == before_done[p]);
                                }
                            }
                        }
                    },
                }
                i += 1;
            }
            proof {
                assert(st.referenced_symbols@.subrange(0, st.referenced_symbols@.len() as int) =~= st.referenced_symbols@);
                let ss = Seq::new(j as nat, |jj: int| module.stmt_infos@[jj].referenced_symbols@);
                assert(Seq::new((j + 1) as nat, |jj: int| module.stmt_infos@[jj].referenced_symbols@) =~= ss.push(st.referenced_symbols@));
                lemma_flatten_refs_push(ss, st.referenced_symbols@);
            }
            j += 1;
        }
        proof {
            assert(Seq::new(module.stmt_infos@.len() as nat, |jj: int| module.stmt_infos@[jj].referenced_symbols@) =~= Seq::new(module.stmt_infos@.len(), |jj: int| module.stmt_infos@[jj].referenced_symbols@));
        }
    } else {
        proof {
            assert(deps@ =~= refs_fold(mods, *db, rv, sv, chains@, side_effects@, dynamic@, exprs@, refs).0);
            assert(views(warnings@).subrange(w0.len() as int, views(warnings@).len() as int) =~= Seq::<Seq<char>>::empty());
            assert(forall|k: int| 0 <= k < exprs.len() ==> map_views(map@)[k] is None);
        }
    }
    proof {
        assert(done == refs);
    }
    proof {
        let wv = views(warnings@);
        assert(wv =~= wv.subrange(0, w0.len() as int) + wv.subrange(w0.len() as int, wv.len() as int));
    }
    (map, deps)
}

/// Resolves the member expressions of every bundled module (see [`resolve_member_expr`]):
/// returns, for each module, its resolution map (by member expression; none for one left
/// as it is, or not referenced) and all warnings in order; each module's metadata gets the
/// symbol each member expression reads (the root symbol when left as it is), and the
/// modules with side effects re-exported through join its dependencies.
pub fn resolve_member_expr_refs(
    modules: &Vec<Module>,
    member_exprs: &Vec<Vec<MemberExprRef>>,
    db: &SymbolRefDb,
    resolved: &Vec<Vec<ResolvedExportEntry>>,
    sorted: &Vec<Vec<String>>,
    chains: &Vec<ReexportChain>,
    side_effects: &Vec<bool>,
    metadata: &mut Vec<LinkingMetadata>,
) -> (r: (Vec<Vec<Option<MemberExprResolution>>>, Vec<String>))
    requires
        member_input_ok(modules@, *db, crate::bind::views_of(resolved@), side_effects@),
        sorted.len() == modules.len(),
        member_exprs.len() == modules.len(),
        old(metadata).len() == modules.len(),
        chains_ok(chains@, side_effects.len() as nat),
        forall|m: int| 0 <= m < modules.len() ==> exprs_ok(#[trigger] modules@[m], member_exprs@[m]@, *db),
    ensures
        r.0.len() == modules.len(),
        final(metadata).len() == modules.len(),
        views(r.1@) == all_warnings(
            modules@,
            *db,
            crate::bind::views_of(resolved@),
            sorted_views(sorted@),
            chains@,
            side_effects@,
            dynamic_flags(old(metadata)@),
            member_exprs@,
            modules.len() as int,
        ),
        forall|m: int|
            0 <= m < modules.len() ==> module_resolved(
                modules@,
                *db,
                crate::bind::views_of(resolved@),
                sorted_views(sorted@),
                chains@,
                side_effects@,
                dynamic_flags(old(metadata)@),
                member_exprs@[m]@,
                m,
                (#[trigger] r.0@[m])@,
                old(metadata)@[m],
                final(metadata)@[m],
            ),
{
    let n = modules.len();
    let ghost mods = modules@;
    let ghost rv = crate::bind::views_of(resolved@);
    let ghost sv = sorted_views(sorted@);
    let mut dynamic: Vec<bool> = Vec::new();
    let mut q0: usize = 0;
    while q0 < n
        invariant
            q0 <= n,
            n == modules.len(),
            metadata.len() == n,
            metadata@ == old(metadata)@,
            dynamic@ == dynamic_flags(old(metadata)@).subrange(0, q0 as int),
        decreases n - q0,
    {
        dynamic.push(metadata[q0].has_dynamic_exports);
        q0 += 1;
        proof {
            assert(dynamic@ =~= dynamic_flags(old(metadata)@).subrange(0, q0 as int));
        }
    }
    proof {
        assert(dynamic@ =~= dynamic_flags(old(metadata)@));
    }
    let mut maps: Vec<Vec<Option<MemberExprResolution>>> = Vec::new();
    let mut warnings: Vec<String> = Vec::new();
    let mut m: usize = 0;
    while m < n
        invariant
            m <= n,
            n == modules.len(),
            mods == modules@,
            rv == crate::bind::views_of(resolved@),
            sv == sorted_views(sorted@),
            member_input_ok(mods, *db, rv, side_effects@),
            sorted.len() == n,
            member_exprs.len() == n,
            metadata.len() == n,
            chains_ok(chains@, side_effects.len() as nat),
            dynamic.len() == modules.len(),
            forall|q: int| 0 <= q < n ==> exprs_ok(#[trigger] modules@[q], member_exprs@[q]@, *db),
            maps.len() == m,
            views(warnings@) == all_warnings(mods, *db, rv, sv, chains@, side_effects@, dynamic@, member_exprs@, m as int),
            forall|q: int| m <= q < n ==> #[trigger] metadata@[q] == old(metadata)@[q],
            dynamic@ == dynamic_flags(old(metadata)@),
            forall|q: int| 0 <= q < m ==> module_resolved(mods, *db, rv, sv, chains@, side_effects@, dynamic@, member_exprs@[q]@, q, #[trigger] maps@[q]@, old(metadata)@[q], metadata@[q]),
        decreases n - m,
    {
        let exprs = &member_exprs[m];
        let ghost w_before = views(warnings@);
        let (map, deps) = resolve_module_member_exprs(modules, m, exprs, db, resolved, sorted, chains, side_effects, &dynamic, &mut warnings);
        let mut symbols_read: Vec<Option<SymbolRef>> = Vec::new();
        let mut k: usize = 0;
        while k < map.len()
            invariant
                k <= map.len(),
                map.len() == exprs.len(),
                symbols_read.len() == k,
                forall|q: int| 0 <= q < k ==> (#[trigger] symbols_read@[q]) == match map@[q] {
                    Some(res) => res.symbol,
                    None => Some(exprs@[q].object_ref),
                },
            decreases map.len() - k,
        {
            let s = match &map[k] {
                Some(res) => res.symbol,
                None => Some(exprs[k].object_ref),
            };
            symbols_read.push(s);
            k += 1;
        }
        let ghost meta0 = metadata@[m as int];
        let mut d: Vec<usize> = Vec::new();
        std::mem::swap(&mut d, &mut metadata[m].dependencies);
        let mut q: usize = 0;
        while q < deps.len()
            invariant
                q <= deps.len(),
                d@ == insert_all(meta0.dependencies@, deps@.subrange(0, q as int)),
            decreases deps.len() - q,
        {
            proof {
                assert(deps@.subrange(0, q + 1) =~= deps@.subrange(0, q as int).push(deps@[q as int]));
                crate::dependencies::lemma_insert_all_push(meta0.dependencies@, deps@.subrange(0, q as int), deps@[q as int]);
            }
            crate::dependencies::insert_idx(&mut d, deps[q]);
            q += 1;
        }
        proof {
            assert(deps@.subrange(0, deps@.len() as int) =~= deps@);
        }
        std::mem::swap(&mut d, &mut metadata[m].dependencies);
        metadata[m].resolved_member_expr_refs = symbols_read;
        maps.push(map);
        proof {
            assert(symbols_read@ =~= Seq::new(exprs@.len(), |kk: int| match map@[kk] {
                Some(res) => res.symbol,
                None => Some(exprs@[kk].object_ref),
            }));
        }
        m += 1;
    }
    (maps, warnings)
}

/// All warnings of the first `n` modules, in order.
pub open spec fn all_warnings(
    modules: Seq<Module>,
    db: SymbolRefDb,
    resolved: Seq<Seq<ResolvedExportEntry>>,
    sorted: Seq<Seq<Seq<char>>>,
    chains: Seq<ReexportChain>,
    side_effects: Seq<bool>,
    dynamic: Seq<bool>,
    member_exprs: Seq<Vec<MemberExprRef>>,
    n: int,
) -> Seq<Seq<char>>
    decreases n,
{
    if n <= 0 {
        Seq::empty()
    } else {
        let m = n - 1;
        let refs = if modules[m].is_external {
            Seq::empty()
        } else {
            module_refs(modules[m])
        };
        all_warnings(modules, db, resolved, sorted, chains, side_effects, dynamic, member_exprs, n - 1)
            + refs_fold(modules, db, resolved, sorted, chains, side_effects, dynamic, member_exprs[m]@, refs).1
    }
}

/// Module `m`'s member expressions are resolved into `map`, and its metadata went from
/// `meta0` to `meta1` accordingly.
pub open spec fn module_resolved(
    modules: Seq<Module>,
    db: SymbolRefDb,
    resolved: Seq<Seq<ResolvedExportEntry>>,
    sorted: Seq<Seq<Seq<char>>>,
    chains: Seq<ReexportChain>,
    side_effects: Seq<bool>,
    dynamic: Seq<bool>,
    exprs: Seq<MemberExprRef>,
    m: int,
    map: Seq<Option<MemberExprResolution>>,
    meta0: LinkingMetadata,
    meta1: LinkingMetadata,
) -> bool {
    let refs = if modules[m].is_external {
        Seq::empty()
    } else {
        module_refs(modules[m])
    };
    let f = refs_fold(modules, db, resolved, sorted, chains, side_effects, dynamic, exprs, refs);
    &&& map.len() == exprs.len()
    &&& forall|k: int|
        0 <= k < exprs.len() ==> map_views(map)[k] == (if referenced(refs, k as usize) {
            member_expr_outcome(modules, db, resolved, sorted, chains, side_effects, dynamic, exprs[k].object_ref, views(exprs[k].props@)).0
        } else {
            None
        })
    &&& meta1 == (LinkingMetadata {
        dependencies: meta1.dependencies,
        resolved_member_expr_refs: meta1.resolved_member_expr_refs,
        ..meta0
    })
    &&& meta1.dependencies@ == insert_all(meta0.dependencies@, f.0)
    &&& meta1.resolved_member_expr_refs@ == Seq::new(exprs.len(), |k: int| match map[k] {
        Some(res) => res.symbol,
        None => Some(exprs[k].object_ref),
    })
}

} // verus!
