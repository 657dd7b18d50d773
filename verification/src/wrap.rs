use vstd::prelude::*;

use crate::reach::{
    is_walk, lemma_closed_holds_reached, lemma_reaches_prepend, lemma_reaches_refl, lemma_walk_push,
    lemma_walk_reaches_last, reaches,
};
use crate::types::{LinkingMetadata, Module, ModuleIdx};

verus! {

/// Record `r` of module `m` is an `export * from`.
pub open spec fn star_record(modules: Seq<Module>, m: int, r: int) -> bool {
    0 <= m < modules.len() && 0 <= r < modules[m].import_records.len() && modules[m].import_records[r].is_export_star
}

/// The module that record `r` of `m` points at.
pub open spec fn star_target(modules: Seq<Module>, m: int, r: int) -> int {
    modules[m].import_records[r].resolved_module as int
}

/// Every `export * from` record points into the table.
pub open spec fn star_records_in_range(modules: Seq<Module>) -> bool {
    forall|m: int, r: int| #[trigger] star_record(modules, m, r) ==> star_target(modules, m, r) < modules.len()
}

/// The bundled module `a` re-exports everything of another module `b`.
pub open spec fn reexport_edge(modules: Seq<Module>) -> spec_fn(usize, usize) -> bool {
    |a: usize, b: usize|
        a != b && !modules[a as int].is_external && exists|r: int|
            #[trigger] star_record(modules, a as int, r) && star_target(modules, a as int, r) == b as int
}

/// A re-export step out of a module that was not found to have dynamic exports.
pub open spec fn unflagged_reexport_edge(modules: Seq<Module>, f: Seq<bool>) -> spec_fn(usize, usize) -> bool {
    |a: usize, b: usize| reexport_edge(modules)(a, b) && !f[a as int]
}

/// The `has_dynamic_exports` flag of each module.
pub open spec fn dynamic_flags(metas: Seq<LinkingMetadata>) -> Seq<bool> {
    Seq::new(metas.len(), |i: int| metas[i].has_dynamic_exports)
}

/// The module has an `export * from`.
pub open spec fn has_star_export(m: Module) -> bool {
    exists|r: int| 0 <= r < m.import_records.len() && (#[trigger] m.import_records[r]).is_export_star
}

/// A module in `sorted` where the search for dynamic exports starts.
pub open spec fn is_root(modules: Seq<Module>, sorted: Seq<ModuleIdx>, t: usize) -> bool {
    sorted.contains(t) && !modules[t as int].is_external && has_star_export(modules[t as int])
}

/// What `wrap_modules` settles on, given the flags before (`f0`) and after (`f`):
/// - a set flag stays set;
/// - a flag is newly set only on an external module, or on one that re-exports a
///   flagged module;
/// - a flagged module reaches, through re-exports, an external module or one flagged before;
/// - every module searched (reached from a starting module through unflagged re-exporters)
///   is flagged if external, and if unflagged re-exports no flagged module, but for
///   re-exports from which it can be reached again (a cycle).
pub open spec fn dynamic_exports_settled(
    modules: Seq<Module>,
    sorted: Seq<ModuleIdx>,
    f0: Seq<bool>,
    f: Seq<bool>,
) -> bool {
    &&& f.len() == modules.len()
    &&& forall|t: int| 0 <= t < modules.len() && f0[t] ==> #[trigger] f[t]
    &&& forall|t: int|
        0 <= t < modules.len() && #[trigger] f[t] && !f0[t] ==> modules[t].is_external || exists|r: int|
            #[trigger] star_record(modules, t, r) && star_target(modules, t, r) != t && f[star_target(modules, t, r)]
    &&& forall|t: int|
        0 <= t < modules.len() && #[trigger] f[t] ==> exists|j: usize|
            j < modules.len() && (f0[j as int] || modules[j as int].is_external) && #[trigger] reaches(
                reexport_edge(modules),
                t as usize,
                j,
            )
    &&& forall|root: usize, t: usize|
        is_root(modules, sorted, root) && #[trigger] reaches(unflagged_reexport_edge(modules, f), root, t) ==> {
            &&& modules[t as int].is_external ==> f[t as int]
            &&& !f[t as int] ==> forall|r: int|
                #[trigger] star_record(modules, t as int, r) && star_target(modules, t as int, r) != t ==> !f[star_target(
                    modules,
                    t as int,
                    r,
                )] || reaches(reexport_edge(modules), star_target(modules, t as int, r) as usize, t)
        }
}

#[derive(Clone, Copy, PartialEq, Eq, Structural)]
enum Visit {
    Unvisited,
    Visiting,
    Done,
}

spec fn unvisited(c: Seq<Visit>) -> nat
    decreases c.len(),
{
    if c.len() == 0 {
        0
    } else {
        unvisited(c.drop_last()) + if c.last() == Visit::Unvisited {
            1nat
        } else {
            0nat
        }
    }
}

proof fn lemma_unvisited_mono(c1: Seq<Visit>, c2: Seq<Visit>, k: int)
    requires
        c1.len() == c2.len(),
        forall|i: int| 0 <= i < c1.len() && #[trigger] c1[i] != Visit::Unvisited ==> c2[i] != Visit::Unvisited,
    ensures
        unvisited(c2) <= unvisited(c1),
        0 <= k < c1.len() && c1[k] == Visit::Unvisited && c2[k] != Visit::Unvisited ==> unvisited(c2) < unvisited(c1),
    decreases c1.len(),
{
    if c1.len() > 0 {
        let n = c1.len() - 1;
        assert forall|i: int| 0 <= i < c1.drop_last().len() && #[trigger] c1.drop_last()[i] != Visit::Unvisited implies c2.drop_last()[i]
            != Visit::Unvisited by {
            assert(c1.drop_last()[i] == c1[i] && c2.drop_last()[i] == c2[i]);
        }
        lemma_unvisited_mono(c1.drop_last(), c2.drop_last(), k);
        if 0 <= k < n {
            assert(c1.drop_last()[k] == c1[k] && c2.drop_last()[k] == c2[k]);
        }
        assert(c1[n] != Visit::Unvisited ==> c2[n] != Visit::Unvisited);
    }
}

/// The search state (`v`, `f`) keeps what (`v1`, `f1`) had found.
spec fn extends(v1: Seq<Visit>, f1: Seq<bool>, v2: Seq<Visit>, f2: Seq<bool>) -> bool {
    &&& v1.len() == v2.len()
    &&& f1.len() == f2.len()
    &&& v1.len() == f1.len()
    &&& forall|i: int| 0 <= i < v1.len() && #[trigger] v1[i] == Visit::Done ==> v2[i] == Visit::Done && f2[i] == f1[i]
    &&& forall|i: int| 0 <= i < v1.len() && #[trigger] v1[i] != Visit::Unvisited ==> v2[i] != Visit::Unvisited
    &&& forall|i: int| 0 <= i < f1.len() && #[trigger] f1[i] ==> f2[i]
}

/// Module `d` is done and unflagged.
spec fn known_false(v: Seq<Visit>, f: Seq<bool>, d: int) -> bool {
    v[d] == Visit::Done && !f[d]
}

spec fn entry_ok(modules: Seq<Module>, f0: Seq<bool>, v: Seq<Visit>, f: Seq<bool>, t: int) -> bool {
    &&& v[t] != Visit::Done ==> f[t] == f0[t]
    &&& v[t] == Visit::Done ==> {
        &&& modules[t].is_external ==> f[t]
        &&& f[t] && !f0[t] ==> modules[t].is_external || exists|r: int|
            #[trigger] star_record(modules, t, r) && star_target(modules, t, r) != t && f[star_target(modules, t, r)]
        &&& !f[t] ==> forall|r: int|
            #[trigger] star_record(modules, t, r) && star_target(modules, t, r) != t ==> v[star_target(modules, t, r)]
                != Visit::Unvisited && (known_false(v, f, star_target(modules, t, r)) || reaches(
                reexport_edge(modules),
                star_target(modules, t, r) as usize,
                t as usize,
            ))
    }
    &&& f[t] ==> exists|j: usize|
        j < modules.len() && (f0[j as int] || modules[j as int].is_external) && #[trigger] reaches(
            reexport_edge(modules),
            t as usize,
            j,
        )
}

spec fn state_ok(modules: Seq<Module>, f0: Seq<bool>, v: Seq<Visit>, f: Seq<bool>) -> bool {
    &&& v.len() == modules.len()
    &&& f.len() == modules.len()
    &&& f0.len() == modules.len()
    &&& forall|t: int| 0 <= t < modules.len() ==> #[trigger] entry_ok(modules, f0, v, f, t)
}

spec fn on_stack(modules: Seq<Module>, v: Seq<Visit>, stack: Seq<usize>) -> bool {
    &&& forall|k: int| 0 <= k < stack.len() ==> (#[trigger] stack[k]) < modules.len()
    &&& forall|i: int| 0 <= i < v.len() ==> ((#[trigger] v[i] == Visit::Visiting) <==> stack.contains(i as usize))
}

proof fn lemma_entry_mono(
    modules: Seq<Module>,
    f0: Seq<bool>,
    v1: Seq<Visit>,
    f1: Seq<bool>,
    v2: Seq<Visit>,
    f2: Seq<bool>,
    t: int,
)
    requires
        star_records_in_range(modules),
        v1.len() == modules.len(),
        extends(v1, f1, v2, f2),
        0 <= t < v1.len(),
        v1[t] == Visit::Done,
        entry_ok(modules, f0, v1, f1, t),
    ensures
        entry_ok(modules, f0, v2, f2, t),
{
    if f1[t] && !f0[t] && !modules[t].is_external {
        let r = choose|r: int|
            #[trigger] star_record(modules, t, r) && star_target(modules, t, r) != t && f1[star_target(modules, t, r)];
        assert(f2[star_target(modules, t, r)]);
    }
    if !f1[t] {
        assert forall|r: int| #[trigger] star_record(modules, t, r) && star_target(modules, t, r) != t implies v2[star_target(
            modules,
            t,
            r,
        )] != Visit::Unvisited && (known_false(v2, f2, star_target(modules, t, r)) || reaches(
            reexport_edge(modules),
            star_target(modules, t, r) as usize,
            t as usize,
        )) by {
            let d = star_target(modules, t, r);
            assert(v1[d] != Visit::Unvisited);
            if known_false(v1, f1, d) {
                assert(v2[d] == Visit::Done && f2[d] == f1[d]);
            }
        }
    }
}

proof fn lemma_state_mono(
    modules: Seq<Module>,
    f0: Seq<bool>,
    v1: Seq<Visit>,
    f1: Seq<bool>,
    v2: Seq<Visit>,
    f2: Seq<bool>,
    m: int,
)
    requires
        star_records_in_range(modules),
        state_ok(modules, f0, v1, f1),
        extends(v1, f1, v2, f2),
        0 <= m < v1.len(),
        forall|i: int| 0 <= i < v1.len() && i != m ==> v2[i] == v1[i] && f2[i] == f1[i],
        entry_ok(modules, f0, v2, f2, m),
    ensures
        state_ok(modules, f0, v2, f2),
{
    assert forall|i: int| 0 <= i < modules.len() implies #[trigger] entry_ok(modules, f0, v2, f2, i) by {
        if i != m {
            assert(entry_ok(modules, f0, v1, f1, i));
            if v1[i] == Visit::Done {
                lemma_entry_mono(modules, f0, v1, f1, v2, f2, i);
            }
        }
    }
}

proof fn lemma_extends_trans(
    v1: Seq<Visit>,
    f1: Seq<bool>,
    v2: Seq<Visit>,
    f2: Seq<bool>,
    v3: Seq<Visit>,
    f3: Seq<bool>,
)
    requires
        extends(v1, f1, v2, f2),
        extends(v2, f2, v3, f3),
    ensures
        extends(v1, f1, v3, f3),
{
    assert forall|i: int| 0 <= i < v1.len() && #[trigger] v1[i] == Visit::Done implies v3[i] == Visit::Done && f3[i]
        == f1[i] by {
        assert(v2[i] == Visit::Done);
    }
    assert forall|i: int| 0 <= i < v1.len() && #[trigger] v1[i] != Visit::Unvisited implies v3[i] != Visit::Unvisited by {
        assert(v2[i] != Visit::Unvisited);
    }
    assert forall|i: int| 0 <= i < f1.len() && #[trigger] f1[i] implies f3[i] by {
        assert(f2[i]);
    }
}

proof fn lemma_stack_push_set(modules: Seq<Module>, v0: Seq<Visit>, v: Seq<Visit>, stack: Seq<usize>, m: usize)
    requires
        on_stack(modules, v0, stack),
        v0.len() == modules.len(),
        modules.len() <= usize::MAX,
        m < v0.len(),
        v0.len() == v.len(),
        v0[m as int] == Visit::Unvisited,
        v[m as int] == Visit::Visiting,
        forall|i: int| 0 <= i < v.len() && i != m ==> v[i] == v0[i],
    ensures
        on_stack(modules, v, stack.push(m)),
        !stack.contains(m),
{
    let inner = stack.push(m);
    assert forall|i: int| 0 <= i < v.len() implies ((#[trigger] v[i] == Visit::Visiting) <==> inner.contains(
        i as usize,
    )) by {
        if i != m {
            if stack.contains(i as usize) {
                let k = choose|k: int| 0 <= k < stack.len() && stack[k] == i as usize;
                assert(inner[k] == i as usize);
            }
            if inner.contains(i as usize) {
                let k = choose|k: int| 0 <= k < inner.len() && inner[k] == i as usize;
                assert(k < stack.len());
                assert(stack[k] == i as usize);
            }
        } else {
            assert(inner[inner.len() - 1] == m);
        }
    }
}

proof fn lemma_stack_pop_set(modules: Seq<Module>, vb: Seq<Visit>, v: Seq<Visit>, stack: Seq<usize>, m: usize)
    requires
        on_stack(modules, vb, stack.push(m)),
        !stack.contains(m),
        vb.len() == modules.len(),
        modules.len() <= usize::MAX,
        m < vb.len(),
        vb.len() == v.len(),
        v[m as int] == Visit::Done,
        forall|i: int| 0 <= i < v.len() && i != m ==> v[i] == vb[i],
    ensures
        on_stack(modules, v, stack),
{
    let inner = stack.push(m);
    assert forall|k: int| 0 <= k < stack.len() implies (#[trigger] stack[k]) < modules.len() by {
        assert(inner[k] == stack[k]);
    }
    assert forall|q: int| 0 <= q < v.len() implies ((#[trigger] v[q] == Visit::Visiting) <==> stack.contains(
        q as usize,
    )) by {
        if q != m {
            if stack.contains(q as usize) {
                let k = choose|k: int| 0 <= k < stack.len() && stack[k] == q as usize;
                assert(inner[k] == q as usize);
            }
            if inner.contains(q as usize) {
                let k = choose|k: int| 0 <= k < inner.len() && inner[k] == q as usize;
                assert(k < stack.len());
                assert(stack[k] == q as usize);
            }
        }
    }
}

fn module_has_star_export(m: &Module) -> (r: bool)
    ensures
        r == has_star_export(*m),
{
    let mut k: usize = 0;
    while k < m.import_records.len()
        invariant
            k <= m.import_records.len(),
            forall|q: int| 0 <= q < k ==> !(#[trigger] m.import_records[q]).is_export_star,
        decreases m.import_records.len() - k,
    {
        if m.import_records[k].is_export_star {
            return true;
        }
        k += 1;
    }
    false
}

/// Whether `target` has dynamic exports because of an `export *`: it is external, or
/// re-exports (other than itself) a module that has them. Sets the flag of `target`
/// when so; a module already being searched answers with its flag as it stands.
fn has_dynamic_exports_due_to_export_star(
    target: ModuleIdx,
    modules: &Vec<Module>,
    linking_infos: &mut Vec<LinkingMetadata>,
    visited_modules: &mut Vec<Visit>,
    Ghost(f0): Ghost<Seq<bool>>,
    Ghost(stack): Ghost<Seq<usize>>,
) -> (r: bool)
    requires
        star_records_in_range(modules@),
        target < modules.len(),
        old(linking_infos).len() == modules.len(),
        state_ok(modules@, f0, old(visited_modules)@, dynamic_flags(old(linking_infos)@)),
        on_stack(modules@, old(visited_modules)@, stack),
        is_walk(reexport_edge(modules@), stack.push(target)),
    ensures
        final(linking_infos).len() == modules.len(),
        forall|i: int|
            0 <= i < modules.len() ==> (#[trigger] final(linking_infos)@[i]) == (LinkingMetadata {
                has_dynamic_exports: final(linking_infos)@[i].has_dynamic_exports,
                ..old(linking_infos)@[i]
            }),
        state_ok(modules@, f0, final(visited_modules)@, dynamic_flags(final(linking_infos)@)),
        extends(
            old(visited_modules)@,
            dynamic_flags(old(linking_infos)@),
            final(visited_modules)@,
            dynamic_flags(final(linking_infos)@),
        ),
        on_stack(modules@, final(visited_modules)@, stack),
        final(visited_modules)@[target as int] != Visit::Unvisited,
        stack.contains(target) ==> r == f0[target as int],
        !stack.contains(target) ==> final(visited_modules)@[target as int] == Visit::Done && r
            == final(linking_infos)@[target as int].has_dynamic_exports,
        r ==> exists|j: usize|
            j < modules.len() && (f0[j as int] || modules@[j as int].is_external) && #[trigger] reaches(
                reexport_edge(modules@),
                target,
                j,
            ),
    decreases unvisited(old(visited_modules)@),
{
    let ghost edge = reexport_edge(modules@);
    if visited_modules[target] != Visit::Unvisited {
        proof {
            assert(entry_ok(modules@, f0, visited_modules@, dynamic_flags(linking_infos@), target as int));
        }
        return linking_infos[target].has_dynamic_exports;
    }
    let ghost v0 = visited_modules@;
    let ghost fl0 = dynamic_flags(linking_infos@);
    visited_modules.set(target, Visit::Visiting);
    proof {
        lemma_unvisited_mono(v0, visited_modules@, target as int);
        assert(extends(v0, fl0, visited_modules@, fl0));
        assert(entry_ok(modules@, f0, v0, fl0, target as int));
        lemma_state_mono(modules@, f0, v0, fl0, visited_modules@, fl0, target as int);
        lemma_stack_push_set(modules@, v0, visited_modules@, stack, target);
    }
    let ghost v1 = visited_modules@;
    let ghost inner = stack.push(target);
    let module = &modules[target];
    let mut has_dynamic_exports = true;
    if !module.is_external {
        has_dynamic_exports = false;
        let n = module.import_records.len();
        let mut i: usize = 0;
        while i < n && !has_dynamic_exports
            invariant
                star_records_in_range(modules@),
                target < modules.len(),
                *module == modules@[target as int],
                !module.is_external,
                n == module.import_records.len(),
                i <= n,
                edge == reexport_edge(modules@),
                inner == stack.push(target),
                is_walk(edge, inner),
                linking_infos.len() == modules.len(),
                forall|q: int|
                    0 <= q < modules.len() ==> (#[trigger] linking_infos@[q]) == (LinkingMetadata {
                        has_dynamic_exports: linking_infos@[q].has_dynamic_exports,
                        ..old(linking_infos)@[q]
                    }),
                state_ok(modules@, f0, visited_modules@, dynamic_flags(linking_infos@)),
                extends(v1, fl0, visited_modules@, dynamic_flags(linking_infos@)),
                extends(v0, fl0, v1, fl0),
                v0 == old(visited_modules)@,
                fl0 == dynamic_flags(old(linking_infos)@),
                v0[target as int] == Visit::Unvisited,
                on_stack(modules@, visited_modules@, inner),
                unvisited(visited_modules@) < unvisited(old(visited_modules)@),
                !has_dynamic_exports ==> forall|r: int|
                    0 <= r < i && #[trigger] star_record(modules@, target as int, r) && star_target(
                        modules@,
                        target as int,
                        r,
                    ) != target ==> visited_modules@[star_target(modules@, target as int, r)] != Visit::Unvisited && (
                    known_false(visited_modules@, dynamic_flags(linking_infos@), star_target(modules@, target as int, r))
                        || reaches(edge, star_target(modules@, target as int, r) as usize, target)),
                has_dynamic_exports ==> exists|r: int|
                    #[trigger] star_record(modules@, target as int, r) && star_target(modules@, target as int, r)
                        != target && dynamic_flags(linking_infos@)[star_target(modules@, target as int, r)],
                has_dynamic_exports ==> exists|j: usize|
                    j < modules.len() && (f0[j as int] || modules@[j as int].is_external) && #[trigger] reaches(
                        edge,
                        target,
                        j,
                    ),
            decreases n - i,
        {
            let rec = &module.import_records[i];
            if rec.is_export_star && rec.resolved_module != target {
                let d = rec.resolved_module;
                proof {
                    assert(star_record(modules@, target as int, i as int));
                    assert(star_target(modules@, target as int, i as int) == d as int);
                    assert(edge(target, d));
                    assert(inner.last() == target);
                    lemma_walk_push(edge, inner, d);
                }
                let ghost vb = visited_modules@;
                let ghost fb = dynamic_flags(linking_infos@);
                let rd = has_dynamic_exports_due_to_export_star(
                    d,
                    modules,
                    linking_infos,
                    visited_modules,
                    Ghost(f0),
                    Ghost(inner),
                );
                proof {
                    let fa = dynamic_flags(linking_infos@);
                    lemma_extends_trans(v1, fl0, vb, fb, visited_modules@, fa);
                    lemma_unvisited_mono(vb, visited_modules@, 0);
                    assert forall|r: int|
                        0 <= r < i && !has_dynamic_exports && #[trigger] star_record(modules@, target as int, r)
                            && star_target(modules@, target as int, r) != target implies visited_modules@[star_target(
                        modules@,
                        target as int,
                        r,
                    )] != Visit::Unvisited && (known_false(visited_modules@, fa, star_target(modules@, target as int, r))
                        || reaches(edge, star_target(modules@, target as int, r) as usize, target)) by {
                        let dd = star_target(modules@, target as int, r);
                        assert(vb[dd] != Visit::Unvisited);
                        if known_false(vb, fb, dd) {
                            assert(visited_modules@[dd] == Visit::Done && fa[dd] == fb[dd]);
                        }
                    }
                    if rd {
                        let j = choose|j: usize|
                            j < modules.len() && (f0[j as int] || modules@[j as int].is_external) && #[trigger] reaches(
                                edge,
                                d,
                                j,
                            );
                        lemma_reaches_prepend(edge, target, d, j);
                        if inner.contains(d) {
                            assert(entry_ok(modules@, f0, visited_modules@, fa, d as int));
                        }
                        assert(fa[d as int]);
                    } else {
                        if inner.contains(d) {
                            let k = choose|k: int| 0 <= k < inner.len() && inner[k] == d;
                            lemma_walk_reaches_last(edge, inner, k);
                        } else {
                            assert(known_false(visited_modules@, fa, d as int));
                        }
                    }
                }
                if rd {
                    has_dynamic_exports = true;
                }
            }
            i += 1;
        }
    }
    let ghost vb = visited_modules@;
    let ghost fb = dynamic_flags(linking_infos@);
    proof {
        assert(vb[target as int] == Visit::Visiting) by {
            assert(inner[inner.len() - 1] == target);
        }
        assert(fb[target as int] == f0[target as int]) by {
            assert(entry_ok(modules@, f0, vb, fb, target as int));
        }
    }
    if has_dynamic_exports {
        linking_infos[target].has_dynamic_exports = true;
    }
    visited_modules.set(target, Visit::Done);
    let r = linking_infos[target].has_dynamic_exports;
    proof {
        let fa = dynamic_flags(linking_infos@);
        assert forall|q: int| 0 <= q < modules.len() && q != target implies visited_modules@[q] == vb[q] && fa[q]
            == fb[q] by {}
        assert(extends(vb, fb, visited_modules@, fa));
        if !has_dynamic_exports && !r {
            assert forall|rr: int| #[trigger] star_record(modules@, target as int, rr) && star_target(
                modules@,
                target as int,
                rr,
            ) != target implies visited_modules@[star_target(modules@, target as int, rr)] != Visit::Unvisited && (
            known_false(visited_modules@, fa, star_target(modules@, target as int, rr)) || reaches(
                edge,
                star_target(modules@, target as int, rr) as usize,
                target,
            )) by {
                let dd = star_target(modules@, target as int, rr);
                assert(vb[dd] != Visit::Unvisited);
                if known_false(vb, fb, dd) {
                    assert(dd != target);
                    assert(visited_modules@[dd] == Visit::Done && fa[dd] == fb[dd]);
                }
            }
        }
        if r && !has_dynamic_exports {
            lemma_reaches_refl(edge, target);
        }
        if has_dynamic_exports && !module.is_external {
            let rr = choose|rr: int|
                #[trigger] star_record(modules@, target as int, rr) && star_target(modules@, target as int, rr) != target
                    && fb[star_target(modules@, target as int, rr)];
            assert(fa[star_target(modules@, target as int, rr)]);
        }
        if has_dynamic_exports && module.is_external {
            lemma_reaches_refl(edge, target);
        }
        assert(entry_ok(modules@, f0, visited_modules@, fa, target as int));
        lemma_state_mono(modules@, f0, vb, fb, visited_modules@, fa, target as int);
        lemma_extends_trans(v1, fl0, vb, fb, visited_modules@, fa);
        lemma_extends_trans(v0, fl0, v1, fl0, visited_modules@, fa);
        lemma_stack_pop_set(modules@, vb, visited_modules@, stack, target);
    }
    r
}

/// Marks the modules whose exports cannot all be known when bundling: starting from
/// each bundled module of `sorted_modules` that has an `export * from`, searches its
/// re-exports for an external module.
pub fn wrap_modules(modules: &Vec<Module>, sorted_modules: &Vec<ModuleIdx>, metadata: &mut Vec<LinkingMetadata>)
    requires
        sorted_modules.len() > 0,
        star_records_in_range(modules@),
        old(metadata).len() == modules.len(),
        forall|k: int| 0 <= k < sorted_modules.len() ==> #[trigger] sorted_modules[k] < modules.len(),
    ensures
        final(metadata).len() == modules.len(),
        forall|i: int|
            0 <= i < modules.len() ==> (#[trigger] final(metadata)@[i]) == (LinkingMetadata {
                has_dynamic_exports: final(metadata)@[i].has_dynamic_exports,
                ..old(metadata)@[i]
            }),
        dynamic_exports_settled(
            modules@,
            sorted_modules@,
            dynamic_flags(old(metadata)@),
            dynamic_flags(final(metadata)@),
        ),
{
    let n = modules.len();
    let ghost f0 = dynamic_flags(metadata@);
    let mut visited: Vec<Visit> = Vec::new();
    let mut q: usize = 0;
    while q < n
        invariant
            q <= n,
            n == modules.len(),
            visited.len() == q,
            forall|i: int| 0 <= i < q ==> #[trigger] visited@[i] == Visit::Unvisited,
        decreases n - q,
    {
        visited.push(Visit::Unvisited);
        q += 1;
    }
    proof {
        assert forall|t: int| 0 <= t < modules.len() implies #[trigger] entry_ok(
            modules@,
            f0,
            visited@,
            dynamic_flags(metadata@),
            t,
        ) by {
            if dynamic_flags(metadata@)[t] {
                lemma_reaches_refl(reexport_edge(modules@), t as usize);
            }
        }
    }
    let mut k: usize = 0;
    while k < sorted_modules.len()
        invariant
            n == modules.len(),
            star_records_in_range(modules@),
            k <= sorted_modules.len(),
            forall|q: int| 0 <= q < sorted_modules.len() ==> #[trigger] sorted_modules[q] < modules.len(),
            f0 == dynamic_flags(old(metadata)@),
            metadata.len() == n,
            forall|i: int|
                0 <= i < n ==> (#[trigger] metadata@[i]) == (LinkingMetadata {
                    has_dynamic_exports: metadata@[i].has_dynamic_exports,
                    ..old(metadata)@[i]
                }),
            state_ok(modules@, f0, visited@, dynamic_flags(metadata@)),
            on_stack(modules@, visited@, Seq::<usize>::empty()),
            forall|q: int| 0 <= q < n ==> (#[trigger] f0[q]) ==> dynamic_flags(metadata@)[q],
            forall|q: int|
                0 <= q < k && is_root(modules@, sorted_modules@, #[trigger] sorted_modules@[q]) ==> visited@[sorted_modules@[q] as int]
                    == Visit::Done,
        decreases sorted_modules.len() - k,
    {
        let idx = sorted_modules[k];
        let module = &modules[idx];
        if !module.is_external {
            if module_has_star_export(module) {
                proof {
                    assert(is_walk(reexport_edge(modules@), Seq::<usize>::empty().push(idx)));
                }
                let ghost vb = visited@;
                let ghost fb = dynamic_flags(metadata@);
                has_dynamic_exports_due_to_export_star(idx, modules, metadata, &mut visited, Ghost(f0), Ghost(Seq::empty()));
                proof {
                    let fa = dynamic_flags(metadata@);
                    assert forall|q: int| 0 <= q < n && #[trigger] f0[q] implies fa[q] by {
                        assert(fb[q]);
                    }
                    assert forall|q: int|
                        0 <= q < k + 1 && is_root(modules@, sorted_modules@, #[trigger] sorted_modules@[q]) implies visited@[sorted_modules@[q] as int]
                        == Visit::Done by {
                        if q < k {
                            assert(vb[sorted_modules@[q] as int] == Visit::Done);
                        }
                    }
                }
            }
        }
        proof {
            assert forall|q: int|
                0 <= q < k + 1 && is_root(modules@, sorted_modules@, #[trigger] sorted_modules@[q]) implies visited@[sorted_modules@[q] as int]
                == Visit::Done by {
                if q == k {
                    assert(!modules@[idx as int].is_external && has_star_export(modules@[idx as int]));
                }
            }
        }
        k += 1;
    }
    proof {
        let mods = modules@;
        let f = dynamic_flags(metadata@);
        let v = visited@;
        assert forall|t: int| 0 <= t < v.len() implies #[trigger] v[t] != Visit::Visiting by {}
        assert forall|t: int| 0 <= t < mods.len() && #[trigger] f[t] && !f0[t] implies mods[t].is_external || exists|r: int|
            #[trigger] star_record(mods, t, r) && star_target(mods, t, r) != t && f[star_target(mods, t, r)] by {
            assert(entry_ok(mods, f0, v, f, t));
        }
        assert forall|t: int| 0 <= t < mods.len() && #[trigger] f[t] implies exists|j: usize|
            j < mods.len() && (f0[j as int] || mods[j as int].is_external) && #[trigger] reaches(
                reexport_edge(mods),
                t as usize,
                j,
            ) by {
            assert(entry_ok(mods, f0, v, f, t));
        }
        let searched = |t: usize| t < mods.len() && v[t as int] == Visit::Done;
        let uedge = unflagged_reexport_edge(mods, f);
        assert forall|a: usize, b: usize| searched(a) && #[trigger] uedge(a, b) implies searched(b) by {
            assert(entry_ok(mods, f0, v, f, a as int));
            let r = choose|r: int| #[trigger] star_record(mods, a as int, r) && star_target(mods, a as int, r) == b as int;
            assert(v[b as int] != Visit::Unvisited);
        }
        assert forall|root: usize, t: usize|
            is_root(mods, sorted_modules@, root) && #[trigger] reaches(uedge, root, t) implies {
            &&& mods[t as int].is_external ==> f[t as int]
            &&& !f[t as int] ==> forall|r: int|
                #[trigger] star_record(mods, t as int, r) && star_target(mods, t as int, r) != t ==> !f[star_target(
                    mods,
                    t as int,
                    r,
                )] || reaches(reexport_edge(mods), star_target(mods, t as int, r) as usize, t)
        } by {
            let q = choose|q: int| 0 <= q < sorted_modules@.len() && sorted_modules@[q] == root;
            assert(v[sorted_modules@[q] as int] == Visit::Done);
            lemma_closed_holds_reached(uedge, searched, root, t);
            assert(entry_ok(mods, f0, v, f, t as int));
        }
        assert(dynamic_exports_settled(mods, sorted_modules@, f0, f));
    }
}

} // verus!
