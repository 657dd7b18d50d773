use vstd::prelude::*;

use crate::reach::{
    is_walk, lemma_reaches_prepend, lemma_reaches_refl, lemma_walk_push, lemma_walk_reaches_last, reaches,
};
use crate::types::{DeterminedSideEffects, Module};

verus! {

/// A bundled module whose own statements were found free of side effects: whether it
/// has any is decided by what it imports.
pub open spec fn decided_by_imports(m: Module) -> bool {
    !m.is_external && m.side_effects == DeterminedSideEffects::Analyzed(false)
}

/// Record `r` of module `m` points at a real module (it is no placeholder).
pub open spec fn followed(modules: Seq<Module>, m: int, r: int) -> bool {
    0 <= m < modules.len() && 0 <= r < modules[m].import_records.len() && !modules[m].import_records[r].is_dummy
}

/// Every real record resolves to a module of the table.
pub open spec fn records_in_range(modules: Seq<Module>) -> bool {
    forall|m: int, r: int| #[trigger] followed(modules, m, r) ==> modules[m].import_records[r].resolved_module < modules.len()
}

/// `a` imports `b` through a real record.
pub open spec fn import_edge(modules: Seq<Module>) -> spec_fn(usize, usize) -> bool {
    |a: usize, b: usize|
        exists|r: int| #[trigger] followed(modules, a as int, r) && modules[a as int].import_records[r].resolved_module == b
}

/// The module a real record points at.
pub open spec fn target(modules: Seq<Module>, m: int, r: int) -> int {
    modules[m].import_records[r].resolved_module as int
}

/// What `determine_side_effects` settles on, given the modules before and the side
/// effects after:
/// - only modules whose own code is free of side effects may change, and they stay `Analyzed`;
/// - a module has side effects only where it reaches one that has them of its own;
/// - a changed module has them because one of its imports has them;
/// - a module left without them imports none that has them, but for imports from
///   which it can be reached again (a cycle).
pub open spec fn side_effects_settled(modules: Seq<Module>, res: Seq<DeterminedSideEffects>) -> bool {
    &&& res.len() == modules.len()
    &&& forall|i: int|
        0 <= i < modules.len() && !decided_by_imports(modules[i]) ==> #[trigger] res[i] == modules[i].side_effects
    &&& forall|i: int| 0 <= i < modules.len() && decided_by_imports(modules[i]) ==> (#[trigger] res[i]) is Analyzed
    &&& forall|i: int|
        0 <= i < modules.len() && (#[trigger] res[i]).spec_has_side_effects() ==> exists|j: usize|
            j < modules.len() && modules[j as int].side_effects.spec_has_side_effects() && #[trigger] reaches(
                import_edge(modules),
                i as usize,
                j,
            )
    &&& forall|i: int|
        0 <= i < modules.len() && decided_by_imports(modules[i]) && (#[trigger] res[i]).spec_has_side_effects()
            ==> exists|r: int| #[trigger] followed(modules, i, r) && res[target(modules, i, r)].spec_has_side_effects()
    &&& forall|i: int, r: int|
        decided_by_imports(modules[i]) && !res[i].spec_has_side_effects() && #[trigger] followed(modules, i, r)
            ==> !res[target(modules, i, r)].spec_has_side_effects() || reaches(
            import_edge(modules),
            target(modules, i, r) as usize,
            i as usize,
        )
}

/// The side effects of each module.
pub open spec fn side_effects_of_modules(modules: Seq<Module>) -> Seq<DeterminedSideEffects> {
    Seq::new(modules.len(), |i: int| modules[i].side_effects)
}

/// What the walk knows of a module: not reached yet, being visited, or settled.
#[derive(Clone, Copy)]
pub enum SideEffectCache {
    Unvisited,
    Visited,
    Cached(DeterminedSideEffects),
}

/// The walk from module `m` with cache `c` (and `f` steps of depth to spend): the side
/// effects it gives for `m`, and the cache after it. A module being visited gives its own
/// side effects; a settled one its settled value; a new one is marked as being visited
/// and then gives its own side effects, unless its own code has none, in which case its
/// real import records are walked in order until one gives side effects, and the module
/// is settled to whether one did.
pub open spec fn visit(modules: Seq<Module>, c: Seq<SideEffectCache>, m: int, f: nat) -> (DeterminedSideEffects, Seq<
    SideEffectCache,
>)
    decreases f, 0int,
{
    match c[m] {
        SideEffectCache::Visited => (modules[m].side_effects, c),
        SideEffectCache::Cached(v) => (v, c),
        SideEffectCache::Unvisited => {
            let c1 = c.update(m, SideEffectCache::Visited);
            if !decided_by_imports(modules[m]) || f == 0 {
                (modules[m].side_effects, c1)
            } else {
                let p = visit_records(modules, c1, m, 0, (f - 1) as nat);
                (
                    DeterminedSideEffects::Analyzed(p.0),
                    p.1.update(m, SideEffectCache::Cached(DeterminedSideEffects::Analyzed(p.0))),
                )
            }
        },
    }
}

/// The walk over the import records of `m` from record `i` on: whether one of them gives
/// side effects (stopping at the first that does), and the cache after it.
pub open spec fn visit_records(modules: Seq<Module>, c: Seq<SideEffectCache>, m: int, i: int, f: nat) -> (bool, Seq<
    SideEffectCache,
>)
    decreases f, modules[m].import_records.len() - i + 1,
{
    if i < 0 || i >= modules[m].import_records.len() {
        (false, c)
    } else if modules[m].import_records[i].is_dummy {
        visit_records(modules, c, m, i + 1, f)
    } else {
        let p = visit(modules, c, modules[m].import_records[i].resolved_module as int, f);
        if p.0.spec_has_side_effects() {
            (true, p.1)
        } else {
            visit_records(modules, p.1, m, i + 1, f)
        }
    }
}

/// The walks from modules `0` to `k - 1` in turn, sharing one cache: their results, and
/// the cache after them.
pub open spec fn visit_all(modules: Seq<Module>, c: Seq<SideEffectCache>, k: int, f: nat) -> (Seq<DeterminedSideEffects>, Seq<
    SideEffectCache,
>)
    decreases k,
{
    if k <= 0 {
        (Seq::empty(), c)
    } else {
        let prev = visit_all(modules, c, k - 1, f);
        let p = visit(modules, prev.1, k - 1, f);
        (prev.0.push(p.0), p.1)
    }
}

/// The side effects that the depth-first walk settles on: the walks from every module in
/// order, starting from a cache where nothing is reached.
pub open spec fn walked_side_effects(modules: Seq<Module>) -> Seq<DeterminedSideEffects> {
    visit_all(
        modules,
        Seq::new(modules.len(), |i: int| SideEffectCache::Unvisited),
        modules.len() as int,
        modules.len(),
    ).0
}

spec fn unvisited(c: Seq<SideEffectCache>) -> nat
    decreases c.len(),
{
    if c.len() == 0 {
        0
    } else {
        unvisited(c.drop_last()) + if c.last() is Unvisited {
            1nat
        } else {
            0nat
        }
    }
}

/// `c2` keeps what `c1` had settled and visited.
spec fn extends(c1: Seq<SideEffectCache>, c2: Seq<SideEffectCache>) -> bool {
    &&& c1.len() == c2.len()
    &&& forall|i: int| 0 <= i < c1.len() && (#[trigger] c1[i]) is Cached ==> c2[i] == c1[i]
    &&& forall|i: int| 0 <= i < c1.len() && !(#[trigger] c1[i] is Unvisited) ==> !(c2[i] is Unvisited)
}

/// Module `d` is settled with side effects.
spec fn known_true(modules: Seq<Module>, c: Seq<SideEffectCache>, d: int) -> bool {
    if decided_by_imports(modules[d]) {
        c[d] is Cached && c[d]->Cached_0.spec_has_side_effects()
    } else {
        modules[d].side_effects.spec_has_side_effects()
    }
}

/// Module `d` is settled without side effects.
spec fn known_false(modules: Seq<Module>, c: Seq<SideEffectCache>, d: int) -> bool {
    if decided_by_imports(modules[d]) {
        c[d] is Cached && !c[d]->Cached_0.spec_has_side_effects()
    } else {
        !modules[d].side_effects.spec_has_side_effects()
    }
}

spec fn entry_ok(modules: Seq<Module>, c: Seq<SideEffectCache>, i: int) -> bool {
    c[i] is Cached ==> {
        let v = c[i]->Cached_0;
        &&& decided_by_imports(modules[i])
        &&& v is Analyzed
        &&& v.spec_has_side_effects() ==> exists|j: usize|
            j < modules.len() && modules[j as int].side_effects.spec_has_side_effects() && #[trigger] reaches(
                import_edge(modules),
                i as usize,
                j,
            )
        &&& v.spec_has_side_effects() ==> exists|r: int|
            #[trigger] followed(modules, i, r) && known_true(modules, c, target(modules, i, r))
        &&& !v.spec_has_side_effects() ==> forall|r: int|
            #[trigger] followed(modules, i, r) ==> known_false(modules, c, target(modules, i, r)) || reaches(
                import_edge(modules),
                target(modules, i, r) as usize,
                i as usize,
            )
    }
}

spec fn cache_ok(modules: Seq<Module>, c: Seq<SideEffectCache>) -> bool {
    &&& c.len() == modules.len()
    &&& forall|i: int| 0 <= i < c.len() ==> #[trigger] entry_ok(modules, c, i)
}

/// The modules being visited, whose result is not settled yet, are those on `stack`.
spec fn on_stack(modules: Seq<Module>, c: Seq<SideEffectCache>, stack: Seq<usize>) -> bool {
    &&& forall|k: int| 0 <= k < stack.len() ==> (#[trigger] stack[k]) < modules.len()
    &&& forall|i: int|
        0 <= i < c.len() ==> ((#[trigger] c[i] is Visited && decided_by_imports(modules[i])) <==> stack.contains(
            i as usize,
        ))
}

proof fn lemma_unvisited_le_len(c: Seq<SideEffectCache>)
    ensures
        unvisited(c) <= c.len(),
    decreases c.len(),
{
    if c.len() > 0 {
        lemma_unvisited_le_len(c.drop_last());
    }
}

proof fn lemma_unvisited_mono(c1: Seq<SideEffectCache>, c2: Seq<SideEffectCache>, k: int)
    requires
        c1.len() == c2.len(),
        forall|i: int| 0 <= i < c1.len() && !(#[trigger] c1[i] is Unvisited) ==> !(c2[i] is Unvisited),
    ensures
        unvisited(c2) <= unvisited(c1),
        0 <= k < c1.len() && c1[k] is Unvisited && !(c2[k] is Unvisited) ==> unvisited(c2) < unvisited(c1),
    decreases c1.len(),
{
    if c1.len() > 0 {
        let n = c1.len() - 1;
        assert forall|i: int| 0 <= i < c1.drop_last().len() && !(#[trigger] c1.drop_last()[i] is Unvisited) implies !(
        c2.drop_last()[i] is Unvisited) by {
            assert(c1.drop_last()[i] == c1[i] && c2.drop_last()[i] == c2[i]);
        }
        lemma_unvisited_mono(c1.drop_last(), c2.drop_last(), k);
        if k < n && 0 <= k {
            assert(c1.drop_last()[k] == c1[k] && c2.drop_last()[k] == c2[k]);
        }
        assert(!(c1[n] is Unvisited) ==> !(c2[n] is Unvisited));
    }
}

proof fn lemma_known_mono(modules: Seq<Module>, c1: Seq<SideEffectCache>, c2: Seq<SideEffectCache>, d: int)
    requires
        extends(c1, c2),
        0 <= d < c1.len(),
    ensures
        known_true(modules, c1, d) ==> known_true(modules, c2, d),
        known_false(modules, c1, d) ==> known_false(modules, c2, d),
{
    if c1[d] is Cached {
        assert(c2[d] == c1[d]);
    }
}

proof fn lemma_entry_mono(modules: Seq<Module>, c1: Seq<SideEffectCache>, c2: Seq<SideEffectCache>, i: int)
    requires
        records_in_range(modules),
        c1.len() == modules.len(),
        extends(c1, c2),
        0 <= i < c1.len(),
        c1[i] is Cached,
        entry_ok(modules, c1, i),
    ensures
        entry_ok(modules, c2, i),
{
    assert(c2[i] == c1[i]);
    let v = c1[i]->Cached_0;
    if v.spec_has_side_effects() {
        let r = choose|r: int| #[trigger] followed(modules, i, r) && known_true(modules, c1, target(modules, i, r));
        lemma_known_mono(modules, c1, c2, target(modules, i, r));
        assert(followed(modules, i, r) && known_true(modules, c2, target(modules, i, r)));
    } else {
        assert forall|r: int| #[trigger] followed(modules, i, r) implies known_false(modules, c2, target(modules, i, r))
            || reaches(import_edge(modules), target(modules, i, r) as usize, i as usize) by {
            lemma_known_mono(modules, c1, c2, target(modules, i, r));
        }
    }
}

proof fn lemma_cache_mono(modules: Seq<Module>, c1: Seq<SideEffectCache>, c2: Seq<SideEffectCache>, m: int)
    requires
        records_in_range(modules),
        cache_ok(modules, c1),
        extends(c1, c2),
        0 <= m < c1.len(),
        forall|i: int| 0 <= i < c1.len() && i != m ==> c2[i] == c1[i],
        entry_ok(modules, c2, m),
    ensures
        cache_ok(modules, c2),
{
    assert forall|i: int| 0 <= i < c2.len() implies #[trigger] entry_ok(modules, c2, i) by {
        if i != m {
            assert(entry_ok(modules, c1, i));
            if c1[i] is Cached {
                lemma_entry_mono(modules, c1, c2, i);
            }
        }
    }
}

proof fn lemma_extends_trans(c1: Seq<SideEffectCache>, c2: Seq<SideEffectCache>, c3: Seq<SideEffectCache>)
    requires
        extends(c1, c2),
        extends(c2, c3),
    ensures
        extends(c1, c3),
{
    assert forall|i: int| 0 <= i < c1.len() && (#[trigger] c1[i]) is Cached implies c3[i] == c1[i] by {
        assert(c2[i] == c1[i]);
    }
    assert forall|i: int| 0 <= i < c1.len() && !(#[trigger] c1[i] is Unvisited) implies !(c3[i] is Unvisited) by {
        assert(!(c2[i] is Unvisited));
    }
}

fn is_decided(module: &Module) -> (r: bool)
    ensures
        r == decided_by_imports(*module),
{
    !module.is_external && match module.side_effects {
        DeterminedSideEffects::Analyzed(b) => !b,
        _ => false,
    }
}

/// The side effects of module `m`, settling (and caching) those of what it imports.
fn determine_for_module(
    modules: &Vec<Module>,
    m: usize,
    cache: &mut Vec<SideEffectCache>,
    Ghost(stack): Ghost<Seq<usize>>,
) -> (r: DeterminedSideEffects)
    requires
        records_in_range(modules@),
        m < modules.len(),
        cache_ok(modules@, old(cache)@),
        on_stack(modules@, old(cache)@, stack),
        is_walk(import_edge(modules@), stack.push(m)),
    ensures
        cache_ok(modules@, final(cache)@),
        extends(old(cache)@, final(cache)@),
        on_stack(modules@, final(cache)@, stack),
        !(final(cache)@[m as int] is Unvisited),
        !decided_by_imports(modules@[m as int]) ==> r == modules@[m as int].side_effects,
        decided_by_imports(modules@[m as int]) && stack.contains(m) ==> r == DeterminedSideEffects::Analyzed(false),
        decided_by_imports(modules@[m as int]) && !stack.contains(m) ==> final(cache)@[m as int]
            == SideEffectCache::Cached(r),
        r.spec_has_side_effects() ==> exists|j: usize|
            j < modules.len() && modules@[j as int].side_effects.spec_has_side_effects() && #[trigger] reaches(
                import_edge(modules@),
                m,
                j,
            ),
        forall|f: nat| f >= unvisited(old(cache)@) ==> #[trigger] visit(modules@, old(cache)@, m as int, f) == (r, final(cache)@),
    decreases unvisited(old(cache)@),
{
    let ghost edge = import_edge(modules@);
    let module = &modules[m];
    match cache[m] {
        SideEffectCache::Unvisited => {},
        SideEffectCache::Visited => {
            proof {
                if module.side_effects.spec_has_side_effects() {
                    lemma_reaches_refl(edge, m);
                }
                assert forall|f: nat| f >= unvisited(cache@) implies #[trigger] visit(modules@, cache@, m as int, f) == (
                module.side_effects, cache@) by {}
            }
            return module.side_effects;
        },
        SideEffectCache::Cached(v) => {
            proof {
                assert(entry_ok(modules@, cache@, m as int));
                assert forall|f: nat| f >= unvisited(cache@) implies #[trigger] visit(modules@, cache@, m as int, f) == (v, cache@) by {}
            }
            return v;
        },
    }
    let ghost c0 = cache@;
    cache.set(m, SideEffectCache::Visited);
    proof {
        lemma_unvisited_mono(c0, cache@, m as int);
        lemma_cache_mono(modules@, c0, cache@, m as int);
        assert(!stack.contains(m));
    }
    if !is_decided(module) {
        proof {
            if module.side_effects.spec_has_side_effects() {
                lemma_reaches_refl(edge, m);
            }
            assert forall|f: nat| f >= unvisited(c0) implies #[trigger] visit(modules@, c0, m as int, f) == (
            module.side_effects, cache@) by {}
            assert forall|i: int|
                0 <= i < cache@.len() implies ((#[trigger] cache@[i] is Visited && decided_by_imports(modules@[i]))
                <==> stack.contains(i as usize)) by {
                if i != m {
                    assert(cache@[i] == c0[i]);
                }
            }
        }
        return module.side_effects;
    }
    let ghost c1 = cache@;
    let ghost inner = stack.push(m);
    proof {
        assert forall|i: int|
            0 <= i < cache@.len() implies ((#[trigger] cache@[i] is Visited && decided_by_imports(modules@[i]))
            <==> inner.contains(i as usize)) by {
            if i != m {
                assert(cache@[i] == c0[i]);
                if stack.contains(i as usize) {
                    let k = choose|k: int| 0 <= k < stack.len() && stack[k] == i as usize;
                    assert(inner[k] == i as usize);
                }
                if inner.contains(i as usize) {
                    let k = choose|k: int| 0 <= k < inner.len() && inner[k] == i as usize;
                    assert(k < stack.len());
                    assert(stack[k] == i as usize);
                }
            } else {
                assert(inner[inner.len() - 1] == m);
            }
        }
    }
    let n = module.import_records.len();
    let mut any = false;
    let mut i: usize = 0;
    while i < n && !any
        invariant
            records_in_range(modules@),
            m < modules.len(),
            *module == modules@[m as int],
            decided_by_imports(*module),
            n == module.import_records.len(),
            i <= n,
            edge == import_edge(modules@),
            inner == stack.push(m),
            is_walk(edge, inner),
            cache_ok(modules@, cache@),
            extends(c1, cache@),
            extends(c0, c1),
            c0 == old(cache)@,
            c0[m as int] is Unvisited,
            on_stack(modules@, cache@, inner),
            unvisited(cache@) < unvisited(old(cache)@),
            !any ==> forall|r: int|
                0 <= r < i && #[trigger] followed(modules@, m as int, r) ==> known_false(
                    modules@,
                    cache@,
                    target(modules@, m as int, r),
                ) || reaches(edge, target(modules@, m as int, r) as usize, m),
            any ==> exists|r: int|
                #[trigger] followed(modules@, m as int, r) && known_true(modules@, cache@, target(modules@, m as int, r)),
            any ==> exists|j: usize|
                j < modules.len() && modules@[j as int].side_effects.spec_has_side_effects() && #[trigger] reaches(
                    edge,
                    m,
                    j,
                ),
            c1 == c0.update(m as int, SideEffectCache::Visited),
            forall|g: nat|
                g + 1 >= unvisited(c0) ==> #[trigger] visit_records(modules@, c1, m as int, 0, g) == (if any {
                    (true, cache@)
                } else {
                    visit_records(modules@, cache@, m as int, i as int, g)
                }),
        decreases n - i,
    {
        let rec = &module.import_records[i];
        if !rec.is_dummy {
            let d = rec.resolved_module;
            proof {
                assert(followed(modules@, m as int, i as int));
                assert(edge(m, d));
                assert(inner.last() == m);
                lemma_walk_push(edge, inner, d);
            }
            let ghost cb = cache@;
            let rd = determine_for_module(modules, d, cache, Ghost(inner));
            proof {
                lemma_extends_trans(c1, cb, cache@);
                lemma_unvisited_mono(cb, cache@, 0);
                assert forall|r: int|
                    0 <= r < i && !any && #[trigger] followed(modules@, m as int, r) implies known_false(
                        modules@,
                        cache@,
                        target(modules@, m as int, r),
                    ) || reaches(edge, target(modules@, m as int, r) as usize, m) by {
                    lemma_known_mono(modules@, cb, cache@, target(modules@, m as int, r));
                }
                assert(target(modules@, m as int, i as int) == d as int);
                if rd.spec_has_side_effects() {
                    let j = choose|j: usize|
                        j < modules.len() && modules@[j as int].side_effects.spec_has_side_effects() && #[trigger] reaches(
                            edge,
                            d,
                            j,
                        );
                    lemma_reaches_prepend(edge, m, d, j);
                    assert(known_true(modules@, cache@, d as int));
                } else {
                    if decided_by_imports(modules@[d as int]) && inner.contains(d) {
                        let k = choose|k: int| 0 <= k < inner.len() && inner[k] == d;
                        lemma_walk_reaches_last(edge, inner, k);
                    } else {
                        assert(known_false(modules@, cache@, d as int));
                    }
                }
            }
            proof {
                assert forall|g: nat| g + 1 >= unvisited(c0) implies #[trigger] visit_records(modules@, c1, m as int, 0, g) == (if rd.spec_has_side_effects() {
                    (true, cache@)
                } else {
                    visit_records(modules@, cache@, m as int, i + 1, g)
                }) by {
                    assert(g >= unvisited(cb));
                    assert(visit(modules@, cb, d as int, g) == (rd, cache@));
                    assert(visit_records(modules@, cb, m as int, i as int, g) == (if rd.spec_has_side_effects() {
                        (true, cache@)
                    } else {
                        visit_records(modules@, cache@, m as int, i + 1, g)
                    }));
                }
            }
            if rd.has_side_effects() {
                any = true;
            }
        } else {
            proof {
                assert forall|g: nat| g + 1 >= unvisited(c0) implies #[trigger] visit_records(modules@, c1, m as int, 0, g) == visit_records(modules@, cache@, m as int, i + 1, g) by {
                    assert(visit_records(modules@, cache@, m as int, i as int, g) == visit_records(modules@, cache@, m as int, i + 1, g));
                }
            }
        }
        i += 1;
    }
    let v = DeterminedSideEffects::Analyzed(any);
    let ghost cb = cache@;
    cache.set(m, SideEffectCache::Cached(v));
    proof {
        assert(cb[m as int] is Visited) by {
            assert(inner[inner.len() - 1] == m);
        }
        assert forall|f: nat| f >= unvisited(c0) implies #[trigger] visit(modules@, c0, m as int, f) == (v, cache@) by {
            let g = (f - 1) as nat;
            assert(g + 1 >= unvisited(c0));
            if !any {
                assert(visit_records(modules@, cb, m as int, n as int, g) == (false, cb));
            }
            assert(visit_records(modules@, c1, m as int, 0, g) == (any, cb));
            assert(cache@ == cb.update(m as int, SideEffectCache::Cached(v)));
        }
        assert(extends(cb, cache@));
        if any {
            let r = choose|r: int|
                #[trigger] followed(modules@, m as int, r) && known_true(modules@, cb, target(modules@, m as int, r));
            lemma_known_mono(modules@, cb, cache@, target(modules@, m as int, r));
            assert(followed(modules@, m as int, r) && known_true(modules@, cache@, target(modules@, m as int, r)));
        } else {
            assert forall|r: int| #[trigger] followed(modules@, m as int, r) implies known_false(
                modules@,
                cache@,
                target(modules@, m as int, r),
            ) || reaches(edge, target(modules@, m as int, r) as usize, m) by {
                lemma_known_mono(modules@, cb, cache@, target(modules@, m as int, r));
            }
        }
        assert(entry_ok(modules@, cache@, m as int));
        lemma_cache_mono(modules@, cb, cache@, m as int);
        lemma_extends_trans(c0, c1, cb);
        lemma_extends_trans(c0, cb, cache@);
        assert forall|q: int|
            0 <= q < cache@.len() implies ((#[trigger] cache@[q] is Visited && decided_by_imports(modules@[q]))
            <==> stack.contains(q as usize)) by {
            if q != m {
                assert(cache@[q] == cb[q]);
                if stack.contains(q as usize) {
                    let k = choose|k: int| 0 <= k < stack.len() && stack[k] == q as usize;
                    assert(inner[k] == q as usize);
                }
                if inner.contains(q as usize) {
                    let k = choose|k: int| 0 <= k < inner.len() && inner[k] == q as usize;
                    assert(k < stack.len());
                    assert(stack[k] == q as usize);
                }
            }
        }
    }
    v
}

/// Settles the side effects of every module: a bundled module whose own code has none
/// gets them when something it imports (transitively) has them, found by a depth-first
/// walk that, on meeting a module it is still visiting, takes that module's own side
/// effects. The result is exactly what that walk gives, visiting the modules in order
/// ([`walked_side_effects`]).
pub fn determine_side_effects(modules: &mut Vec<Module>)
    requires
        records_in_range(old(modules)@),
    ensures
        final(modules).len() == old(modules).len(),
        forall|i: int|
            0 <= i < old(modules).len() ==> (#[trigger] final(modules)@[i]) == (Module {
                side_effects: final(modules)@[i].side_effects,
                ..old(modules)@[i]
            }),
        side_effects_settled(old(modules)@, side_effects_of_modules(final(modules)@)),
        side_effects_of_modules(final(modules)@) == walked_side_effects(old(modules)@),
{
    let n = modules.len();
    let mut cache: Vec<SideEffectCache> = Vec::new();
    let mut q: usize = 0;
    while q < n
        invariant
            q <= n,
            n == modules.len(),
            cache.len() == q,
            forall|i: int| 0 <= i < q ==> #[trigger] cache@[i] is Unvisited,
        decreases n - q,
    {
        cache.push(SideEffectCache::Unvisited);
        q += 1;
    }
    let ghost edge = import_edge(modules@);
    let ghost init = Seq::new(n as nat, |i: int| SideEffectCache::Unvisited);
    proof {
        assert(cache@ =~= init);
    }
    let mut res: Vec<DeterminedSideEffects> = Vec::new();
    let mut idx: usize = 0;
    while idx < n
        invariant
            idx <= n,
            n == modules.len(),
            modules@ == old(modules)@,
            records_in_range(modules@),
            edge == import_edge(modules@),
            cache_ok(modules@, cache@),
            on_stack(modules@, cache@, Seq::<usize>::empty()),
            res.len() == idx,
            forall|i: int|
                0 <= i < idx && !decided_by_imports(modules@[i]) ==> #[trigger] res@[i] == modules@[i].side_effects,
            forall|i: int|
                0 <= i < idx && decided_by_imports(modules@[i]) ==> cache@[i] == SideEffectCache::Cached(
                    #[trigger] res@[i],
                ),
            init == Seq::new(n as nat, |i: int| SideEffectCache::Unvisited),
            (res@, cache@) == visit_all(modules@, init, idx as int, n as nat),
        decreases n - idx,
    {
        proof {
            assert(is_walk(edge, Seq::<usize>::empty().push(idx)));
        }
        let ghost cb = cache@;
        let ghost rb = res@;
        let v = determine_for_module(modules, idx, &mut cache, Ghost(Seq::empty()));
        res.push(v);
        proof {
            lemma_unvisited_le_len(cb);
            assert(visit(modules@, cb, idx as int, n as nat) == (v, cache@));
            assert(visit_all(modules@, init, idx as int, n as nat) == (rb, cb));
            assert((res@, cache@) == visit_all(modules@, init, idx + 1, n as nat));
            assert forall|i: int| 0 <= i < idx && decided_by_imports(modules@[i]) implies cache@[i]
                == SideEffectCache::Cached(#[trigger] res@[i]) by {
                assert(cb[i] is Cached);
            }
        }
        idx += 1;
    }
    proof {
        let mods = modules@;
        let rs = res@;
        assert forall|d: int| 0 <= d < n implies (known_true(mods, cache@, d) <==> (#[trigger] rs[d]).spec_has_side_effects())
            && (known_false(mods, cache@, d) <==> !rs[d].spec_has_side_effects()) by {}
        assert(side_effects_settled(mods, rs)) by {
            assert forall|i: int| 0 <= i < mods.len() && decided_by_imports(mods[i]) implies (#[trigger] rs[i]) is Analyzed by {
                assert(entry_ok(mods, cache@, i));
            }
            assert forall|i: int|
                0 <= i < mods.len() && (#[trigger] rs[i]).spec_has_side_effects() implies exists|j: usize|
                j < mods.len() && mods[j as int].side_effects.spec_has_side_effects() && #[trigger] reaches(
                    import_edge(mods),
                    i as usize,
                    j,
                ) by {
                if decided_by_imports(mods[i]) {
                    assert(entry_ok(mods, cache@, i));
                } else {
                    lemma_reaches_refl(import_edge(mods), i as usize);
                    assert(reaches(import_edge(mods), i as usize, i as usize));
                }
            }
            assert forall|i: int|
                0 <= i < mods.len() && decided_by_imports(mods[i]) && (#[trigger] rs[i]).spec_has_side_effects()
                    implies exists|r: int| #[trigger] followed(mods, i, r) && rs[target(mods, i, r)].spec_has_side_effects() by {
                assert(entry_ok(mods, cache@, i));
                let r = choose|r: int| #[trigger] followed(mods, i, r) && known_true(mods, cache@, target(mods, i, r));
                assert(followed(mods, i, r) && rs[target(mods, i, r)].spec_has_side_effects());
            }
            assert forall|i: int, r: int|
                decided_by_imports(mods[i]) && !rs[i].spec_has_side_effects() && #[trigger] followed(mods, i, r)
                    implies !rs[target(mods, i, r)].spec_has_side_effects() || reaches(
                    import_edge(mods),
                    target(mods, i, r) as usize,
                    i as usize,
                ) by {
                assert(entry_ok(mods, cache@, i));
            }
        }
    }
    let mut w: usize = 0;
    while w < n
        invariant
            w <= n,
            n == res.len(),
            side_effects_settled(old(modules)@, res@),
            res@ == walked_side_effects(old(modules)@),
            modules.len() == n,
            forall|i: int|
                0 <= i < n ==> (#[trigger] modules@[i]) == (Module {
                    side_effects: modules@[i].side_effects,
                    ..old(modules)@[i]
                }),
            forall|i: int| 0 <= i < w ==> (#[trigger] modules@[i]).side_effects == res@[i],
            forall|i: int| w <= i < n ==> (#[trigger] modules@[i]) == old(modules)@[i],
        decreases n - w,
    {
        modules[w].side_effects = res[w];
        w += 1;
    }
    proof {
        assert(side_effects_of_modules(modules@) =~= res@);
    }
}

} // verus!
