use vstd::prelude::*;

use crate::types::{
    is_static_path, records_in_bounds, static_edge, static_edge_at, static_reaches, Module, ModuleIdx,
};
use crate::util::{count_true, lemma_count_true_all_false, lemma_count_true_le_len, lemma_count_true_set, vec_of};

verus! {

/// An entry of the work stack of the execution-order walk.
#[derive(Clone, Copy, Debug, PartialEq, Eq, Structural)]
pub enum Status {
    /// The module still has to be visited.
    ToBeExecuted(ModuleIdx),
    /// The module's dependencies are being visited; it runs when this entry is popped.
    WaitForExit(ModuleIdx),
}

spec fn sid(s: Status) -> usize {
    match s {
        Status::ToBeExecuted(x) => x,
        Status::WaitForExit(x) => x,
    }
}

/// The work stack entries that visiting module `m` adds for its records from `j` on: one
/// for each static, real record, the last record's first, so that the first record is on
/// top.
#[verifier::opaque]
pub open spec fn record_pushes(m: Module, j: int) -> Seq<Status>
    decreases m.import_records.len() - j,
{
    if j < 0 || j >= m.import_records.len() {
        Seq::empty()
    } else {
        let rest = record_pushes(m, j + 1);
        let rec = m.import_records[j];
        if rec.kind.spec_is_static() && !rec.is_dummy {
            rest.push(Status::ToBeExecuted(rec.resolved_module))
        } else {
            rest
        }
    }
}

/// The state of the walk: the work stack, which modules were visited, the orders given so
/// far, the evaluated bundled modules in order, the next order, and the cycles found.
pub type WalkState = (Seq<Status>, Seq<bool>, Seq<u32>, Seq<ModuleIdx>, int, Seq<Seq<ModuleIdx>>);

/// The modules of the exit entries of a stack, from the bottom up.
#[verifier::opaque]
pub open spec fn wait_ids(s: Seq<Status>) -> Seq<ModuleIdx>
    decreases s.len(),
{
    if s.len() == 0 {
        Seq::empty()
    } else {
        let p = wait_ids(s.drop_last());
        match s.last() {
            Status::WaitForExit(w) => p.push(w),
            Status::ToBeExecuted(_) => p,
        }
    }
}

/// The cycle closed by meeting module `id` again while it is being visited: the modules
/// being visited from `id` on (from its exit entry up the stack), then `id`; recorded
/// once.
#[verifier::opaque]
pub open spec fn add_cycle(cycles: Seq<Seq<ModuleIdx>>, stack: Seq<Status>, id: ModuleIdx) -> Seq<Seq<ModuleIdx>> {
    if exists|p: int| 0 <= p < stack.len() && stack[p] == Status::WaitForExit(id) {
        let p = choose|p: int| 0 <= p < stack.len() && stack[p] == Status::WaitForExit(id);
        let c = wait_ids(stack.subrange(p, stack.len() as int)).push(id);
        if cycles.contains(c) {
            cycles
        } else {
            cycles.push(c)
        }
    } else {
        cycles
    }
}

/// The cycles as plain values.
pub open spec fn cycles_view(c: Seq<Vec<ModuleIdx>>) -> Seq<Seq<ModuleIdx>> {
    Seq::new(c.len(), |i: int| c[i]@)
}

/// One step of the walk: the top entry is popped. A module to visit that was visited
/// already is skipped, closing a cycle when it is still being visited; a new one is marked visited, and its exit and then the entries of
/// its records are pushed. A module whose exit is reached gets the next order and, when
/// bundled, joins the evaluated modules.
#[verifier::opaque]
pub open spec fn walk_step(modules: Seq<Module>, s: WalkState) -> WalkState {
    if s.0.len() == 0 {
        s
    } else {
        let rest = s.0.drop_last();
        match s.0.last() {
            Status::ToBeExecuted(id) => if s.1[id as int] {
                (rest, s.1, s.2, s.3, s.4, add_cycle(s.5, rest, id))
            } else {
                (
                    rest.push(Status::WaitForExit(id)) + record_pushes(modules[id as int], 0),
                    s.1.update(id as int, true),
                    s.2,
                    s.3,
                    s.4,
                    s.5,
                )
            },
            Status::WaitForExit(id) => (
                rest,
                s.1,
                s.2.update(id as int, s.4 as u32),
                if modules[id as int].is_external {
                    s.3
                } else {
                    s.3.push(id)
                },
                s.4 + 1,
                s.5,
            ),
        }
    }
}

/// The walk after `k` steps.
#[verifier::opaque]
pub open spec fn walk_run(modules: Seq<Module>, s: WalkState, k: nat) -> WalkState
    decreases k,
{
    if k == 0 {
        s
    } else {
        walk_step(modules, walk_run(modules, s, (k - 1) as nat))
    }
}

/// The walk at its start: the entries to visit, the first on top, with the runtime module
/// above them all; nothing visited or ordered.
pub open spec fn walk_start(modules: Seq<Module>, entries: Seq<ModuleIdx>, runtime: ModuleIdx) -> WalkState {
    (
        Seq::new(entries.len(), |i: int| Status::ToBeExecuted(entries[entries.len() - 1 - i])).push(
            Status::ToBeExecuted(runtime),
        ),
        Seq::new(modules.len(), |i: int| false),
        Seq::new(modules.len(), |i: int| u32::MAX),
        Seq::empty(),
        0,
        Seq::empty(),
    )
}

proof fn lemma_walk_next(modules: Seq<Module>, start: WalkState, k: nat, prev: WalkState, next: WalkState)
    requires
        walk_run(modules, start, k) == prev,
        walk_step(modules, prev) == next,
    ensures
        walk_run(modules, start, k + 1) == next,
{
    reveal(walk_run);
}

proof fn lemma_walk_begin(modules: Seq<Module>, start: WalkState)
    ensures
        walk_run(modules, start, 0) == start,
{
    reveal(walk_run);
}

proof fn lemma_record_pushes_step(m: Module, j: int)
    requires
        0 <= j < m.import_records.len(),
    ensures
        record_pushes(m, j) == if m.import_records[j].kind.spec_is_static() && !m.import_records[j].is_dummy {
            record_pushes(m, j + 1).push(Status::ToBeExecuted(m.import_records[j].resolved_module))
        } else {
            record_pushes(m, j + 1)
        },
        record_pushes(m, m.import_records.len() as int) == Seq::<Status>::empty(),
{
    reveal(record_pushes);
}

proof fn lemma_record_pushes_end(m: Module)
    ensures
        record_pushes(m, m.import_records.len() as int) == Seq::<Status>::empty(),
{
    reveal(record_pushes);
}

proof fn lemma_step_skip(modules: Seq<Module>, s: WalkState, id: ModuleIdx)
    requires
        s.0.len() > 0,
        s.0.last() == Status::ToBeExecuted(id),
        s.1[id as int],
    ensures
        walk_step(modules, s) == (s.0.drop_last(), s.1, s.2, s.3, s.4, add_cycle(s.5, s.0.drop_last(), id)),
{
    reveal(walk_step);
}

proof fn lemma_step_visit(modules: Seq<Module>, s: WalkState, id: ModuleIdx)
    requires
        s.0.len() > 0,
        s.0.last() == Status::ToBeExecuted(id),
        !s.1[id as int],
    ensures
        walk_step(modules, s) == (
            s.0.drop_last().push(Status::WaitForExit(id)) + record_pushes(modules[id as int], 0),
            s.1.update(id as int, true),
            s.2,
            s.3,
            s.4,
            s.5,
        ),
{
    reveal(walk_step);
}

proof fn lemma_step_exit(modules: Seq<Module>, s: WalkState, id: ModuleIdx)
    requires
        s.0.len() > 0,
        s.0.last() == Status::WaitForExit(id),
    ensures
        walk_step(modules, s) == (
            s.0.drop_last(),
            s.1,
            s.2.update(id as int, s.4 as u32),
            if modules[id as int].is_external {
                s.3
            } else {
                s.3.push(id)
            },
            s.4 + 1,
            s.5,
        ),
{
    reveal(walk_step);
}

/// The order in which the bundle will evaluate its modules.
pub struct SortedModules {
    /// The non-external modules that are evaluated, in evaluation order.
    pub sorted_modules: Vec<ModuleIdx>,
    /// For each module its evaluation order; `u32::MAX` for a module that is never evaluated.
    pub exec_orders: Vec<u32>,
    /// Each detected import cycle, as a walk that starts and ends at the same module.
    pub cycles: Vec<Vec<ModuleIdx>>,
}

/// Some module has evaluation order `v`.
pub open spec fn order_taken(exec_orders: Seq<u32>, v: int) -> bool {
    exists|y: int| 0 <= y < exec_orders.len() && #[trigger] exec_orders[y] == v
}

/// The walk starts at the runtime module and at the entries.
pub open spec fn is_root(entries: Seq<usize>, runtime: usize, x: usize) -> bool {
    x == runtime || entries.contains(x)
}

/// Module `x` is reached from the runtime module or from an entry along static imports.
pub open spec fn reachable_from_roots(
    modules: Seq<Module>,
    entries: Seq<usize>,
    runtime: usize,
    x: int,
) -> bool {
    exists|r: usize| #[trigger] is_root(entries, runtime, r) && static_reaches(modules, r as int, x)
}

/// The inputs that `sort_modules` expects: records and roots point into the table,
/// and there are fewer modules than `u32::MAX`.
pub open spec fn sort_input_ok(modules: Seq<Module>, entries: Seq<usize>, runtime: usize) -> bool {
    &&& records_in_bounds(modules)
    &&& runtime < modules.len()
    &&& forall|i: int| 0 <= i < entries.len() ==> #[trigger] entries[i] < modules.len()
    &&& modules.len() < u32::MAX
}

/// Module `x` has no static import.
pub open spec fn no_static_imports(modules: Seq<Module>, x: usize) -> bool {
    forall|d: int| !#[trigger] static_edge(modules, x as int, d)
}

/// While nothing is numbered, the walk is at its start: the runtime module is next, or
/// it is the only module being visited and its exit is next; afterwards it is numbered
/// first.
spec fn runtime_first_state(
    lone: bool,
    runtime: usize,
    stack: Seq<Status>,
    chain: Seq<usize>,
    finished: Seq<usize>,
) -> bool {
    lone ==> {
        &&& finished.len() == 0 ==> stack.len() > 0 && ((chain.len() == 0 && stack.last() == Status::ToBeExecuted(runtime)) || (
        chain.len() == 1 && chain[0] == runtime && stack.last() == Status::WaitForExit(runtime)))
        &&& finished.len() > 0 ==> finished[0] == runtime
    }
}

/// A walk along static imports that closes on itself.
pub open spec fn is_import_cycle(modules: Seq<Module>, c: Seq<usize>) -> bool {
    &&& c.len() >= 2
    &&& is_static_path(modules, c)
    &&& c[0] == c.last()
}

proof fn lemma_path_single(modules: Seq<Module>, x: usize)
    ensures
        static_reaches(modules, x as int, x as int),
{
    let p = seq![x];
    assert(is_static_path(modules, p));
}

proof fn lemma_reach_step(modules: Seq<Module>, a: int, x: int, d: int)
    requires
        static_reaches(modules, a, x),
        static_edge(modules, x, d),
        d >= 0,
    ensures
        static_reaches(modules, a, d),
{
    let p = choose|p: Seq<usize>| #[trigger] is_static_path(modules, p) && p[0] == a && p.last() == x;
    let q = p.push(d as usize);
    assert forall|i: int| 0 <= i < q.len() - 1 implies #[trigger] static_edge(modules, q[i] as int, q[i + 1] as int) by {
        if i < p.len() - 1 {
            assert(q[i] == p[i] && q[i + 1] == p[i + 1]);
        } else {
            assert(q[i] == x && q[i + 1] == d);
        }
    }
    assert(is_static_path(modules, q));
}

proof fn lemma_root_reach_step(
    modules: Seq<Module>,
    entries: Seq<usize>,
    runtime: usize,
    x: int,
    d: int,
)
    requires
        reachable_from_roots(modules, entries, runtime, x),
        static_edge(modules, x, d),
        d >= 0,
    ensures
        reachable_from_roots(modules, entries, runtime, d),
{
    let r = choose|r: usize| #[trigger] is_root(entries, runtime, r) && static_reaches(modules, r as int, x);
    lemma_reach_step(modules, r as int, x, d);
}

/// The chain `c[k..]` is a walk from `c[k]` to the last element.
proof fn lemma_chain_reaches(modules: Seq<Module>, c: Seq<usize>, k: int)
    requires
        0 <= k < c.len(),
        forall|i: int| 0 <= i < c.len() - 1 ==> #[trigger] static_edge(modules, c[i] as int, c[i + 1] as int),
    ensures
        static_reaches(modules, c[k] as int, c.last() as int),
{
    let p = c.subrange(k, c.len() as int);
    assert forall|i: int| 0 <= i < p.len() - 1 implies #[trigger] static_edge(modules, p[i] as int, p[i + 1] as int) by {
        assert(p[i] == c[k + i] && p[i + 1] == c[k + i + 1]);
    }
    assert(is_static_path(modules, p));
    assert(p[0] == c[k]);
    assert(p.last() == c.last());
}

/// A set of modules that holds every root and is closed under static imports
/// holds every module reachable from the roots.
proof fn lemma_closed_holds_reachable(
    modules: Seq<Module>,
    entries: Seq<usize>,
    runtime: usize,
    s: spec_fn(int) -> bool,
    x: int,
)
    requires
        forall|r: usize| #[trigger] is_root(entries, runtime, r) ==> s(r as int),
        forall|a: int, b: int| s(a) && #[trigger] static_edge(modules, a, b) ==> s(b),
        reachable_from_roots(modules, entries, runtime, x),
    ensures
        s(x),
{
    let r = choose|r: usize| #[trigger] is_root(entries, runtime, r) && static_reaches(modules, r as int, x);
    let p = choose|p: Seq<usize>| #[trigger] is_static_path(modules, p) && p[0] == r && p.last() == x;
    lemma_closed_holds_path(modules, s, p, p.len() - 1);
}

proof fn lemma_closed_holds_path(modules: Seq<Module>, s: spec_fn(int) -> bool, p: Seq<usize>, i: int)
    requires
        0 <= i < p.len(),
        is_static_path(modules, p),
        s(p[0] as int),
        forall|a: int, b: int| s(a) && #[trigger] static_edge(modules, a, b) ==> s(b),
    ensures
        s(p[i] as int),
    decreases i,
{
    if i > 0 {
        lemma_closed_holds_path(modules, s, p, i - 1);
        let j = i - 1;
        assert(static_edge(modules, p[j] as int, p[j + 1] as int));
    }
}

fn same_path(a: &Vec<ModuleIdx>, b: &Vec<ModuleIdx>) -> (r: bool)
    ensures
        r == (a@ == b@),
{
    if a.len() != b.len() {
        return false;
    }
    let mut i: usize = 0;
    while i < a.len()
        invariant
            a.len() == b.len(),
            i <= a.len(),
            forall|j: int| 0 <= j < i ==> a@[j] == b@[j],
        decreases a.len() - i,
    {
        if a[i] != b[i] {
            return false;
        }
        i += 1;
    }
    assert(a@ =~= b@);
    true
}

fn contains_path(cycles: &Vec<Vec<ModuleIdx>>, c: &Vec<ModuleIdx>) -> (r: bool)
    ensures
        r == exists|i: int| 0 <= i < cycles.len() && #[trigger] cycles@[i]@ == c@,
{
    let mut i: usize = 0;
    while i < cycles.len()
        invariant
            i <= cycles.len(),
            forall|j: int| 0 <= j < i ==> #[trigger] cycles@[j]@ != c@,
        decreases cycles.len() - i,
    {
        if same_path(&cycles[i], c) {
            return true;
        }
        i += 1;
    }
    false
}

/// How the work stack and the chain of modules being visited fit: `pos[t]` is where the
/// exit entry of `chain[t]` stands, and `owner[i]` the chain position that entry `i`
/// belongs to (-1 for a root), rising up the stack.
pub open spec fn stack_marks(stack: Seq<Status>, chain: Seq<usize>, pos: Seq<int>, owner: Seq<int>) -> bool {
    &&& pos.len() == chain.len()
    &&& owner.len() == stack.len()
    &&& forall|i: int| 0 <= i < stack.len() ==> -1 <= #[trigger] owner[i] < chain.len()
    &&& forall|t: int|
        0 <= t < chain.len() ==> {
            &&& 0 <= #[trigger] pos[t] < stack.len()
            &&& owner[pos[t]] == t
            &&& stack[pos[t]] == Status::WaitForExit(chain[t])
        }
    &&& forall|i: int| 0 <= i < stack.len() && (#[trigger] stack[i] is WaitForExit) ==> owner[i] >= 0 && pos[owner[i]] == i
    &&& forall|i: int, i2: int| 0 <= i < i2 < stack.len() ==> #[trigger] owner[i] <= #[trigger] owner[i2]
}

proof fn lemma_cycle_at(stack: Seq<Status>, chain: Seq<usize>, pos: Seq<int>, owner: Seq<int>, id: usize, k: int)
    requires
        stack_marks(stack, chain, pos, owner),
        chain.no_duplicates(),
        0 <= k < chain.len(),
        chain[k] == id,
    ensures
        0 <= pos[k] < stack.len(),
        stack[pos[k]] == Status::WaitForExit(id),
        forall|q: int| 0 <= q < stack.len() && stack[q] == Status::WaitForExit(id) ==> q == pos[k],
{
    assert forall|q: int| 0 <= q < stack.len() && stack[q] == Status::WaitForExit(id) implies q == pos[k] by {
        assert(stack[q] is WaitForExit);
        let t = owner[q];
        assert(pos[t] == q);
        assert(stack[pos[t]] == Status::WaitForExit(chain[t]));
        assert(chain[t] == chain[k]);
    }
}

proof fn lemma_no_cycle_at(stack: Seq<Status>, chain: Seq<usize>, pos: Seq<int>, owner: Seq<int>, id: usize)
    requires
        stack_marks(stack, chain, pos, owner),
        !chain.contains(id),
    ensures
        forall|q: int| 0 <= q < stack.len() ==> stack[q] != Status::WaitForExit(id),
{
    assert forall|q: int| 0 <= q < stack.len() implies stack[q] != Status::WaitForExit(id) by {
        if stack[q] == Status::WaitForExit(id) {
            assert(stack[q] is WaitForExit);
            let t = owner[q];
            assert(pos[t] == q);
            assert(stack[pos[t]] == Status::WaitForExit(chain[t]));
            assert(chain[t] == id);
        }
    }
}

proof fn lemma_add_cycle_found(cycles: Seq<Seq<ModuleIdx>>, stack: Seq<Status>, id: ModuleIdx, p: int)
    requires
        0 <= p < stack.len(),
        stack[p] == Status::WaitForExit(id),
        forall|q: int| 0 <= q < stack.len() && stack[q] == Status::WaitForExit(id) ==> q == p,
    ensures
        add_cycle(cycles, stack, id) == ({
            let c = wait_ids(stack.subrange(p, stack.len() as int)).push(id);
            if cycles.contains(c) {
                cycles
            } else {
                cycles.push(c)
            }
        }),
{
    reveal(add_cycle);
    let q = choose|q: int| 0 <= q < stack.len() && stack[q] == Status::WaitForExit(id);
    assert(q == p);
}

proof fn lemma_add_cycle_none(cycles: Seq<Seq<ModuleIdx>>, stack: Seq<Status>, id: ModuleIdx)
    requires
        forall|q: int| 0 <= q < stack.len() ==> stack[q] != Status::WaitForExit(id),
    ensures
        add_cycle(cycles, stack, id) == cycles,
{
    reveal(add_cycle);
}

/// The modules of the exit entries from position `index` up the stack: the chain of
/// modules being visited from `chain[k]` on.
fn waiting_from(
    stack: &Vec<Status>,
    index: usize,
    Ghost(chain): Ghost<Seq<usize>>,
    Ghost(pos): Ghost<Seq<int>>,
    Ghost(owner): Ghost<Seq<int>>,
    Ghost(k): Ghost<int>,
) -> (cycle: Vec<ModuleIdx>)
    requires
        stack_marks(stack@, chain, pos, owner),
        0 <= k < chain.len(),
        index == pos[k],
    ensures
        cycle@ == chain.subrange(k, chain.len() as int),
        cycle@ == wait_ids(stack@.subrange(index as int, stack@.len() as int)),
{
    let mut cycle: Vec<ModuleIdx> = Vec::new();
    let mut j: usize = index;
    let ghost mut kk: int = 0;
    proof {
        reveal(wait_ids);
        assert(stack@.subrange(index as int, index as int) =~= Seq::<Status>::empty());
    }
    while j < stack.len()
        invariant
            stack_marks(stack@, chain, pos, owner),
            0 <= k < chain.len(),
            pos.len() == chain.len(),
            index == pos[k],
            index <= j <= stack@.len(),
            0 <= kk <= chain.len() - k,
            cycle@ =~= chain.subrange(k, k + kk),
            cycle@ == wait_ids(stack@.subrange(index as int, j as int)),
            owner.len() == stack@.len(),
            forall|t: int| k <= t < k + kk ==> #[trigger] pos[t] < j,
            k + kk < chain.len() ==> j <= pos[k + kk],
            kk == 0 ==> j == index,
        decreases stack.len() - j,
    {
        let ghost sub = stack@.subrange(index as int, j + 1);
        proof {
            reveal(wait_ids);
            assert(sub.drop_last() =~= stack@.subrange(index as int, j as int));
            assert(sub.last() == stack@[j as int]);
        }
        match stack[j] {
            Status::WaitForExit(w) => {
                proof {
                    assert(stack@[j as int] is WaitForExit);
                    let t = owner[j as int];
                    assert(pos[t] == j);
                    // `t` is the next chain position
                    if t < k + kk {
                        assert(pos[t] < j);
                    }
                    if t > k + kk {
                        assert(k + kk < chain.len());
                        assert(owner[pos[k + kk]] == k + kk);
                        assert(owner[pos[k + kk]] <= owner[j as int]);
                        assert(pos[k + kk] >= j);
                        if pos[k + kk] > j {
                            assert(owner[j as int] <= owner[pos[k + kk]]);
                        }
                    }
                    assert(t == k + kk);
                    assert(w == chain[t]);
                }
                cycle.push(w);
                proof {
                    kk = kk + 1;
                    if k + kk < chain.len() {
                        assert(pos[k + kk - 1] < pos[k + kk]) by {
                            if pos[k + kk] <= pos[k + kk - 1] {
                                if pos[k + kk] < pos[k + kk - 1] {
                                    assert(owner[pos[k + kk]] <= owner[pos[k + kk - 1]]);
                                }
                            }
                        }
                    }
                }
            },
            Status::ToBeExecuted(_) => {
                proof {
                    if k + kk < chain.len() {
                        assert(pos[k + kk] != j as int);
                    }
                }
            },
        }
        j += 1;
    }
    proof {
        if k + kk < chain.len() {
            assert(pos[k + kk] < stack@.len());
        }
        assert(kk == chain.len() - k);
    }
    cycle
}

/// Closes a cycle when module `id`, met again, is still being visited (see [`add_cycle`]).
fn close_cycle(
    executing_at: &Vec<Option<usize>>,
    stack: &Vec<Status>,
    cycles: &mut Vec<Vec<ModuleIdx>>,
    id: ModuleIdx,
    Ghost(ms): Ghost<Seq<Module>>,
    Ghost(chain): Ghost<Seq<usize>>,
    Ghost(pos): Ghost<Seq<int>>,
    Ghost(owner): Ghost<Seq<int>>,
)
    requires
        stack_marks(stack@, chain, pos, owner),
        chain.no_duplicates(),
        id < executing_at.len(),
        forall|k: int| 0 <= k < chain.len() ==> executing_at@[#[trigger] chain[k] as int] == Some(pos[k] as usize),
        forall|x: int| 0 <= x < executing_at.len() && !chain.contains(x as usize) ==> #[trigger] executing_at@[x] is None,
        forall|k: int| 0 <= k < chain.len() - 1 ==> #[trigger] static_edge(ms, chain[k] as int, chain[k + 1] as int),
        chain.len() > 0 ==> static_edge(ms, chain[chain.len() - 1] as int, id as int),
        forall|c: int| 0 <= c < old(cycles).len() ==> is_import_cycle(ms, #[trigger] old(cycles)@[c]@),
    ensures
        cycles_view(final(cycles)@) == add_cycle(cycles_view(old(cycles)@), stack@, id),
        forall|c: int| 0 <= c < final(cycles).len() ==> is_import_cycle(ms, #[trigger] final(cycles)@[c]@),
{
    match executing_at[id] {
        Some(index) => {
            proof {
                assert(executing_at@[id as int] == Some(index));
                assert(chain.contains(id));
            }
            let ghost k = choose|k: int| 0 <= k < chain.len() && chain[k] == id;
            proof {
                assert(executing_at@[chain[k] as int] == Some(pos[k] as usize));
                assert(0 <= pos[k] < stack@.len());
                assert(stack@.len() == stack.len());
                assert(index as int == pos[k]);
            }
            let mut cycle = waiting_from(&stack, index, Ghost(chain), Ghost(pos), Ghost(owner), Ghost(k));
            let ghost found = cycle@;
            cycle.push(id);
            proof {
                let c = cycle@;
                assert(c.len() >= 2);
                assert forall|i: int| 0 <= i < c.len() - 1 implies #[trigger] static_edge(
                    ms,
                    c[i] as int,
                    c[i + 1] as int,
                ) by {
                    if i < c.len() - 2 {
                        assert(c[i] == chain[k + i] && c[i + 1] == chain[k + i + 1]);
                    } else {
                        assert(c[i] == chain[chain.len() - 1]);
                    }
                }
                assert(is_import_cycle(ms, c));
            }
            let ghost cv0 = cycles_view(cycles@);
            let ghost cyc = cycle@;
            proof {
                lemma_cycle_at(stack@, chain, pos, owner, id, k);
                lemma_add_cycle_found(cv0, stack@, id, pos[k]);
                assert(cyc == found.push(id));
            }
            if !contains_path(&cycles, &cycle) {
                cycles.push(cycle);
                proof {
                    assert(cycles_view(cycles@) =~= cv0.push(cyc));
                    assert(!cv0.contains(cyc)) by {
                        if cv0.contains(cyc) {
                            let t = choose|t: int| 0 <= t < cv0.len() && cv0[t] == cyc;
                            assert(cycles@[t]@ == cyc);
                        }
                    }
                }
            } else {
                proof {
                    let t = choose|t: int| 0 <= t < cycles.len() && #[trigger] cycles@[t]@ == cyc;
                    assert(cv0[t] == cyc);
                }
            }
        },
        None => {
            proof {
                assert(!chain.contains(id)) by {
                    if chain.contains(id) {
                        let t = choose|t: int| 0 <= t < chain.len() && chain[t] == id;
                        assert(executing_at@[chain[t] as int] == Some(pos[t] as usize));
                    }
                }
                lemma_no_cycle_at(stack@, chain, pos, owner, id);
                lemma_add_cycle_none(cycles_view(cycles@), stack@, id);
            }
        },
    }
}

/// Walks the import graph depth first from the runtime module and then from each
/// entry in turn, and numbers each reached module when all its static imports have
/// been numbered (or are on the current walk, which closes a cycle).
///
/// The result numbers exactly the reached modules, densely from zero, lists the
/// non-external ones in that order, and numbers a static import of a module before
/// the module itself unless the import leads back to it. The numbers and the list are
/// exactly those of the walk ([`walk_run`] from [`walk_start`]), which visits each
/// module's static imports in record order.
#[verifier::rlimit(100)]
#[verifier::spinoff_prover]
pub fn sort_modules(modules: &Vec<Module>, entries: &Vec<ModuleIdx>, runtime: ModuleIdx) -> (r:
    SortedModules)
    requires
        sort_input_ok(modules@, entries@, runtime),
    ensures
        r.exec_orders.len() == modules.len(),
        // exactly the reachable modules are evaluated
        forall|x: int|
            0 <= x < modules.len() ==> (#[trigger] r.exec_orders[x] != u32::MAX
                <==> reachable_from_roots(modules@, entries@, runtime, x)),
        // distinct numbers, taken densely from zero
        forall|x: int, y: int|
            0 <= x < modules.len() && 0 <= y < modules.len() && x != y && r.exec_orders[x]
                != u32::MAX ==> #[trigger] r.exec_orders[x] != #[trigger] r.exec_orders[y],
        forall|x: int, v: int|
            #![trigger r.exec_orders[x], order_taken(r.exec_orders@, v)]
            0 <= x < modules.len() && r.exec_orders[x] != u32::MAX && 0 <= v < r.exec_orders[x]
                ==> order_taken(r.exec_orders@, v),
        // the sorted list: the evaluated non-external modules, in evaluation order
        forall|i: int|
            0 <= i < r.sorted_modules.len() ==> {
                &&& #[trigger] r.sorted_modules[i] < modules.len()
                &&& !modules[r.sorted_modules[i] as int].is_external
                &&& r.exec_orders[r.sorted_modules[i] as int] != u32::MAX
            },
        forall|i: int, j: int|
            0 <= i < j < r.sorted_modules.len() ==> r.exec_orders[#[trigger] r.sorted_modules[i] as int]
                < r.exec_orders[#[trigger] r.sorted_modules[j] as int],
        forall|x: int|
            0 <= x < modules.len() && !modules[x].is_external && #[trigger] r.exec_orders[x]
                != u32::MAX ==> r.sorted_modules@.contains(x as usize),
        // an import runs first unless it leads back to its importer
        forall|m: int, d: int|
            0 <= m < modules.len() && r.exec_orders[m] != u32::MAX && #[trigger] static_edge(
                modules@,
                m,
                d,
            ) ==> r.exec_orders[d] < r.exec_orders[m] || static_reaches(modules@, d, m),
        // every reported cycle is a real one
        forall|c: int| 0 <= c < r.cycles.len() ==> is_import_cycle(modules@, #[trigger] r.cycles[c]@),
        // the orders and the evaluated modules are those the walk ends with
        exists|k: nat|
            {
                let w = #[trigger] walk_run(modules@, walk_start(modules@, entries@, runtime), k);
                &&& w.0.len() == 0
                &&& r.exec_orders@ == w.2
                &&& r.sorted_modules@ == w.3
                &&& cycles_view(r.cycles@) == w.5
            },
        // the runtime module, which imports nothing, runs first
        no_static_imports(modules@, runtime) ==> r.exec_orders[runtime as int] == 0 && (!modules[runtime as int].is_external
            ==> r.sorted_modules.len() > 0 && r.sorted_modules[0] == runtime),
{
    let n = modules.len();
    let ghost ms = modules@;
    let ghost es = entries@;
    let mut stack: Vec<Status> = Vec::new();
    let ghost mut owner: Seq<int> = Seq::empty();
    // entries in reverse, so that the first entry is visited first; the runtime module on top
    let mut e = entries.len();
    while e > 0
        invariant
            e <= entries.len(),
            stack@.len() == entries.len() - e,
            owner.len() == stack@.len(),
            forall|i: int| 0 <= i < stack@.len() ==> owner[i] == -1,
            forall|i: int|
                0 <= i < stack@.len() ==> #[trigger] stack@[i] == Status::ToBeExecuted(
                    entries@[entries.len() - 1 - i],
                ),
        decreases e,
    {
        e -= 1;
        stack.push(Status::ToBeExecuted(entries[e]));
        proof {
            owner = owner.push(-1);
        }
    }
    stack.push(Status::ToBeExecuted(runtime));
    proof {
        owner = owner.push(-1);
        assert forall|rt: usize| #[trigger] is_root(es, runtime, rt) implies exists|i: int|
            0 <= i < stack@.len() && owner[i] == -1 && #[trigger] stack@[i] == Status::ToBeExecuted(
                rt,
            ) by {
            if rt == runtime {
                assert(stack@[stack@.len() - 1] == Status::ToBeExecuted(rt));
            } else {
                let k = choose|k: int| 0 <= k < es.len() && es[k] == rt;
                assert(stack@[es.len() - 1 - k] == Status::ToBeExecuted(es[k]));
            }
        }
    }
    let mut executed: Vec<bool> = vec_of(false, n);
    let mut executing_at: Vec<Option<usize>> = vec_of(None, n);
    let mut exec_orders: Vec<u32> = vec_of(u32::MAX, n);
    let mut next_exec_order: u32 = 0;
    let mut sorted_modules: Vec<ModuleIdx> = Vec::new();
    let mut cycles: Vec<Vec<ModuleIdx>> = Vec::new();
    let ghost mut chain: Seq<usize> = Seq::empty();
    let ghost mut pos: Seq<int> = Seq::empty();
    let ghost mut finished: Seq<usize> = Seq::empty();
    let ghost lone = no_static_imports(ms, runtime);
    let ghost start = walk_start(ms, es, runtime);
    let ghost mut steps: nat = 0;
    proof {
        assert(stack@ =~= start.0);
        assert(executed@ =~= start.1);
        assert(exec_orders@ =~= start.2);
        assert(sorted_modules@ =~= start.3);
        assert(cycles_view(cycles@) =~= start.5);
        lemma_walk_begin(ms, start);
    }
    proof {
        lemma_count_true_all_false(executed@);
        assert forall|i: int| 0 <= i < stack@.len() implies reachable_from_roots(
            ms,
            es,
            runtime,
            sid(#[trigger] stack@[i]) as int,
        ) by {
            let x = sid(stack@[i]);
            if i == stack@.len() - 1 {
                assert(x == runtime);
            } else {
                assert(stack@[i] == Status::ToBeExecuted(es[es.len() - 1 - i]));
                assert(es.contains(x));
            }
            assert(is_root(es, runtime, x));
            lemma_path_single(ms, x);
        }
    }
    while stack.len() > 0
        invariant
            n == modules.len(),
            ms == modules@,
            es == entries@,
            sort_input_ok(ms, es, runtime),
            executed.len() == n,
            executing_at.len() == n,
            exec_orders.len() == n,
            owner.len() == stack@.len(),
            pos.len() == chain.len(),
            forall|i: int| 0 <= i < stack@.len() ==> sid(#[trigger] stack@[i]) < n,
            forall|i: int| 0 <= i < stack@.len() ==> -1 <= #[trigger] owner[i] < chain.len(),
            forall|i: int, j: int| 0 <= i < j < stack@.len() ==> #[trigger] owner[i] <= #[trigger] owner[j],
            forall|k: int|
                0 <= k < chain.len() ==> {
                    &&& 0 <= #[trigger] pos[k] < stack@.len()
                    &&& owner[pos[k]] == k
                    &&& stack@[pos[k]] == Status::WaitForExit(chain[k])
                },
            forall|i: int| 0 <= i < stack@.len() && owner[i] >= 0 ==> pos[#[trigger] owner[i]] <= i,
            forall|i: int|
                0 <= i < stack@.len() && (#[trigger] stack@[i] is WaitForExit) ==> owner[i] >= 0
                    && pos[owner[i]] == i,
            forall|i: int|
                0 <= i < stack@.len() && (#[trigger] stack@[i] is ToBeExecuted) && owner[i] == -1
                    ==> is_root(es, runtime, sid(stack@[i])),
            forall|i: int|
                0 <= i < stack@.len() && (#[trigger] stack@[i] is ToBeExecuted) && owner[i] >= 0
                    ==> static_edge(ms, chain[owner[i]] as int, sid(stack@[i]) as int),
            forall|k: int|
                0 <= k < chain.len() - 1 ==> #[trigger] static_edge(
                    ms,
                    chain[k] as int,
                    chain[k + 1] as int,
                ),
            chain.no_duplicates(),
            finished.no_duplicates(),
            forall|k: int| 0 <= k < chain.len() ==> #[trigger] chain[k] < n,
            forall|k: int| 0 <= k < finished.len() ==> #[trigger] finished[k] < n,
            forall|x: usize| #[trigger] chain.contains(x) ==> !finished.contains(x),
            forall|x: int|
                0 <= x < n ==> (#[trigger] executed@[x] <==> (chain.contains(x as usize)
                    || finished.contains(x as usize))),
            forall|k: int| 0 <= k < chain.len() ==> executing_at@[#[trigger] chain[k] as int] == Some(pos[k] as usize),
            forall|x: int| 0 <= x < n && !chain.contains(x as usize) ==> #[trigger] executing_at@[x] is None,
            forall|x: int| 0 <= x < n && #[trigger] executed@[x] ==> reachable_from_roots(ms, es, runtime, x),
            forall|i: int|
                0 <= i < stack@.len() ==> reachable_from_roots(
                    ms,
                    es,
                    runtime,
                    sid(#[trigger] stack@[i]) as int,
                ),
            next_exec_order as int == finished.len(),
            chain.len() + finished.len() == count_true(executed@),
            forall|j: int| 0 <= j < finished.len() ==> exec_orders@[#[trigger] finished[j] as int] == j,
            forall|x: int|
                0 <= x < n && !finished.contains(x as usize) ==> #[trigger] exec_orders@[x] == u32::MAX,
            forall|j: int, d: int|
                0 <= j < finished.len() && #[trigger] static_edge(ms, finished[j] as int, d) ==> executed@[d]
                    && (exec_orders@[d] < j || static_reaches(ms, d, finished[j] as int)),
            forall|k: int, d: int|
                0 <= k < chain.len() && #[trigger] static_edge(ms, chain[k] as int, d) ==> executed@[d]
                    || exists|i: int|
                    0 <= i < stack@.len() && owner[i] == k && #[trigger] stack@[i] == Status::ToBeExecuted(
                        d as usize,
                    ),
            forall|rt: usize|
                #[trigger] is_root(es, runtime, rt) ==> executed@[rt as int] || exists|i: int|
                    0 <= i < stack@.len() && owner[i] == -1 && #[trigger] stack@[i] == Status::ToBeExecuted(
                        rt,
                    ),
            forall|i: int|
                0 <= i < sorted_modules.len() ==> {
                    &&& #[trigger] sorted_modules@[i] < n
                    &&& !ms[sorted_modules@[i] as int].is_external
                    &&& finished.contains(sorted_modules@[i])
                },
            forall|i: int, j: int|
                0 <= i < j < sorted_modules.len() ==> exec_orders@[#[trigger] sorted_modules@[i] as int]
                    < exec_orders@[#[trigger] sorted_modules@[j] as int],
            forall|j: int|
                0 <= j < finished.len() && !ms[#[trigger] finished[j] as int].is_external
                    ==> sorted_modules@.contains(finished[j]),
            forall|c: int| 0 <= c < cycles.len() ==> is_import_cycle(ms, #[trigger] cycles@[c]@),
            lone == no_static_imports(ms, runtime),
            runtime_first_state(lone, runtime, stack@, chain, finished),
            start == walk_start(ms, es, runtime),
            walk_run(ms, start, steps) == (stack@, executed@, exec_orders@, sorted_modules@, next_exec_order as int, cycles_view(cycles@)),
        decreases n - count_true(executed@), stack@.len(),
    {
        proof {
            lemma_count_true_le_len(executed@);
        }
        let ghost old_stack = stack@;
        let ghost prev_state = (stack@, executed@, exec_orders@, sorted_modules@, next_exec_order as int, cycles_view(cycles@));
        let ghost top = stack@.len() - 1;
        let ghost o = owner[top];
        proof {
            // the top entry belongs to the innermost module of the chain
            if chain.len() > 0 {
                let last = chain.len() - 1;
                assert(owner[pos[last]] == last);
                if pos[last] < top {
                    assert(owner[pos[last]] <= owner[top]);
                }
                assert(o == last);
            } else {
                assert(o == -1);
            }
        }
        let status = stack.pop().unwrap();
        proof {
            owner = owner.drop_last();
            assert(stack@ =~= old_stack.drop_last());
        }
        match status {
            Status::ToBeExecuted(id) => {
                proof {
                    assert(old_stack[top] == Status::ToBeExecuted(id));
                    if lone && finished.len() == 0 {
                        assert(old_stack.last() == old_stack[top]);
                        assert(chain.len() == 0 && id == runtime);
                        assert(!chain.contains(runtime) && !finished.contains(runtime));
                    }
                }
                if executed[id] {
                    proof {
                        assert(old_stack.last() == old_stack[top]);
                        lemma_step_skip(ms, prev_state, id);
                    }
                    // already visited: report a cycle when it is still being visited
                    proof {
                        assert(stack_marks(stack@, chain, pos, owner));
                        if chain.len() > 0 {
                            assert(old_stack[top] is ToBeExecuted);
                            assert(static_edge(ms, chain[o] as int, id as int));
                        }
                    }
                    close_cycle(&executing_at, &stack, &mut cycles, id, Ghost(ms), Ghost(chain), Ghost(pos), Ghost(owner));
                    proof {
                        assert forall|rt: usize| #[trigger] is_root(es, runtime, rt) implies executed@[rt as int]
                            || exists|i: int|
                            0 <= i < stack@.len() && owner[i] == -1 && #[trigger] stack@[i] == Status::ToBeExecuted(rt) by {
                            if !executed@[rt as int] {
                                let i = choose|i: int|
                                    0 <= i < old_stack.len() && owner.push(o)[i] == -1 && #[trigger] old_stack[i]
                                        == Status::ToBeExecuted(rt);
                                assert(i != top);
                                assert(stack@[i] == old_stack[i]);
                            }
                        }
                        assert forall|k: int, d: int|
                            0 <= k < chain.len() && #[trigger] static_edge(ms, chain[k] as int, d) implies executed@[d]
                                || exists|i: int|
                                0 <= i < stack@.len() && owner[i] == k && #[trigger] stack@[i] == Status::ToBeExecuted(
                                    d as usize,
                                ) by {
                            if !executed@[d] {
                                let i = choose|i: int|
                                    0 <= i < old_stack.len() && owner.push(o)[i] == k && #[trigger] old_stack[i]
                                        == Status::ToBeExecuted(d as usize);
                                assert(i != top);
                                assert(stack@[i] == old_stack[i]);
                            }
                        }
                    }
                } else {
                    proof {
                        assert(old_stack.last() == old_stack[top]);
                        lemma_step_visit(ms, prev_state, id);
                    }
                    let ghost old_exec = executed@;
                    executed.set(id, true);
                    proof {
                        lemma_count_true_set(old_exec, id as int);
                        assert(executed@ == old_exec.update(id as int, true));
                        assert(count_true(executed@) == count_true(old_exec) + 1);
                        lemma_count_true_le_len(executed@);
                        assert(!chain.contains(id));
                    }
                    stack.push(Status::WaitForExit(id));
                    let ghost new_k = chain.len();
                    proof {
                        if o >= 0 {
                            assert(old_stack[top] is ToBeExecuted);
                            assert(static_edge(ms, chain[o] as int, id as int));
                        }
                        owner = owner.push(new_k as int);
                        pos = pos.push(stack@.len() - 1);
                        let old_chain = chain;
                        chain = chain.push(id);
                        assert(chain.drop_last() =~= old_chain);
                    }
                    let ghost old_ea = executing_at@;
                    executing_at.set(id, Some(stack.len() - 1));
                    proof {
                        assert forall|k: int, d: int|
                            0 <= k < new_k && #[trigger] static_edge(ms, chain[k] as int, d) implies executed@[d]
                                || exists|i: int|
                                0 <= i < stack@.len() && owner[i] == k && #[trigger] stack@[i]
                                    == Status::ToBeExecuted(d as usize) by {
                            assert(chain[k] == chain.drop_last()[k]);
                            if !executed@[d] {
                                assert(!old_exec[d]);
                                let i = choose|i: int|
                                    0 <= i < old_stack.len() && owner.drop_last().push(o)[i] == k && #[trigger] old_stack[i]
                                        == Status::ToBeExecuted(d as usize);
                                assert(i != top);
                                assert(stack@[i] == old_stack[i]);
                            }
                        }
                        assert forall|rt: usize| #[trigger] is_root(es, runtime, rt) implies executed@[rt as int]
                            || exists|i: int|
                            0 <= i < stack@.len() && owner[i] == -1 && #[trigger] stack@[i] == Status::ToBeExecuted(rt) by {
                            if !executed@[rt as int] {
                                assert(!old_exec[rt as int]);
                                let i = choose|i: int|
                                    0 <= i < old_stack.len() && owner.drop_last().push(o)[i] == -1 && #[trigger] old_stack[i]
                                        == Status::ToBeExecuted(rt);
                                assert(i != top);
                                assert(stack@[i] == old_stack[i]);
                            }
                        }
                    }
                    let m = &modules[id];
                    let mut j = m.import_records.len();
                    proof {
                        lemma_record_pushes_end(*m);
                        assert(stack@ =~= old_stack.drop_last().push(Status::WaitForExit(id)) + record_pushes(*m, j as int));
                    }
                    #[verifier::loop_isolation(false)]
                    while j > 0
                        invariant
                            n == modules.len(),
                            ms == modules@,
                            es == entries@,
                            sort_input_ok(ms, es, runtime),
                            id < n,
                            *m == ms[id as int],
                            j <= m.import_records.len(),
                            chain.len() == new_k + 1,
                            chain.last() == id,
                            lone == no_static_imports(ms, runtime),
                            lone && id == runtime ==> stack@.len() == pos[new_k as int] + 1,
                            stack@ == old_stack.drop_last().push(Status::WaitForExit(id)) + record_pushes(*m, j as int),
                            pos.len() == chain.len(),
                            owner.len() == stack@.len(),
                            pos[new_k as int] < stack@.len(),
                            stack@[pos[new_k as int]] == Status::WaitForExit(id),
                            owner[pos[new_k as int]] == new_k,
                            reachable_from_roots(ms, es, runtime, id as int),
                            forall|k: int|
                                0 <= k < chain.len() ==> {
                                    &&& 0 <= #[trigger] pos[k] < stack@.len()
                                    &&& owner[pos[k]] == k
                                    &&& stack@[pos[k]] == Status::WaitForExit(chain[k])
                                },
                            forall|i: int| 0 <= i < stack@.len() ==> sid(#[trigger] stack@[i]) < n,
                            forall|i: int| 0 <= i < stack@.len() ==> -1 <= #[trigger] owner[i] < chain.len(),
                            forall|i: int, i2: int|
                                0 <= i < i2 < stack@.len() ==> #[trigger] owner[i] <= #[trigger] owner[i2],
                            forall|i: int| 0 <= i < stack@.len() && owner[i] >= 0 ==> pos[#[trigger] owner[i]] <= i,
                            forall|i: int|
                                0 <= i < stack@.len() && (#[trigger] stack@[i] is WaitForExit) ==> owner[i] >= 0
                                    && pos[owner[i]] == i,
                            forall|i: int|
                                0 <= i < stack@.len() && (#[trigger] stack@[i] is ToBeExecuted) && owner[i] == -1
                                    ==> is_root(es, runtime, sid(stack@[i])),
                            forall|i: int|
                                0 <= i < stack@.len() && (#[trigger] stack@[i] is ToBeExecuted) && owner[i] >= 0
                                    ==> static_edge(ms, chain[owner[i]] as int, sid(stack@[i]) as int),
                            forall|i: int|
                                0 <= i < stack@.len() ==> reachable_from_roots(
                                    ms,
                                    es,
                                    runtime,
                                    sid(#[trigger] stack@[i]) as int,
                                ),
                            forall|k: int, d: int|
                                0 <= k < new_k && #[trigger] static_edge(ms, chain[k] as int, d) ==> executed@[d]
                                    || exists|i: int|
                                    0 <= i < stack@.len() && owner[i] == k && #[trigger] stack@[i]
                                        == Status::ToBeExecuted(d as usize),
                            forall|jj: int, d: int|
                                j <= jj < m.import_records.len() && #[trigger] static_edge_at(*m, jj, d) ==> exists|i: int|
                                    0 <= i < stack@.len() && owner[i] == new_k && #[trigger] stack@[i]
                                        == Status::ToBeExecuted(d as usize),
                            forall|rt: usize|
                                #[trigger] is_root(es, runtime, rt) ==> executed@[rt as int] || exists|i: int|
                                    0 <= i < stack@.len() && owner[i] == -1 && #[trigger] stack@[i]
                                        == Status::ToBeExecuted(rt),
                        decreases j,
                    {
                        j -= 1;
                        let rec = &m.import_records[j];
                        if rec.kind.is_static() && !rec.is_dummy {
                            let ghost before = stack@;
                            stack.push(Status::ToBeExecuted(rec.resolved_module));
                            proof {
                                lemma_record_pushes_step(*m, j as int);
                                assert(stack@ =~= old_stack.drop_last().push(Status::WaitForExit(id)) + record_pushes(*m, j as int));
                                owner = owner.push(new_k as int);
                                let last = stack@.len() - 1;
                                assert(static_edge_at(*m, j as int, rec.resolved_module as int));
                                assert(static_edge(ms, id as int, rec.resolved_module as int));
                                lemma_root_reach_step(ms, es, runtime, id as int, rec.resolved_module as int);
                                assert forall|i: int| 0 <= i < stack@.len() implies reachable_from_roots(
                                    ms,
                                    es,
                                    runtime,
                                    sid(#[trigger] stack@[i]) as int,
                                ) by {
                                    if i < last {
                                        assert(stack@[i] == before[i]);
                                    }
                                }
                                assert forall|jj: int, d: int|
                                    j <= jj < m.import_records.len() && #[trigger] static_edge_at(*m, jj, d) implies exists|i: int|
                                    0 <= i < stack@.len() && owner[i] == new_k && #[trigger] stack@[i]
                                        == Status::ToBeExecuted(d as usize) by {
                                    if jj == j {
                                        assert(stack@[last] == Status::ToBeExecuted(d as usize));
                                    } else {
                                        let i = choose|i: int|
                                            0 <= i < before.len() && owner[i] == new_k && #[trigger] before[i]
                                                == Status::ToBeExecuted(d as usize);
                                        assert(stack@[i] == before[i]);
                                    }
                                }
                                assert forall|k: int, d: int|
                                    0 <= k < new_k && #[trigger] static_edge(ms, chain[k] as int, d) implies executed@[d]
                                    || exists|i: int|
                                    0 <= i < stack@.len() && owner[i] == k && #[trigger] stack@[i]
                                        == Status::ToBeExecuted(d as usize) by {
                                    if !executed@[d] {
                                        let i = choose|i: int|
                                            0 <= i < before.len() && owner[i] == k && #[trigger] before[i]
                                                == Status::ToBeExecuted(d as usize);
                                        assert(stack@[i] == before[i]);
                                    }
                                }
                                assert forall|rt: usize| #[trigger] is_root(es, runtime, rt) implies executed@[rt as int]
                                    || exists|i: int|
                                    0 <= i < stack@.len() && owner[i] == -1 && #[trigger] stack@[i]
                                        == Status::ToBeExecuted(rt) by {
                                    if !executed@[rt as int] {
                                        let i = choose|i: int|
                                            0 <= i < before.len() && owner[i] == -1 && #[trigger] before[i]
                                                == Status::ToBeExecuted(rt);
                                        assert(stack@[i] == before[i]);
                                    }
                                }
                            }
                        } else {
                            proof {
                                assert forall|d: int| !#[trigger] static_edge_at(*m, j as int, d) by {}
                                lemma_record_pushes_step(*m, j as int);
                            }
                        }
                    }
                    proof {
                        assert forall|k: int, d: int|
                            0 <= k < chain.len() && #[trigger] static_edge(ms, chain[k] as int, d) implies executed@[d]
                            || exists|i: int|
                            0 <= i < stack@.len() && owner[i] == k && #[trigger] stack@[i] == Status::ToBeExecuted(
                                d as usize,
                            ) by {
                            if k == new_k {
                                let jj = choose|jj: int| #[trigger] static_edge_at(ms[id as int], jj, d);
                                assert(static_edge_at(*m, jj, d));
                            }
                        }
                        assert forall|x: int| 0 <= x < n && #[trigger] executed@[x] implies reachable_from_roots(
                            ms,
                            es,
                            runtime,
                            x,
                        ) by {
                            if x != id {
                                assert(old_exec[x]);
                            }
                        }
                        assert(chain.no_duplicates()) by {
                            assert forall|a: int, b: int| 0 <= a < b < chain.len() implies chain[a] != chain[b] by {
                                if b == chain.len() - 1 {
                                    assert(chain.drop_last()[a] == chain[a]);
                                    assert(chain.drop_last().contains(chain[a]));
                                } else {
                                    assert(chain.drop_last()[a] == chain[a]);
                                    assert(chain.drop_last()[b] == chain[b]);
                                }
                            }
                        }
                        assert forall|x: usize| #[trigger] chain.contains(x) implies !finished.contains(x) by {
                            if x != id {
                                let t = choose|t: int| 0 <= t < chain.len() && chain[t] == x;
                                assert(t != chain.len() - 1);
                                assert(chain.drop_last()[t] == x);
                                assert(chain.drop_last().contains(x));
                            }
                        }
                        assert forall|x: int|
                            0 <= x < n implies (#[trigger] executed@[x] <==> (chain.contains(x as usize)
                                || finished.contains(x as usize))) by {
                            if x != id {
                                assert(executed@[x] == old_exec[x]);
                                if chain.contains(x as usize) {
                                    let t = choose|t: int| 0 <= t < chain.len() && chain[t] == x as usize;
                                    assert(t != chain.len() - 1);
                                    assert(chain.drop_last()[t] == x as usize);
                                    assert(chain.drop_last().contains(x as usize));
                                }
                                if chain.drop_last().contains(x as usize) {
                                    let t = choose|t: int| 0 <= t < chain.drop_last().len() && chain.drop_last()[t] == x as usize;
                                    assert(chain[t] == x as usize);
                                }
                            } else {
                                assert(chain[chain.len() - 1] == id);
                            }
                        }
                        assert forall|x: int| 0 <= x < n && !chain.contains(x as usize) implies #[trigger] executing_at@[x] is None by {
                            if x != id {
                                assert(executing_at@[x] == old_ea[x]);
                                if chain.drop_last().contains(x as usize) {
                                    let t = choose|t: int| 0 <= t < chain.drop_last().len() && chain.drop_last()[t] == x as usize;
                                    assert(chain[t] == x as usize);
                                }
                            } else {
                                assert(chain[chain.len() - 1] == id);
                            }
                        }
                        assert forall|j2: int, d: int|
                            0 <= j2 < finished.len() && #[trigger] static_edge(ms, finished[j2] as int, d) implies executed@[d]
                                && (exec_orders@[d] < j2 || static_reaches(ms, d, finished[j2] as int)) by {
                            assert(old_exec[d]);
                        }
                        assert forall|rt: usize| #[trigger] is_root(es, runtime, rt) implies executed@[rt as int]
                            || exists|i: int|
                            0 <= i < stack@.len() && owner[i] == -1 && #[trigger] stack@[i] == Status::ToBeExecuted(rt) by {
                        }
                        if lone && finished.len() == 0 {
                            assert(chain.len() == 1 && chain[0] == runtime);
                            assert(stack@.last() == stack@[pos[new_k as int]]);
                        }
                    }
                }
            },
            Status::WaitForExit(id) => {
                proof {
                    assert(old_stack[top] == Status::WaitForExit(id));
                    assert(old_stack.last() == old_stack[top]);
                    lemma_step_exit(ms, prev_state, id);
                    if lone && finished.len() == 0 {
                        assert(old_stack.last() == old_stack[top]);
                        assert(id == runtime);
                    }
                }
                let ghost last = chain.len() - 1;
                proof {
                    assert(o >= 0 && pos[o] == top);
                    assert(o == last);
                    assert(id == chain[last]);
                    // nothing of `id`'s is left on the stack: all its imports were visited
                    assert forall|d: int| #[trigger] static_edge(ms, id as int, d) implies executed@[d] by {
                        if !executed@[d] {
                            let i = choose|i: int|
                                0 <= i < old_stack.len() && owner.push(o)[i] == last && #[trigger] old_stack[i]
                                    == Status::ToBeExecuted(d as usize);
                            assert(pos[last] <= i);
                        }
                    }
                }
                let ghost old_exec_orders = exec_orders@;
                let ghost old_sorted = sorted_modules@;
                if !modules[id].is_external {
                    sorted_modules.push(id);
                }
                exec_orders.set(id, next_exec_order);
                next_exec_order += 1;
                executing_at.set(id, None);
                proof {
                    let old_chain = chain;
                    let old_finished = finished;
                    chain = chain.drop_last();
                    pos = pos.drop_last();
                    finished = finished.push(id);
                    assert(!old_chain.drop_last().contains(id)) by {
                        if old_chain.drop_last().contains(id) {
                            let t = choose|t: int| 0 <= t < old_chain.drop_last().len() && old_chain.drop_last()[t] == id;
                            assert(old_chain[t] == old_chain[last]);
                        }
                    }
                    assert(!old_finished.contains(id)) by {
                        assert(old_chain.contains(id));
                    }
                    assert forall|j: int| 0 <= j < finished.len() implies exec_orders@[#[trigger] finished[j] as int] == j by {
                        if j < old_finished.len() {
                            assert(finished[j] != id);
                        }
                    }
                    assert forall|x: int| 0 <= x < n && !finished.contains(x as usize) implies #[trigger] exec_orders@[x] == u32::MAX by {
                        assert(old_finished.contains(x as usize) ==> finished.contains(x as usize)) by {
                            if old_finished.contains(x as usize) {
                                let t = choose|t: int| 0 <= t < old_finished.len() && old_finished[t] == x as usize;
                                assert(finished[t] == x as usize);
                            }
                        }
                        assert(finished[finished.len() - 1] == id);
                        assert(x != id);
                    }
                    assert forall|j: int, d: int|
                        0 <= j < finished.len() && #[trigger] static_edge(ms, finished[j] as int, d) implies executed@[d]
                            && (exec_orders@[d] < j || static_reaches(ms, d, finished[j] as int)) by {
                        if j < old_finished.len() {
                            assert(finished[j] == old_finished[j]);
                            if exec_orders@[d] != old_exec_orders[d] {
                                assert(d == id);
                                assert(old_exec_orders[d] == u32::MAX);
                            }
                        } else {
                            assert(finished[j] == id);
                            assert(executed@[d]);
                            if old_finished.contains(d as usize) {
                                let t = choose|t: int| 0 <= t < old_finished.len() && old_finished[t] == d as usize;
                                assert(exec_orders@[d] == t);
                            } else if d as usize == id {
                                lemma_path_single(ms, id);
                            } else {
                                assert(old_chain.contains(d as usize));
                                let t = choose|t: int| 0 <= t < old_chain.len() && old_chain[t] == d as usize;
                                lemma_chain_reaches(ms, old_chain, t);
                            }
                        }
                    }
                    assert forall|x: usize| #[trigger] chain.contains(x) implies !finished.contains(x) by {
                        let t = choose|t: int| 0 <= t < chain.len() && chain[t] == x;
                        assert(old_chain.contains(x));
                        assert(x != id);
                        if finished.contains(x) {
                            let t2 = choose|t2: int| 0 <= t2 < finished.len() && finished[t2] == x;
                            assert(old_finished[t2] == x);
                        }
                    }
                    assert forall|x: int|
                        0 <= x < n implies (#[trigger] executed@[x] <==> (chain.contains(x as usize)
                            || finished.contains(x as usize))) by {
                        if chain.contains(x as usize) {
                            let t = choose|t: int| 0 <= t < chain.len() && chain[t] == x as usize;
                            assert(old_chain[t] == x as usize);
                        }
                        if finished.contains(x as usize) && x as usize != id {
                            let t = choose|t: int| 0 <= t < finished.len() && finished[t] == x as usize;
                            assert(old_finished[t] == x as usize);
                        }
                        if old_chain.contains(x as usize) && x as usize != id {
                            let t = choose|t: int| 0 <= t < old_chain.len() && old_chain[t] == x as usize;
                            assert(chain[t] == x as usize);
                        }
                        if old_finished.contains(x as usize) {
                            let t = choose|t: int| 0 <= t < old_finished.len() && old_finished[t] == x as usize;
                            assert(finished[t] == x as usize);
                        }
                        assert(finished[finished.len() - 1] == id);
                    }
                    assert forall|x: int| 0 <= x < n && !chain.contains(x as usize) implies #[trigger] executing_at@[x] is None by {
                        if x as usize != id && old_chain.contains(x as usize) {
                            let t = choose|t: int| 0 <= t < old_chain.len() && old_chain[t] == x as usize;
                            assert(chain[t] == x as usize);
                        }
                    }
                    assert forall|k: int, d: int|
                        0 <= k < chain.len() && #[trigger] static_edge(ms, chain[k] as int, d) implies executed@[d]
                            || exists|i: int|
                            0 <= i < stack@.len() && owner[i] == k && #[trigger] stack@[i] == Status::ToBeExecuted(
                                d as usize,
                            ) by {
                        assert(old_chain[k] == chain[k]);
                        if !executed@[d] {
                            let i = choose|i: int|
                                0 <= i < old_stack.len() && owner.push(o)[i] == k && #[trigger] old_stack[i]
                                    == Status::ToBeExecuted(d as usize);
                            assert(i != top);
                            assert(stack@[i] == old_stack[i]);
                        }
                    }
                    assert forall|rt: usize| #[trigger] is_root(es, runtime, rt) implies executed@[rt as int]
                        || exists|i: int|
                        0 <= i < stack@.len() && owner[i] == -1 && #[trigger] stack@[i] == Status::ToBeExecuted(rt) by {
                        if !executed@[rt as int] {
                            let i = choose|i: int|
                                0 <= i < old_stack.len() && owner.push(o)[i] == -1 && #[trigger] old_stack[i]
                                    == Status::ToBeExecuted(rt);
                            assert(i != top);
                            assert(stack@[i] == old_stack[i]);
                        }
                    }
                    assert forall|i: int|
                        0 <= i < sorted_modules.len() implies {
                            &&& #[trigger] sorted_modules@[i] < n
                            &&& !ms[sorted_modules@[i] as int].is_external
                            &&& finished.contains(sorted_modules@[i])
                        } by {
                        let x = sorted_modules@[i];
                        if x != id {
                            let t = choose|t: int| 0 <= t < old_finished.len() && old_finished[t] == x;
                            assert(finished[t] == x);
                        } else {
                            assert(finished[finished.len() - 1] == id);
                        }
                    }
                    assert forall|i: int, j: int|
                        0 <= i < j < sorted_modules.len() implies exec_orders@[#[trigger] sorted_modules@[i] as int]
                            < exec_orders@[#[trigger] sorted_modules@[j] as int] by {
                        let x = sorted_modules@[i];
                        let t = choose|t: int| 0 <= t < finished.len() && finished[t] == x;
                        if t == finished.len() - 1 {
                            assert(x == id);
                        }
                        assert(exec_orders@[x as int] == t);
                        let y = sorted_modules@[j];
                        if y != id {
                            let t2 = choose|t2: int| 0 <= t2 < finished.len() && finished[t2] == y;
                            assert(exec_orders@[y as int] == t2);
                            assert(old_exec_orders[x as int] == exec_orders@[x as int]);
                        }
                    }
                    assert forall|j: int|
                        0 <= j < finished.len() && !ms[#[trigger] finished[j] as int].is_external
                            implies sorted_modules@.contains(finished[j]) by {
                        if j < old_finished.len() {
                            assert(finished[j] == old_finished[j]);
                            let t = choose|t: int| 0 <= t < old_sorted.len() && #[trigger] old_sorted[t] == old_finished[j];
                            assert(sorted_modules@[t] == old_sorted[t]);
                        } else {
                            assert(sorted_modules@[sorted_modules.len() - 1] == id);
                        }
                    }
                    if lone {
                        if old_finished.len() == 0 {
                            assert(finished[0] == id);
                        } else {
                            assert(finished[0] == old_finished[0]);
                        }
                    }
                }
            },
        }
        proof {
            lemma_walk_next(ms, start, steps, prev_state, (stack@, executed@, exec_orders@, sorted_modules@, next_exec_order as int, cycles_view(cycles@)));
            steps = steps + 1;
        }
    }
    proof {
        assert(walk_run(ms, start, steps).0.len() == 0);
        // the walk is over: every visited module is finished, and the finished set is closed
        assert(chain.len() == 0) by {
            if chain.len() > 0 {
                assert(pos[0] < stack@.len());
            }
        }
        let s = |x: int| 0 <= x < n && executed@[x];
        assert forall|rt: usize| #[trigger] is_root(es, runtime, rt) implies s(rt as int) by {
            if rt == runtime {
            } else {
                let k = choose|k: int| 0 <= k < es.len() && es[k] == rt;
            }
        }
        assert forall|a: int, b: int| s(a) && #[trigger] static_edge(ms, a, b) implies s(b) by {
            assert(finished.contains(a as usize));
            let t = choose|t: int| 0 <= t < finished.len() && finished[t] == a as usize;
            assert(static_edge(ms, finished[t] as int, b));
            let jr = choose|jr: int| #[trigger] static_edge_at(ms[a], jr, b);
        }
        assert forall|x: int| 0 <= x < n implies (#[trigger] exec_orders@[x] != u32::MAX <==> reachable_from_roots(
            ms,
            es,
            runtime,
            x,
        )) by {
            if reachable_from_roots(ms, es, runtime, x) {
                lemma_closed_holds_reachable(ms, es, runtime, s, x);
                assert(executed@[x]);
                assert(finished.contains(x as usize));
            }
            if exec_orders@[x] != u32::MAX {
                assert(finished.contains(x as usize));
                assert(executed@[x]);
            }
            if finished.contains(x as usize) {
                let t = choose|t: int| 0 <= t < finished.len() && finished[t] == x as usize;
                assert(exec_orders@[x] == t);
            }
        }
        assert forall|x: int, y: int|
            0 <= x < n && 0 <= y < n && x != y && exec_orders@[x] != u32::MAX implies #[trigger] exec_orders@[x]
                != #[trigger] exec_orders@[y] by {
            let t = choose|t: int| 0 <= t < finished.len() && finished[t] == x as usize;
            assert(exec_orders@[x] == t);
            if finished.contains(y as usize) {
                let t2 = choose|t2: int| 0 <= t2 < finished.len() && finished[t2] == y as usize;
                assert(exec_orders@[y] == t2);
            }
        }
        assert forall|x: int, v: int|
            #![trigger exec_orders@[x], order_taken(exec_orders@, v)]
            0 <= x < n && exec_orders@[x] != u32::MAX && 0 <= v < exec_orders@[x] implies order_taken(exec_orders@, v) by {
            let t = choose|t: int| 0 <= t < finished.len() && finished[t] == x as usize;
            assert(exec_orders@[x] == t);
            assert(exec_orders@[finished[v] as int] == v);
        }
        assert forall|i: int| 0 <= i < sorted_modules.len() implies exec_orders@[
            #[trigger] sorted_modules@[i] as int] != u32::MAX by {
            let t = choose|t: int| 0 <= t < finished.len() && finished[t] == sorted_modules@[i];
            assert(exec_orders@[sorted_modules@[i] as int] == t);
        }
        assert forall|x: int|
            0 <= x < n && !ms[x].is_external && #[trigger] exec_orders@[x] != u32::MAX implies sorted_modules@.contains(
            x as usize) by {
            let t = choose|t: int| 0 <= t < finished.len() && finished[t] == x as usize;
        }
        assert forall|m: int, d: int|
            0 <= m < n && exec_orders@[m] != u32::MAX && #[trigger] static_edge(ms, m, d) implies exec_orders@[d]
                < exec_orders@[m] || static_reaches(ms, d, m) by {
            let t = choose|t: int| 0 <= t < finished.len() && finished[t] == m as usize;
            assert(exec_orders@[m] == t);
            assert(static_edge(ms, finished[t] as int, d));
        }
    }
    proof {
        if lone {
            assert(is_root(es, runtime, runtime));
            assert(executed@[runtime as int]);
            assert(finished.contains(runtime));
            assert(exec_orders@[finished[0] as int] == 0);
            if !ms[runtime as int].is_external {
                assert(sorted_modules@.contains(runtime));
                let i = choose|i: int| 0 <= i < sorted_modules.len() && sorted_modules@[i] == runtime;
                if i > 0 {
                    assert(exec_orders@[sorted_modules@[0] as int] < exec_orders@[sorted_modules@[i] as int]);
                }
            }
        }
    }
    SortedModules { sorted_modules, exec_orders, cycles }
}

} // verus!
