use vstd::prelude::*;

use crate::reach::{lemma_closed_holds_reached, lemma_reaches_refl, lemma_reaches_step, reaches};
use crate::types::{EntryPoint, LinkingMetadata, Module, ModuleIdx};
use crate::util::{count_false, lemma_count_false_set, vec_of};

verus! {

/// What a chunk is made for.
#[derive(Clone, Copy, Debug, PartialEq, Eq, Structural)]
pub enum ChunkKind {
    /// The chunk of one entry, the `bit`-th.
    EntryPoint { is_user_defined: bool, bit: u32, module: ModuleIdx },
    /// A chunk of modules shared by several entries.
    Common,
}

/// A unit of output: a set of modules emitted together.
#[derive(Debug)]
pub struct Chunk {
    pub name: Option<String>,
    /// For each entry, whether the modules of this chunk are reached from it.
    pub bits: Vec<bool>,
    /// The modules of the chunk, in execution order.
    pub modules: Vec<ModuleIdx>,
    pub kind: ChunkKind,
    /// The position of the chunk when chunks are ordered by execution.
    pub exec_order: u32,
}

/// The chunks of a bundle and how modules map to them.
#[derive(Debug)]
pub struct ChunkGraph {
    pub chunk_table: Vec<Chunk>,
    /// The chunks in output order.
    pub sorted_chunk_idx_vec: Vec<usize>,
    /// For each module, the chunk it is emitted in.
    pub module_to_chunk: Vec<Option<usize>>,
    /// For each entry module, its entry chunk.
    pub entry_module_to_entry_chunk: Vec<Option<usize>>,
}

impl ChunkGraph {
    /// An empty graph for a table of `module_count` modules: no chunks, no module placed.
    pub fn new(module_count: usize) -> (r: ChunkGraph)
        ensures
            r.chunk_table.len() == 0,
            r.sorted_chunk_idx_vec.len() == 0,
            r.module_to_chunk@ == Seq::new(module_count as nat, |i: int| None::<usize>),
            r.entry_module_to_entry_chunk@ == Seq::new(module_count as nat, |i: int| None::<usize>),
    {
        ChunkGraph {
            chunk_table: Vec::new(),
            sorted_chunk_idx_vec: Vec::new(),
            module_to_chunk: vec_of(None, module_count),
            entry_module_to_entry_chunk: vec_of(None, module_count),
        }
    }

    /// Appends a chunk and returns its index.
    pub fn add_chunk(&mut self, chunk: Chunk) -> (r: usize)
        ensures
            r == old(self).chunk_table.len(),
            final(self).chunk_table@ == old(self).chunk_table@.push(chunk),
            final(self).sorted_chunk_idx_vec == old(self).sorted_chunk_idx_vec,
            final(self).module_to_chunk == old(self).module_to_chunk,
            final(self).entry_module_to_entry_chunk == old(self).entry_module_to_entry_chunk,
    {
        let r = self.chunk_table.len();
        self.chunk_table.push(chunk);
        r
    }

    /// Puts module `module_idx` at the end of chunk `chunk_idx` and records where it went.
    pub fn add_module_to_chunk(&mut self, module_idx: ModuleIdx, chunk_idx: usize)
        requires
            chunk_idx < old(self).chunk_table.len(),
            module_idx < old(self).module_to_chunk.len(),
        ensures
            final(self).chunk_table.len() == old(self).chunk_table.len(),
            forall|c: int| 0 <= c < old(self).chunk_table.len() && c != chunk_idx ==> #[trigger] final(self).chunk_table@[c]
                == old(self).chunk_table@[c],
            final(self).chunk_table@[chunk_idx as int] == (Chunk {
                modules: final(self).chunk_table@[chunk_idx as int].modules,
                ..old(self).chunk_table@[chunk_idx as int]
            }),
            final(self).chunk_table@[chunk_idx as int].modules@ == old(self).chunk_table@[chunk_idx as int].modules@.push(module_idx),
            final(self).module_to_chunk@ == old(self).module_to_chunk@.update(module_idx as int, Some(chunk_idx)),
            final(self).sorted_chunk_idx_vec == old(self).sorted_chunk_idx_vec,
            final(self).entry_module_to_entry_chunk == old(self).entry_module_to_entry_chunk,
    {
        self.chunk_table[chunk_idx].modules.push(module_idx);
        self.module_to_chunk.set(module_idx, Some(chunk_idx));
    }
}

/// Module `m` is emitted in some chunk: it is bundled and tree shaking kept it.
pub open spec fn splittable(modules: Seq<Module>, included: Seq<bool>, m: int) -> bool {
    0 <= m < modules.len() && !modules[m].is_external && included[m]
}

/// The steps of code splitting: from a module to each dependency that is emitted.
pub open spec fn split_rel(modules: Seq<Module>, metas: Seq<LinkingMetadata>, included: Seq<bool>) -> spec_fn(
    usize,
    usize,
) -> bool {
    |a: usize, b: usize|
        a < metas.len() && metas[a as int].dependencies@.contains(b) && splittable(modules, included, b as int)
}

/// Entry module `e` reaches `m` through emitted modules.
pub open spec fn reached_from(
    modules: Seq<Module>,
    metas: Seq<LinkingMetadata>,
    included: Seq<bool>,
    e: usize,
    m: usize,
) -> bool {
    splittable(modules, included, e as int) && reaches(split_rel(modules, metas, included), e, m)
}

/// For each entry, whether it reaches `m`.
pub open spec fn entry_bits(
    modules: Seq<Module>,
    metas: Seq<LinkingMetadata>,
    included: Seq<bool>,
    entries: Seq<EntryPoint>,
    m: usize,
) -> Seq<bool> {
    Seq::new(entries.len(), |i: int| reached_from(modules, metas, included, entries[i].id, m))
}

/// The inputs of code splitting describe one module table.
pub open spec fn split_input_ok(
    modules: Seq<Module>,
    metas: Seq<LinkingMetadata>,
    included: Seq<bool>,
    exec_orders: Seq<u32>,
    entries: Seq<EntryPoint>,
) -> bool {
    &&& modules.len() == metas.len()
    &&& modules.len() == included.len()
    &&& modules.len() == exec_orders.len()
    &&& forall|m: int, j: int|
        0 <= m < metas.len() && 0 <= j < metas[m].dependencies.len() ==> #[trigger] metas[m].dependencies[j]
            < modules.len()
    &&& forall|i: int| 0 <= i < entries.len() ==> #[trigger] entries[i].id < modules.len()
}

/// `s` is ordered by `keys`, smallest first.
pub open spec fn sorted_by_key(s: Seq<usize>, keys: Seq<u64>) -> bool {
    forall|i: int, j: int| 0 <= i < j < s.len() ==> keys[#[trigger] s[i] as int] <= keys[#[trigger] s[j] as int]
}

/// The modules that entry module `e` reaches through emitted modules, as flags.
fn reachable_from_entry(
    modules: &Vec<Module>,
    metadata: &Vec<LinkingMetadata>,
    included: &Vec<bool>,
    exec_orders: &Vec<u32>,
    entries: &Vec<EntryPoint>,
    e: usize,
) -> (r: Vec<bool>)
    requires
        split_input_ok(modules@, metadata@, included@, exec_orders@, entries@),
        e < modules.len(),
    ensures
        r.len() == modules.len(),
        forall|m: int| 0 <= m < modules.len() ==> (#[trigger] r[m] <==> reached_from(
            modules@,
            metadata@,
            included@,
            e,
            m as usize,
        )),
{
    let ghost ms = modules@;
    let ghost mt = metadata@;
    let ghost inc = included@;
    let ghost rel = split_rel(ms, mt, inc);
    let n = modules.len();
    let mut mark: Vec<bool> = vec_of(false, n);
    if modules[e].is_external || !included[e] {
        return mark;
    }
    let mut stack: Vec<usize> = Vec::new();
    stack.push(e);
    proof {
        lemma_reaches_refl(rel, e);
        assert(stack@[0] == e);
    }
    while stack.len() > 0
        invariant
            ms == modules@,
            mt == metadata@,
            inc == included@,
            rel == split_rel(ms, mt, inc),
            split_input_ok(ms, mt, inc, exec_orders@, entries@),
            n == ms.len(),
            e < n,
            splittable(ms, inc, e as int),
            mark.len() == n,
            forall|k: int|
                0 <= k < stack@.len() ==> #[trigger] stack@[k] < n && reached_from(ms, mt, inc, e, stack@[k]),
            forall|x: int| 0 <= x < n && #[trigger] mark@[x] ==> reached_from(ms, mt, inc, e, x as usize),
            forall|a: usize, b: usize|
                a < n && mark@[a as int] && #[trigger] rel(a, b) ==> b < n && (mark@[b as int] || stack@.contains(b)),
            mark@[e as int] || stack@.contains(e),
        decreases count_false(mark@), stack@.len(),
    {
        let ghost wl = stack@;
        let a = stack.pop().unwrap();
        let ghost popped = stack@;
        proof {
            assert(wl =~= popped.push(a));
            assert(reached_from(ms, mt, inc, e, a));
        }
        if !mark[a] {
            let ghost m0 = mark@;
            mark.set(a, true);
            proof {
                lemma_count_false_set(m0, a as int);
            }
            let deps = &metadata[a].dependencies;
            let mut j: usize = 0;
            while j < deps.len()
                invariant
                    *deps == mt[a as int].dependencies,
                    ms == modules@,
                    mt == metadata@,
                    inc == included@,
                    rel == split_rel(ms, mt, inc),
                    split_input_ok(ms, mt, inc, exec_orders@, entries@),
                    n == ms.len(),
                    a < n,
                    j <= deps.len(),
                    mark.len() == n,
                    mark@[a as int],
                    reached_from(ms, mt, inc, e, a),
                    forall|k: int|
                        0 <= k < stack@.len() ==> #[trigger] stack@[k] < n && reached_from(ms, mt, inc, e, stack@[k]),
                    forall|k: int| 0 <= k < popped.len() ==> stack@.contains(#[trigger] popped[k]),
                    forall|t: int|
                        0 <= t < j && #[trigger] rel(a, deps@[t]) ==> mark@[deps@[t] as int] || stack@.contains(deps@[t]),
                decreases deps.len() - j,
            {
                let d = deps[j];
                proof {
                    assert(mt[a as int].dependencies[j as int] == d);
                }
                if !modules[d].is_external && included[d] && !mark[d] {
                    let ghost before = stack@;
                    stack.push(d);
                    proof {
                        assert(deps@.contains(d)) by {
                            assert(deps@[j as int] == d);
                        }
                        assert(rel(a, d));
                        lemma_reaches_step(rel, e, a, d);
                        assert(stack@[stack@.len() - 1] == d);
                        assert forall|k: int| 0 <= k < popped.len() implies stack@.contains(#[trigger] popped[k]) by {
                            let q = choose|q: int| 0 <= q < before.len() && before[q] == popped[k];
                            assert(stack@[q] == before[q]);
                        }
                        assert forall|t: int|
                            0 <= t < j + 1 && #[trigger] rel(a, deps@[t]) implies mark@[deps@[t] as int] || stack@.contains(
                            deps@[t],
                        ) by {
                            if t < j && !mark@[deps@[t] as int] {
                                let q = choose|q: int| 0 <= q < before.len() && before[q] == deps@[t];
                                assert(stack@[q] == before[q]);
                            }
                        }
                    }
                }
                j += 1;
            }
            proof {
                assert forall|b: usize| #[trigger] rel(a, b) implies b < n && (mark@[b as int] || stack@.contains(b)) by {
                    let t = choose|t: int| 0 <= t < deps@.len() && deps@[t] == b;
                }
                assert forall|x: usize, b: usize|
                    x < n && mark@[x as int] && #[trigger] rel(x, b) implies b < n && (mark@[b as int] || stack@.contains(b)) by {
                    if x != a {
                        assert(m0[x as int]);
                        if !m0[b as int] && b != a {
                            assert(wl.contains(b));
                            let q = choose|q: int| 0 <= q < popped.len() + 1 && popped.push(a)[q] == b;
                            assert(popped[q] == b);
                        }
                    }
                }
                if !mark@[e as int] {
                    assert(wl.contains(e));
                    let q = choose|q: int| 0 <= q < popped.len() + 1 && popped.push(a)[q] == e;
                    assert(popped[q] == e);
                }
            }
        } else {
            proof {
                assert forall|x: usize, b: usize|
                    x < n && mark@[x as int] && #[trigger] rel(x, b) implies b < n && (mark@[b as int] || stack@.contains(b)) by {
                    if !mark@[b as int] {
                        assert(wl.contains(b));
                        let q = choose|q: int| 0 <= q < popped.len() + 1 && popped.push(a)[q] == b;
                        assert(popped[q] == b);
                    }
                }
                if !mark@[e as int] {
                    assert(wl.contains(e));
                    let q = choose|q: int| 0 <= q < popped.len() + 1 && popped.push(a)[q] == e;
                    assert(popped[q] == e);
                }
            }
        }
    }
    proof {
        let s = |x: usize| x < n && mark@[x as int];
        assert forall|x: usize, y: usize| s(x) && #[trigger] rel(x, y) implies s(y) by {}
        assert forall|m: int| 0 <= m < n implies (#[trigger] mark@[m] <==> reached_from(ms, mt, inc, e, m as usize)) by {
            if reached_from(ms, mt, inc, e, m as usize) {
                lemma_closed_holds_reached(rel, s, e, m as usize);
            }
        }
    }
    mark
}

/// Whether two flag vectors are equal.
fn bits_eq(a: &Vec<bool>, b: &Vec<bool>) -> (r: bool)
    ensures
        r == (a@ == b@),
{
    if a.len() != b.len() {
        return false;
    }
    let mut i: usize = 0;
    while i < a.len()
        invariant
            a.len() == b.len(),
            i <= a.len(),
            forall|j: int| 0 <= j < i ==> a@[j] == b@[j],
        decreases a.len() - i,
    {
        if a[i] != b[i] {
            return false;
        }
        i += 1;
    }
    proof {
        assert(a@ =~= b@);
    }
    true
}

/// Inserts `x` after every element whose key is not larger, keeping `v` ordered by key.
fn insert_by_key(v: &mut Vec<usize>, x: usize, keys: &Vec<u64>)
    requires
        x < keys.len(),
        forall|i: int| 0 <= i < old(v).len() ==> #[trigger] old(v)@[i] < keys.len(),
        sorted_by_key(old(v)@, keys@),
    ensures
        final(v)@.len() == old(v)@.len() + 1,
        sorted_by_key(final(v)@, keys@),
        forall|y: usize| #[trigger] final(v)@.contains(y) <==> (old(v)@.contains(y) || y == x),
        forall|i: int| 0 <= i < final(v)@.len() ==> #[trigger] final(v)@[i] < keys.len(),
        !old(v)@.contains(x) && old(v)@.no_duplicates() ==> final(v)@.no_duplicates(),
{
    let ghost s = v@;
    let mut pos: usize = 0;
    while pos < v.len() && keys[v[pos]] <= keys[x]
        invariant
            v@ == s,
            x < keys.len(),
            forall|i: int| 0 <= i < s.len() ==> #[trigger] s[i] < keys.len(),
            pos <= s.len(),
            forall|i: int| 0 <= i < pos ==> keys@[#[trigger] s[i] as int] <= keys@[x as int],
        decreases s.len() - pos,
    {
        pos += 1;
    }
    v.insert(pos, x);
    proof {
        s.insert_ensures(pos as int, x);
        let t = v@;
        assert forall|i: int, j: int| 0 <= i < j < t.len() implies keys@[#[trigger] t[i] as int] <= keys@[#[trigger] t[j] as int] by {
            if j < pos {
                assert(t[i] == s[i] && t[j] == s[j]);
            } else if j == pos {
                assert(t[i] == s[i]);
            } else if i < pos {
                assert(t[i] == s[i] && t[j] == s[j - 1]);
            } else if i == pos {
                assert(t[j] == s[j - 1]);
                assert(keys@[s[pos as int] as int] > keys@[x as int]);
                assert(keys@[s[pos as int] as int] <= keys@[s[j - 1] as int]);
            } else {
                assert(t[i] == s[i - 1] && t[j] == s[j - 1]);
            }
        }
        assert forall|y: usize| #[trigger] t.contains(y) <==> (s.contains(y) || y == x) by {
            if t.contains(y) {
                let k = choose|k: int| 0 <= k < t.len() && t[k] == y;
                if k < pos {
                    assert(s[k] == y);
                } else if k > pos {
                    assert(s[k - 1] == y);
                }
            }
            if s.contains(y) {
                let k = choose|k: int| 0 <= k < s.len() && s[k] == y;
                if k < pos {
                    assert(t[k] == y);
                } else {
                    assert(t[k + 1] == y);
                }
            }
            if y == x {
                assert(t[pos as int] == x);
            }
        }
        assert forall|i: int| 0 <= i < t.len() implies #[trigger] t[i] < keys.len() by {
            if i < pos {
                assert(t[i] == s[i]);
            } else if i > pos {
                assert(t[i] == s[i - 1]);
            }
        }
        if !s.contains(x) && s.no_duplicates() {
            assert forall|i: int, j: int| 0 <= i < t.len() && 0 <= j < t.len() && i != j implies t[i] != t[j] by {
                if i != pos as int && j != pos as int {
                    let si = if i < pos { i } else { i - 1 };
                    let sj = if j < pos { j } else { j - 1 };
                    assert(t[i] == s[si] && t[j] == s[sj]);
                } else if i == pos as int {
                    let sj = if j < pos { j } else { j - 1 };
                    assert(t[j] == s[sj]);
                } else {
                    let si = if i < pos { i } else { i - 1 };
                    assert(t[i] == s[si]);
                }
            }
        }
    }
}

/// Flags of length `n` with only the `i`-th set.
pub open spec fn single_bit(n: nat, i: int) -> Seq<bool> {
    Seq::new(n, |j: int| j == i)
}

/// Chunk `c` is the chunk of entry position `i`, as code splitting makes it.
pub open spec fn is_entry_chunk_of(modules: Seq<Module>, entries: Seq<EntryPoint>, c: Chunk, i: int) -> bool {
    &&& 0 <= i < entries.len()
    &&& !modules[entries[i].id as int].is_external
    &&& c.kind == ChunkKind::EntryPoint {
        is_user_defined: modules[entries[i].id as int].is_user_defined_entry,
        bit: i as u32,
        module: entries[i].id,
    }
    &&& c.name == entries[i].name
    &&& c.bits@ == single_bit(entries.len(), i)
}

/// The bit of an entry chunk.
pub open spec fn entry_bit(c: Chunk) -> int {
    match c.kind {
        ChunkKind::EntryPoint { bit, .. } => bit as int,
        ChunkKind::Common => -1,
    }
}

/// The entry chunks come first, one per bundled entry, in entry order.
pub open spec fn entry_chunks_ok(modules: Seq<Module>, entries: Seq<EntryPoint>, chunks: Seq<Chunk>) -> bool {
    &&& forall|k1: int, k2: int|
        0 <= k1 < k2 < chunks.len() && (#[trigger] chunks[k2]).kind is EntryPoint ==> (#[trigger] chunks[k1]).kind is EntryPoint
            && entry_bit(chunks[k1]) < entry_bit(chunks[k2])
    &&& forall|k: int|
        0 <= k < chunks.len() && (#[trigger] chunks[k]).kind is EntryPoint ==> is_entry_chunk_of(
            modules,
            entries,
            chunks[k],
            entry_bit(chunks[k]),
        )
    &&& forall|i: int|
        0 <= i < entries.len() && !modules[entries[i].id as int].is_external ==> exists|k: int|
            0 <= k < chunks.len() && (#[trigger] chunks[k]).kind is EntryPoint && entry_bit(chunks[k]) == i
}

/// `c` is an entry chunk of module `m`.
pub open spec fn is_entry_chunk_for(c: Chunk, m: int) -> bool {
    c.kind matches ChunkKind::EntryPoint { module, .. } && module == m
}

/// `r[m]` is the last entry chunk of module `m`, if any.
pub open spec fn entry_chunk_map_ok(chunks: Seq<Chunk>, r: Seq<Option<usize>>) -> bool {
    forall|m: int|
        0 <= m < r.len() ==> match #[trigger] r[m] {
            Some(k) => k < chunks.len() && is_entry_chunk_for(chunks[k as int], m) && forall|k2: int|
                k < k2 < chunks.len() ==> !is_entry_chunk_for(#[trigger] chunks[k2], m),
            None => forall|k2: int| 0 <= k2 < chunks.len() ==> !is_entry_chunk_for(#[trigger] chunks[k2], m),
        }
}

fn clone_name(name: &Option<String>) -> (r: Option<String>)
    ensures
        r == *name,
{
    match name {
        Some(s) => Some(s.clone()),
        None => None,
    }
}

fn single_bit_vec(n: usize, i: usize) -> (r: Vec<bool>)
    requires
        i < n,
    ensures
        r@ == single_bit(n as nat, i as int),
{
    let mut r: Vec<bool> = Vec::new();
    let mut j: usize = 0;
    while j < n
        invariant
            j <= n,
            r.len() == j,
            forall|k: int| 0 <= k < j ==> r@[k] == (k == i),
        decreases n - j,
    {
        r.push(j == i);
        j += 1;
    }
    proof {
        assert(r@ =~= single_bit(n as nat, i as int));
    }
    r
}

/// Makes one chunk per entry whose module is bundled, in entry order.
fn create_entry_chunks(modules: &Vec<Module>, entries: &Vec<EntryPoint>) -> (r: (Vec<Chunk>, Vec<Option<usize>>))
    requires
        forall|i: int| 0 <= i < entries.len() ==> #[trigger] entries[i].id < modules.len(),
        entries.len() <= u32::MAX,
    ensures
        entry_chunks_ok(modules@, entries@, r.0@),
        r.0.len() <= entries.len(),
        forall|k: int| 0 <= k < r.0.len() ==> (#[trigger] r.0[k]).kind is EntryPoint && r.0[k].modules@.len() == 0,
        r.1.len() == modules.len(),
        entry_chunk_map_ok(r.0@, r.1@),
{
    let mut chunks: Vec<Chunk> = Vec::new();
    let mut entry_chunk_of: Vec<Option<usize>> = vec_of(None, modules.len());
    let mut i: usize = 0;
    while i < entries.len()
        invariant
            forall|t: int| 0 <= t < entries.len() ==> #[trigger] entries[t].id < modules.len(),
            entries.len() <= u32::MAX,
            i <= entries.len(),
            chunks.len() <= i,
            entry_chunk_of.len() == modules.len(),
            forall|k: int|
                0 <= k < chunks.len() ==> (#[trigger] chunks[k]).kind is EntryPoint && chunks[k].modules@.len() == 0
                    && entry_bit(chunks[k]) < i,
            forall|k1: int, k2: int|
                0 <= k1 < k2 < chunks.len() ==> entry_bit(#[trigger] chunks[k1]) < entry_bit(#[trigger] chunks[k2]),
            forall|k: int|
                0 <= k < chunks.len() ==> is_entry_chunk_of(modules@, entries@, #[trigger] chunks[k], entry_bit(chunks[k])),
            forall|t: int|
                0 <= t < i && !modules[entries[t].id as int].is_external ==> exists|k: int|
                    0 <= k < chunks.len() && (#[trigger] chunks[k]).kind is EntryPoint && entry_bit(chunks[k]) == t,
            entry_chunk_map_ok(chunks@, entry_chunk_of@),
        decreases entries.len() - i,
    {
        let id = entries[i].id;
        if !modules[id].is_external {
            let k = chunks.len();
            let ghost before = chunks@;
            let chunk = Chunk {
                name: clone_name(&entries[i].name),
                bits: single_bit_vec(entries.len(), i),
                modules: Vec::new(),
                kind: ChunkKind::EntryPoint {
                    is_user_defined: modules[id].is_user_defined_entry,
                    bit: i as u32,
                    module: id,
                },
                exec_order: 0,
            };
            chunks.push(chunk);
            let ghost map0 = entry_chunk_of@;
            entry_chunk_of.set(id, Some(k));
            proof {
                assert(chunks@[k as int] == chunk);
                assert(forall|q: int| 0 <= q < k ==> chunks@[q] == before[q]);
                assert(entry_bit(chunk) == i);
                assert forall|t: int|
                    0 <= t < i + 1 && !modules[entries[t].id as int].is_external implies exists|k2: int|
                        0 <= k2 < chunks.len() && (#[trigger] chunks[k2]).kind is EntryPoint && entry_bit(chunks[k2]) == t by {
                    if t < i {
                        let k2 = choose|k2: int|
                            0 <= k2 < before.len() && (#[trigger] before[k2]).kind is EntryPoint && entry_bit(before[k2]) == t;
                        assert(chunks@[k2] == before[k2]);
                    } else {
                        assert(chunks@[k as int].kind is EntryPoint);
                    }
                }
                assert forall|m: int|
                    0 <= m < entry_chunk_of@.len() implies match #[trigger] entry_chunk_of@[m] {
                        Some(k1) => k1 < chunks.len() && is_entry_chunk_for(chunks@[k1 as int], m) && forall|k2: int|
                            k1 < k2 < chunks.len() ==> !is_entry_chunk_for(#[trigger] chunks@[k2], m),
                        None => forall|k2: int| 0 <= k2 < chunks.len() ==> !is_entry_chunk_for(#[trigger] chunks@[k2], m),
                    } by {
                    if m != id as int {
                        assert(entry_chunk_of@[m] == map0[m]);
                        assert(!is_entry_chunk_for(chunk, m));
                        match map0[m] {
                            Some(k1) => {
                                assert(chunks@[k1 as int] == before[k1 as int]);
                                assert forall|k2: int| k1 < k2 < chunks.len() implies !is_entry_chunk_for(#[trigger] chunks@[k2], m) by {
                                    if k2 < k {
                                        assert(chunks@[k2] == before[k2]);
                                    }
                                }
                            },
                            None => {
                                assert forall|k2: int| 0 <= k2 < chunks.len() implies !is_entry_chunk_for(#[trigger] chunks@[k2], m) by {
                                    if k2 < k {
                                        assert(chunks@[k2] == before[k2]);
                                    }
                                }
                            },
                        }
                    } else {
                        assert(is_entry_chunk_for(chunk, m));
                    }
                }
            }
        }
        i += 1;
    }
    proof {
        assert forall|k1: int, k2: int|
            0 <= k1 < k2 < chunks.len() && (#[trigger] chunks@[k2]).kind is EntryPoint implies (#[trigger] chunks@[k1]).kind is EntryPoint
                && entry_bit(chunks@[k1]) < entry_bit(chunks@[k2]) by {
            assert(entry_bit(chunks[k1]) < entry_bit(chunks[k2]));
        }
    }
    (chunks, entry_chunk_of)
}

/// For each module, the entries that reach it.
fn module_entry_bits(
    modules: &Vec<Module>,
    metadata: &Vec<LinkingMetadata>,
    included: &Vec<bool>,
    exec_orders: &Vec<u32>,
    entries: &Vec<EntryPoint>,
) -> (r: Vec<Vec<bool>>)
    requires
        split_input_ok(modules@, metadata@, included@, exec_orders@, entries@),
    ensures
        r.len() == modules.len(),
        forall|m: int| 0 <= m < modules.len() ==> (#[trigger] r[m])@ == entry_bits(
            modules@,
            metadata@,
            included@,
            entries@,
            m as usize,
        ),
{
    let n = modules.len();
    let ne = entries.len();
    let mut bits: Vec<Vec<bool>> = Vec::new();
    let mut m: usize = 0;
    while m < n
        invariant
            m <= n,
            bits.len() == m,
            forall|x: int| 0 <= x < m ==> (#[trigger] bits[x])@ == Seq::new(ne as nat, |j: int| false),
        decreases n - m,
    {
        let row = vec_of(false, ne);
        proof {
            assert(row@ =~= Seq::new(ne as nat, |j: int| false));
        }
        bits.push(row);
        m += 1;
    }
    let mut i: usize = 0;
    while i < ne
        invariant
            split_input_ok(modules@, metadata@, included@, exec_orders@, entries@),
            n == modules.len(),
            ne == entries.len(),
            i <= ne,
            bits.len() == n,
            forall|x: int| 0 <= x < n ==> (#[trigger] bits[x])@.len() == ne,
            forall|x: int, j: int|
                0 <= x < n && 0 <= j < ne ==> (#[trigger] bits[x]@[j] <==> (j < i && reached_from(
                    modules@,
                    metadata@,
                    included@,
                    entries@[j].id,
                    x as usize,
                ))),
        decreases ne - i,
    {
        let r = reachable_from_entry(modules, metadata, included, exec_orders, entries, entries[i].id);
        let mut x: usize = 0;
        while x < n
            invariant
                split_input_ok(modules@, metadata@, included@, exec_orders@, entries@),
                n == modules.len(),
                ne == entries.len(),
                i < ne,
                x <= n,
                r.len() == n,
                forall|y: int|
                    0 <= y < n ==> (#[trigger] r[y] <==> reached_from(
                        modules@,
                        metadata@,
                        included@,
                        entries@[i as int].id,
                        y as usize,
                    )),
                bits.len() == n,
                forall|y: int| 0 <= y < n ==> (#[trigger] bits[y])@.len() == ne,
                forall|y: int, j: int|
                    0 <= y < n && 0 <= j < ne ==> (#[trigger] bits[y]@[j] <==> ((j < i || (j == i && y < x))
                        && reached_from(modules@, metadata@, included@, entries@[j].id, y as usize))),
            decreases n - x,
        {
            let ghost b0 = bits@;
            let v = r[x];
            bits[x].set(i, v);
            proof {
                assert forall|y: int| 0 <= y < n implies (#[trigger] bits[y])@.len() == ne by {
                    if y != x {
                        assert(bits@[y] == b0[y]);
                    }
                }
                assert forall|y: int, j: int|
                    0 <= y < n && 0 <= j < ne implies (#[trigger] bits[y]@[j] <==> ((j < i || (j == i && y < x + 1))
                        && reached_from(modules@, metadata@, included@, entries@[j].id, y as usize))) by {
                    if y != x {
                        assert(bits@[y] == b0[y]);
                    } else if j != i {
                        assert(bits@[y]@[j] == b0[y]@[j]);
                    }
                }
            }
            x += 1;
        }
        i += 1;
    }
    proof {
        assert forall|m: int| 0 <= m < n implies (#[trigger] bits[m])@ == entry_bits(
            modules@,
            metadata@,
            included@,
            entries@,
            m as usize,
        ) by {
            assert(bits[m]@ =~= entry_bits(modules@, metadata@, included@, entries@, m as usize));
        }
    }
    bits
}

fn copy_bits(a: &Vec<bool>) -> (r: Vec<bool>)
    ensures
        r@ == a@,
{
    let mut r: Vec<bool> = Vec::new();
    let mut i: usize = 0;
    while i < a.len()
        invariant
            i <= a.len(),
            r@ == a@.subrange(0, i as int),
        decreases a.len() - i,
    {
        r.push(a[i]);
        i += 1;
        proof {
            assert(r@ =~= a@.subrange(0, i as int));
        }
    }
    proof {
        assert(r@ =~= a@);
    }
    r
}

/// Some element of `a` is smaller than every element of `b`.
pub open spec fn precedes_all(a: Seq<usize>, b: Seq<usize>) -> bool {
    exists|y1: usize| #[trigger] a.contains(y1) && forall|y2: usize| #[trigger] b.contains(y2) ==> y1 < y2
}

/// Module `x` goes into a chunk: it is bundled and included.
pub open spec fn emitted(modules: Seq<Module>, included: Seq<bool>, x: int) -> bool {
    0 <= x < modules.len() && !modules[x].is_external && included[x]
}

/// Puts each emitted module into the chunk whose bits are the module's, making a common
/// chunk for bits that no chunk has yet; modules are kept in execution order in their chunk.
#[verifier::rlimit(50)]
fn assign_modules(
    modules: &Vec<Module>,
    included: &Vec<bool>,
    bits_of: &Vec<Vec<bool>>,
    exec_keys: &Vec<u64>,
    chunks: &mut Vec<Chunk>,
) -> (module_to_chunk: Vec<Option<usize>>)
    requires
        modules.len() == included.len(),
        modules.len() == bits_of.len(),
        modules.len() == exec_keys.len(),
        forall|k: int| 0 <= k < old(chunks).len() ==> (#[trigger] old(chunks)[k]).modules@.len() == 0,
        forall|k1: int, k2: int|
            0 <= k1 < old(chunks).len() && 0 <= k2 < old(chunks).len() && k1 != k2 ==> (#[trigger] old(chunks)[k1]).bits@
                != (#[trigger] old(chunks)[k2]).bits@,
    ensures
        final(chunks).len() >= old(chunks).len(),
        final(chunks).len() <= old(chunks).len() + modules.len(),
        forall|k: int|
            0 <= k < old(chunks).len() ==> (#[trigger] final(chunks)[k]).kind == old(chunks)[k].kind
                && final(chunks)[k].name == old(chunks)[k].name && final(chunks)[k].bits@ == old(chunks)[k].bits@,
        forall|k: int|
            old(chunks).len() <= k < final(chunks).len() ==> (#[trigger] final(chunks)[k]).kind == ChunkKind::Common
                && final(chunks)[k].name is None && final(chunks)[k].modules@.len() > 0,
        forall|k1: int, k2: int|
            0 <= k1 < final(chunks).len() && 0 <= k2 < final(chunks).len() && k1 != k2 ==> (#[trigger] final(chunks)[k1]).bits@ != (#[trigger] final(chunks)[k2]).bits@,
        forall|k: int, x: usize|
            0 <= k < final(chunks).len() ==> (#[trigger] final(chunks)[k].modules@.contains(x) <==> (emitted(
                modules@,
                included@,
                x as int,
            ) && final(chunks)[k].bits@ == bits_of[x as int]@)),
        forall|k: int|
            0 <= k < final(chunks).len() ==> sorted_by_key((#[trigger] final(chunks)[k]).modules@, exec_keys@)
                && final(chunks)[k].modules@.no_duplicates(),
        forall|k: int, j: int|
            0 <= k < final(chunks).len() && 0 <= j < final(chunks)[k].modules.len() ==> #[trigger] final(chunks)[k].modules@[j] < modules.len(),
        forall|k1: int, k2: int|
            old(chunks).len() <= k1 < k2 < final(chunks).len() ==> precedes_all(
                (#[trigger] final(chunks)[k1]).modules@,
                (#[trigger] final(chunks)[k2]).modules@,
            ),
        module_to_chunk.len() == modules.len(),
        forall|x: int|
            0 <= x < modules.len() ==> ((#[trigger] module_to_chunk[x]) is Some <==> emitted(modules@, included@, x)),
        forall|x: int|
            0 <= x < modules.len() && (#[trigger] module_to_chunk[x]) is Some ==> module_to_chunk[x]->0
                < final(chunks).len() && final(chunks)[module_to_chunk[x]->0 as int].bits@ == bits_of[x]@,
{
    let ghost k0 = chunks.len();
    let ghost old_chunks = chunks@;
    let n = modules.len();
    let mut module_to_chunk: Vec<Option<usize>> = vec_of(None, n);
    let ghost mut first: Seq<usize> = Seq::empty();
    let mut m: usize = 0;
    while m < n
        invariant
            n == modules.len(),
            n == included.len(),
            n == bits_of.len(),
            n == exec_keys.len(),
            m <= n,
            k0 == old_chunks.len(),
            chunks.len() >= k0,
            chunks.len() <= k0 + m,
            forall|k: int|
                0 <= k < k0 ==> (#[trigger] chunks[k]).kind == old_chunks[k].kind && chunks[k].name
                    == old_chunks[k].name && chunks[k].bits@ == old_chunks[k].bits@,
            forall|k: int| k0 <= k < chunks.len() ==> (#[trigger] chunks[k]).kind == ChunkKind::Common && chunks[k].name is None,
            forall|k1: int, k2: int|
                0 <= k1 < chunks.len() && 0 <= k2 < chunks.len() && k1 != k2 ==> (#[trigger] chunks[k1]).bits@
                    != (#[trigger] chunks[k2]).bits@,
            forall|k: int, x: usize|
                0 <= k < chunks.len() ==> (#[trigger] chunks[k].modules@.contains(x) <==> (x < m && emitted(
                    modules@,
                    included@,
                    x as int,
                ) && chunks[k].bits@ == bits_of[x as int]@)),
            forall|k: int|
                0 <= k < chunks.len() ==> sorted_by_key((#[trigger] chunks[k]).modules@, exec_keys@)
                    && chunks[k].modules@.no_duplicates(),
            forall|k: int, j: int|
                0 <= k < chunks.len() && 0 <= j < chunks[k].modules.len() ==> #[trigger] chunks[k].modules@[j] < n,
            first.len() == chunks.len() - k0,
            forall|j: int|
                0 <= j < first.len() ==> chunks[k0 + j].modules@.contains(#[trigger] first[j]) && first[j] < m,
            forall|j: int, y: usize|
                0 <= j < first.len() && #[trigger] chunks[k0 + j].modules@.contains(y) ==> first[j] <= y,
            forall|j1: int, j2: int| 0 <= j1 < j2 < first.len() ==> #[trigger] first[j1] < #[trigger] first[j2],
            module_to_chunk.len() == n,
            forall|x: int|
                0 <= x < n ==> ((#[trigger] module_to_chunk[x]) is Some <==> (x < m && emitted(modules@, included@, x))),
            forall|x: int|
                0 <= x < n && (#[trigger] module_to_chunk[x]) is Some ==> module_to_chunk[x]->0 < chunks.len()
                    && chunks[module_to_chunk[x]->0 as int].bits@ == bits_of[x]@,
        decreases n - m,
    {
        if !modules[m].is_external && included[m] {
            let mut c: usize = 0;
            while c < chunks.len() && !bits_eq(&chunks[c].bits, &bits_of[m])
                invariant
                    c <= chunks.len(),
                    m < n,
                    n == bits_of.len(),
                    forall|k: int| 0 <= k < c ==> (#[trigger] chunks[k]).bits@ != bits_of[m as int]@,
                decreases chunks.len() - c,
            {
                c += 1;
            }
            let ghost ch0 = chunks@;
            if c < chunks.len() {
                proof {
                    assert(chunks[c as int].bits@ == bits_of[m as int]@);
                    assert(!chunks[c as int].modules@.contains(m));
                }
                insert_by_key(&mut chunks[c].modules, m, exec_keys);
                proof {
                    assert forall|k: int| 0 <= k < chunks.len() && k != c implies #[trigger] chunks[k] == ch0[k] by {}
                    assert(chunks[c as int].bits == ch0[c as int].bits);
                    assert(chunks[c as int].kind == ch0[c as int].kind);
                    assert(chunks[c as int].name == ch0[c as int].name);
                }
            } else {
                let mut mods: Vec<usize> = Vec::new();
                mods.push(m);
                let chunk = Chunk {
                    name: None,
                    bits: copy_bits(&bits_of[m]),
                    modules: mods,
                    kind: ChunkKind::Common,
                    exec_order: 0,
                };
                chunks.push(chunk);
                proof {
                    first = first.push(m);
                    assert(chunks[c as int] == chunk);
                    assert(forall|k: int| 0 <= k < c ==> #[trigger] chunks[k] == ch0[k]);
                    assert(chunk.modules@ =~= seq![m]);
                    assert(chunk.modules@.contains(m)) by {
                        assert(chunk.modules@[0] == m);
                    }
                }
            }
            let ghost mtc0 = module_to_chunk@;
            module_to_chunk.set(m, Some(c));
            proof {
                assert forall|x: int|
                    0 <= x < n implies ((#[trigger] module_to_chunk[x]) is Some <==> (x < m + 1 && emitted(modules@, included@, x))) by {
                    if x != m {
                        assert(module_to_chunk[x] == mtc0[x]);
                    }
                }
                assert forall|x: int|
                    0 <= x < n && (#[trigger] module_to_chunk[x]) is Some implies module_to_chunk[x]->0 < chunks.len()
                        && chunks[module_to_chunk[x]->0 as int].bits@ == bits_of[x]@ by {
                    if x != m {
                        assert(module_to_chunk[x] == mtc0[x]);
                        assert(chunks[mtc0[x]->0 as int].bits@ == ch0[mtc0[x]->0 as int].bits@);
                    }
                }
                assert forall|k: int, x: usize|
                    0 <= k < chunks.len() implies (#[trigger] chunks[k].modules@.contains(x) <==> (x < m + 1 && emitted(
                        modules@,
                        included@,
                        x as int,
                    ) && chunks[k].bits@ == bits_of[x as int]@)) by {
                    if k != c {
                        assert(chunks[k] == ch0[k]);
                        if x == m {
                            assert(chunks[k].bits@ != chunks[c as int].bits@);
                        }
                    } else if c == ch0.len() {
                        if x < m && emitted(modules@, included@, x as int) && chunks[k].bits@ == bits_of[x as int]@ {
                            assert(mtc0[x as int] is Some);
                            let c2 = mtc0[x as int]->0;
                            assert(ch0[c2 as int].bits@ == bits_of[x as int]@);
                            assert(false);
                        }
                        if chunks[k].modules@.contains(x) {
                            assert(chunks[k].modules@ == seq![m]);
                            let q = choose|q: int| 0 <= q < chunks[k].modules@.len() && chunks[k].modules@[q] == x;
                            assert(x == m);
                        }
                    } else {
                        assert(chunks[k].bits@ == bits_of[m as int]@);
                    }
                }
                assert forall|j: int, y: usize|
                    0 <= j < first.len() && #[trigger] chunks[k0 + j].modules@.contains(y) implies first[j] <= y by {
                    if k0 + j != c {
                        assert(chunks[k0 + j] == ch0[k0 + j]);
                    }
                }
                assert forall|j: int|
                    0 <= j < first.len() implies chunks[k0 + j].modules@.contains(#[trigger] first[j]) && first[j] < m + 1 by {
                    if k0 + j != c {
                        assert(chunks[k0 + j] == ch0[k0 + j]);
                    }
                }
                assert forall|k: int, j: int|
                    0 <= k < chunks.len() && 0 <= j < chunks[k].modules.len() implies #[trigger] chunks[k].modules@[j] < n by {
                    if k != c {
                        assert(chunks[k] == ch0[k]);
                    }
                }
                assert forall|k: int|
                    0 <= k < chunks.len() implies sorted_by_key((#[trigger] chunks[k]).modules@, exec_keys@)
                        && chunks[k].modules@.no_duplicates() by {
                    if k != c {
                        assert(chunks[k] == ch0[k]);
                    }
                }
            }
        }
        m += 1;
    }
    proof {
        assert forall|k1: int, k2: int|
            k0 <= k1 < k2 < chunks.len() implies precedes_all(
                (#[trigger] chunks[k1]).modules@,
                (#[trigger] chunks[k2]).modules@,
            ) by {
            let y1 = first[k1 - k0];
            assert(chunks[k0 + (k1 - k0)].modules@.contains(first[k1 - k0]));
            assert forall|y2: usize| chunks[k2].modules@.contains(y2) implies y1 < y2 by {
                assert(chunks[k0 + (k2 - k0)].modules@.contains(y2));
                assert(first[k1 - k0] < first[k2 - k0]);
            }
            assert(chunks[k1].modules@.contains(y1));
        }
        assert forall|k: int| k0 <= k < chunks.len() implies (#[trigger] chunks[k]).modules@.len() > 0 by {
            assert(chunks[k0 + (k - k0)].modules@.contains(first[k - k0]));
        }
    }
    module_to_chunk
}

/// The key by which chunks are ordered for execution: the execution order of the chunk's
/// entry module, or of the first module of a common chunk; on a tie the entry chunk comes first.
pub open spec fn chunk_exec_key(exec_orders: Seq<u32>, c: Chunk) -> int {
    match c.kind {
        ChunkKind::EntryPoint { module, .. } => exec_orders[module as int] * 2,
        ChunkKind::Common => exec_orders[c.modules@[0] as int] * 2 + 1,
    }
}

/// The execution keys of all chunks.
pub open spec fn chunk_exec_keys(exec_orders: Seq<u32>, chunks: Seq<Chunk>) -> Seq<int> {
    Seq::new(chunks.len(), |k: int| chunk_exec_key(exec_orders, chunks[k]))
}

/// `d` comes before `c` when sorting stably by `keys`.
pub open spec fn stably_before(keys: Seq<int>, d: int, c: int) -> bool {
    keys[d] < keys[c] || (keys[d] == keys[c] && d < c)
}

/// How many of the first `upto` positions come before `c` when sorting stably by `keys`.
pub open spec fn count_before(keys: Seq<int>, c: int, upto: int) -> nat
    decreases upto,
{
    if upto <= 0 {
        0
    } else {
        count_before(keys, c, upto - 1) + if stably_before(keys, upto - 1, c) {
            1nat
        } else {
            0nat
        }
    }
}

/// The position of `c` once positions are sorted stably by `keys`.
pub open spec fn stable_rank(keys: Seq<int>, c: int) -> nat {
    count_before(keys, c, keys.len() as int)
}

proof fn lemma_count_before_bound(keys: Seq<int>, c: int, upto: int)
    requires
        0 <= upto,
    ensures
        count_before(keys, c, upto) <= upto,
        0 <= c < upto ==> count_before(keys, c, upto) < upto,
    decreases upto,
{
    if upto > 0 {
        lemma_count_before_bound(keys, c, upto - 1);
    }
}

/// Sets each chunk's execution order: its position when chunks are sorted stably by
/// [`chunk_exec_key`].
fn rank_chunks(chunks: &mut Vec<Chunk>, exec_orders: &Vec<u32>)
    requires
        old(chunks).len() <= u32::MAX + 1,
        forall|k: int|
            0 <= k < old(chunks).len() ==> match (#[trigger] old(chunks)[k]).kind {
                ChunkKind::EntryPoint { module, .. } => module < exec_orders.len(),
                ChunkKind::Common => old(chunks)[k].modules.len() > 0 && old(chunks)[k].modules@[0] < exec_orders.len(),
            },
    ensures
        final(chunks).len() == old(chunks).len(),
        forall|k: int|
            0 <= k < final(chunks).len() ==> (#[trigger] final(chunks)[k]).kind == old(chunks)[k].kind
                && final(chunks)[k].name == old(chunks)[k].name && final(chunks)[k].bits == old(chunks)[k].bits
                && final(chunks)[k].modules == old(chunks)[k].modules,
        forall|k: int|
            0 <= k < final(chunks).len() ==> (#[trigger] final(chunks)[k]).exec_order == stable_rank(
                chunk_exec_keys(exec_orders@, old(chunks)@),
                k,
            ),
{
    let ghost c0 = chunks@;
    let ghost ks = chunk_exec_keys(exec_orders@, c0);
    let len = chunks.len();
    let mut keys: Vec<u64> = Vec::new();
    let mut k: usize = 0;
    while k < len
        invariant
            chunks@ == c0,
            len == c0.len(),
            ks == chunk_exec_keys(exec_orders@, c0),
            k <= len,
            keys.len() == k,
            forall|j: int| 0 <= j < k ==> #[trigger] keys@[j] as int == ks[j],
            forall|j: int|
                0 <= j < c0.len() ==> match (#[trigger] c0[j]).kind {
                    ChunkKind::EntryPoint { module, .. } => module < exec_orders.len(),
                    ChunkKind::Common => c0[j].modules.len() > 0 && c0[j].modules@[0] < exec_orders.len(),
                },
        decreases len - k,
    {
        let key: u64 = match chunks[k].kind {
            ChunkKind::EntryPoint { module, .. } => exec_orders[module] as u64 * 2,
            ChunkKind::Common => exec_orders[chunks[k].modules[0]] as u64 * 2 + 1,
        };
        keys.push(key);
        k += 1;
    }
    let mut c: usize = 0;
    while c < len
        invariant
            len == c0.len(),
            len <= u32::MAX + 1,
            ks == chunk_exec_keys(exec_orders@, c0),
            keys.len() == len,
            forall|j: int| 0 <= j < len ==> #[trigger] keys@[j] as int == ks[j],
            c <= len,
            chunks.len() == len,
            forall|j: int|
                0 <= j < len ==> (#[trigger] chunks[j]).kind == c0[j].kind && chunks[j].name == c0[j].name
                    && chunks[j].bits == c0[j].bits && chunks[j].modules == c0[j].modules,
            forall|j: int| 0 <= j < c ==> (#[trigger] chunks[j]).exec_order == stable_rank(ks, j),
        decreases len - c,
    {
        let mut count: usize = 0;
        let mut d: usize = 0;
        while d < len
            invariant
                len == c0.len(),
                keys.len() == len,
                forall|j: int| 0 <= j < len ==> #[trigger] keys@[j] as int == ks[j],
                ks.len() == len,
                c < len,
                d <= len,
                count == count_before(ks, c as int, d as int),
                count <= d,
            decreases len - d,
        {
            proof {
                lemma_count_before_bound(ks, c as int, d as int + 1);
            }
            if keys[d] < keys[c] || (keys[d] == keys[c] && d < c) {
                count += 1;
            }
            d += 1;
        }
        proof {
            lemma_count_before_bound(ks, c as int, len as int);
        }
        let ghost ch = chunks@;
        chunks[c].exec_order = count as u32;
        proof {
            assert forall|j: int| 0 <= j < len && j != c implies #[trigger] chunks[j] == ch[j] by {}
        }
        c += 1;
    }
}

/// The key of a chunk in output order: the user's entries first, in the order the user gave
/// them, then common chunks, then the chunks of dynamic imports, each by execution order.
pub open spec fn chunk_output_key(c: Chunk, idx: int) -> int {
    match c.kind {
        ChunkKind::EntryPoint { is_user_defined, .. } => if is_user_defined {
            idx
        } else {
            0x2_0000_0000 + c.exec_order
        },
        ChunkKind::Common => 0x1_0000_0000 + c.exec_order,
    }
}

/// The chunks in output order, by [`chunk_output_key`].
fn sort_chunk_indices(chunks: &Vec<Chunk>) -> (r: Vec<usize>)
    requires
        chunks.len() <= u32::MAX + 1,
    ensures
        r.len() == chunks.len(),
        r@.no_duplicates(),
        forall|c: usize| #[trigger] r@.contains(c) <==> c < chunks.len(),
        forall|i: int, j: int|
            0 <= i < j < r.len() ==> chunk_output_key(chunks[#[trigger] r@[i] as int], r@[i] as int) <= chunk_output_key(
                chunks[#[trigger] r@[j] as int],
                r@[j] as int,
            ),
{
    let len = chunks.len();
    let mut keys: Vec<u64> = Vec::new();
    let mut k: usize = 0;
    while k < len
        invariant
            len == chunks.len(),
            len <= u32::MAX + 1,
            k <= len,
            keys.len() == k,
            forall|j: int| 0 <= j < k ==> #[trigger] keys@[j] as int == chunk_output_key(chunks[j], j),
        decreases len - k,
    {
        let key: u64 = match chunks[k].kind {
            ChunkKind::EntryPoint { is_user_defined, .. } => if is_user_defined {
                k as u64
            } else {
                0x2_0000_0000u64 + chunks[k].exec_order as u64
            },
            ChunkKind::Common => 0x1_0000_0000u64 + chunks[k].exec_order as u64,
        };
        keys.push(key);
        k += 1;
    }
    let mut r: Vec<usize> = Vec::new();
    let mut c: usize = 0;
    while c < len
        invariant
            len == chunks.len(),
            keys.len() == len,
            forall|j: int| 0 <= j < len ==> #[trigger] keys@[j] as int == chunk_output_key(chunks[j], j),
            c <= len,
            r.len() == c,
            r@.no_duplicates(),
            forall|x: usize| #[trigger] r@.contains(x) <==> x < c,
            forall|i: int| 0 <= i < r.len() ==> #[trigger] r@[i] < keys.len(),
            sorted_by_key(r@, keys@),
        decreases len - c,
    {
        proof {
            assert(!r@.contains(c));
        }
        insert_by_key(&mut r, c, &keys);
        c += 1;
    }
    proof {
        assert forall|i: int, j: int|
            0 <= i < j < r.len() implies chunk_output_key(chunks[#[trigger] r@[i] as int], r@[i] as int) <= chunk_output_key(
                chunks[#[trigger] r@[j] as int],
                r@[j] as int,
            ) by {
            assert(keys@[r@[i] as int] <= keys@[r@[j] as int]);
        }
    }
    r
}

/// `s` is ordered by the execution order of its modules.
pub open spec fn sorted_by_exec_order(s: Seq<usize>, exec_orders: Seq<u32>) -> bool {
    forall|i: int, j: int|
        0 <= i < j < s.len() ==> exec_orders[#[trigger] s[i] as int] <= exec_orders[#[trigger] s[j] as int]
}

proof fn lemma_entry_chunks_kept(modules: Seq<Module>, entries: Seq<EntryPoint>, a: Seq<Chunk>, b: Seq<Chunk>)
    requires
        entry_chunks_ok(modules, entries, a),
        b.len() >= a.len(),
        forall|k: int|
            0 <= k < a.len() ==> (#[trigger] b[k]).kind == a[k].kind && b[k].name == a[k].name && b[k].bits@ == a[k].bits@,
        forall|k: int| a.len() <= k < b.len() ==> (#[trigger] b[k]).kind == ChunkKind::Common,
    ensures
        entry_chunks_ok(modules, entries, b),
        forall|r: Seq<Option<usize>>| entry_chunk_map_ok(a, r) ==> #[trigger] entry_chunk_map_ok(b, r),
{
    assert forall|k1: int, k2: int|
        0 <= k1 < k2 < b.len() && (#[trigger] b[k2]).kind is EntryPoint implies (#[trigger] b[k1]).kind is EntryPoint
            && entry_bit(b[k1]) < entry_bit(b[k2]) by {
        assert(a[k2].kind is EntryPoint);
        assert(entry_bit(a[k1]) < entry_bit(a[k2]));
    }
    assert forall|k: int|
        0 <= k < b.len() && (#[trigger] b[k]).kind is EntryPoint implies is_entry_chunk_of(modules, entries, b[k], entry_bit(b[k])) by {
        assert(a[k].kind is EntryPoint);
        assert(is_entry_chunk_of(modules, entries, a[k], entry_bit(a[k])));
    }
    assert forall|i: int|
        0 <= i < entries.len() && !modules[entries[i].id as int].is_external implies exists|k: int|
            0 <= k < b.len() && (#[trigger] b[k]).kind is EntryPoint && entry_bit(b[k]) == i by {
        let k = choose|k: int| 0 <= k < a.len() && (#[trigger] a[k]).kind is EntryPoint && entry_bit(a[k]) == i;
        assert(b[k].kind is EntryPoint);
    }
    assert forall|r: Seq<Option<usize>>| entry_chunk_map_ok(a, r) implies #[trigger] entry_chunk_map_ok(b, r) by {
        assert forall|m: int|
            0 <= m < r.len() implies match #[trigger] r[m] {
                Some(k) => k < b.len() && is_entry_chunk_for(b[k as int], m) && forall|k2: int|
                    k < k2 < b.len() ==> !is_entry_chunk_for(#[trigger] b[k2], m),
                None => forall|k2: int| 0 <= k2 < b.len() ==> !is_entry_chunk_for(#[trigger] b[k2], m),
            } by {
            match r[m] {
                Some(k) => {
                    assert(is_entry_chunk_for(a[k as int], m));
                    assert forall|k2: int| k < k2 < b.len() implies !is_entry_chunk_for(#[trigger] b[k2], m) by {
                        if k2 < a.len() {
                            assert(!is_entry_chunk_for(a[k2], m));
                        }
                    }
                },
                None => {
                    assert forall|k2: int| 0 <= k2 < b.len() implies !is_entry_chunk_for(#[trigger] b[k2], m) by {
                        if k2 < a.len() {
                            assert(!is_entry_chunk_for(a[k2], m));
                        }
                    }
                },
            }
        }
    }
}

/// Code splitting. Each entry whose module is bundled gets a chunk, in entry order. Each
/// emitted module (bundled and kept by tree shaking) is marked with the set of entries that
/// reach it through emitted modules, and goes into the chunk with exactly that set: the
/// entry's chunk when only one entry reaches it, otherwise a common chunk made for that set
/// the first time a module needs it. Modules of a chunk are in execution order. Chunks are
/// then given their execution order and an output order.
pub fn generate_chunks(
    modules: &Vec<Module>,
    metadata: &Vec<LinkingMetadata>,
    included: &Vec<bool>,
    exec_orders: &Vec<u32>,
    entries: &Vec<EntryPoint>,
) -> (g: ChunkGraph)
    requires
        split_input_ok(modules@, metadata@, included@, exec_orders@, entries@),
        modules.len() + entries.len() <= u32::MAX,
    ensures
        entry_chunks_ok(modules@, entries@, g.chunk_table@),
        forall|k: int|
            0 <= k < g.chunk_table.len() && (#[trigger] g.chunk_table[k]).kind == ChunkKind::Common ==> g.chunk_table[k].name
                is None && g.chunk_table[k].modules.len() > 0,
        forall|k1: int, k2: int|
            0 <= k1 < g.chunk_table.len() && 0 <= k2 < g.chunk_table.len() && k1 != k2 ==> (
            #[trigger] g.chunk_table[k1]).bits@ != (#[trigger] g.chunk_table[k2]).bits@,
        forall|k: int, x: usize|
            0 <= k < g.chunk_table.len() ==> (#[trigger] g.chunk_table[k].modules@.contains(x) <==> (emitted(
                modules@,
                included@,
                x as int,
            ) && g.chunk_table[k].bits@ == entry_bits(modules@, metadata@, included@, entries@, x))),
        forall|k: int|
            0 <= k < g.chunk_table.len() ==> sorted_by_exec_order((#[trigger] g.chunk_table[k]).modules@, exec_orders@)
                && g.chunk_table[k].modules@.no_duplicates(),
        forall|k1: int, k2: int|
            0 <= k1 < k2 < g.chunk_table.len() && (#[trigger] g.chunk_table[k1]).kind == ChunkKind::Common ==> precedes_all(
                g.chunk_table[k1].modules@,
                (#[trigger] g.chunk_table[k2]).modules@,
            ),
        g.module_to_chunk.len() == modules.len(),
        forall|x: int|
            0 <= x < modules.len() ==> ((#[trigger] g.module_to_chunk[x]) is Some <==> emitted(modules@, included@, x)),
        forall|x: int|
            0 <= x < modules.len() && (#[trigger] g.module_to_chunk[x]) is Some ==> g.module_to_chunk[x]->0
                < g.chunk_table.len() && g.chunk_table[g.module_to_chunk[x]->0 as int].modules@.contains(x as usize),
        g.entry_module_to_entry_chunk.len() == modules.len(),
        entry_chunk_map_ok(g.chunk_table@, g.entry_module_to_entry_chunk@),
        forall|k: int|
            0 <= k < g.chunk_table.len() ==> (#[trigger] g.chunk_table[k]).exec_order == stable_rank(
                chunk_exec_keys(exec_orders@, g.chunk_table@),
                k,
            ),
        g.sorted_chunk_idx_vec.len() == g.chunk_table.len(),
        g.sorted_chunk_idx_vec@.no_duplicates(),
        forall|c: usize| #[trigger] g.sorted_chunk_idx_vec@.contains(c) <==> c < g.chunk_table.len(),
        forall|i: int, j: int|
            0 <= i < j < g.sorted_chunk_idx_vec.len() ==> chunk_output_key(
                g.chunk_table[#[trigger] g.sorted_chunk_idx_vec@[i] as int],
                g.sorted_chunk_idx_vec@[i] as int,
            ) <= chunk_output_key(
                g.chunk_table[#[trigger] g.sorted_chunk_idx_vec@[j] as int],
                g.sorted_chunk_idx_vec@[j] as int,
            ),
{
    let n = modules.len();
    let (mut chunks, entry_chunk_of) = create_entry_chunks(modules, entries);
    let ghost c_entry = chunks@;
    let bits_of = module_entry_bits(modules, metadata, included, exec_orders, entries);
    let mut exec_keys: Vec<u64> = Vec::new();
    let mut m: usize = 0;
    while m < n
        invariant
            n == modules.len(),
            n == exec_orders.len(),
            m <= n,
            exec_keys.len() == m,
            forall|j: int| 0 <= j < m ==> #[trigger] exec_keys@[j] == exec_orders@[j] as u64,
        decreases n - m,
    {
        exec_keys.push(exec_orders[m] as u64);
        m += 1;
    }
    proof {
        assert forall|k1: int, k2: int|
            0 <= k1 < chunks.len() && 0 <= k2 < chunks.len() && k1 != k2 implies (#[trigger] chunks[k1]).bits@
                != (#[trigger] chunks[k2]).bits@ by {
            let b1 = entry_bit(chunks[k1]);
            let b2 = entry_bit(chunks[k2]);
            if k1 < k2 {
                assert(b1 < b2);
            } else {
                assert(b2 < b1);
            }
            assert(chunks[k1].bits@[b1] != chunks[k2].bits@[b1]);
        }
    }
    let module_to_chunk = assign_modules(modules, included, &bits_of, &exec_keys, &mut chunks);
    let ghost c_assigned = chunks@;
    proof {
        lemma_entry_chunks_kept(modules@, entries@, c_entry, c_assigned);
        assert forall|k: int|
            0 <= k < chunks.len() implies match (#[trigger] chunks[k]).kind {
                ChunkKind::EntryPoint { module, .. } => module < exec_orders.len(),
                ChunkKind::Common => chunks[k].modules.len() > 0 && chunks[k].modules@[0] < exec_orders.len(),
            } by {
            if k < c_entry.len() {
                assert(is_entry_chunk_of(modules@, entries@, c_entry[k], entry_bit(c_entry[k])));
            }
        }
    }
    rank_chunks(&mut chunks, exec_orders);
    proof {
        lemma_entry_chunks_kept(modules@, entries@, c_assigned, chunks@);
        assert forall|k: int| 0 <= k < chunks.len() implies chunk_exec_keys(exec_orders@, chunks@)[k]
            == chunk_exec_keys(exec_orders@, c_assigned)[k] by {
            assert(chunks[k].kind == c_assigned[k].kind && chunks[k].modules == c_assigned[k].modules);
        }
        assert(chunk_exec_keys(exec_orders@, chunks@) =~= chunk_exec_keys(exec_orders@, c_assigned));
    }
    let sorted = sort_chunk_indices(&chunks);
    ChunkGraph {
        chunk_table: chunks,
        sorted_chunk_idx_vec: sorted,
        module_to_chunk,
        entry_module_to_entry_chunk: entry_chunk_of,
    }
}

} // verus!
