use vstd::prelude::*;
use vstd::string::*;

use crate::strings::{copy_str, lemma_lt_asymmetric, lemma_lt_transitive, seq_lt, str_eq, str_lt};
use crate::types::{DeterminedSideEffects, EntryPoint, EntryPointKind, ImportKind, ModuleIdx, ModuleType, StmtInfo};

verus! {

/// What a plugin hook said of a module's side effects.
#[derive(Clone, Copy, Debug, PartialEq, Eq, Structural)]
pub enum HookSideEffects {
    True,
    False,
    NoTreeshake,
}

/// The side effects given to an external module: what the hook said, and
/// "keep it whole" when it said nothing.
pub open spec fn external_side_effects_spec(hook: Option<HookSideEffects>) -> DeterminedSideEffects {
    match hook {
        Some(HookSideEffects::True) => DeterminedSideEffects::UserDefined(true),
        Some(HookSideEffects::False) => DeterminedSideEffects::UserDefined(false),
        Some(HookSideEffects::NoTreeshake) => DeterminedSideEffects::NoTreeshake,
        None => DeterminedSideEffects::NoTreeshake,
    }
}

pub fn external_module_side_effects(hook: Option<HookSideEffects>) -> (r: DeterminedSideEffects)
    ensures
        r == external_side_effects_spec(hook),
{
    match hook {
        Some(HookSideEffects::True) => DeterminedSideEffects::UserDefined(true),
        Some(HookSideEffects::False) => DeterminedSideEffects::UserDefined(false),
        Some(HookSideEffects::NoTreeshake) => DeterminedSideEffects::NoTreeshake,
        None => DeterminedSideEffects::NoTreeshake,
    }
}

/// Some statement of the module has side effects.
pub open spec fn any_stmt_side_effect(stmts: Seq<StmtInfo>) -> bool {
    exists|i: int| 0 <= i < stmts.len() && (#[trigger] stmts[i]).side_effect
}

/// The side effects a loaded module has by its own facts: a CSS module has side effects;
/// else what `package.json` says of the module, when it says something; else whether any
/// statement has side effects.
pub open spec fn own_side_effects_spec(
    module_type: ModuleType,
    package_json_side_effects: Option<bool>,
    stmts: Seq<StmtInfo>,
) -> DeterminedSideEffects {
    if module_type is Css {
        DeterminedSideEffects::Analyzed(true)
    } else {
        match package_json_side_effects {
            Some(b) => DeterminedSideEffects::UserDefined(b),
            None => DeterminedSideEffects::Analyzed(any_stmt_side_effect(stmts)),
        }
    }
}

/// The side effects of a loaded module, by priority: a hook first ("false" is taken at its
/// word, "no treeshake" keeps the module whole, "true" defers), then `package.json`, then
/// the analysis (see [`own_side_effects_spec`]).
pub open spec fn module_side_effects_spec(
    hook: Option<HookSideEffects>,
    module_type: ModuleType,
    package_json_side_effects: Option<bool>,
    stmts: Seq<StmtInfo>,
) -> DeterminedSideEffects {
    match hook {
        Some(HookSideEffects::False) => DeterminedSideEffects::UserDefined(false),
        Some(HookSideEffects::NoTreeshake) => DeterminedSideEffects::NoTreeshake,
        _ => own_side_effects_spec(module_type, package_json_side_effects, stmts),
    }
}

fn any_side_effect(stmts: &Vec<StmtInfo>) -> (r: bool)
    ensures
        r == any_stmt_side_effect(stmts@),
{
    let mut i: usize = 0;
    while i < stmts.len()
        invariant
            i <= stmts.len(),
            forall|j: int| 0 <= j < i ==> !(#[trigger] stmts@[j]).side_effect,
        decreases stmts.len() - i,
    {
        if stmts[i].side_effect {
            return true;
        }
        i += 1;
    }
    false
}

pub fn module_side_effects(
    hook: Option<HookSideEffects>,
    module_type: ModuleType,
    package_json_side_effects: Option<bool>,
    stmt_infos: &Vec<StmtInfo>,
) -> (r: DeterminedSideEffects)
    ensures
        r == module_side_effects_spec(hook, module_type, package_json_side_effects, stmt_infos@),
{
    match hook {
        Some(HookSideEffects::False) => DeterminedSideEffects::UserDefined(false),
        Some(HookSideEffects::NoTreeshake) => DeterminedSideEffects::NoTreeshake,
        _ => {
            if module_type == ModuleType::Css {
                DeterminedSideEffects::Analyzed(true)
            } else {
                match package_json_side_effects {
                    Some(b) => DeterminedSideEffects::UserDefined(b),
                    None => DeterminedSideEffects::Analyzed(any_side_effect(stmt_infos)),
                }
            }
        },
    }
}

/// The text after the last `.` of `id`; empty when `id` has no `.`.
pub open spec fn extension_of(id: Seq<char>) -> Seq<char> {
    if exists|i: int| 0 <= i < id.len() && id[i] == '.' {
        let d = choose|i: int| 0 <= i < id.len() && id[i] == '.' && forall|j: int| i < j < id.len() ==> id[j] != '.';
        id.subrange(d + 1, id.len() as int)
    } else {
        Seq::empty()
    }
}

/// The module type that a file extension stands for; JavaScript for any other.
pub open spec fn module_type_for_extension(ext: Seq<char>) -> ModuleType {
    if ext == "js"@ || ext == "mjs"@ || ext == "cjs"@ {
        ModuleType::Js
    } else if ext == "ts"@ || ext == "mts"@ || ext == "cts"@ {
        ModuleType::Ts
    } else if ext == "jsx"@ {
        ModuleType::Jsx
    } else if ext == "tsx"@ {
        ModuleType::Tsx
    } else if ext == "json"@ {
        ModuleType::Json
    } else if ext == "txt"@ {
        ModuleType::Text
    } else if ext == "css"@ {
        ModuleType::Css
    } else {
        ModuleType::Js
    }
}

/// The last `.` of `id`, if any.
fn last_dot(id: &str) -> (r: Option<usize>)
    ensures
        match r {
            Some(d) => d < id@.len() && id@[d as int] == '.' && forall|j: int| d < j < id@.len() ==> id@[j] != '.',
            None => forall|j: int| 0 <= j < id@.len() ==> id@[j] != '.',
        },
{
    let n = id.unicode_len();
    let mut i: usize = n;
    while i > 0
        invariant
            n == id@.len(),
            i <= n,
            forall|j: int| i <= j < n ==> id@[j] != '.',
        decreases i,
    {
        if id.get_char(i - 1) == '.' {
            return Some(i - 1);
        }
        i -= 1;
    }
    None
}

/// The module type of a file, by the extension of its id.
pub fn module_type_from_extension(id: &str) -> (t: ModuleType)
    ensures
        t == module_type_for_extension(extension_of(id@)),
{
    let n = id.unicode_len();
    let ext: &str = match last_dot(id) {
        Some(d) => {
            proof {
                let dd = choose|i: int|
                    0 <= i < id@.len() && id@[i] == '.' && forall|j: int| i < j < id@.len() ==> id@[j] != '.';
                assert(dd == d as int) by {
                    if dd < d {
                        assert(id@[d as int] != '.');
                    }
                    if d < dd {
                        assert(id@[dd] != '.');
                    }
                }
            }
            id.substring_char(d + 1, n)
        },
        None => "",
    };
    proof {
        reveal_strlit("");
        assert(ext@ == extension_of(id@));
    }
    if str_eq(ext, "js") || str_eq(ext, "mjs") || str_eq(ext, "cjs") {
        ModuleType::Js
    } else if str_eq(ext, "ts") || str_eq(ext, "mts") || str_eq(ext, "cts") {
        ModuleType::Ts
    } else if str_eq(ext, "jsx") {
        ModuleType::Jsx
    } else if str_eq(ext, "tsx") {
        ModuleType::Tsx
    } else if str_eq(ext, "json") {
        ModuleType::Json
    } else if str_eq(ext, "txt") {
        ModuleType::Text
    } else if str_eq(ext, "css") {
        ModuleType::Css
    } else {
        ModuleType::Js
    }
}

/// The module type a module is loaded as: the asserted one when there is one; else an
/// ignored module is empty, and another one goes by its extension.
pub open spec fn source_module_type_spec(ignored: bool, asserted: Option<ModuleType>, id: Seq<char>) -> ModuleType {
    match asserted {
        Some(t) => t,
        None => if ignored {
            ModuleType::Empty
        } else {
            module_type_for_extension(extension_of(id))
        },
    }
}

pub fn source_module_type(ignored: bool, asserted: Option<ModuleType>, id: &str) -> (t: ModuleType)
    ensures
        t == source_module_type_spec(ignored, asserted, id@),
{
    match asserted {
        Some(t) => t,
        None => if ignored {
            ModuleType::Empty
        } else {
            module_type_from_extension(id)
        },
    }
}

/// Whether the source of a module of this type is read as bytes rather than text.
pub fn reads_source_as_bytes(t: ModuleType) -> (r: bool)
    ensures
        r == (t is Base64 || t is Binary || t is Dataurl || t is Asset),
{
    match t {
        ModuleType::Base64 | ModuleType::Binary | ModuleType::Dataurl | ModuleType::Asset => true,
        _ => false,
    }
}

/// `ids` holds `x`.
fn contains_str(ids: &Vec<String>, x: &String) -> (r: bool)
    ensures
        r == exists|i: int| 0 <= i < ids.len() && (#[trigger] ids@[i])@ == x@,
{
    let mut i: usize = 0;
    while i < ids.len()
        invariant
            i <= ids.len(),
            forall|j: int| 0 <= j < i ==> (#[trigger] ids@[j])@ != x@,
        decreases ids.len() - i,
    {
        if str_eq(ids[i].as_str(), x.as_str()) {
            return true;
        }
        i += 1;
    }
    false
}

/// `s` with each item after its first occurrence left out.
pub open spec fn first_occurrences(s: Seq<Seq<char>>) -> Seq<Seq<char>>
    decreases s.len(),
{
    if s.len() == 0 {
        s
    } else {
        let rest = first_occurrences(s.drop_last());
        if rest.contains(s.last()) {
            rest
        } else {
            rest.push(s.last())
        }
    }
}

proof fn lemma_first_occurrences_contains(s: Seq<Seq<char>>, x: Seq<char>)
    ensures
        first_occurrences(s).contains(x) <==> s.contains(x),
    decreases s.len(),
{
    if s.len() > 0 {
        let p = s.drop_last();
        let y = s.last();
        lemma_first_occurrences_contains(p, x);
        assert(s =~= p.push(y));
        assert(s.contains(x) <==> (p.contains(x) || x == y)) by {
            if s.contains(x) && x != y {
                let i = choose|i: int| 0 <= i < s.len() && s[i] == x;
                assert(p[i] == x);
            }
            if p.contains(x) {
                let i = choose|i: int| 0 <= i < p.len() && p[i] == x;
                assert(s[i] == x);
            }
            if x == y {
                assert(s[s.len() - 1] == x);
            }
        }
        let rest = first_occurrences(p);
        lemma_first_occurrences_contains(p, y);
        if !rest.contains(y) {
            assert(rest.push(y).contains(x) <==> (rest.contains(x) || x == y)) by {
                if rest.push(y).contains(x) && x != y {
                    let i = choose|i: int| 0 <= i < rest.push(y).len() && rest.push(y)[i] == x;
                    assert(rest[i] == x);
                }
                if rest.contains(x) {
                    let i = choose|i: int| 0 <= i < rest.len() && rest[i] == x;
                    assert(rest.push(y)[i] == x);
                }
                if x == y {
                    assert(rest.push(y)[rest.len() as int] == x);
                }
            }
        }
    }
}

/// The ids of the records of a script module, split into the statically and the
/// dynamically imported ones (a script has no `@import` or `url()` record).
pub fn split_imported_ids(kinds: &Vec<ImportKind>, ids: &Vec<String>) -> (r: (Vec<String>, Vec<String>))
    requires
        kinds.len() == ids.len(),
        forall|i: int| 0 <= i < kinds.len() ==> !(#[trigger] kinds@[i] is AtImport) && !(kinds@[i] is UrlImport),
    ensures
        views_of(r.0@) == first_occurrences(picked(kinds@, views_of(ids@), false, kinds.len() as int)),
        views_of(r.1@) == first_occurrences(picked(kinds@, views_of(ids@), true, kinds.len() as int)),
{
    partition_by_dynamic(kinds, ids)
}

/// `ids` split by their kinds into those not of `import()` and those of `import()`, each
/// in order of first occurrence.
fn partition_by_dynamic(kinds: &Vec<ImportKind>, ids: &Vec<String>) -> (r: (Vec<String>, Vec<String>))
    requires
        kinds.len() == ids.len(),
    ensures
        views_of(r.0@) == first_occurrences(picked(kinds@, views_of(ids@), false, kinds.len() as int)),
        views_of(r.1@) == first_occurrences(picked(kinds@, views_of(ids@), true, kinds.len() as int)),
{
    let mut imported: Vec<String> = Vec::new();
    let mut dynamically: Vec<String> = Vec::new();
    let mut i: usize = 0;
    while i < kinds.len()
        invariant
            kinds.len() == ids.len(),
            i <= kinds.len(),
            views_of(imported@) == first_occurrences(picked(kinds@, views_of(ids@), false, i as int)),
            views_of(dynamically@) == first_occurrences(picked(kinds@, views_of(ids@), true, i as int)),
        decreases kinds.len() - i,
    {
        let id = &ids[i];
        let ghost vi = views_of(ids@);
        let ghost ps = picked(kinds@, vi, false, i as int);
        let ghost pd = picked(kinds@, vi, true, i as int);
        proof {
            lemma_first_occurrences_contains(ps, id@);
            lemma_first_occurrences_contains(pd, id@);
            assert(vi[i as int] == id@);
        }
        match kinds[i] {
            ImportKind::DynamicImport => {
                let present = contains_str(&dynamically, id);
                proof {
                    let q = picked(kinds@, vi, true, i + 1);
                    assert(q.drop_last() =~= pd);
                    assert(q.last() == id@);
                    assert(present <==> first_occurrences(pd).contains(id@)) by {
                        if present {
                            let j = choose|j: int| 0 <= j < dynamically.len() && (#[trigger] dynamically@[j])@ == id@;
                            assert(views_of(dynamically@)[j] == id@);
                        }
                        if first_occurrences(pd).contains(id@) {
                            let j = choose|j: int| 0 <= j < views_of(dynamically@).len() && views_of(dynamically@)[j] == id@;
                            assert(dynamically@[j]@ == id@);
                        }
                    }
                    assert(picked(kinds@, vi, false, i + 1) == ps);
                }
                if !present {
                    dynamically.push(id.clone());
                    proof {
                        assert(views_of(dynamically@) =~= first_occurrences(pd).push(id@));
                    }
                }
            },
            _ => {
                let present = contains_str(&imported, id);
                proof {
                    let q = picked(kinds@, vi, false, i + 1);
                    assert(q.drop_last() =~= ps);
                    assert(q.last() == id@);
                    assert(present <==> first_occurrences(ps).contains(id@)) by {
                        if present {
                            let j = choose|j: int| 0 <= j < imported.len() && (#[trigger] imported@[j])@ == id@;
                            assert(views_of(imported@)[j] == id@);
                        }
                        if first_occurrences(ps).contains(id@) {
                            let j = choose|j: int| 0 <= j < views_of(imported@).len() && views_of(imported@)[j] == id@;
                            assert(imported@[j]@ == id@);
                        }
                    }
                    assert(picked(kinds@, vi, true, i + 1) == pd);
                }
                if !present {
                    imported.push(id.clone());
                    proof {
                        assert(views_of(imported@) =~= first_occurrences(ps).push(id@));
                    }
                }
            },
        }
        i += 1;
    }
    (imported, dynamically)
}

/// The views of strings.
pub open spec fn views_of(v: Seq<String>) -> Seq<Seq<char>> {
    Seq::new(v.len(), |i: int| v[i]@)
}

/// Of the first `n` ids, those whose record is (`dynamic`) or is not an `import()`.
pub open spec fn picked(kinds: Seq<ImportKind>, ids: Seq<Seq<char>>, dynamic: bool, n: int) -> Seq<Seq<char>>
    decreases n,
{
    if n <= 0 {
        Seq::empty()
    } else if (kinds[n - 1] is DynamicImport) == dynamic {
        picked(kinds, ids, dynamic, n - 1).push(ids[n - 1])
    } else {
        picked(kinds, ids, dynamic, n - 1)
    }
}


/// What the loader does with a resolved id.
#[derive(Clone, Copy, Debug, PartialEq, Eq, Structural)]
pub enum SpawnDecision {
    /// The id was seen before: it is that module.
    Visited(ModuleIdx),
    /// A new external module, made on the spot with these side effects.
    External(ModuleIdx, DeterminedSideEffects),
    /// A new module, to be loaded by a task.
    Spawn(ModuleIdx),
}

impl SpawnDecision {
    pub open spec fn spec_idx(self) -> ModuleIdx {
        match self {
            SpawnDecision::Visited(i) => i,
            SpawnDecision::External(i, _) => i,
            SpawnDecision::Spawn(i) => i,
        }
    }

    pub fn idx(&self) -> (r: ModuleIdx)
        ensures
            r == self.spec_idx(),
    {
        match self {
            SpawnDecision::Visited(i) => *i,
            SpawnDecision::External(i, _) => *i,
            SpawnDecision::Spawn(i) => *i,
        }
    }
}

/// A module that imports another one, and how.
#[derive(Clone, Debug)]
pub struct ImporterRecord {
    pub kind: ImportKind,
    pub importer_path: String,
}

/// The loader's bookkeeping while modules are fetched: which id is which module, how
/// many tasks are still running, who imports whom, and which modules are entries.
pub struct ModuleLoaderState {
    /// Each resolved id seen so far, with its module.
    pub visited: Vec<(String, ModuleIdx)>,
    /// For each module allocated so far, the modules that import it.
    pub importers: Vec<Vec<ImporterRecord>>,
    /// Tasks started and not finished.
    pub remaining: u32,
    pub runtime_id: ModuleIdx,
    pub user_defined_entry_ids: Vec<ModuleIdx>,
    /// Modules loaded with `import()` that are not user entries, each once.
    pub dynamic_import_entry_ids: Vec<ModuleIdx>,
}

/// The ids seen, with their modules.
pub open spec fn visited_view(v: Seq<(String, ModuleIdx)>) -> Seq<(Seq<char>, ModuleIdx)> {
    Seq::new(v.len(), |i: int| (v[i].0@, v[i].1))
}

pub open spec fn has_id(v: Seq<(Seq<char>, ModuleIdx)>, id: Seq<char>) -> bool {
    exists|i: int| 0 <= i < v.len() && (#[trigger] v[i]).0 == id
}

/// The module of a seen id.
pub open spec fn module_of(v: Seq<(Seq<char>, ModuleIdx)>, id: Seq<char>) -> ModuleIdx {
    v[choose|i: int| 0 <= i < v.len() && (#[trigger] v[i]).0 == id].1
}

impl ModuleLoaderState {
    pub open spec fn view_visited(&self) -> Seq<(Seq<char>, ModuleIdx)> {
        visited_view(self.visited@)
    }

    /// Modules allocated so far.
    /// No dynamic entry is a user entry.
    pub open spec fn entries_apart(&self) -> bool {
        forall|x: ModuleIdx| #[trigger] self.dynamic_import_entry_ids@.contains(x) ==> !self.user_defined_entry_ids@.contains(x)
    }

    pub open spec fn module_count(&self) -> nat {
        self.importers@.len()
    }

    /// Each id is seen once, the id seen at position `i` is module `i` (so there is one
    /// module per id and one id per module), and every module index in the state is one
    /// allocated.
    pub open spec fn wf(&self) -> bool {
        let v = self.view_visited();
        &&& v.len() == self.module_count()
        &&& forall|i: int| 0 <= i < v.len() ==> (#[trigger] v[i]).1 == i
        &&& forall|i: int, j: int| 0 <= i < v.len() && 0 <= j < v.len() && i != j ==> (#[trigger] v[i]).0 != (#[trigger] v[j]).0
        &&& forall|i: int, j: int| 0 <= i < v.len() && 0 <= j < v.len() && i != j ==> (#[trigger] v[i]).1 != (#[trigger] v[j]).1
        &&& forall|i: int| 0 <= i < v.len() ==> (#[trigger] v[i]).1 < self.module_count()
        &&& self.runtime_id < self.module_count()
        &&& forall|i: int| 0 <= i < self.user_defined_entry_ids.len() ==> #[trigger] self.user_defined_entry_ids@[i] < self.module_count()
        &&& forall|i: int| 0 <= i < self.dynamic_import_entry_ids.len() ==> #[trigger] self.dynamic_import_entry_ids@[i] < self.module_count()
        &&& self.dynamic_import_entry_ids@.no_duplicates()
    }

    /// A loader that knows only the runtime module, whose task is started.
    pub fn new(runtime_module_id: &String) -> (s: Self)
        ensures
            s.wf(),
            s.module_count() == 1,
            s.runtime_id == 0,
            s.view_visited() == seq![(runtime_module_id@, 0usize)],
            s.remaining == 1,
            s.importers@[0]@.len() == 0,
            s.user_defined_entry_ids@.len() == 0,
            s.dynamic_import_entry_ids@.len() == 0,
            s.entries_apart(),
    {
        let mut importers: Vec<Vec<ImporterRecord>> = Vec::new();
        importers.push(Vec::new());
        let mut visited: Vec<(String, ModuleIdx)> = Vec::new();
        visited.push((runtime_module_id.clone(), 0));
        let s = ModuleLoaderState {
            visited,
            importers,
            remaining: 1,
            runtime_id: 0,
            user_defined_entry_ids: Vec::new(),
            dynamic_import_entry_ids: Vec::new(),
        };
        proof {
            assert(s.view_visited() =~= seq![(runtime_module_id@, 0usize)]);
        }
        s
    }

    fn find_visited(&self, id: &String) -> (r: Option<ModuleIdx>)
        requires
            self.wf(),
        ensures
            match r {
                Some(i) => has_id(self.view_visited(), id@) && i == module_of(self.view_visited(), id@),
                None => !has_id(self.view_visited(), id@),
            },
    {
        let ghost v = self.view_visited();
        let mut k: usize = 0;
        while k < self.visited.len()
            invariant
                self.wf(),
                v == self.view_visited(),
                k <= self.visited.len(),
                forall|j: int| 0 <= j < k ==> (#[trigger] v[j]).0 != id@,
            decreases self.visited.len() - k,
        {
            if str_eq(self.visited[k].0.as_str(), id.as_str()) {
                proof {
                    assert(v[k as int].0 == id@);
                    let c = choose|i: int| 0 <= i < v.len() && (#[trigger] v[i]).0 == id@;
                    assert(c == k as int);
                }
                return Some(self.visited[k].1);
            }
            k += 1;
        }
        None
    }

    /// Looks up a resolved id: a seen id is its module, with nothing changed; a new id gets
    /// the next module index, as an external module (with the hook's side effects) or as a
    /// module whose loading task is started (one more task remaining). Afterwards the id is
    /// always that module.
    pub fn try_spawn_new_task(&mut self, id: &String, is_external: bool, hook_side_effects: Option<HookSideEffects>) -> (d:
        SpawnDecision)
        requires
            old(self).wf(),
            old(self).module_count() < usize::MAX,
            old(self).remaining < u32::MAX,
        ensures
            final(self).wf(),
            has_id(old(self).view_visited(), id@) <==> d is Visited,
            has_id(final(self).view_visited(), id@),
            module_of(final(self).view_visited(), id@) == d.spec_idx(),
            d is Visited ==> *final(self) == *old(self),
            !(d is Visited) ==> {
                &&& d.spec_idx() == old(self).module_count()
                &&& final(self).view_visited() == old(self).view_visited().push((id@, d.spec_idx()))
                &&& final(self).importers@.len() == old(self).importers@.len() + 1
                &&& forall|i: int| 0 <= i < old(self).importers@.len() ==> #[trigger] final(self).importers@[i] == old(self).importers@[i]
                &&& final(self).importers@[d.spec_idx() as int]@.len() == 0
                &&& final(self).runtime_id == old(self).runtime_id
                &&& final(self).user_defined_entry_ids == old(self).user_defined_entry_ids
                &&& final(self).dynamic_import_entry_ids == old(self).dynamic_import_entry_ids
            },
            is_external && !(d is Visited) ==> d == SpawnDecision::External(
                d.spec_idx(),
                external_side_effects_spec(hook_side_effects),
            ) && final(self).remaining == old(self).remaining,
            !is_external && !(d is Visited) ==> d == SpawnDecision::Spawn(d.spec_idx()) && final(self).remaining
                == old(self).remaining + 1,
    {
        match self.find_visited(id) {
            Some(i) => SpawnDecision::Visited(i),
            None => {
                let idx = self.importers.len();
                let ghost v0 = self.view_visited();
                self.importers.push(Vec::new());
                self.visited.push((id.clone(), idx));
                proof {
                    let v = self.view_visited();
                    assert(v =~= v0.push((id@, idx)));
                    assert(v[v.len() - 1].0 == id@);
                    let c = choose|i: int| 0 <= i < v.len() && (#[trigger] v[i]).0 == id@;
                    assert(c == v.len() - 1) by {
                        if c < v.len() - 1 {
                            assert(v0[c].0 == id@);
                        }
                    }
                    assert forall|i: int| 0 <= i < v.len() implies (#[trigger] v[i]).1 < self.module_count() by {
                        if i < v.len() - 1 {
                            assert(v[i] == v0[i]);
                        }
                    }
                    assert forall|i: int, j: int|
                        0 <= i < v.len() && 0 <= j < v.len() && i != j implies (#[trigger] v[i]).1 != (#[trigger] v[j]).1 by {
                        if i < v.len() - 1 && j < v.len() - 1 {
                            assert(v[i] == v0[i] && v[j] == v0[j]);
                        } else if i < v.len() - 1 {
                            assert(v[i] == v0[i]);
                        } else {
                            assert(v[j] == v0[j]);
                        }
                    }
                    assert forall|i: int, j: int|
                        0 <= i < v.len() && 0 <= j < v.len() && i != j implies (#[trigger] v[i]).0 != (#[trigger] v[j]).0 by {
                        if i < v.len() - 1 && j < v.len() - 1 {
                            assert(v[i] == v0[i] && v[j] == v0[j]);
                        } else if i < v.len() - 1 {
                            assert(v[i] == v0[i]);
                        } else {
                            assert(v[j] == v0[j]);
                        }
                    }
                }
                if is_external {
                    SpawnDecision::External(idx, external_module_side_effects(hook_side_effects))
                } else {
                    self.remaining = self.remaining + 1;
                    SpawnDecision::Spawn(idx)
                }
            },
        }
    }

    /// A user entry: its module (loaded as a user entry), which becomes an entry point.
    pub fn add_user_defined_entry(
        &mut self,
        name: Option<String>,
        id: &String,
        is_external: bool,
        hook_side_effects: Option<HookSideEffects>,
    ) -> (r: (EntryPoint, SpawnDecision))
        requires
            old(self).wf(),
            old(self).module_count() < usize::MAX,
            old(self).remaining < u32::MAX,
        ensures
            final(self).wf(),
            r.0.id == r.1.spec_idx(),
            r.0.name == name,
            r.0.kind == EntryPointKind::UserDefined,
            module_of(final(self).view_visited(), id@) == r.1.spec_idx(),
            final(self).user_defined_entry_ids@ == old(self).user_defined_entry_ids@.push(r.1.spec_idx()),
            final(self).dynamic_import_entry_ids == old(self).dynamic_import_entry_ids,
            // user entries come before any `import()` is followed
            old(self).dynamic_import_entry_ids@.len() == 0 ==> final(self).entries_apart(),
            forall|i: int| 0 <= i < old(self).importers@.len() ==> #[trigger] final(self).importers@[i] == old(self).importers@[i],
            final(self).importers@.len() == old(self).importers@.len() + if r.1 is Visited { 0int } else { 1int },
            !(r.1 is Visited) ==> final(self).importers@[r.1.spec_idx() as int]@.len() == 0,
            final(self).view_visited() == if r.1 is Visited {
                old(self).view_visited()
            } else {
                old(self).view_visited().push((id@, r.1.spec_idx()))
            },
            final(self).runtime_id == old(self).runtime_id,
    {
        let d = self.try_spawn_new_task(id, is_external, hook_side_effects);
        let idx = d.idx();
        self.user_defined_entry_ids.push(idx);
        proof {
            let u = self.user_defined_entry_ids@;
            assert forall|i: int| 0 <= i < u.len() implies #[trigger] u[i] < self.module_count() by {
                if i < u.len() - 1 {
                    assert(u[i] == old(self).user_defined_entry_ids@[i]);
                }
            }
        }
        (EntryPoint { name, id: idx, kind: EntryPointKind::UserDefined }, d)
    }

    /// An import record of a loaded module, resolved to `id`: the module it points at,
    /// which records the importer; a module loaded with `import()` that is no user entry
    /// becomes a dynamic entry (once).
    pub fn add_import_record(
        &mut self,
        importer_path: &String,
        kind: ImportKind,
        id: &String,
        is_external: bool,
        hook_side_effects: Option<HookSideEffects>,
    ) -> (d: SpawnDecision)
        requires
            old(self).wf(),
            old(self).module_count() < usize::MAX,
            old(self).remaining < u32::MAX,
        ensures
            final(self).wf(),
            module_of(final(self).view_visited(), id@) == d.spec_idx(),
            d.spec_idx() < final(self).module_count(),
            final(self).importers@[d.spec_idx() as int]@.len() > 0,
            final(self).importers@[d.spec_idx() as int]@.last().kind == kind,
            final(self).importers@[d.spec_idx() as int]@.last().importer_path@ == importer_path@,
            // the importer is added to the module's earlier importers (none for a new module)
            importer_kinds(final(self).importers@[d.spec_idx() as int]@) == importer_kinds(
                old_importers_of(old(self).importers@, d.spec_idx()),
            ).push(kind),
            importer_paths(final(self).importers@[d.spec_idx() as int]@) == importer_paths(
                old_importers_of(old(self).importers@, d.spec_idx()),
            ).push(importer_path@),
            // every other module keeps its importers
            final(self).importers@.len() == old(self).importers@.len() + if d is Visited { 0int } else { 1int },
            forall|i: int|
                0 <= i < old(self).importers@.len() && i != d.spec_idx() ==> #[trigger] final(self).importers@[i]
                    == old(self).importers@[i],
            final(self).view_visited() == if d is Visited {
                old(self).view_visited()
            } else {
                old(self).view_visited().push((id@, d.spec_idx()))
            },
            final(self).runtime_id == old(self).runtime_id,
            // an `import()` target that is no user entry becomes a dynamic entry, once
            final(self).dynamic_import_entry_ids@ == if kind is DynamicImport && !old(self).user_defined_entry_ids@.contains(
                d.spec_idx(),
            ) && !old(self).dynamic_import_entry_ids@.contains(d.spec_idx()) {
                old(self).dynamic_import_entry_ids@.push(d.spec_idx())
            } else {
                old(self).dynamic_import_entry_ids@
            },
            final(self).user_defined_entry_ids == old(self).user_defined_entry_ids,
            old(self).entries_apart() ==> final(self).entries_apart(),
    {
        let d = self.try_spawn_new_task(id, is_external, hook_side_effects);
        let idx = d.idx();
        let ghost mid = self.importers@;
        let mut list: Vec<ImporterRecord> = Vec::new();
        std::mem::swap(&mut list, &mut self.importers[idx]);
        let ghost l0 = list@;
        list.push(ImporterRecord { kind, importer_path: importer_path.clone() });
        std::mem::swap(&mut list, &mut self.importers[idx]);
        proof {
            assert(l0 == old_importers_of(old(self).importers@, idx));
            assert(importer_kinds(self.importers@[idx as int]@) =~= importer_kinds(l0).push(kind));
            assert(importer_paths(self.importers@[idx as int]@) =~= importer_paths(l0).push(importer_path@));
            assert forall|i: int|
                0 <= i < old(self).importers@.len() && i != idx implies #[trigger] self.importers@[i] == old(self).importers@[i] by {
                assert(self.importers@[i] == mid[i]);
            }
        }
        if kind.is_dynamic() {
            let mut is_user_entry = false;
            let mut k: usize = 0;
            while k < self.user_defined_entry_ids.len()
                invariant
                    k <= self.user_defined_entry_ids.len(),
                    !is_user_entry ==> forall|j: int| 0 <= j < k ==> self.user_defined_entry_ids@[j] != idx,
                    is_user_entry ==> self.user_defined_entry_ids@.contains(idx),
                decreases self.user_defined_entry_ids.len() - k,
            {
                if self.user_defined_entry_ids[k] == idx {
                    is_user_entry = true;
                }
                k += 1;
            }
            if !is_user_entry {
                let mut present = false;
                let mut k: usize = 0;
                while k < self.dynamic_import_entry_ids.len()
                    invariant
                        k <= self.dynamic_import_entry_ids.len(),
                        !present ==> forall|j: int| 0 <= j < k ==> self.dynamic_import_entry_ids@[j] != idx,
                        present ==> self.dynamic_import_entry_ids@.contains(idx),
                    decreases self.dynamic_import_entry_ids.len() - k,
                {
                    if self.dynamic_import_entry_ids[k] == idx {
                        present = true;
                    }
                    k += 1;
                }
                if !present {
                    let ghost before = self.dynamic_import_entry_ids@;
                    self.dynamic_import_entry_ids.push(idx);
                    proof {
                        let dd = self.dynamic_import_entry_ids@;
                        assert(dd[dd.len() - 1] == idx);
                        assert forall|x: ModuleIdx| #[trigger] dd.contains(x) implies before.contains(x) || x == idx by {
                            let i = choose|i: int| 0 <= i < dd.len() && dd[i] == x;
                            if i < dd.len() - 1 {
                                assert(before[i] == x);
                            }
                        }
                        assert forall|i: int| 0 <= i < dd.len() implies #[trigger] dd[i] < self.module_count() by {
                            if i < dd.len() - 1 {
                                assert(dd[i] == before[i]);
                            }
                        }
                        assert(dd.no_duplicates()) by {
                            assert forall|i: int, j: int| 0 <= i < dd.len() && 0 <= j < dd.len() && i != j implies dd[i]
                                != dd[j] by {
                                if i < dd.len() - 1 && j < dd.len() - 1 {
                                    assert(dd[i] == before[i] && dd[j] == before[j]);
                                } else if i < dd.len() - 1 {
                                    assert(dd[i] == before[i]);
                                } else {
                                    assert(dd[j] == before[j]);
                                }
                            }
                        }
                    }
                }
            }
        }
        d
    }

    /// A task finished (its module was loaded, or it failed).
    pub fn task_finished(&mut self)
        requires
            old(self).remaining > 0,
        ensures
            final(self).remaining == old(self).remaining - 1,
            final(self).visited == old(self).visited,
            final(self).importers == old(self).importers,
            final(self).runtime_id == old(self).runtime_id,
            final(self).user_defined_entry_ids == old(self).user_defined_entry_ids,
            final(self).dynamic_import_entry_ids == old(self).dynamic_import_entry_ids,
    {
        self.remaining = self.remaining - 1;
    }

    /// Loading is over when no task remains.
    pub fn is_done(&self) -> (r: bool)
        ensures
            r == (self.remaining == 0),
    {
        self.remaining == 0
    }
}


/// `ids` ordered by their keys (ties in no particular order).
pub fn sort_ids_by_key(ids: &Vec<ModuleIdx>, keys: &Vec<String>) -> (r: Vec<ModuleIdx>)
    requires
        forall|i: int| 0 <= i < ids.len() ==> #[trigger] ids@[i] < keys.len(),
    ensures
        r@.to_multiset() == ids@.to_multiset(),
        r.len() == ids.len(),
        forall|i: int| 0 <= i < r.len() ==> #[trigger] r@[i] < keys.len(),
        forall|a: int, b: int| 0 <= a < b < r.len() ==> !seq_lt(#[trigger] keys@[r@[b] as int]@, #[trigger] keys@[r@[a] as int]@),
{
    let mut r: Vec<ModuleIdx> = Vec::new();
    let mut i: usize = 0;
    proof {
        assert(r@ =~= ids@.subrange(0, 0));
    }
    while i < ids.len()
        invariant
            i <= ids.len(),
            r.len() == i,
            forall|q: int| 0 <= q < ids.len() ==> #[trigger] ids@[q] < keys.len(),
            forall|q: int| 0 <= q < r.len() ==> #[trigger] r@[q] < keys.len(),
            forall|a: int, b: int| 0 <= a < b < r.len() ==> !seq_lt(#[trigger] keys@[r@[b] as int]@, #[trigger] keys@[r@[a] as int]@),
            r@.to_multiset() == ids@.subrange(0, i as int).to_multiset(),
        decreases ids.len() - i,
    {
        let x = ids[i];
        let mut pos: usize = 0;
        while pos < r.len() && !str_lt(keys[x].as_str(), keys[r[pos]].as_str())
            invariant
                pos <= r.len(),
                x < keys.len(),
                forall|q: int| 0 <= q < r.len() ==> #[trigger] r@[q] < keys.len(),
                forall|k: int| 0 <= k < pos ==> !seq_lt(keys@[x as int]@, #[trigger] keys@[r@[k] as int]@),
            decreases r.len() - pos,
        {
            pos += 1;
        }
        let ghost s = r@;
        r.insert(pos, x);
        proof {
            s.insert_ensures(pos as int, x);
            let t = r@;
            let kv = |j: ModuleIdx| keys@[j as int]@;
            assert forall|q: int| 0 <= q < t.len() implies #[trigger] t[q] < keys.len() by {
                if q < pos {
                    assert(t[q] == s[q]);
                } else if q > pos {
                    assert(t[q] == s[q - 1]);
                }
            }
            assert forall|a: int, b: int| 0 <= a < b < t.len() implies !seq_lt(
                #[trigger] keys@[t[b] as int]@,
                #[trigger] keys@[t[a] as int]@,
            ) by {
                if b < pos {
                    assert(t[a] == s[a] && t[b] == s[b]);
                } else if b == pos {
                    assert(t[a] == s[a]);
                } else if a < pos {
                    assert(t[a] == s[a] && t[b] == s[b - 1]);
                } else if a == pos {
                    assert(t[b] == s[b - 1]);
                    assert(seq_lt(kv(x), kv(s[pos as int])));
                    if b - 1 > pos {
                        assert(!seq_lt(kv(s[b - 1]), kv(s[pos as int])));
                        if seq_lt(kv(s[b - 1]), kv(x)) {
                            lemma_lt_transitive(kv(s[b - 1]), kv(x), kv(s[pos as int]));
                        }
                    } else {
                        lemma_lt_asymmetric(kv(x), kv(s[pos as int]));
                    }
                } else {
                    assert(t[a] == s[a - 1] && t[b] == s[b - 1]);
                }
            }
            vstd::seq_lib::to_multiset_insert(s, pos as int, x);
            assert(ids@.subrange(0, i as int + 1) =~= ids@.subrange(0, i as int).push(x));
            vstd::seq_lib::to_multiset_build(ids@.subrange(0, i as int), x);
        }
        i += 1;
    }
    proof {
        assert(ids@.subrange(0, ids.len() as int) =~= ids@);
    }
    r
}

/// The error for a module whose source could not be loaded: its id as shown to users,
/// the module that imports it when there is one, and why loading failed.
pub open spec fn load_error_text(debug_id: Seq<char>, importer: Option<Seq<char>>, reason: Seq<char>) -> Seq<char> {
    let by = match importer {
        Some(o) => " (imported by "@ + o + ")"@,
        None => Seq::empty(),
    };
    "Could not load "@ + debug_id + by + " - "@ + reason + "."@
}

/// The error for a module whose source could not be loaded.
pub fn load_error_message(debug_id: &str, importer: Option<&str>, reason: &str) -> (r: String)
    ensures
        r@ == load_error_text(debug_id@, match importer {
            Some(o) => Some(o@),
            None => None,
        }, reason@),
{
    proof {
        reveal_strlit("Could not load ");
        reveal_strlit(" (imported by ");
        reveal_strlit(")");
        reveal_strlit(" - ");
        reveal_strlit(".");
    }
    let mut r = "Could not load ".to_string();
    r.append(debug_id);
    match importer {
        Some(o) => {
            r.append(" (imported by ");
            r.append(o);
            r.append(")");
        },
        None => {},
    }
    r.append(" - ");
    r.append(reason);
    r.append(".");
    r
}

/// Loading needs at least one input.
pub fn check_input(input_count: usize) -> (r: Result<(), String>)
    ensures
        r is Ok <==> input_count > 0,
        r is Err ==> r->Err_0@ == "You must supply options.input to rolldown"@,
{
    if input_count == 0 {
        return Err("You must supply options.input to rolldown".to_string());
    }
    Ok(())
}

/// A build needs at least one input.
pub fn check_build_input(input_count: usize) -> (r: Result<(), String>)
    ensures
        r is Ok <==> input_count > 0,
        r is Err ==> r->Err_0@ == "You must supply `options.input`."@,
{
    if input_count == 0 {
        return Err("You must supply `options.input`.".to_string());
    }
    Ok(())
}

impl ModuleLoaderState {
    /// The paths of the modules that import module `idx`, split into static importers
    /// and `import()` importers, each in order of first occurrence.
    pub fn importers_of(&self, idx: ModuleIdx) -> (r: (Vec<String>, Vec<String>))
        requires
            idx < self.module_count(),
        ensures
            views_of(r.0@) == first_occurrences(
                picked(importer_kinds(self.importers@[idx as int]@), importer_paths(self.importers@[idx as int]@), false,
                self.importers@[idx as int]@.len() as int),
            ),
            views_of(r.1@) == first_occurrences(
                picked(importer_kinds(self.importers@[idx as int]@), importer_paths(self.importers@[idx as int]@), true,
                self.importers@[idx as int]@.len() as int),
            ),
    {
        let recs = &self.importers[idx];
        let mut kinds: Vec<ImportKind> = Vec::new();
        let mut paths: Vec<String> = Vec::new();
        let mut k: usize = 0;
        while k < recs.len()
            invariant
                k <= recs.len(),
                kinds@ == importer_kinds(recs@).subrange(0, k as int),
                views_of(paths@) == importer_paths(recs@).subrange(0, k as int),
            decreases recs.len() - k,
        {
            kinds.push(recs[k].kind);
            let path = copy_str(&recs[k].importer_path);
            let ghost before = paths@;
            proof {
                assert(views_of(before).len() == before.len());
                assert(importer_paths(recs@).subrange(0, k as int).len() == k);
                assert(before.len() == k);
            }
            paths.push(path);
            proof {
                assert(paths@[k as int]@ == recs@[k as int].importer_path@);
                assert(views_of(paths@) =~= views_of(before).push(recs@[k as int].importer_path@));
            }
            k += 1;
            proof {
                assert(kinds@ =~= importer_kinds(recs@).subrange(0, k as int));
                assert(views_of(paths@) =~= importer_paths(recs@).subrange(0, k as int));
            }
        }
        proof {
            assert(kinds@ =~= importer_kinds(recs@));
            assert(views_of(paths@) =~= importer_paths(recs@));
        }
        partition_by_dynamic(&kinds, &paths)
    }

    /// The modules loaded with `import()` that are no user entries, as entry points ordered
    /// by their stable ids; none when dynamic imports are inlined.
    pub fn dynamic_entry_points(&self, stable_ids: &Vec<String>, inline_dynamic_imports: bool) -> (r: Vec<EntryPoint>)
        requires
            self.wf(),
            stable_ids.len() == self.module_count(),
        ensures
            inline_dynamic_imports ==> r.len() == 0,
            !inline_dynamic_imports ==> {
                &&& entry_ids_of(r@).to_multiset() == self.dynamic_import_entry_ids@.to_multiset()
                &&& forall|i: int| 0 <= i < r.len() ==> (#[trigger] r@[i]).name is None && r@[i].kind == EntryPointKind::DynamicImport
                &&& forall|a: int, b: int|
                    0 <= a < b < r.len() ==> !seq_lt(
                        #[trigger] stable_ids@[r@[b].id as int]@,
                        #[trigger] stable_ids@[r@[a].id as int]@,
                    )
            },
            forall|i: int| 0 <= i < r.len() ==> self.dynamic_import_entry_ids@.contains(#[trigger] r@[i].id),
            self.entries_apart() ==> forall|i: int| 0 <= i < r.len() ==> !self.user_defined_entry_ids@.contains(#[trigger] r@[i].id),
    {
        let mut r: Vec<EntryPoint> = Vec::new();
        if inline_dynamic_imports {
            return r;
        }
        let sorted = sort_ids_by_key(&self.dynamic_import_entry_ids, stable_ids);
        let mut k: usize = 0;
        while k < sorted.len()
            invariant
                k <= sorted.len(),
                r.len() == k,
                forall|i: int| 0 <= i < k ==> (#[trigger] r@[i]).id == sorted@[i] && r@[i].name is None && r@[i].kind
                    == EntryPointKind::DynamicImport,
            decreases sorted.len() - k,
        {
            r.push(EntryPoint { name: None, id: sorted[k], kind: EntryPointKind::DynamicImport });
            k += 1;
        }
        proof {
            assert(entry_ids_of(r@) =~= sorted@);
            assert forall|i: int| 0 <= i < r.len() implies self.dynamic_import_entry_ids@.contains(#[trigger] r@[i].id) by {
                let x = r@[i].id;
                assert(sorted@[i] == x);
                sorted@.to_multiset_ensures();
                self.dynamic_import_entry_ids@.to_multiset_ensures();
                assert(sorted@.contains(x));
                assert(sorted@.to_multiset().count(x) > 0);
            }
        }
        r
    }
}

/// A piece of the runtime module's source.
#[derive(Clone, Copy, Debug, PartialEq, Eq, Structural)]
pub enum RuntimePart {
    /// The head for ES module output on Node.
    HeadNode,
    /// The helpers every bundle shares.
    Base,
    /// The tail for ES module output on Node.
    TailNode,
    /// The tail for every other output.
    Tail,
}

/// The pieces the runtime module's source is made of, in order: for ES module output on
/// Node the Node head, the shared helpers and the Node tail; otherwise the shared helpers
/// and the plain tail.
pub fn runtime_source_parts(esm_with_node: bool) -> (r: Vec<RuntimePart>)
    ensures
        r@ == if esm_with_node {
            seq![RuntimePart::HeadNode, RuntimePart::Base, RuntimePart::TailNode]
        } else {
            seq![RuntimePart::Base, RuntimePart::Tail]
        },
{
    if esm_with_node {
        vec![RuntimePart::HeadNode, RuntimePart::Base, RuntimePart::TailNode]
    } else {
        vec![RuntimePart::Base, RuntimePart::Tail]
    }
}

/// The loader's id table is one to one: module `i` is the module of the id seen at
/// position `i`, and the module of a seen id is the one at whose position that id stands.
/// So the module an import record is bound to is the module whose id the record resolved
/// to, however often that id is imported.
pub proof fn lemma_ids_and_modules(s: ModuleLoaderState, i: int, id: Seq<char>)
    requires
        s.wf(),
    ensures
        0 <= i < s.module_count() ==> module_of(s.view_visited(), s.view_visited()[i].0) == i,
        has_id(s.view_visited(), id) ==> module_of(s.view_visited(), id) < s.module_count() && s.view_visited()[module_of(
            s.view_visited(),
            id,
        ) as int].0 == id,
{
    let v = s.view_visited();
    if 0 <= i < s.module_count() {
        let c = choose|j: int| 0 <= j < v.len() && (#[trigger] v[j]).0 == v[i].0;
        assert(c == i);
    }
    if has_id(v, id) {
        let c = choose|j: int| 0 <= j < v.len() && (#[trigger] v[j]).0 == id;
        assert(v[c].1 == c);
    }
}

/// The importers a module had before: its list when it was already allocated, none when
/// it is new.
pub open spec fn old_importers_of(importers: Seq<Vec<ImporterRecord>>, idx: ModuleIdx) -> Seq<ImporterRecord> {
    if idx < importers.len() {
        importers[idx as int]@
    } else {
        Seq::empty()
    }
}

/// The kinds of importer records.
pub open spec fn importer_kinds(recs: Seq<ImporterRecord>) -> Seq<ImportKind> {
    Seq::new(recs.len(), |i: int| recs[i].kind)
}

/// The importer paths of importer records.
pub open spec fn importer_paths(recs: Seq<ImporterRecord>) -> Seq<Seq<char>> {
    Seq::new(recs.len(), |i: int| recs[i].importer_path@)
}

/// The module of each entry point.
pub open spec fn entry_ids_of(entries: Seq<EntryPoint>) -> Seq<ModuleIdx> {
    Seq::new(entries.len(), |i: int| entries[i].id)
}

} // verus!
