use vstd::prelude::*;
use vstd::string::*;

use crate::strings::str_eq;
use crate::types::{ImportRecord, NamedImport, SymbolRefDb};

verus! {

/// The shape of a top-level statement, as far as finalizing a module reads it.
#[derive(Clone, Copy, Debug, PartialEq, Eq, Structural)]
pub enum TopStmtShape {
    Import,
    ExportAll,
    /// `export default <expression>`
    ExportDefaultExpression,
    /// `export default function`, named or not.
    ExportDefaultFunction { has_name: bool },
    /// `export default class`, named or not.
    ExportDefaultClass { has_name: bool },
    ExportNamed { has_source: bool, has_declaration: bool },
    Other,
}

/// What finalizing does with a top-level statement.
#[derive(Clone, Copy, Debug, PartialEq, Eq, Structural)]
pub enum TopStmtAction {
    /// Dropped from the output.
    Remove,
    /// Kept as it is.
    Keep,
    /// `export default e` becomes `var <default binding> = e`.
    DefaultToVar,
    /// `export default function` becomes a function declaration, named after the default
    /// binding when `name_it`.
    DefaultFunction { name_it: bool },
    /// `export default class` becomes a class declaration, named after the default binding
    /// when `name_it`.
    DefaultClass { name_it: bool },
    /// `export <declaration>` becomes the declaration.
    Unwrap,
}

/// The action for a top-level statement of the given shape, included or not. Imports and
/// `export *` are dropped (the linker rewrote them), as is every statement tree shaking
/// left out and every `export { .. }` list.
pub open spec fn top_stmt_action(shape: TopStmtShape, included: bool) -> TopStmtAction {
    if !included || shape is Import || shape is ExportAll {
        TopStmtAction::Remove
    } else {
        match shape {
            TopStmtShape::ExportDefaultExpression => TopStmtAction::DefaultToVar,
            TopStmtShape::ExportDefaultFunction { has_name } => TopStmtAction::DefaultFunction { name_it: !has_name },
            TopStmtShape::ExportDefaultClass { has_name } => TopStmtAction::DefaultClass { name_it: !has_name },
            TopStmtShape::ExportNamed { has_source, has_declaration } => if has_source || !has_declaration {
                TopStmtAction::Remove
            } else {
                TopStmtAction::Unwrap
            },
            _ => TopStmtAction::Keep,
        }
    }
}

/// What becomes of each top-level statement of a module: statement `i` of the body goes with
/// statement info `i + 1` (info 0 stands for the namespace object), as far as both go.
pub fn remove_unused_top_level_stmt(body: &Vec<TopStmtShape>, stmt_included: &Vec<bool>) -> (r: Vec<TopStmtAction>)
    ensures
        r.len() == if stmt_included.len() == 0 {
            0
        } else if body.len() < stmt_included.len() - 1 {
            body.len() as int
        } else {
            stmt_included.len() - 1
        },
        forall|i: int| 0 <= i < r.len() ==> #[trigger] r@[i] == top_stmt_action(body@[i], stmt_included@[i + 1]),
{
    let mut r: Vec<TopStmtAction> = Vec::new();
    let mut i: usize = 0;
    while i < body.len() && i + 1 < stmt_included.len()
        invariant
            i <= body.len(),
            stmt_included.len() == 0 ==> i == 0,
            stmt_included.len() > 0 ==> i + 1 <= stmt_included.len(),
            r.len() == i,
            forall|k: int| 0 <= k < i ==> #[trigger] r@[k] == top_stmt_action(body@[k], stmt_included@[k + 1]),
        decreases body.len() - i,
    {
        let shape = body[i];
        let action = if !stmt_included[i + 1] || shape == TopStmtShape::Import || shape == TopStmtShape::ExportAll {
            TopStmtAction::Remove
        } else {
            match shape {
                TopStmtShape::ExportDefaultExpression => TopStmtAction::DefaultToVar,
                TopStmtShape::ExportDefaultFunction { has_name } => TopStmtAction::DefaultFunction { name_it: !has_name },
                TopStmtShape::ExportDefaultClass { has_name } => TopStmtAction::DefaultClass { name_it: !has_name },
                TopStmtShape::ExportNamed { has_source, has_declaration } => {
                    if has_source || !has_declaration {
                        TopStmtAction::Remove
                    } else {
                        TopStmtAction::Unwrap
                    }
                },
                _ => TopStmtAction::Keep,
            }
        };
        r.push(action);
        i += 1;
    }
    proof {
        if stmt_included.len() > 0 && body.len() >= stmt_included.len() - 1 {
            assert(i == stmt_included.len() - 1);
        }
    }
    r
}

/// The named import binds the default export of a bundled module through a namespace
/// alias (`ns.default`).
pub open spec fn is_default_alias(imp: NamedImport, records: Seq<ImportRecord>, external: Seq<bool>, db: SymbolRefDb) -> bool {
    let importee = records[imp.record_id as int].resolved_module;
    &&& !external[importee as int]
    &&& db.info(imp.imported_as).namespace_alias matches Some(alias) && alias.property_name@ == "default"@
}

/// The symbols (by number in the module) of the imports `imps` that are default aliases,
/// in order.
pub open spec fn default_alias_symbols(imps: Seq<NamedImport>, records: Seq<ImportRecord>, external: Seq<bool>, db: SymbolRefDb) -> Seq<usize>
    decreases imps.len(),
{
    if imps.len() == 0 {
        Seq::empty()
    } else {
        let rest = default_alias_symbols(imps.drop_last(), records, external, db);
        if is_default_alias(imps.last(), records, external, db) {
            rest.push(imps.last().imported_as.symbol)
        } else {
            rest
        }
    }
}

/// The symbols (by number in the module) of the module's named imports that read the
/// default export of a bundled module through a namespace alias, in import order.
pub fn namespace_alias_default_symbols(
    named_imports: &Vec<NamedImport>,
    records: &Vec<ImportRecord>,
    external: &Vec<bool>,
    db: &SymbolRefDb,
) -> (r: Vec<usize>)
    requires
        forall|j: int| 0 <= j < named_imports.len() ==> {
            let imp = #[trigger] named_imports@[j];
            &&& imp.record_id < records.len()
            &&& records@[imp.record_id as int].resolved_module < external.len()
            &&& db.has(imp.imported_as)
        },
    ensures
        r@ == default_alias_symbols(named_imports@, records@, external@, *db),
{
    proof {
        reveal_strlit("default");
    }
    let mut r: Vec<usize> = Vec::new();
    let mut j: usize = 0;
    while j < named_imports.len()
        invariant
            j <= named_imports.len(),
            forall|q: int| 0 <= q < named_imports.len() ==> {
                let imp = #[trigger] named_imports@[q];
                &&& imp.record_id < records.len()
                &&& records@[imp.record_id as int].resolved_module < external.len()
                &&& db.has(imp.imported_as)
            },
            r@ == default_alias_symbols(named_imports@.subrange(0, j as int), records@, external@, *db),
        decreases named_imports.len() - j,
    {
        let imp = &named_imports[j];
        let importee = records[imp.record_id].resolved_module;
        let s = imp.imported_as;
        let hit = if external[importee] {
            false
        } else {
            match &db.symbols[s.owner][s.symbol].namespace_alias {
                Some(alias) => str_eq(alias.property_name.as_str(), "default"),
                None => false,
            }
        };
        proof {
            let post = named_imports@.subrange(0, j as int + 1);
            assert(post.drop_last() =~= named_imports@.subrange(0, j as int));
            assert(post.last() == named_imports@[j as int]);
            assert(hit == is_default_alias(named_imports@[j as int], records@, external@, *db));
        }
        if hit {
            r.push(s.symbol);
        }
        j += 1;
    }
    proof {
        assert(named_imports@.subrange(0, named_imports.len() as int) =~= named_imports@);
    }
    r
}

} // verus!
