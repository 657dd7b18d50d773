use vstd::prelude::*;

use crate::render::{is_identifier, is_valid_identifier_name, OutputFormat};
use crate::strings::copy_str;
use crate::types::SymbolRef;

verus! {

/// A property of the object passed to `__export`: `name: () => <symbol>`, with the name
/// written as an identifier when it is one and as a string literal otherwise.
#[derive(Debug)]
pub struct NamespaceProp {
    pub name: String,
    pub is_identifier: bool,
    pub symbol: SymbolRef,
}

/// A statement that builds a module namespace object.
#[derive(Debug)]
pub enum NamespaceStmt {
    /// `var <binding> = {}`
    Declare(String),
    /// `__export(<binding>, { <props> })`
    Export(Vec<NamespaceProp>),
    /// `import * as <ns> from '<module>'`
    ImportStar { module: String, ns: String },
    /// `__reExport(<binding>, <ns>)`
    ReExport(String),
    /// `__reExport(<binding>, require('<module>'))`
    ReExportRequire(String),
}

/// A module that the namespace's module re-exports everything of with `export *`, as the
/// namespace object sees it: whether it is external, its name and id, and the name its
/// namespace binding got in the chunk.
#[derive(Debug)]
pub struct StarExportTarget {
    pub is_external: bool,
    pub name: String,
    pub id: String,
    pub namespace_name: String,
}

/// A namespace statement as plain values.
pub enum NamespacePiece {
    Declare(Seq<char>),
    Export(Seq<(Seq<char>, bool, SymbolRef)>),
    ImportStar(Seq<char>, Seq<char>),
    ReExport(Seq<char>),
    ReExportRequire(Seq<char>),
}

pub open spec fn piece(s: NamespaceStmt) -> NamespacePiece {
    match s {
        NamespaceStmt::Declare(b) => NamespacePiece::Declare(b@),
        NamespaceStmt::Export(props) => NamespacePiece::Export(
            Seq::new(props.len() as nat, |i: int| (props@[i].name@, props@[i].is_identifier, props@[i].symbol)),
        ),
        NamespaceStmt::ImportStar { module, ns } => NamespacePiece::ImportStar(module@, ns@),
        NamespaceStmt::ReExport(ns) => NamespacePiece::ReExport(ns@),
        NamespaceStmt::ReExportRequire(m) => NamespacePiece::ReExportRequire(m@),
    }
}

pub open spec fn pieces(v: Seq<NamespaceStmt>) -> Seq<NamespacePiece> {
    Seq::new(v.len(), |i: int| piece(v[i]))
}

/// The `__export` properties for the exports, in order.
pub open spec fn export_props(exports: Seq<(String, SymbolRef)>) -> Seq<(Seq<char>, bool, SymbolRef)> {
    Seq::new(exports.len(), |i: int| (exports[i].0@, is_identifier(exports[i].0@), exports[i].1))
}

/// The statements that re-export the targets: for ES module output, each external target is
/// imported as a namespace and merged in (targets that are not external give nothing); for
/// CommonJS output, each target is required and merged in.
pub open spec fn re_export_pieces(format: OutputFormat, targets: Seq<StarExportTarget>) -> Seq<NamespacePiece>
    decreases targets.len(),
{
    if targets.len() == 0 {
        Seq::empty()
    } else {
        let rest = re_export_pieces(format, targets.drop_last());
        let t = targets.last();
        if format is Cjs {
            rest.push(NamespacePiece::ReExportRequire(t.id@))
        } else if t.is_external {
            rest + seq![NamespacePiece::ImportStar(t.name@, t.namespace_name@), NamespacePiece::ReExport(t.namespace_name@)]
        } else {
            rest
        }
    }
}

/// The statements that declare and fill a module namespace object: the declaration, the
/// `__export` call when there are exports, then the re-exports of external modules.
pub open spec fn namespace_object_pieces(
    format: OutputFormat,
    binding: Seq<char>,
    exports: Seq<(String, SymbolRef)>,
    targets: Seq<StarExportTarget>,
) -> Seq<NamespacePiece> {
    let head = seq![NamespacePiece::Declare(binding)];
    let with_exports = if exports.len() > 0 {
        head.push(NamespacePiece::Export(export_props(exports)))
    } else {
        head
    };
    with_exports + re_export_pieces(format, targets)
}

/// The statements that build the namespace object `binding` of a module with the given
/// canonical exports (in order) and `export *` targets.
pub fn generate_declaration_of_module_namespace_object(
    format: OutputFormat,
    binding: &String,
    exports: &Vec<(String, SymbolRef)>,
    targets: &Vec<StarExportTarget>,
) -> (r: Vec<NamespaceStmt>)
    ensures
        pieces(r@) == namespace_object_pieces(format, binding@, exports@, targets@),
{
    let mut r: Vec<NamespaceStmt> = Vec::new();
    r.push(NamespaceStmt::Declare(copy_str(binding)));
    if exports.len() > 0 {
        let mut props: Vec<NamespaceProp> = Vec::new();
        let mut i: usize = 0;
        while i < exports.len()
            invariant
                i <= exports.len(),
                props.len() == i,
                forall|k: int|
                    0 <= k < i ==> (#[trigger] props@[k]).name@ == exports@[k].0@ && props@[k].is_identifier == is_identifier(
                        exports@[k].0@,
                    ) && props@[k].symbol == exports@[k].1,
            decreases exports.len() - i,
        {
            let name = copy_str(&exports[i].0);
            let is_ident = is_valid_identifier_name(exports[i].0.as_str());
            props.push(NamespaceProp { name, is_identifier: is_ident, symbol: exports[i].1 });
            i += 1;
        }
        let ghost pv = Seq::new(props.len() as nat, |k: int| (props@[k].name@, props@[k].is_identifier, props@[k].symbol));
        proof {
            assert(pv =~= export_props(exports@));
        }
        r.push(NamespaceStmt::Export(props));
    }
    let ghost head = pieces(r@);
    proof {
        if exports.len() > 0 {
            assert(head =~= seq![NamespacePiece::Declare(binding@)].push(NamespacePiece::Export(export_props(exports@))));
        } else {
            assert(head =~= seq![NamespacePiece::Declare(binding@)]);
        }
    }
    let mut j: usize = 0;
    while j < targets.len()
        invariant
            j <= targets.len(),
            pieces(r@) == head + re_export_pieces(format, targets@.subrange(0, j as int)),
        decreases targets.len() - j,
    {
        let ghost before = pieces(r@);
        let ghost sub = targets@.subrange(0, j as int + 1);
        proof {
            assert(sub.drop_last() =~= targets@.subrange(0, j as int));
            assert(sub.last() == targets@[j as int]);
        }
        let t = &targets[j];
        match format {
            OutputFormat::Cjs => {
                r.push(NamespaceStmt::ReExportRequire(copy_str(&t.id)));
                proof {
                    assert(pieces(r@) =~= before.push(NamespacePiece::ReExportRequire(t.id@)));
                }
            },
            OutputFormat::Esm => {
                if t.is_external {
                    r.push(NamespaceStmt::ImportStar { module: copy_str(&t.name), ns: copy_str(&t.namespace_name) });
                    r.push(NamespaceStmt::ReExport(copy_str(&t.namespace_name)));
                    proof {
                        assert(pieces(r@) =~= before + seq![
                            NamespacePiece::ImportStar(t.name@, t.namespace_name@),
                            NamespacePiece::ReExport(t.namespace_name@),
                        ]);
                    }
                }
            },
        }
        j += 1;
    }
    proof {
        assert(targets@.subrange(0, targets.len() as int) =~= targets@);
    }
    r
}

} // verus!
