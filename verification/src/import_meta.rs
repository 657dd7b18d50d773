use vstd::prelude::*;
use vstd::string::*;

use crate::render::OutputFormat;
use crate::strings::str_eq;

verus! {

/// The platform the output runs on.
#[derive(Clone, Copy, Debug, PartialEq, Eq, Structural)]
pub enum Platform {
    Node,
    Browser,
    Neutral,
}

/// What an `import.meta.<property>` read becomes.
#[derive(Clone, Copy, Debug, PartialEq, Eq, Structural)]
pub enum ImportMetaRewrite {
    /// `require('url').pathToFileURL(__filename).href`
    FileUrl,
    /// `__dirname`
    Dirname,
    /// `__filename`
    Filename,
}

/// `import.meta.url`, `.dirname` and `.filename` have CommonJS equivalents in Node; any
/// other read, or any read in other output, is left as it is (`None`).
pub open spec fn import_meta_rewrite(platform: Platform, format: OutputFormat, property: Seq<char>) -> Option<ImportMetaRewrite> {
    if !(platform is Node && format is Cjs) {
        None
    } else if property == "url"@ {
        Some(ImportMetaRewrite::FileUrl)
    } else if property == "dirname"@ {
        Some(ImportMetaRewrite::Dirname)
    } else if property == "filename"@ {
        Some(ImportMetaRewrite::Filename)
    } else {
        None
    }
}

/// What the read `import.meta.<property>` is rewritten to, if anything.
pub fn try_rewrite_import_meta_prop_expr(platform: Platform, format: OutputFormat, property: &str) -> (r: Option<ImportMetaRewrite>)
    ensures
        r == import_meta_rewrite(platform, format, property@),
{
    proof {
        reveal_strlit("url");
        reveal_strlit("dirname");
        reveal_strlit("filename");
    }
    let is_node_cjs = platform == Platform::Node && format == OutputFormat::Cjs;
    if str_eq(property, "url") {
        if is_node_cjs {
            Some(ImportMetaRewrite::FileUrl)
        } else {
            None
        }
    } else if str_eq(property, "dirname") {
        if is_node_cjs {
            Some(ImportMetaRewrite::Dirname)
        } else {
            None
        }
    } else if str_eq(property, "filename") {
        if is_node_cjs {
            Some(ImportMetaRewrite::Filename)
        } else {
            None
        }
    } else {
        None
    }
}

} // verus!
