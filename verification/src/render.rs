use vstd::prelude::*;
use vstd::string::*;

use crate::strings::{
    join_strings, join_with, seq_lt, sort_dedup_strings, str_eq, sort_strings, sorted_strs, strictly_sorted_strs, views,
};
use crate::types::{ModuleIdx, Specifier};

verus! {

/// The parts one after the other.
pub open spec fn concat_all(parts: Seq<Seq<char>>) -> Seq<char>
    decreases parts.len(),
{
    if parts.len() == 0 {
        seq![]
    } else {
        concat_all(parts.drop_last()) + parts.last()
    }
}

/// The specifiers of an import declaration: the given ones, then `default as x` for each
/// default alias but the first.
pub open spec fn declaration_specifiers(specifiers: Seq<Seq<char>>, default_alias: Seq<Seq<char>>) -> Seq<Seq<char>> {
    if default_alias.len() > 1 {
        specifiers + Seq::new((default_alias.len() - 1) as nat, |i: int| "default as "@ + default_alias[i + 1])
    } else {
        specifiers
    }
}

/// The text of an import declaration: `import a, { b, c as d } from "path";`, or with only a
/// default binding, or a bare `import "path";`.
pub open spec fn import_declaration(specifiers: Seq<Seq<char>>, default_alias: Seq<Seq<char>>, path: Seq<char>) -> Seq<char> {
    let all = declaration_specifiers(specifiers, default_alias);
    if all.len() > 0 {
        if default_alias.len() > 0 {
            "import "@ + default_alias[0] + ", "@ + "{ "@ + join_with(all, ", "@) + " } from \""@ + path + "\";\n"@
        } else {
            "import "@ + "{ "@ + join_with(all, ", "@) + " } from \""@ + path + "\";\n"@
        }
    } else if default_alias.len() > 0 {
        "import "@ + default_alias[0] + " from \""@ + path + "\";\n"@
    } else {
        "import \""@ + path + "\";\n"@
    }
}

/// Writes an import declaration for `path` with the given specifiers and default aliases.
pub fn create_import_declaration(specifiers: Vec<String>, default_alias: &Vec<String>, path: &String) -> (r: String)
    ensures
        r@ == import_declaration(views(specifiers@), views(default_alias@), path@),
{
    let ghost sv = views(specifiers@);
    let ghost dv = views(default_alias@);
    let mut specifiers = specifiers;
    let mut i: usize = 1;
    while i < default_alias.len()
        invariant
            1 <= i <= default_alias.len() || (i == 1 && default_alias.len() == 0),
            dv == views(default_alias@),
            views(specifiers@) == sv + Seq::new((i - 1) as nat, |k: int| "default as "@ + dv[k + 1]),
        decreases default_alias.len() - i,
    {
        let mut item = String::from_str("default as ");
        item.append(default_alias[i].as_str());
        let ghost before = views(specifiers@);
        specifiers.push(item);
        proof {
            assert(views(specifiers@) =~= before.push(item@));
            assert(views(specifiers@) =~= sv + Seq::new(i as nat, |k: int| "default as "@ + dv[k + 1]));
        }
        i += 1;
    }
    proof {
        if default_alias.len() > 1 {
            assert(views(specifiers@) =~= declaration_specifiers(sv, dv));
        } else {
            assert(views(specifiers@) =~= sv);
        }
    }
    let mut ret = String::new();
    if specifiers.len() > 0 {
        ret.append("import ");
        if default_alias.len() > 0 {
            ret.append(default_alias[0].as_str());
            ret.append(", ");
        }
        ret.append("{ ");
        let joined = join_strings(&specifiers, ", ");
        ret.append(joined.as_str());
        ret.append(" } from \"");
        ret.append(path.as_str());
        ret.append("\";\n");
    } else if default_alias.len() > 0 {
        ret.append("import ");
        ret.append(default_alias[0].as_str());
        ret.append(" from \"");
        ret.append(path.as_str());
        ret.append("\";\n");
    } else {
        ret.append("import \"");
        ret.append(path.as_str());
        ret.append("\";\n");
    }
    ret
}

/// An ASCII character that may start an identifier.
pub open spec fn ident_start(c: char) -> bool {
    ('a' <= c <= 'z') || ('A' <= c <= 'Z') || c == '_' || c == '$'
}

/// An ASCII character that may continue an identifier.
pub open spec fn ident_part(c: char) -> bool {
    ident_start(c) || ('0' <= c <= '9')
}

/// `s` is an identifier: an identifier start followed by identifier parts.
pub open spec fn is_identifier(s: Seq<char>) -> bool {
    s.len() > 0 && ident_start(s[0]) && forall|i: int| 1 <= i < s.len() ==> ident_part(#[trigger] s[i])
}

/// Whether `s` is an identifier.
pub fn is_valid_identifier_name(s: &str) -> (r: bool)
    ensures
        r == is_identifier(s@),
{
    let n = s.unicode_len();
    if n == 0 {
        return false;
    }
    let c0 = s.get_char(0);
    if !(('a' <= c0 && c0 <= 'z') || ('A' <= c0 && c0 <= 'Z') || c0 == '_' || c0 == '$') {
        return false;
    }
    let mut i: usize = 1;
    while i < n
        invariant
            n == s@.len(),
            1 <= i <= n,
            forall|j: int| 1 <= j < i ==> ident_part(#[trigger] s@[j]),
        decreases n - i,
    {
        let c = s.get_char(i);
        if !(('a' <= c && c <= 'z') || ('A' <= c && c <= 'Z') || c == '_' || c == '$' || ('0' <= c && c <= '9')) {
            return false;
        }
        i += 1;
    }
    true
}

/// `s` between double quotes, with `"` and `\` escaped by a backslash.
pub open spec fn quoted(s: Seq<char>) -> Seq<char> {
    seq!['"'] + escaped(s) + seq!['"']
}

/// `s` with `"` and `\` escaped by a backslash.
pub open spec fn escaped(s: Seq<char>) -> Seq<char>
    decreases s.len(),
{
    if s.len() == 0 {
        seq![]
    } else {
        let c = s.last();
        escaped(s.drop_last()) + if c == '"' || c == '\\' {
            seq!['\\', c]
        } else {
            seq![c]
        }
    }
}

/// How a name is written in an import or export clause: as is when it is an identifier,
/// quoted otherwise.
pub open spec fn import_export_name(s: Seq<char>) -> Seq<char> {
    if is_identifier(s) {
        s
    } else {
        quoted(s)
    }
}

#[verifier::external_body]
pub(crate) fn push_char(s: &mut String, c: char)
    ensures
        final(s)@ == old(s)@.push(c),
{
    s.push(c);
}

/// Writes a name for an import or export clause.
pub fn to_module_import_export_name(name: &String) -> (r: String)
    ensures
        r@ == import_export_name(name@),
{
    if is_valid_identifier_name(name.as_str()) {
        return name.clone();
    }
    let mut r = String::new();
    push_char(&mut r, '"');
    let n = name.as_str().unicode_len();
    let mut i: usize = 0;
    while i < n
        invariant
            n == name@.len(),
            i <= n,
            r@ == seq!['"'] + escaped(name@.subrange(0, i as int)),
        decreases n - i,
    {
        let c = name.as_str().get_char(i);
        if c == '"' || c == '\\' {
            push_char(&mut r, '\\');
        }
        push_char(&mut r, c);
        proof {
            let p = name@.subrange(0, i as int + 1);
            assert(p.drop_last() =~= name@.subrange(0, i as int));
            assert(p.last() == c);
            assert(r@ =~= seq!['"'] + escaped(p));
        }
        i += 1;
    }
    push_char(&mut r, '"');
    proof {
        assert(name@.subrange(0, n as int) =~= name@);
    }
    r
}

/// A binding that a chunk imports from another chunk: the name the other chunk exports it
/// under, and the name it has here.
#[derive(Clone, Debug)]
pub struct ChunkImportItem {
    pub export_alias: String,
    pub local_name: String,
}

/// What a chunk imports from one other chunk.
#[derive(Clone, Debug)]
pub struct ImportsFromChunk {
    /// The path the other chunk is imported by.
    pub path: String,
    pub items: Vec<ChunkImportItem>,
    /// The name the other chunk's exports object is bound to in CommonJS output.
    pub require_binding: String,
}

/// A binding that a chunk imports from an external module.
#[derive(Clone, Debug)]
pub struct ExternalImportItem {
    /// Whether included code refers to the binding.
    pub used: bool,
    /// The name of the binding in the chunk.
    pub local_name: String,
    pub imported: Specifier,
}

/// What a chunk imports from one external module.
#[derive(Clone, Debug)]
pub struct ImportsFromExternal {
    pub name: String,
    pub has_side_effects: bool,
    pub items: Vec<ExternalImportItem>,
    /// Whether included code refers to the module's namespace.
    pub namespace_used: bool,
    /// The name the module's namespace is bound to in the chunk.
    pub namespace_name: String,
}

/// The specifier for one binding imported from another chunk; `None` for a default export,
/// which is written as a default binding.
pub open spec fn chunk_item_specifier(item: ChunkImportItem) -> Option<Seq<char>> {
    if item.export_alias@ == item.local_name@ {
        Some(item.export_alias@)
    } else if item.export_alias@ == "default"@ {
        None
    } else {
        Some(item.export_alias@ + " as "@ + item.local_name@)
    }
}

/// The specifiers for the items imported from another chunk, in item order.
pub open spec fn chunk_specifiers(items: Seq<ChunkImportItem>) -> Seq<Seq<char>>
    decreases items.len(),
{
    if items.len() == 0 {
        seq![]
    } else {
        let rest = chunk_specifiers(items.drop_last());
        match chunk_item_specifier(items.last()) {
            Some(s) => rest.push(s),
            None => rest,
        }
    }
}

/// The default bindings for the items imported from another chunk, in item order.
pub open spec fn chunk_default_aliases(items: Seq<ChunkImportItem>) -> Seq<Seq<char>>
    decreases items.len(),
{
    if items.len() == 0 {
        seq![]
    } else {
        let rest = chunk_default_aliases(items.drop_last());
        if chunk_item_specifier(items.last()) is None {
            rest.push(items.last().local_name@)
        } else {
            rest
        }
    }
}

/// `text` is the import declaration for what a chunk imports from another chunk: the
/// specifiers sorted, default bindings in item order.
pub open spec fn chunk_import_text_ok(imports: ImportsFromChunk, text: Seq<char>) -> bool {
    exists|sorted: Seq<Seq<char>>|
        sorted_strs(sorted) && sorted.to_multiset() == chunk_specifiers(imports.items@).to_multiset() && text
            == import_declaration(sorted, chunk_default_aliases(imports.items@), imports.path@)
}

/// Writes the import declaration for what a chunk imports from another chunk: the
/// specifiers sorted, default bindings in item order.
pub fn render_import_from_chunk(imports: &ImportsFromChunk) -> (r: String)
    ensures
        chunk_import_text_ok(*imports, r@),
{
    let mut specifiers: Vec<String> = Vec::new();
    let mut default_alias: Vec<String> = Vec::new();
    let mut i: usize = 0;
    while i < imports.items.len()
        invariant
            i <= imports.items.len(),
            views(specifiers@) == chunk_specifiers(imports.items@.subrange(0, i as int)),
            views(default_alias@) == chunk_default_aliases(imports.items@.subrange(0, i as int)),
        decreases imports.items.len() - i,
    {
        let item = &imports.items[i];
        let ghost prefix = imports.items@.subrange(0, i as int + 1);
        proof {
            assert(prefix.drop_last() =~= imports.items@.subrange(0, i as int));
            assert(prefix.last() == *item);
        }
        let ghost sb = views(specifiers@);
        let ghost db = views(default_alias@);
        if item.export_alias == item.local_name {
            specifiers.push(item.export_alias.clone());
            proof {
                assert(views(specifiers@) =~= sb.push(item.export_alias@));
            }
        } else if str_eq(item.export_alias.as_str(), "default") {
            default_alias.push(item.local_name.clone());
            proof {
                assert(views(default_alias@) =~= db.push(item.local_name@));
            }
        } else {
            let mut s = item.export_alias.clone();
            s.append(" as ");
            s.append(item.local_name.as_str());
            specifiers.push(s);
            proof {
                assert(views(specifiers@) =~= sb.push(s@));
            }
        }
        i += 1;
    }
    proof {
        assert(imports.items@.subrange(0, imports.items.len() as int) =~= imports.items@);
    }
    let sorted = sort_strings(&specifiers);
    create_import_declaration(sorted, &default_alias, &imports.path)
}

/// The line that imports the namespace of an external module.
pub open spec fn star_import_line(local: Seq<char>, module_name: Seq<char>) -> Seq<char> {
    "import * as "@ + local + " from \""@ + module_name + "\";\n"@
}

/// The namespace imports among the used items, one line each, in item order.
pub open spec fn ext_star_lines(items: Seq<ExternalImportItem>, module_name: Seq<char>) -> Seq<char>
    decreases items.len(),
{
    if items.len() == 0 {
        seq![]
    } else {
        let rest = ext_star_lines(items.drop_last(), module_name);
        let it = items.last();
        if it.used && it.imported is Star {
            rest + star_import_line(it.local_name@, module_name)
        } else {
            rest
        }
    }
}

/// Some used item imports the namespace.
pub open spec fn ext_has_star(items: Seq<ExternalImportItem>) -> bool {
    exists|i: int| 0 <= i < items.len() && (#[trigger] items[i]).used && items[i].imported is Star
}

/// The specifier of one used named import from an external module; `None` for a default import.
pub open spec fn ext_item_specifier(local: Seq<char>, imported: Seq<char>) -> Option<Seq<char>> {
    if local == imported {
        Some(local)
    } else if imported == "default"@ {
        None
    } else {
        Some(import_export_name(imported) + " as "@ + local)
    }
}

/// The specifiers of the used named imports, in item order.
pub open spec fn ext_specifiers(items: Seq<ExternalImportItem>) -> Seq<Seq<char>>
    decreases items.len(),
{
    if items.len() == 0 {
        seq![]
    } else {
        let rest = ext_specifiers(items.drop_last());
        let it = items.last();
        match it.imported {
            Specifier::Literal(imported) => if it.used {
                match ext_item_specifier(it.local_name@, imported@) {
                    Some(sp) => rest.push(sp),
                    None => rest,
                }
            } else {
                rest
            },
            Specifier::Star => rest,
        }
    }
}

/// The default bindings of the used default imports, in item order.
pub open spec fn ext_default_aliases(items: Seq<ExternalImportItem>) -> Seq<Seq<char>>
    decreases items.len(),
{
    if items.len() == 0 {
        seq![]
    } else {
        let rest = ext_default_aliases(items.drop_last());
        let it = items.last();
        match it.imported {
            Specifier::Literal(imported) => if it.used && ext_item_specifier(it.local_name@, imported@) is None {
                rest.push(it.local_name@)
            } else {
                rest
            },
            Specifier::Star => rest,
        }
    }
}

/// What a chunk writes for its imports from one external module: a line per namespace
/// import, then one declaration for the named and default imports (sorted, each once),
/// which is also written, bare, for a module with side effects that nothing imports from.
pub open spec fn external_import_text(ext: ImportsFromExternal, specifiers: Seq<Seq<char>>, defaults: Seq<Seq<char>>) -> Seq<
    char,
> {
    ext_star_lines(ext.items@, ext.name@) + if specifiers.len() > 0 || defaults.len() > 0 || (ext.has_side_effects
        && !ext_has_star(ext.items@)) {
        import_declaration(specifiers, defaults, ext.name@)
    } else {
        seq![]
    }
}

/// `sorted` holds the strings of `s`, each once, in strictly increasing order.
pub open spec fn sorted_set_of(sorted: Seq<Seq<char>>, s: Seq<Seq<char>>) -> bool {
    strictly_sorted_strs(sorted) && forall|x: Seq<char>| #[trigger] sorted.contains(x) <==> s.contains(x)
}

/// `text` is what a chunk writes for its imports from one external module.
pub open spec fn external_import_text_ok(ext: ImportsFromExternal, text: Seq<char>) -> bool {
    exists|specifiers: Seq<Seq<char>>, defaults: Seq<Seq<char>>|
        sorted_set_of(specifiers, ext_specifiers(ext.items@)) && sorted_set_of(defaults, ext_default_aliases(ext.items@))
            && text == external_import_text(ext, specifiers, defaults)
}

/// `p` occurs in `t`.
pub open spec fn has_substring(t: Seq<char>, p: Seq<char>) -> bool {
    exists|a: int| 0 <= a && a + p.len() <= t.len() && #[trigger] t.subrange(a, a + p.len()) == p
}

proof fn lemma_substring_left(a: Seq<char>, b: Seq<char>, p: Seq<char>)
    requires
        has_substring(a, p),
    ensures
        has_substring(a + b, p),
{
    let k = choose|k: int| 0 <= k && k + p.len() <= a.len() && #[trigger] a.subrange(k, k + p.len()) == p;
    assert((a + b).subrange(k, k + p.len()) =~= a.subrange(k, k + p.len()));
}

proof fn lemma_substring_right(a: Seq<char>, b: Seq<char>, p: Seq<char>)
    requires
        has_substring(b, p),
    ensures
        has_substring(a + b, p),
{
    let k = choose|k: int| 0 <= k && k + p.len() <= b.len() && #[trigger] b.subrange(k, k + p.len()) == p;
    assert((a + b).subrange(a.len() + k, a.len() + k + p.len()) =~= b.subrange(k, k + p.len()));
}

proof fn lemma_substring_self(p: Seq<char>)
    ensures
        has_substring(p, p),
{
    let a: int = 0;
    assert(p.subrange(a, a + p.len()) =~= p);
}

proof fn lemma_join_has_part(parts: Seq<Seq<char>>, sep: Seq<char>, k: int)
    requires
        0 <= k < parts.len(),
    ensures
        has_substring(join_with(parts, sep), parts[k]),
    decreases parts.len(),
{
    if parts.len() == 1 {
        lemma_substring_self(parts[0]);
    } else if k == parts.len() - 1 {
        lemma_substring_self(parts.last());
        lemma_substring_right(join_with(parts.drop_last(), sep) + sep, parts.last(), parts[k]);
    } else {
        lemma_join_has_part(parts.drop_last(), sep, k);
        assert(parts.drop_last()[k] == parts[k]);
        lemma_substring_left(join_with(parts.drop_last(), sep), sep, parts[k]);
        lemma_substring_left(join_with(parts.drop_last(), sep) + sep, parts.last(), parts[k]);
    }
}

proof fn lemma_ext_specifiers_has(items: Seq<ExternalImportItem>, i: int)
    requires
        0 <= i < items.len(),
        items[i].used,
        items[i].imported is Literal,
        ext_item_specifier(items[i].local_name@, items[i].imported->Literal_0@) is Some,
    ensures
        ext_specifiers(items).contains(ext_item_specifier(items[i].local_name@, items[i].imported->Literal_0@)->0),
    decreases items.len(),
{
    let sp = ext_item_specifier(items[i].local_name@, items[i].imported->Literal_0@)->0;
    let rest = ext_specifiers(items.drop_last());
    if i == items.len() - 1 {
        assert(ext_specifiers(items) == rest.push(sp));
        assert(rest.push(sp)[rest.len() as int] == sp);
    } else {
        lemma_ext_specifiers_has(items.drop_last(), i);
        assert(items.drop_last()[i] == items[i]);
        let w = choose|w: int| 0 <= w < rest.len() && rest[w] == sp;
        assert(ext_specifiers(items) == rest || ext_specifiers(items) == rest.push(ext_specifiers(items).last()));
        assert(ext_specifiers(items)[w] == sp);
    }
}

/// A used named import from an external module whose local name is not the imported name
/// (and which is no `default` import) is written as `<imported> as <local>`, so the local
/// name is bound by the declaration.
pub proof fn lemma_external_alias_is_bound(ext: ImportsFromExternal, text: Seq<char>, i: int)
    requires
        external_import_text_ok(ext, text),
        0 <= i < ext.items.len(),
        ext.items@[i].used,
        ext.items@[i].imported is Literal,
        ext.items@[i].imported->Literal_0@ != ext.items@[i].local_name@,
        ext.items@[i].imported->Literal_0@ != "default"@,
    ensures
        has_substring(
            text,
            import_export_name(ext.items@[i].imported->Literal_0@) + " as "@ + ext.items@[i].local_name@,
        ),
{
    let items = ext.items@;
    let imp = items[i].imported->Literal_0@;
    let local = items[i].local_name@;
    let sp = import_export_name(imp) + " as "@ + local;
    assert(ext_item_specifier(local, imp) == Some(sp));
    lemma_ext_specifiers_has(items, i);
    let (specifiers, defaults) = choose|specifiers: Seq<Seq<char>>, defaults: Seq<Seq<char>>|
        sorted_set_of(specifiers, ext_specifiers(ext.items@)) && sorted_set_of(defaults, ext_default_aliases(ext.items@))
            && text == external_import_text(ext, specifiers, defaults);
    assert(specifiers.contains(sp));
    let k = choose|k: int| 0 <= k < specifiers.len() && specifiers[k] == sp;
    let all = declaration_specifiers(specifiers, defaults);
    assert(all[k] == sp);
    lemma_join_has_part(all, ", "@, k);
    let j = join_with(all, ", "@);
    let path = ext.name@;
    if defaults.len() > 0 {
        let pre = "import "@ + defaults[0] + ", "@ + "{ "@;
        lemma_substring_right(pre, j, sp);
        lemma_substring_left(pre + j, " } from \""@ + path + "\";\n"@, sp);
        assert(import_declaration(specifiers, defaults, path) == pre + j + (" } from \""@ + path + "\";\n"@)) by {
            assert(import_declaration(specifiers, defaults, path) =~= pre + j + (" } from \""@ + path + "\";\n"@));
        }
    } else {
        let pre = "import "@ + "{ "@;
        lemma_substring_right(pre, j, sp);
        lemma_substring_left(pre + j, " } from \""@ + path + "\";\n"@, sp);
        assert(import_declaration(specifiers, defaults, path) =~= pre + j + (" } from \""@ + path + "\";\n"@));
    }
    lemma_substring_right(ext_star_lines(items, path), import_declaration(specifiers, defaults, path), sp);
}

/// A used named import from an external module whose local name is the imported name is
/// written as that name.
pub proof fn lemma_external_same_name_is_bound(ext: ImportsFromExternal, text: Seq<char>, i: int)
    requires
        external_import_text_ok(ext, text),
        0 <= i < ext.items.len(),
        ext.items@[i].used,
        ext.items@[i].imported is Literal,
        ext.items@[i].imported->Literal_0@ == ext.items@[i].local_name@,
    ensures
        has_substring(text, ext.items@[i].local_name@),
{
    let items = ext.items@;
    let local = items[i].local_name@;
    assert(ext_item_specifier(local, items[i].imported->Literal_0@) == Some(local));
    lemma_ext_specifiers_has(items, i);
    let (specifiers, defaults) = choose|specifiers: Seq<Seq<char>>, defaults: Seq<Seq<char>>|
        sorted_set_of(specifiers, ext_specifiers(ext.items@)) && sorted_set_of(defaults, ext_default_aliases(ext.items@))
            && text == external_import_text(ext, specifiers, defaults);
    assert(specifiers.contains(local));
    let k = choose|k: int| 0 <= k < specifiers.len() && specifiers[k] == local;
    let all = declaration_specifiers(specifiers, defaults);
    assert(all[k] == local);
    lemma_join_has_part(all, ", "@, k);
    let j = join_with(all, ", "@);
    let path = ext.name@;
    let tail = " } from \""@ + path + "\";\n"@;
    if defaults.len() > 0 {
        let pre = "import "@ + defaults[0] + ", "@ + "{ "@;
        lemma_substring_right(pre, j, local);
        lemma_substring_left(pre + j, tail, local);
        assert(import_declaration(specifiers, defaults, path) =~= pre + j + tail);
    } else {
        let pre = "import "@ + "{ "@;
        lemma_substring_right(pre, j, local);
        lemma_substring_left(pre + j, tail, local);
        assert(import_declaration(specifiers, defaults, path) =~= pre + j + tail);
    }
    lemma_substring_right(ext_star_lines(items, path), import_declaration(specifiers, defaults, path), local);
}

/// Writes what a chunk imports from one external module.
pub fn render_import_from_external(ext: &ImportsFromExternal) -> (r: String)
    ensures
        external_import_text_ok(*ext, r@),
{
    let mut s = String::new();
    let mut has_star = false;
    let mut specifiers: Vec<String> = Vec::new();
    let mut default_alias: Vec<String> = Vec::new();
    let mut i: usize = 0;
    while i < ext.items.len()
        invariant
            i <= ext.items.len(),
            s@ == ext_star_lines(ext.items@.subrange(0, i as int), ext.name@),
            has_star == ext_has_star(ext.items@.subrange(0, i as int)),
            views(specifiers@) == ext_specifiers(ext.items@.subrange(0, i as int)),
            views(default_alias@) == ext_default_aliases(ext.items@.subrange(0, i as int)),
        decreases ext.items.len() - i,
    {
        let item = &ext.items[i];
        let ghost prefix = ext.items@.subrange(0, i as int + 1);
        let ghost prev = ext.items@.subrange(0, i as int);
        proof {
            assert(prefix.drop_last() =~= prev);
            assert(prefix.last() == *item);
            assert(forall|k: int| 0 <= k < prev.len() ==> prefix[k] == #[trigger] prev[k]);
        }
        let ghost sb = views(specifiers@);
        let ghost db = views(default_alias@);
        if item.used {
            match &item.imported {
                Specifier::Star => {
                    has_star = true;
                    s.append("import * as ");
                    s.append(item.local_name.as_str());
                    s.append(" from \"");
                    s.append(ext.name.as_str());
                    s.append("\";\n");
                    proof {
                        assert(prefix[i as int].used && prefix[i as int].imported is Star);
                    }
                },
                Specifier::Literal(imported) => {
                    if item.local_name == *imported {
                        specifiers.push(item.local_name.clone());
                        proof {
                            assert(views(specifiers@) =~= sb.push(item.local_name@));
                        }
                    } else if str_eq(imported.as_str(), "default") {
                        default_alias.push(item.local_name.clone());
                        proof {
                            assert(views(default_alias@) =~= db.push(item.local_name@));
                        }
                    } else {
                        let mut sp = to_module_import_export_name(imported);
                        sp.append(" as ");
                        sp.append(item.local_name.as_str());
                        specifiers.push(sp);
                        proof {
                            assert(views(specifiers@) =~= sb.push(sp@));
                        }
                    }
                    proof {
                        if ext_has_star(prefix) {
                            let k = choose|k: int| 0 <= k < prefix.len() && (#[trigger] prefix[k]).used && prefix[k].imported is Star;
                            assert(k < prev.len());
                        }
                    }
                },
            }
        } else {
            proof {
                if ext_has_star(prefix) {
                    let k = choose|k: int| 0 <= k < prefix.len() && (#[trigger] prefix[k]).used && prefix[k].imported is Star;
                    assert(k < prev.len());
                }
            }
        }
        i += 1;
    }
    proof {
        assert(ext.items@.subrange(0, ext.items.len() as int) =~= ext.items@);
    }
    let sorted_specifiers = sort_dedup_strings(&specifiers);
    let sorted_defaults = sort_dedup_strings(&default_alias);
    let ghost sp = views(sorted_specifiers@);
    let ghost df = views(sorted_defaults@);
    let ghost lines = s@;
    if sorted_specifiers.len() > 0 || sorted_defaults.len() > 0 || (ext.has_side_effects && !has_star) {
        let decl = create_import_declaration(sorted_specifiers, &sorted_defaults, &ext.name);
        s.append(decl.as_str());
    }
    proof {
        assert(sorted_set_of(sp, ext_specifiers(ext.items@)));
        assert(sorted_set_of(df, ext_default_aliases(ext.items@)));
        assert(s@ =~= external_import_text(*ext, sp, df));
    }
    s
}

/// `parts` are the import texts of a chunk in ES module output: one per imported chunk, then
/// one per external module.
pub open spec fn esm_import_parts_ok(
    chunks: Seq<ImportsFromChunk>,
    externals: Seq<ImportsFromExternal>,
    parts: Seq<Seq<char>>,
) -> bool {
    &&& parts.len() == chunks.len() + externals.len()
    &&& forall|i: int| 0 <= i < chunks.len() ==> chunk_import_text_ok(chunks[i], #[trigger] parts[i])
    &&& forall|i: int| 0 <= i < externals.len() ==> external_import_text_ok(externals[i], #[trigger] parts[chunks.len() + i])
}

/// The imports part of a chunk in ES module output: one declaration per imported chunk, then
/// the imports from each external module.
pub fn render_esm_chunk_imports(chunks: &Vec<ImportsFromChunk>, externals: &Vec<ImportsFromExternal>) -> (r: String)
    ensures
        exists|parts: Seq<Seq<char>>| #[trigger] esm_import_parts_ok(chunks@, externals@, parts) && r@ == concat_all(parts),
{
    let mut s = String::new();
    let ghost mut parts: Seq<Seq<char>> = seq![];
    let mut i: usize = 0;
    while i < chunks.len()
        invariant
            i <= chunks.len(),
            parts.len() == i,
            forall|k: int| 0 <= k < i ==> chunk_import_text_ok(chunks[k], #[trigger] parts[k]),
            s@ == concat_all(parts),
        decreases chunks.len() - i,
    {
        let part = render_import_from_chunk(&chunks[i]);
        s.append(part.as_str());
        proof {
            let p0 = parts;
            parts = parts.push(part@);
            assert(parts.drop_last() =~= p0);
            assert forall|k: int| 0 <= k < i + 1 implies chunk_import_text_ok(chunks[k], #[trigger] parts[k]) by {
                if k < i {
                    assert(parts[k] == p0[k]);
                }
            }
        }
        i += 1;
    }
    let mut j: usize = 0;
    while j < externals.len()
        invariant
            j <= externals.len(),
            parts.len() == chunks.len() + j,
            forall|k: int| 0 <= k < chunks.len() ==> chunk_import_text_ok(chunks[k], #[trigger] parts[k]),
            forall|k: int| 0 <= k < j ==> external_import_text_ok(externals[k], #[trigger] parts[chunks.len() + k]),
            s@ == concat_all(parts),
        decreases externals.len() - j,
    {
        let part = render_import_from_external(&externals[j]);
        s.append(part.as_str());
        proof {
            let p0 = parts;
            parts = parts.push(part@);
            assert(parts.drop_last() =~= p0);
            assert forall|k: int| 0 <= k < chunks.len() implies chunk_import_text_ok(chunks[k], #[trigger] parts[k]) by {
                assert(parts[k] == p0[k]);
            }
            assert forall|k: int| 0 <= k < j + 1 implies external_import_text_ok(
                externals[k],
                #[trigger] parts[chunks.len() + k],
            ) by {
                if k < j {
                    assert(parts[chunks.len() + k] == p0[chunks.len() + k]);
                }
            }
        }
        j += 1;
    }
    proof {
        assert(esm_import_parts_ok(chunks@, externals@, parts));
    }
    s
}

/// The module format of the output.
#[derive(Clone, Copy, Debug, PartialEq, Eq, Structural)]
pub enum OutputFormat {
    Esm,
    Cjs,
}

/// The CommonJS text that imports another chunk: a bare `require`, or one bound to a name
/// when bindings are imported from it.
pub open spec fn cjs_chunk_import_text(imports: ImportsFromChunk) -> Seq<char> {
    let req = "require('"@ + imports.path@ + "');\n"@;
    if imports.items.len() == 0 {
        req
    } else {
        "const "@ + imports.require_binding@ + " = "@ + req
    }
}

/// The CommonJS text that imports an external module: its namespace bound through
/// `to_esm` when used, a bare `require` when only its side effects matter, else nothing.
pub open spec fn cjs_external_import_text(ext: ImportsFromExternal, to_esm: Seq<char>) -> Seq<char> {
    let req = "require(\""@ + ext.name@ + "\")"@;
    if ext.namespace_used {
        "const "@ + ext.namespace_name@ + " = "@ + to_esm + "("@ + req + ");\n"@
    } else if ext.has_side_effects {
        req + ";\n"@
    } else {
        seq![]
    }
}

/// The imports part of a chunk in CommonJS output.
pub fn render_cjs_chunk_imports(
    chunks: &Vec<ImportsFromChunk>,
    externals: &Vec<ImportsFromExternal>,
    to_esm_fn_name: &String,
) -> (r: String)
    ensures
        r@ == concat_all(
            Seq::new(chunks.len() as nat, |i: int| cjs_chunk_import_text(chunks[i])) + Seq::new(
                externals.len() as nat,
                |i: int| cjs_external_import_text(externals[i], to_esm_fn_name@),
            ),
        ),
{
    let mut s = String::new();
    let ghost mut parts: Seq<Seq<char>> = seq![];
    let mut i: usize = 0;
    while i < chunks.len()
        invariant
            i <= chunks.len(),
            parts == Seq::new(i as nat, |k: int| cjs_chunk_import_text(chunks[k])),
            s@ == concat_all(parts),
        decreases chunks.len() - i,
    {
        let imp = &chunks[i];
        let mut req = String::from_str("require('");
        req.append(imp.path.as_str());
        req.append("');\n");
        let ghost before = s@;
        if imp.items.len() == 0 {
            s.append(req.as_str());
        } else {
            s.append("const ");
            s.append(imp.require_binding.as_str());
            s.append(" = ");
            s.append(req.as_str());
        }
        proof {
            let p0 = parts;
            parts = parts.push(cjs_chunk_import_text(chunks[i as int]));
            assert(parts.drop_last() =~= p0);
            assert(s@ =~= before + cjs_chunk_import_text(chunks[i as int]));
            assert(parts =~= Seq::new((i + 1) as nat, |k: int| cjs_chunk_import_text(chunks[k])));
        }
        i += 1;
    }
    let mut j: usize = 0;
    while j < externals.len()
        invariant
            j <= externals.len(),
            parts == Seq::new(chunks.len() as nat, |k: int| cjs_chunk_import_text(chunks[k])) + Seq::new(
                j as nat,
                |k: int| cjs_external_import_text(externals[k], to_esm_fn_name@),
            ),
            s@ == concat_all(parts),
        decreases externals.len() - j,
    {
        let ext = &externals[j];
        let mut req = String::from_str("require(\"");
        req.append(ext.name.as_str());
        req.append("\")");
        let ghost before = s@;
        if ext.namespace_used {
            s.append("const ");
            s.append(ext.namespace_name.as_str());
            s.append(" = ");
            s.append(to_esm_fn_name.as_str());
            s.append("(");
            s.append(req.as_str());
            s.append(");\n");
        } else if ext.has_side_effects {
            s.append(req.as_str());
            s.append(";\n");
        }
        proof {
            let p0 = parts;
            parts = parts.push(cjs_external_import_text(externals[j as int], to_esm_fn_name@));
            assert(parts.drop_last() =~= p0);
            assert(s@ =~= before + cjs_external_import_text(externals[j as int], to_esm_fn_name@));
            assert(parts =~= Seq::new(chunks.len() as nat, |k: int| cjs_chunk_import_text(chunks[k])) + Seq::new(
                (j + 1) as nat,
                |k: int| cjs_external_import_text(externals[k], to_esm_fn_name@),
            ));
        }
        j += 1;
    }
    s
}

/// Collects the pieces of an output file; joined, they are separated by line breaks.
pub struct SourceJoiner {
    pub sources: Vec<String>,
}

impl SourceJoiner {
    pub fn new() -> (r: SourceJoiner)
        ensures
            r.sources@.len() == 0,
    {
        SourceJoiner { sources: Vec::new() }
    }

    pub fn append_source(&mut self, source: String)
        ensures
            final(self).sources@ == old(self).sources@.push(source),
    {
        self.sources.push(source);
    }

    /// The pieces, with a line break between each two.
    pub fn join(&self) -> (r: String)
        ensures
            r@ == join_with(views(self.sources@), "\n"@),
    {
        join_strings(&self.sources, "\n")
    }
}

/// A module of a chunk with its generated code, if it has any.
#[derive(Clone, Debug)]
pub struct RenderedModuleSource {
    pub module_idx: ModuleIdx,
    pub sources: Option<String>,
}

impl RenderedModuleSource {
    pub fn new(module_idx: ModuleIdx, sources: Option<String>) -> (r: RenderedModuleSource)
        ensures
            r.module_idx == module_idx,
            r.sources == sources,
    {
        RenderedModuleSource { module_idx, sources }
    }
}

/// The generated code of the modules that have some, in order.
pub open spec fn emitted_sources(ms: Seq<RenderedModuleSource>) -> Seq<Seq<char>>
    decreases ms.len(),
{
    if ms.len() == 0 {
        seq![]
    } else {
        let rest = emitted_sources(ms.drop_last());
        match ms.last().sources {
            Some(src) => rest.push(src@),
            None => rest,
        }
    }
}

/// `s` without the entries equal to the one before them.
pub open spec fn dedup_consecutive(s: Seq<Seq<char>>) -> Seq<Seq<char>>
    decreases s.len(),
{
    if s.len() == 0 {
        seq![]
    } else if s.len() >= 2 && s.last() == s[s.len() - 2] {
        dedup_consecutive(s.drop_last())
    } else {
        dedup_consecutive(s.drop_last()).push(s.last())
    }
}

/// The line that re-exports everything of an external module.
pub open spec fn star_export_line(name: Seq<char>) -> Seq<char> {
    "export * from \""@ + name + "\"\n"@
}

/// Appends the generated code of the modules, in order.
fn append_module_sources(joiner: &mut SourceJoiner, module_sources: &Vec<RenderedModuleSource>, from: usize)
    requires
        from <= module_sources.len(),
    ensures
        views(final(joiner).sources@) == views(old(joiner).sources@) + emitted_sources(
            module_sources@.subrange(from as int, module_sources.len() as int),
        ),
{
    let ghost start = views(joiner.sources@);
    let mut i: usize = from;
    while i < module_sources.len()
        invariant
            from <= i <= module_sources.len(),
            views(joiner.sources@) == start + emitted_sources(module_sources@.subrange(from as int, i as int)),
        decreases module_sources.len() - i,
    {
        let ghost before = views(joiner.sources@);
        let ghost sub = module_sources@.subrange(from as int, i as int + 1);
        proof {
            assert(sub.drop_last() =~= module_sources@.subrange(from as int, i as int));
            assert(sub.last() == module_sources@[i as int]);
        }
        match &module_sources[i].sources {
            Some(src) => {
                joiner.append_source(src.clone());
                proof {
                    assert(views(joiner.sources@) =~= before.push(src@));
                }
            },
            None => {},
        }
        i += 1;
    }
}

/// The pieces of a chunk in ES module output: its imports, a re-export line per external
/// module that the entry module re-exports everything of (repeated neighbours once), the
/// code of its modules, and its exports when there are any.
pub open spec fn esm_pieces(
    imports: Seq<char>,
    external_star_exports: Seq<Seq<char>>,
    module_sources: Seq<RenderedModuleSource>,
    exports: Option<String>,
) -> Seq<Seq<char>> {
    let stars = dedup_consecutive(external_star_exports);
    seq![imports] + Seq::new(stars.len(), |i: int| star_export_line(stars[i])) + emitted_sources(module_sources) + match exports {
        Some(e) => if e@.len() > 0 {
            seq![e@]
        } else {
            seq![]
        },
        None => seq![],
    }
}

/// Lays out a chunk in ES module output.
pub fn render_esm(
    imports_from_chunks: &Vec<ImportsFromChunk>,
    imports_from_externals: &Vec<ImportsFromExternal>,
    external_star_exports: &Vec<String>,
    module_sources: &Vec<RenderedModuleSource>,
    exports: &Option<String>,
) -> (r: SourceJoiner)
    ensures
        exists|parts: Seq<Seq<char>>|
            #[trigger] esm_import_parts_ok(imports_from_chunks@, imports_from_externals@, parts) && views(r.sources@)
                == esm_pieces(concat_all(parts), views(external_star_exports@), module_sources@, *exports),
{
    let mut joiner = SourceJoiner::new();
    let imports = render_esm_chunk_imports(imports_from_chunks, imports_from_externals);
    let ghost iv = imports@;
    let ghost iparts = choose|parts: Seq<Seq<char>>|
        #[trigger] esm_import_parts_ok(imports_from_chunks@, imports_from_externals@, parts) && iv == concat_all(parts);
    joiner.append_source(imports);
    let ghost names = views(external_star_exports@);
    let mut i: usize = 0;
    let ghost mut stars: Seq<Seq<char>> = seq![];
    while i < external_star_exports.len()
        invariant
            i <= external_star_exports.len(),
            names == views(external_star_exports@),
            stars == dedup_consecutive(names.subrange(0, i as int)),
            views(joiner.sources@) == seq![iv] + Seq::new(stars.len(), |k: int| star_export_line(stars[k])),
        decreases external_star_exports.len() - i,
    {
        let ghost before = views(joiner.sources@);
        let ghost sub = names.subrange(0, i as int + 1);
        proof {
            assert(sub.drop_last() =~= names.subrange(0, i as int));
            assert(sub.last() == names[i as int]);
            if i >= 1 {
                assert(sub[sub.len() - 2] == names[i - 1]);
            }
        }
        if i == 0 || !(external_star_exports[i] == external_star_exports[i - 1]) {
            let mut line = String::from_str("export * from \"");
            line.append(external_star_exports[i].as_str());
            line.append("\"\n");
            let ghost lv = line@;
            joiner.append_source(line);
            proof {
                assert(lv == star_export_line(names[i as int]));
                assert(views(joiner.sources@) =~= before.push(lv));
                let s0 = stars;
                stars = stars.push(names[i as int]);
                assert(stars == dedup_consecutive(sub));
                assert(views(joiner.sources@) =~= seq![iv] + Seq::new(stars.len(), |k: int| star_export_line(stars[k])));
            }
        } else {
            proof {
                assert(stars == dedup_consecutive(sub));
            }
        }
        i += 1;
    }
    proof {
        assert(names.subrange(0, names.len() as int) =~= names);
    }
    append_module_sources(&mut joiner, module_sources, 0);
    proof {
        assert(module_sources@.subrange(0, module_sources.len() as int) =~= module_sources@);
    }
    let ghost before_exports = views(joiner.sources@);
    match exports {
        Some(e) => {
            if e.as_str().unicode_len() > 0 {
                joiner.append_source(e.clone());
                proof {
                    assert(views(joiner.sources@) =~= before_exports.push(e@));
                }
            }
        },
        None => {},
    }
    proof {
        assert(views(joiner.sources@) =~= esm_pieces(iv, names, module_sources@, *exports));
        assert(esm_import_parts_ok(imports_from_chunks@, imports_from_externals@, iparts));
    }
    joiner
}

/// The module code of a CommonJS chunk around its imports: the runtime module's code first
/// when the runtime module comes first (and has code), then the imports, then the code of
/// the other modules.
pub open spec fn runtime_first_pieces(
    runtime: ModuleIdx,
    module_sources: Seq<RenderedModuleSource>,
    imports: Seq<char>,
) -> Seq<Seq<char>> {
    let runtime_first = module_sources.len() > 0 && module_sources[0].module_idx == runtime
        && module_sources[0].sources is Some;
    let head: Seq<Seq<char>> = if runtime_first {
        seq![module_sources[0].sources->0@]
    } else {
        seq![]
    };
    let rest = if runtime_first {
        module_sources.drop_first()
    } else {
        module_sources
    };
    head + seq![imports] + emitted_sources(rest)
}

/// The pieces of a chunk in CommonJS output: `"use strict";` when the chunk has code, the
/// runtime module's code when it comes first, the imports, the code of the other modules,
/// and the exports.
pub open spec fn cjs_pieces(
    has_renderable_modules: bool,
    runtime: ModuleIdx,
    module_sources: Seq<RenderedModuleSource>,
    imports: Seq<char>,
    exports: Option<String>,
) -> Seq<Seq<char>> {
    let strict: Seq<Seq<char>> = if has_renderable_modules {
        seq!["\"use strict\";"@]
    } else {
        seq![]
    };
    strict + runtime_first_pieces(runtime, module_sources, imports) + match exports {
        Some(e) => seq![e@],
        None => seq![],
    }
}

/// Appends the module code of a CommonJS chunk and its imports: the runtime module's code
/// first when it leads (the imports may call its helpers), then `import_code`, then the
/// code of the other modules.
pub fn render_modules_with_peek_runtime_module_at_first(
    joiner: &mut SourceJoiner,
    runtime: ModuleIdx,
    module_sources: &Vec<RenderedModuleSource>,
    import_code: String,
)
    ensures
        views(final(joiner).sources@) == views(old(joiner).sources@) + runtime_first_pieces(runtime, module_sources@, import_code@),
{
    let ghost start = views(joiner.sources@);
    let mut from: usize = 0;
    if module_sources.len() > 0 && module_sources[0].module_idx == runtime {
        match &module_sources[0].sources {
            Some(src) => {
                joiner.append_source(src.clone());
                from = 1;
                proof {
                    assert(views(joiner.sources@) =~= start.push(src@));
                }
            },
            None => {},
        }
    }
    let ghost head = views(joiner.sources@);
    let ghost iv = import_code@;
    joiner.append_source(import_code);
    proof {
        assert(views(joiner.sources@) =~= head.push(iv));
    }
    append_module_sources(joiner, module_sources, from);
    proof {
        if from == 1 {
            assert(module_sources@.subrange(1, module_sources.len() as int) =~= module_sources@.drop_first());
        } else {
            assert(module_sources@.subrange(0, module_sources.len() as int) =~= module_sources@);
            assert(head =~= start);
        }
        assert(views(joiner.sources@) =~= start + runtime_first_pieces(runtime, module_sources@, iv));
    }
}

/// Lays out a chunk in CommonJS output.
pub fn render_cjs(
    has_renderable_modules: bool,
    runtime: ModuleIdx,
    module_sources: &Vec<RenderedModuleSource>,
    imports_from_chunks: &Vec<ImportsFromChunk>,
    imports_from_externals: &Vec<ImportsFromExternal>,
    to_esm_fn_name: &String,
    exports: &Option<String>,
) -> (r: SourceJoiner)
    ensures
        views(r.sources@) == cjs_pieces(
            has_renderable_modules,
            runtime,
            module_sources@,
            concat_all(
                Seq::new(imports_from_chunks.len() as nat, |i: int| cjs_chunk_import_text(imports_from_chunks[i]))
                    + Seq::new(
                    imports_from_externals.len() as nat,
                    |i: int| cjs_external_import_text(imports_from_externals[i], to_esm_fn_name@),
                ),
            ),
            *exports,
        ),
{
    let mut joiner = SourceJoiner::new();
    if has_renderable_modules {
        joiner.append_source(String::from_str("\"use strict\";"));
    }
    let ghost strict = views(joiner.sources@);
    proof {
        if has_renderable_modules {
            assert(strict =~= seq!["\"use strict\";"@]);
        } else {
            assert(strict =~= Seq::<Seq<char>>::empty());
        }
    }
    let imports = render_cjs_chunk_imports(imports_from_chunks, imports_from_externals, to_esm_fn_name);
    let ghost iv = imports@;
    render_modules_with_peek_runtime_module_at_first(&mut joiner, runtime, module_sources, imports);
    let ghost before_exports = views(joiner.sources@);
    match exports {
        Some(e) => {
            joiner.append_source(e.clone());
            proof {
                assert(views(joiner.sources@) =~= before_exports.push(e@));
            }
        },
        None => {},
    }
    proof {
        assert(views(joiner.sources@) =~= cjs_pieces(has_renderable_modules, runtime, module_sources@, iv, *exports));
    }
    joiner
}

} // verus!
