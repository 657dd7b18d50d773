use vstd::prelude::*;
use vstd::string::*;

use css_module_lexer::{collect_dependencies, Dependency as Dep, Mode, UrlRangeKind as Url};

use crate::strings::copy_str;
use crate::types::ImportKind;

verus! {

/// What kind of dependency the CSS lexer found.
#[derive(Clone, Copy, Debug, PartialEq, Eq, Structural)]
pub enum CssDependencyKind {
    /// `@import`; the range covers the whole rule.
    Import,
    /// `url("...")`; the range covers the quoted string.
    UrlString,
    /// `url(...)`; the range covers the whole function.
    UrlFunction,
    /// Anything else (CSS module features), which bundling ignores.
    Other,
}

/// A dependency found by the CSS lexer, with its byte range in the source.
#[derive(Clone, Debug)]
pub struct CssDependency {
    pub kind: CssDependencyKind,
    pub request: String,
    pub start: u32,
    pub end: u32,
}

/// A dependency as plain values.
pub open spec fn dependency_view(d: CssDependency) -> (CssDependencyKind, Seq<char>, u32, u32) {
    (d.kind, d.request@, d.start, d.end)
}

pub open spec fn dependency_views(ds: Seq<CssDependency>) -> Seq<(CssDependencyKind, Seq<char>, u32, u32)> {
    Seq::new(ds.len(), |i: int| dependency_view(ds[i]))
}

pub open spec fn string_views(v: Seq<String>) -> Seq<Seq<char>> {
    Seq::new(v.len(), |i: int| v[i]@)
}

/// The dependencies (in source order) and the warnings (as their messages) that
/// `css_module_lexer::collect_dependencies` finds in a CSS source in plain CSS mode.
pub uninterp spec fn css_lexed(source: Seq<char>) -> (Seq<(CssDependencyKind, Seq<char>, u32, u32)>, Seq<Seq<char>>);

/// `css_module_lexer::collect_dependencies(source, Mode::Css)`, with each dependency and
/// warning turned into plain values. The lexer is deterministic, so the result is a
/// function of the source, named [`css_lexed`]; nothing more of it is stated. The lexer
/// asserts that the source is at most `u32::MAX` bytes long, so longer sources are excluded.
#[verifier::external_body]
fn lex_css(source: &str) -> (r: (Vec<CssDependency>, Vec<String>))
    requires
        source.spec_bytes().len() <= u32::MAX,
    ensures
        (dependency_views(r.0@), string_views(r.1@)) == css_lexed(source@),
{
    let (deps, warnings) = collect_dependencies(source, Mode::Css);
    let deps = deps.iter().map(|d| match d {
        Dep::Import { request, range, .. } => (CssDependencyKind::Import, *request, range.start, range.end),
        Dep::Url { request, range, kind: Url::String, .. } => (CssDependencyKind::UrlString, *request, range.start, range.end),
        Dep::Url { request, range, .. } => (CssDependencyKind::UrlFunction, *request, range.start, range.end),
        _ => (CssDependencyKind::Other, "", 0, 0),
    }).map(|(kind, r, start, end)| CssDependency { kind, request: r.to_string(), start, end }).collect();
    (deps, warnings.iter().map(ToString::to_string).collect())
}

/// An import record of a CSS module, with the byte span that a file name replaces.
#[derive(Clone, Debug)]
pub struct CssImportRecord {
    pub request: String,
    pub kind: ImportKind,
    pub span_start: u32,
    pub span_end: u32,
}

/// What a CSS module is made of for bundling.
pub struct CssViewParts {
    pub import_records: Vec<CssImportRecord>,
    /// For each record, its span.
    pub record_spans: Vec<(u32, u32)>,
    /// The byte ranges of `@import` rules, each with the line break that ends it, which
    /// rendering removes.
    pub at_import_ranges: Vec<(usize, usize)>,
    pub warnings: Vec<String>,
}

/// The end of an `@import` rule ending at byte `end`, stretched over a following
/// `\r\n` and then a following `\n` (when `end` starts a character).
pub open spec fn at_import_end(bytes: Seq<u8>, end: int) -> int {
    if vstd::utf8::is_char_boundary(bytes, end) {
        let e1 = if end + 2 <= bytes.len() && bytes[end] == 13 && bytes[end + 1] == 10 {
            end + 2
        } else {
            end
        };
        if e1 + 1 <= bytes.len() && bytes[e1] == 10 {
            e1 + 1
        } else {
            e1
        }
    } else {
        end
    }
}

/// The span a `url()` dependency's file name occupies: inside the quotes of a string,
/// or inside `url(` and `)`.
pub open spec fn url_span(kind: CssDependencyKind, start: u32, end: u32) -> (int, int) {
    if kind is UrlString {
        (start + 1, end - 1)
    } else {
        (start + 4, end - 1)
    }
}

/// The spans of `url()` dependencies fit in `u32`.
pub open spec fn url_spans_fit(deps: Seq<(CssDependencyKind, Seq<char>, u32, u32)>) -> bool {
    forall|i: int|
        0 <= i < deps.len() && (#[trigger] deps[i]).0 != CssDependencyKind::Import && deps[i].0 != CssDependencyKind::Other
            ==> deps[i].3 >= 1 && deps[i].2 + 4 <= u32::MAX
}

/// The records a dependency list gives: `@import`s and `url()`s, in order.
pub open spec fn css_records(deps: Seq<(CssDependencyKind, Seq<char>, u32, u32)>) -> Seq<(ImportKind, Seq<char>, int, int)>
    decreases deps.len(),
{
    if deps.len() == 0 {
        Seq::empty()
    } else {
        let rest = css_records(deps.drop_last());
        let (kind, request, start, end) = deps.last();
        match kind {
            CssDependencyKind::Import => rest.push((ImportKind::AtImport, request, start as int, end as int)),
            CssDependencyKind::Other => rest,
            _ => rest.push((ImportKind::UrlImport, request, url_span(kind, start, end).0, url_span(kind, start, end).1)),
        }
    }
}

/// The `@import` ranges a dependency list gives, in order.
pub open spec fn css_at_import_ranges(bytes: Seq<u8>, deps: Seq<(CssDependencyKind, Seq<char>, u32, u32)>) -> Seq<(int, int)>
    decreases deps.len(),
{
    if deps.len() == 0 {
        Seq::empty()
    } else {
        let rest = css_at_import_ranges(bytes, deps.drop_last());
        let (kind, request, start, end) = deps.last();
        if kind is Import {
            rest.push((start as int, at_import_end(bytes, end as int)))
        } else {
            rest
        }
    }
}

pub open spec fn record_views(rs: Seq<CssImportRecord>) -> Seq<(ImportKind, Seq<char>, int, int)> {
    Seq::new(rs.len(), |i: int| (rs[i].kind, rs[i].request@, rs[i].span_start as int, rs[i].span_end as int))
}

pub open spec fn span_views(ss: Seq<(u32, u32)>) -> Seq<(int, int)> {
    Seq::new(ss.len(), |i: int| (ss[i].0 as int, ss[i].1 as int))
}

pub open spec fn range_views(rs: Seq<(usize, usize)>) -> Seq<(int, int)> {
    Seq::new(rs.len(), |i: int| (rs[i].0 as int, rs[i].1 as int))
}

fn at_import_end_of(source: &str, end: u32) -> (r: usize)
    ensures
        r as int == at_import_end(source.spec_bytes(), end as int),
{
    let bytes = source.as_bytes();
    let mut e: usize = end as usize;
    if source.is_char_boundary(e) {
        if e <= bytes.len() && bytes.len() - e >= 2 && bytes[e] == 13 && bytes[e + 1] == 10 {
            e = e + 2;
        }
        if e < bytes.len() && bytes[e] == 10 {
            e = e + 1;
        }
    }
    e
}

/// Builds the parts of a CSS module from what the lexer found in its source: an
/// `@import` gives an `AtImport` record spanning the rule and a range to remove (with
/// its line break); a `url()` gives a `UrlImport` record spanning the file name; other
/// dependencies are ignored.
pub fn css_view_from_dependencies(source: &str, deps: &Vec<CssDependency>, warnings: Vec<String>) -> (r: CssViewParts)
    requires
        url_spans_fit(dependency_views(deps@)),
    ensures
        record_views(r.import_records@) == css_records(dependency_views(deps@)),
        span_views(r.record_spans@) == Seq::new(
            css_records(dependency_views(deps@)).len(),
            |i: int| (css_records(dependency_views(deps@))[i].2, css_records(dependency_views(deps@))[i].3),
        ),
        range_views(r.at_import_ranges@) == css_at_import_ranges(source.spec_bytes(), dependency_views(deps@)),
        r.warnings@ == warnings@,
{
    let ghost bytes = source.spec_bytes();
    let ghost dv = dependency_views(deps@);
    let mut records: Vec<CssImportRecord> = Vec::new();
    let mut spans: Vec<(u32, u32)> = Vec::new();
    let mut ranges: Vec<(usize, usize)> = Vec::new();
    let mut i: usize = 0;
    while i < deps.len()
        invariant
            i <= deps.len(),
            dv == dependency_views(deps@),
            bytes == source.spec_bytes(),
            url_spans_fit(dv),
            record_views(records@) == css_records(dv.subrange(0, i as int)),
            spans.len() == records.len(),
            forall|k: int| 0 <= k < spans.len() ==> (#[trigger] spans@[k]).0 == records@[k].span_start && spans@[k].1 == records@[k].span_end,
            range_views(ranges@) == css_at_import_ranges(bytes, dv.subrange(0, i as int)),
        decreases deps.len() - i,
    {
        let d = &deps[i];
        let ghost sub = dv.subrange(0, i + 1);
        proof {
            assert(sub.drop_last() =~= dv.subrange(0, i as int));
            assert(sub.last() == dv[i as int]);
        }
        match d.kind {
            CssDependencyKind::Import => {
                records.push(CssImportRecord { request: copy_str(&d.request), kind: ImportKind::AtImport, span_start: d.start, span_end: d.end });
                spans.push((d.start, d.end));
                let e = at_import_end_of(source, d.end);
                ranges.push((d.start as usize, e));
            },
            CssDependencyKind::Other => {},
            _ => {
                proof {
                    assert(dv[i as int].0 != CssDependencyKind::Import);
                }
                let (s, e) = if d.kind == CssDependencyKind::UrlString {
                    (d.start + 1, d.end - 1)
                } else {
                    (d.start + 4, d.end - 1)
                };
                records.push(CssImportRecord { request: copy_str(&d.request), kind: ImportKind::UrlImport, span_start: s, span_end: e });
                spans.push((s, e));
            },
        }
        proof {
            assert(record_views(records@) =~= css_records(sub));
            assert(range_views(ranges@) =~= css_at_import_ranges(bytes, sub));
        }
        i += 1;
    }
    proof {
        assert(dv.subrange(0, deps.len() as int) =~= dv);
        let rs = css_records(dv);
        assert(span_views(spans@) =~= Seq::new(rs.len(), |k: int| (rs[k].2, rs[k].3)));
    }
    CssViewParts { import_records: records, record_spans: spans, at_import_ranges: ranges, warnings }
}

/// The parts of a CSS module, from its source (see [`css_view_from_dependencies`]);
/// `None` when the source is longer than `u32::MAX` bytes (the lexer cannot take it), or
/// when a `url()` the lexer reports has a range whose file-name span does not fit in `u32`.
pub fn create_css_view(source: &str) -> (r: Option<CssViewParts>)
    ensures
        r is Some <==> source.spec_bytes().len() <= u32::MAX && url_spans_fit(css_lexed(source@).0),
        r matches Some(v) ==> {
            &&& record_views(v.import_records@) == css_records(css_lexed(source@).0)
            &&& range_views(v.at_import_ranges@) == css_at_import_ranges(source.spec_bytes(), css_lexed(source@).0)
            &&& string_views(v.warnings@) == css_lexed(source@).1
        },
{
    if source.as_bytes().len() > 4294967295usize {
        return None;
    }
    let (deps, warnings) = lex_css(source);
    let mut k: usize = 0;
    while k < deps.len()
        invariant
            k <= deps.len(),
            (dependency_views(deps@), string_views(warnings@)) == css_lexed(source@),
            forall|i: int|
                0 <= i < k && (#[trigger] dependency_views(deps@)[i]).0 != CssDependencyKind::Import && dependency_views(deps@)[i].0
                    != CssDependencyKind::Other ==> dependency_views(deps@)[i].3 >= 1 && dependency_views(deps@)[i].2 + 4 <= u32::MAX,
        decreases deps.len() - k,
    {
        let d = &deps[k];
        if d.kind != CssDependencyKind::Import && d.kind != CssDependencyKind::Other && (d.end < 1 || d.start > u32::MAX - 4) {
            proof {
                assert(!url_spans_fit(dependency_views(deps@))) by {
                    assert(dependency_views(deps@)[k as int] == dependency_view(deps@[k as int]));
                }
            }
            return None;
        }
        proof {
            assert(dependency_views(deps@)[k as int] == dependency_view(deps@[k as int]));
        }
        k += 1;
    }
    let ghost ws = string_views(warnings@);
    let v = css_view_from_dependencies(source, &deps, warnings);
    proof {
        assert(string_views(v.warnings@) == ws);
    }
    Some(v)
}

} // verus!
