use vstd::prelude::*;
use vstd::string::*;

use crate::bind::{group_views, ExternalImportGroup};
use crate::render::{ident_part, ident_start, is_identifier, is_valid_identifier_name, push_char};
use crate::strings::{copy_str, str_eq};
use crate::types::{linked_rows, SymbolInfo, SymbolRef, SymbolRefDb};

verus! {

/// A name made usable as an identifier: each character that cannot continue an identifier
/// becomes `_`, and a leading digit gets a `_` before it.
pub open spec fn legitimized(s: Seq<char>) -> Seq<char> {
    let body = Seq::new(s.len(), |i: int| if ident_part(s[i]) { s[i] } else { '_' });
    if s.len() > 0 && '0' <= s[0] <= '9' {
        seq!['_'] + body
    } else {
        body
    }
}

/// Makes `name` usable as an identifier (see [`legitimized`]).
pub fn legitimize_identifier_name(name: &str) -> (r: String)
    ensures
        r@ == legitimized(name@),
{
    let n = name.unicode_len();
    let mut r = String::new();
    proof {
        reveal_strlit("");
    }
    let ghost prefix: Seq<char> = if n > 0 && '0' <= name@[0] <= '9' { seq!['_'] } else { Seq::empty() };
    if n > 0 {
        let c0 = name.get_char(0);
        if '0' <= c0 && c0 <= '9' {
            push_char(&mut r, '_');
        }
    }
    proof {
        assert(r@ =~= prefix);
    }
    let mut i: usize = 0;
    while i < n
        invariant
            n == name@.len(),
            i <= n,
            r@ == prefix + Seq::new(i as nat, |k: int| if ident_part(name@[k]) { name@[k] } else { '_' }),
        decreases n - i,
    {
        let c = name.get_char(i);
        let ok = ('a' <= c && c <= 'z') || ('A' <= c && c <= 'Z') || c == '_' || c == '$' || ('0' <= c && c <= '9');
        if ok {
            push_char(&mut r, c);
        } else {
            push_char(&mut r, '_');
        }
        i += 1;
        proof {
            assert(r@ =~= prefix + Seq::new(i as nat, |k: int| if ident_part(name@[k]) { name@[k] } else { '_' }));
        }
    }
    proof {
        assert(r@ =~= legitimized(name@));
    }
    r
}

/// The name of the symbol that stands for an imported name of an external module: for
/// `default`, the local name of its first importer (if any); else the name itself when it is
/// an identifier, and made one otherwise.
pub open spec fn facade_name(key: Seq<char>, first_local: Option<Seq<char>>) -> Seq<char> {
    if key == "default"@ {
        match first_local {
            Some(n) => n,
            None => key,
        }
    } else if is_identifier(key) {
        key
    } else {
        legitimized(key)
    }
}

/// The symbol table rows after every symbol of `syms` (in order) is linked to `target`.
pub open spec fn link_all(rows: Seq<Seq<SymbolInfo>>, syms: Seq<SymbolRef>, target: SymbolRef) -> Seq<Seq<SymbolInfo>>
    decreases syms.len(),
{
    if syms.len() == 0 {
        rows
    } else {
        let prev = link_all(rows, syms.drop_last(), target);
        let s = syms.last();
        linked_rows(prev, prev[s.owner as int][s.symbol as int].canonical, prev[target.owner as int][target.symbol as int].canonical)
    }
}

proof fn lemma_link_all_shape(rows: Seq<Seq<SymbolInfo>>, syms: Seq<SymbolRef>, target: SymbolRef)
    ensures
        link_all(rows, syms, target).len() == rows.len(),
        forall|o: int| 0 <= o < rows.len() ==> (#[trigger] link_all(rows, syms, target)[o]).len() == rows[o].len(),
    decreases syms.len(),
{
    if syms.len() > 0 {
        lemma_link_all_shape(rows, syms.drop_last(), target);
    }
}

/// The symbol exists in the rows.
pub open spec fn in_rows(rows: Seq<Seq<SymbolInfo>>, s: SymbolRef) -> bool {
    s.owner < rows.len() && s.symbol < rows[s.owner as int].len()
}

/// Every group names a module of the table and symbols that exist.
pub open spec fn groups_ok(groups: Seq<(usize, Seq<char>, Seq<SymbolRef>)>, rows: Seq<Seq<SymbolInfo>>) -> bool {
    forall|k: int|
        0 <= k < groups.len() ==> (#[trigger] groups[k]).0 < rows.len() && forall|i: int|
            0 <= i < groups[k].2.len() ==> in_rows(rows, #[trigger] groups[k].2[i])
}

/// Merging one group takes the rows from `r0` to `r1`: a new symbol of the group's module,
/// named by [`facade_name`] and standing for itself, to which every symbol of the group is
/// then linked.
pub open spec fn group_merged(r0: Seq<Seq<SymbolInfo>>, r1: Seq<Seq<SymbolInfo>>, g: (usize, Seq<char>, Seq<SymbolRef>)) -> bool {
    let f = SymbolRef { owner: g.0, symbol: r0[g.0 as int].len() as usize };
    let first = if g.2.len() > 0 {
        Some(r0[g.2[0].owner as int][g.2[0].symbol as int].name@)
    } else {
        None
    };
    exists|info: SymbolInfo|
        info.name@ == facade_name(g.1, first) && info.canonical == f && info.namespace_alias is None && r1 == link_all(
            #[trigger] r0.update(g.0 as int, r0[g.0 as int].push(info)),
            g.2,
            f,
        )
}

/// The rows go from `r0` to `r1` by merging the groups in order.
pub open spec fn groups_merged(r0: Seq<Seq<SymbolInfo>>, r1: Seq<Seq<SymbolInfo>>, groups: Seq<(usize, Seq<char>, Seq<SymbolRef>)>) -> bool {
    exists|steps: Seq<Seq<Seq<SymbolInfo>>>|
        steps.len() == groups.len() + 1 && steps[0] == r0 && steps[groups.len() as int] == r1 && forall|k: int|
            0 <= k < groups.len() ==> #[trigger] group_merged(steps[k], steps[k + 1], groups[k])
}

pub(crate) proof fn lemma_groups_ok_grow(groups: Seq<(usize, Seq<char>, Seq<SymbolRef>)>, a: Seq<Seq<SymbolInfo>>, b: Seq<Seq<SymbolInfo>>)
    requires
        groups_ok(groups, a),
        b.len() == a.len(),
        forall|o: int| 0 <= o < a.len() ==> (#[trigger] b[o]).len() >= a[o].len(),
    ensures
        groups_ok(groups, b),
{
    assert forall|k: int| 0 <= k < groups.len() implies (#[trigger] groups[k]).0 < b.len() && forall|i: int|
        0 <= i < groups[k].2.len() ==> in_rows(b, #[trigger] groups[k].2[i]) by {
        assert forall|i: int| 0 <= i < groups[k].2.len() implies in_rows(b, #[trigger] groups[k].2[i]) by {
            assert(in_rows(a, groups[k].2[i]));
        }
    }
}

/// Gives each group of imports of an external module one symbol of its own (named by
/// [`facade_name`]) and links every import of the group to it, group by group in order.
pub fn link_external_import_bindings(groups: &Vec<ExternalImportGroup>, db: &mut SymbolRefDb)
    requires
        old(db).wf(),
        groups_ok(group_views(groups@), old(db).view_rows()),
    ensures
        final(db).wf(),
        groups_merged(old(db).view_rows(), final(db).view_rows(), group_views(groups@)),
        final(db).symbols.len() == old(db).symbols.len(),
        forall|o: int| 0 <= o < old(db).symbols.len() ==> (#[trigger] final(db).symbols@[o]).len() >= old(db).symbols@[o].len(),
{
    proof {
        reveal_strlit("default");
    }
    let ghost gv = group_views(groups@);
    let ghost rows0 = db.view_rows();
    let ghost mut steps: Seq<Seq<Seq<SymbolInfo>>> = seq![rows0];
    let mut k: usize = 0;
    while k < groups.len()
        invariant
            k <= groups.len(),
            gv == group_views(groups@),
            gv.len() == groups.len(),
            db.wf(),
            db.symbols.len() == rows0.len(),
            forall|o: int| 0 <= o < rows0.len() ==> (#[trigger] db.symbols@[o]).len() >= rows0[o].len(),
            groups_ok(gv, db.view_rows()),
            steps.len() == k + 1,
            steps[0] == rows0,
            steps[k as int] == db.view_rows(),
            forall|q: int| 0 <= q < k ==> #[trigger] group_merged(steps[q], steps[q + 1], gv[q]),
        decreases groups.len() - k,
    {
        let g = &groups[k];
        let ghost r0 = db.view_rows();
        proof {
            assert(gv[k as int] == (g.module, g.name@, g.symbols@));
            assert(gv[k as int].0 < r0.len());
        }
        let name: String = if str_eq(g.name.as_str(), "default") {
            if g.symbols.len() > 0 {
                let s0 = g.symbols[0];
                proof {
                    assert(in_rows(r0, gv[k as int].2[0]));
                }
                copy_str(&db.symbols[s0.owner][s0.symbol].name)
            } else {
                copy_str(&g.name)
            }
        } else if is_valid_identifier_name(g.name.as_str()) {
            copy_str(&g.name)
        } else {
            legitimize_identifier_name(g.name.as_str())
        };
        let ghost info_name = name@;
        let ghost first = if g.symbols@.len() > 0 {
            Some(r0[g.symbols@[0].owner as int][g.symbols@[0].symbol as int].name@)
        } else {
            None
        };
        proof {
            assert(info_name == facade_name(g.name@, first));
        }
        let f = db.create_facade_root_symbol_ref(g.module, name);
        let ghost info = db.symbols@[g.module as int]@.last();
        let ghost pushed = r0.update(g.module as int, r0[g.module as int].push(info));
        proof {
            assert(db.view_rows() =~= pushed);
            assert forall|o: int| 0 <= o < rows0.len() implies (#[trigger] pushed[o]).len() >= r0[o].len() by {
                assert(pushed[o] == db.symbols@[o]@);
            }
            assert(info.name@ == info_name && info.canonical == f && info.namespace_alias is None);
            assert(link_all(pushed, g.symbols@.subrange(0, 0), f) == pushed) by {
                assert(g.symbols@.subrange(0, 0) =~= Seq::<SymbolRef>::empty());
            }
        }
        let mut i: usize = 0;
        while i < g.symbols.len()
            invariant
                i <= g.symbols.len(),
                k < gv.len(),
                gv[k as int] == (g.module, g.name@, g.symbols@),
                pushed.len() == rows0.len(),
                r0.len() == rows0.len(),
                forall|o: int| 0 <= o < rows0.len() ==> (#[trigger] pushed[o]).len() >= r0[o].len(),
                db.wf(),
                db.symbols.len() == rows0.len(),
                db.has(f),
                f.owner == g.module,
                f.owner < rows0.len(),
                f.symbol == r0[g.module as int].len(),
                pushed[g.module as int].len() == r0[g.module as int].len() + 1,
                forall|o: int| 0 <= o < rows0.len() ==> (#[trigger] db.symbols@[o]).len() >= r0[o].len(),
                forall|o: int| 0 <= o < rows0.len() ==> (#[trigger] r0[o]).len() >= rows0[o].len(),
                forall|q: int| 0 <= q < g.symbols.len() ==> in_rows(r0, #[trigger] g.symbols@[q]),
                db.view_rows() == link_all(pushed, g.symbols@.subrange(0, i as int), f),
            decreases g.symbols.len() - i,
        {
            let s = g.symbols[i];
            proof {
                assert(in_rows(r0, g.symbols@[i as int]));
                lemma_link_all_shape(pushed, g.symbols@.subrange(0, i as int), f);
                assert(db.view_rows()[s.owner as int].len() == db.symbols@[s.owner as int].len());
                assert(pushed[s.owner as int].len() >= r0[s.owner as int].len());
                let sub = g.symbols@.subrange(0, i as int + 1);
                assert(sub.drop_last() =~= g.symbols@.subrange(0, i as int));
                assert(sub.last() == s);
            }
            db.link(s, f);
            i += 1;
            proof {
                lemma_link_all_shape(pushed, g.symbols@.subrange(0, i as int), f);
                assert forall|o: int| 0 <= o < rows0.len() implies (#[trigger] db.symbols@[o]).len() >= r0[o].len() by {
                    assert(db.view_rows()[o].len() == db.symbols@[o].len());
                }
                assert(db.view_rows()[f.owner as int].len() == db.symbols@[f.owner as int].len());
                assert(db.view_rows()[f.owner as int].len() == pushed[f.owner as int].len());
            }
        }
        proof {
            assert(g.symbols@.subrange(0, g.symbols@.len() as int) =~= g.symbols@);
            assert(group_merged(r0, db.view_rows(), gv[k as int]));
            let st0 = steps;
            steps = steps.push(db.view_rows());
            assert forall|q: int| 0 <= q < k + 1 implies #[trigger] group_merged(steps[q], steps[q + 1], gv[q]) by {
                if q < k {
                    assert(steps[q] == st0[q] && steps[q + 1] == st0[q + 1]);
                }
            }
            lemma_groups_ok_grow(gv, r0, db.view_rows());
        }
        k += 1;
    }
}

} // verus!
