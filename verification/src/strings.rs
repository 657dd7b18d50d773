use vstd::prelude::*;
use vstd::string::*;

verus! {

/// `a` sorts before `b`: at the first position where they differ `a` has the smaller
/// character, or `a` is a proper prefix of `b`.
pub open spec fn seq_lt(a: Seq<char>, b: Seq<char>) -> bool {
    ||| exists|k: int|
        0 <= k < a.len() && k < b.len() && a[k] < b[k] && forall|j: int| 0 <= j < k ==> #[trigger] a[j] == b[j]
    ||| (a.len() < b.len() && forall|j: int| 0 <= j < a.len() ==> #[trigger] a[j] == b[j])
}

/// The views of some strings.
pub open spec fn views(v: Seq<String>) -> Seq<Seq<char>> {
    Seq::new(v.len(), |i: int| v[i]@)
}

/// The parts, with `sep` between each two.
pub open spec fn join_with(parts: Seq<Seq<char>>, sep: Seq<char>) -> Seq<char>
    decreases parts.len(),
{
    if parts.len() == 0 {
        seq![]
    } else if parts.len() == 1 {
        parts[0]
    } else {
        join_with(parts.drop_last(), sep) + sep + parts.last()
    }
}

pub proof fn lemma_lt_irreflexive(a: Seq<char>)
    ensures
        !seq_lt(a, a),
{
}

pub proof fn lemma_lt_asymmetric(a: Seq<char>, b: Seq<char>)
    requires
        seq_lt(a, b),
    ensures
        !seq_lt(b, a),
{
    if exists|k: int|
        0 <= k < a.len() && k < b.len() && a[k] < b[k] && forall|j: int| 0 <= j < k ==> #[trigger] a[j] == b[j] {
        let k = choose|k: int|
            0 <= k < a.len() && k < b.len() && a[k] < b[k] && forall|j: int| 0 <= j < k ==> #[trigger] a[j] == b[j];
        if exists|k2: int|
            0 <= k2 < b.len() && k2 < a.len() && b[k2] < a[k2] && forall|j: int| 0 <= j < k2 ==> #[trigger] b[j] == a[j] {
            let k2 = choose|k2: int|
                0 <= k2 < b.len() && k2 < a.len() && b[k2] < a[k2] && forall|j: int| 0 <= j < k2 ==> #[trigger] b[j] == a[j];
            if k2 < k {
                assert(a[k2] == b[k2]);
            } else if k < k2 {
                assert(b[k] == a[k]);
            }
        }
    }
}

pub proof fn lemma_lt_total(a: Seq<char>, b: Seq<char>)
    requires
        a != b,
    ensures
        seq_lt(a, b) || seq_lt(b, a),
{
    if !(exists|k: int| 0 <= k < a.len() && k < b.len() && a[k] != b[k]) {
        if a.len() == b.len() {
            assert(a =~= b);
        }
    } else {
        let k = choose|k: int| 0 <= k < a.len() && k < b.len() && a[k] != b[k];
        lemma_first_difference(a, b, k);
    }
}

proof fn lemma_first_difference(a: Seq<char>, b: Seq<char>, k: int)
    requires
        0 <= k < a.len(),
        k < b.len(),
        a[k] != b[k],
    ensures
        seq_lt(a, b) || seq_lt(b, a),
    decreases k,
{
    if exists|k2: int| 0 <= k2 < k && a[k2] != b[k2] {
        let k2 = choose|k2: int| 0 <= k2 < k && a[k2] != b[k2];
        lemma_first_difference(a, b, k2);
    } else {
        if a[k] < b[k] {
            assert(forall|j: int| 0 <= j < k ==> #[trigger] a[j] == b[j]);
        } else {
            assert(forall|j: int| 0 <= j < k ==> #[trigger] b[j] == a[j]);
        }
    }
}

pub proof fn lemma_lt_transitive(a: Seq<char>, b: Seq<char>, c: Seq<char>)
    requires
        seq_lt(a, b),
        seq_lt(b, c),
    ensures
        seq_lt(a, c),
{
    // the first difference of a and b, or a's length
    let ka = if exists|k: int|
        0 <= k < a.len() && k < b.len() && a[k] < b[k] && forall|j: int| 0 <= j < k ==> #[trigger] a[j] == b[j] {
        choose|k: int| 0 <= k < a.len() && k < b.len() && a[k] < b[k] && forall|j: int| 0 <= j < k ==> #[trigger] a[j] == b[j]
    } else {
        a.len() as int
    };
    let kb = if exists|k: int|
        0 <= k < b.len() && k < c.len() && b[k] < c[k] && forall|j: int| 0 <= j < k ==> #[trigger] b[j] == c[j] {
        choose|k: int| 0 <= k < b.len() && k < c.len() && b[k] < c[k] && forall|j: int| 0 <= j < k ==> #[trigger] b[j] == c[j]
    } else {
        b.len() as int
    };
    if ka < kb {
        assert(forall|j: int| 0 <= j < ka ==> #[trigger] a[j] == c[j]) by {
            assert(forall|j: int| 0 <= j < ka ==> #[trigger] a[j] == b[j]);
            assert(forall|j: int| 0 <= j < kb ==> #[trigger] b[j] == c[j]);
        }
        if ka < a.len() {
            assert(b[ka] == c[ka]);
        }
    } else if kb < ka {
        assert(forall|j: int| 0 <= j < kb ==> #[trigger] a[j] == c[j]) by {
            assert(forall|j: int| 0 <= j < ka ==> #[trigger] a[j] == b[j]);
            assert(forall|j: int| 0 <= j < kb ==> #[trigger] b[j] == c[j]);
        }
        if kb < b.len() {
            assert(a[kb] == b[kb]);
        }
    } else {
        assert(forall|j: int| 0 <= j < ka ==> #[trigger] a[j] == c[j]) by {
            assert(forall|j: int| 0 <= j < ka ==> #[trigger] a[j] == b[j]);
            assert(forall|j: int| 0 <= j < kb ==> #[trigger] b[j] == c[j]);
        }
    }
}

/// Whether `a` sorts before `b`.
pub fn str_lt(a: &str, b: &str) -> (r: bool)
    ensures
        r == seq_lt(a@, b@),
{
    let la = a.unicode_len();
    let lb = b.unicode_len();
    let mut i: usize = 0;
    while i < la && i < lb
        invariant
            la == a@.len(),
            lb == b@.len(),
            i <= la,
            i <= lb,
            forall|j: int| 0 <= j < i ==> #[trigger] a@[j] == b@[j],
        decreases la - i,
    {
        let ca = a.get_char(i);
        let cb = b.get_char(i);
        if ca != cb {
            proof {
                if ca < cb {
                    assert(forall|j: int| 0 <= j < i ==> #[trigger] a@[j] == b@[j]);
                } else {
                    lemma_first_difference(a@, b@, i as int);
                    if seq_lt(a@, b@) {
                        let k = choose|k: int|
                            0 <= k < a@.len() && k < b@.len() && a@[k] < b@[k] && forall|j: int|
                                0 <= j < k ==> #[trigger] a@[j] == b@[j];
                        if k < i {
                            assert(a@[k] == b@[k]);
                        } else if k > i {
                            assert(a@[i as int] == b@[i as int]);
                        }
                    }
                }
            }
            return ca < cb;
        }
        i += 1;
    }
    proof {
        if seq_lt(a@, b@) && la >= lb {
            let k = choose|k: int|
                0 <= k < a@.len() && k < b@.len() && a@[k] < b@[k] && forall|j: int| 0 <= j < k ==> #[trigger] a@[j] == b@[j];
            assert(a@[k] == b@[k]);
        }
        if la < lb {
            assert(forall|j: int| 0 <= j < a@.len() ==> #[trigger] a@[j] == b@[j]);
        }
    }
    la < lb
}

/// Ordered: no element sorts before an earlier one.
pub open spec fn sorted_strs(s: Seq<Seq<char>>) -> bool {
    forall|i: int, j: int| 0 <= i < j < s.len() ==> !seq_lt(#[trigger] s[j], #[trigger] s[i])
}

/// Strictly ordered: each element sorts before every later one.
pub open spec fn strictly_sorted_strs(s: Seq<Seq<char>>) -> bool {
    forall|i: int, j: int| 0 <= i < j < s.len() ==> seq_lt(#[trigger] s[i], #[trigger] s[j])
}

/// Copies a string.
pub fn copy_str(s: &String) -> (r: String)
    ensures
        r@ == s@,
{
    s.clone()
}

/// The strings in sorted order (as `sort_unstable` leaves them; equal strings are
/// indistinguishable, so the result is determined).
pub fn sort_strings(v: &Vec<String>) -> (r: Vec<String>)
    ensures
        sorted_strs(views(r@)),
        views(r@).to_multiset() == views(v@).to_multiset(),
        r.len() == v.len(),
{
    let mut r: Vec<String> = Vec::new();
    let mut i: usize = 0;
    proof {
        assert(views(r@) =~= views(v@.subrange(0, 0)));
    }
    while i < v.len()
        invariant
            i <= v.len(),
            r.len() == i,
            sorted_strs(views(r@)),
            views(r@).to_multiset() == views(v@.subrange(0, i as int)).to_multiset(),
        decreases v.len() - i,
    {
        let x = copy_str(&v[i]);
        let mut pos: usize = 0;
        while pos < r.len() && !str_lt(x.as_str(), r[pos].as_str())
            invariant
                pos <= r.len(),
                forall|k: int| 0 <= k < pos ==> !seq_lt(x@, #[trigger] r@[k]@),
            decreases r.len() - pos,
        {
            pos += 1;
        }
        let ghost s = views(r@);
        let ghost xv = x@;
        r.insert(pos, x);
        proof {
            assert(views(r@) =~= s.insert(pos as int, xv));
            s.insert_ensures(pos as int, xv);
            let t = views(r@);
            assert forall|a: int, b: int| 0 <= a < b < t.len() implies !seq_lt(#[trigger] t[b], #[trigger] t[a]) by {
                if b < pos {
                    assert(t[a] == s[a] && t[b] == s[b]);
                } else if b == pos {
                    assert(t[a] == s[a]);
                    assert(!seq_lt(xv, s[a]));
                } else if a < pos {
                    assert(t[a] == s[a] && t[b] == s[b - 1]);
                } else if a == pos {
                    assert(t[b] == s[b - 1]);
                    assert(seq_lt(xv, s[pos as int]));
                    if b - 1 > pos {
                        if seq_lt(s[b - 1], xv) {
                            lemma_lt_transitive(s[b - 1], xv, s[pos as int]);
                            assert(!seq_lt(s[b - 1], s[pos as int]));
                        }
                    } else {
                        lemma_lt_asymmetric(xv, s[pos as int]);
                    }
                } else {
                    assert(t[a] == s[a - 1] && t[b] == s[b - 1]);
                }
            }
            vstd::seq_lib::to_multiset_insert(s, pos as int, xv);
            assert(views(v@.subrange(0, i as int + 1)) =~= views(v@.subrange(0, i as int)).push(xv));
            vstd::seq_lib::to_multiset_build(views(v@.subrange(0, i as int)), xv);
        }
        i += 1;
    }
    proof {
        assert(v@.subrange(0, v.len() as int) =~= v@);
    }
    r
}

/// The distinct strings, in strictly increasing order (as sorting and then removing
/// repeated neighbours leaves them).
pub fn sort_dedup_strings(v: &Vec<String>) -> (r: Vec<String>)
    ensures
        strictly_sorted_strs(views(r@)),
        forall|s: Seq<char>| #[trigger] views(r@).contains(s) <==> views(v@).contains(s),
{
    let mut r: Vec<String> = Vec::new();
    let mut i: usize = 0;
    while i < v.len()
        invariant
            i <= v.len(),
            strictly_sorted_strs(views(r@)),
            forall|s: Seq<char>| #[trigger] views(r@).contains(s) <==> views(v@.subrange(0, i as int)).contains(s),
        decreases v.len() - i,
    {
        let x = copy_str(&v[i]);
        let mut pos: usize = 0;
        while pos < r.len() && str_lt(r[pos].as_str(), x.as_str())
            invariant
                pos <= r.len(),
                forall|k: int| 0 <= k < pos ==> seq_lt(#[trigger] r@[k]@, x@),
            decreases r.len() - pos,
        {
            pos += 1;
        }
        let ghost s = views(r@);
        let ghost xv = x@;
        let ghost prefix = views(v@.subrange(0, i as int));
        proof {
            assert(views(v@.subrange(0, i as int + 1)) =~= prefix.push(xv));
        }
        let dup = pos < r.len() && !str_lt(x.as_str(), r[pos].as_str());
        if dup {
            proof {
                // neither sorts before the other, so they are equal
                if s[pos as int] != xv {
                    lemma_lt_total(s[pos as int], xv);
                }
                assert forall|q: Seq<char>| #[trigger] views(r@).contains(q) <==> prefix.push(xv).contains(q) by {
                    if q == xv {
                        assert(s[pos as int] == xv);
                    }
                    if prefix.push(xv).contains(q) && q != xv {
                        let k = choose|k: int| 0 <= k < prefix.len() + 1 && prefix.push(xv)[k] == q;
                        assert(prefix[k] == q);
                    }
                    if prefix.contains(q) {
                        let k = choose|k: int| 0 <= k < prefix.len() && prefix[k] == q;
                        assert(prefix.push(xv)[k] == q);
                    }
                }
            }
        } else {
            r.insert(pos, x);
            proof {
                assert(views(r@) =~= s.insert(pos as int, xv));
                s.insert_ensures(pos as int, xv);
                let t = views(r@);
                assert forall|a: int, b: int| 0 <= a < b < t.len() implies seq_lt(#[trigger] t[a], #[trigger] t[b]) by {
                    if b < pos {
                        assert(t[a] == s[a] && t[b] == s[b]);
                    } else if b == pos {
                        assert(t[a] == s[a]);
                    } else if a < pos {
                        assert(t[a] == s[a] && t[b] == s[b - 1]);
                        lemma_lt_transitive(s[a], xv, s[pos as int]);
                        if b - 1 > pos {
                            lemma_lt_transitive(s[a], s[pos as int], s[b - 1]);
                        }
                    } else if a == pos {
                        assert(t[b] == s[b - 1]);
                        if b - 1 > pos {
                            lemma_lt_transitive(xv, s[pos as int], s[b - 1]);
                        }
                    } else {
                        assert(t[a] == s[a - 1] && t[b] == s[b - 1]);
                    }
                }
                assert forall|q: Seq<char>| #[trigger] t.contains(q) <==> prefix.push(xv).contains(q) by {
                    if t.contains(q) {
                        let k = choose|k: int| 0 <= k < t.len() && t[k] == q;
                        if k < pos {
                            assert(s[k] == q);
                            assert(s.contains(q));
                        } else if k > pos {
                            assert(s[k - 1] == q);
                            assert(s.contains(q));
                        }
                        if q != xv {
                            let k2 = choose|k2: int| 0 <= k2 < prefix.len() && prefix[k2] == q;
                            assert(prefix.push(xv)[k2] == q);
                        } else {
                            assert(prefix.push(xv)[prefix.len() as int] == q);
                        }
                    }
                    if prefix.push(xv).contains(q) {
                        let k = choose|k: int| 0 <= k < prefix.len() + 1 && prefix.push(xv)[k] == q;
                        if k < prefix.len() {
                            assert(prefix[k] == q);
                            assert(prefix.contains(q));
                            assert(s.contains(q));
                            let k2 = choose|k2: int| 0 <= k2 < s.len() && s[k2] == q;
                            if k2 < pos {
                                assert(t[k2] == q);
                            } else {
                                assert(t[k2 + 1] == q);
                            }
                        } else {
                            assert(t[pos as int] == q);
                        }
                    }
                }
            }
        }
        i += 1;
    }
    proof {
        assert(v@.subrange(0, v.len() as int) =~= v@);
    }
    r
}

/// The strings, with `sep` between each two.
pub fn join_strings(parts: &Vec<String>, sep: &str) -> (r: String)
    ensures
        r@ == join_with(views(parts@), sep@),
{
    let mut r = String::new();
    let mut i: usize = 0;
    while i < parts.len()
        invariant
            i <= parts.len(),
            r@ == join_with(views(parts@.subrange(0, i as int)), sep@),
        decreases parts.len() - i,
    {
        let ghost before = r@;
        if i > 0 {
            r.append(sep);
        }
        r.append(parts[i].as_str());
        proof {
            let p = views(parts@.subrange(0, i as int + 1));
            assert(p.drop_last() =~= views(parts@.subrange(0, i as int)));
            if i == 0 {
                assert(views(parts@.subrange(0, 0)) =~= Seq::<Seq<char>>::empty());
                assert(p.len() == 1);
            }
        }
        i += 1;
    }
    proof {
        assert(parts@.subrange(0, parts.len() as int) =~= parts@);
    }
    r
}

/// Whether two strings are equal.
pub fn str_eq(a: &str, b: &str) -> (r: bool)
    ensures
        r == (a@ == b@),
{
    let la = a.unicode_len();
    let lb = b.unicode_len();
    if la != lb {
        return false;
    }
    let mut i: usize = 0;
    while i < la
        invariant
            la == a@.len(),
            lb == b@.len(),
            la == lb,
            i <= la,
            forall|j: int| 0 <= j < i ==> #[trigger] a@[j] == b@[j],
        decreases la - i,
    {
        if a.get_char(i) != b.get_char(i) {
            return false;
        }
        i += 1;
    }
    proof {
        assert(a@ =~= b@);
    }
    true
}

} // verus!
