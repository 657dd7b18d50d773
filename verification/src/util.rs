use vstd::prelude::*;

verus! {

/// Number of `true` entries in a sequence of flags.
pub open spec fn count_true(s: Seq<bool>) -> nat
    decreases s.len(),
{
    if s.len() == 0 {
        0
    } else {
        count_true(s.drop_last()) + if s.last() {
            1nat
        } else {
            0nat
        }
    }
}

/// A sequence never holds more `true` entries than it has entries.
pub proof fn lemma_count_true_le_len(s: Seq<bool>)
    ensures
        count_true(s) <= s.len(),
    decreases s.len(),
{
    if s.len() > 0 {
        lemma_count_true_le_len(s.drop_last());
    }
}

/// Turning one `false` entry into `true` adds exactly one to the count.
pub proof fn lemma_count_true_set(s: Seq<bool>, i: int)
    requires
        0 <= i < s.len(),
        !s[i],
    ensures
        count_true(s.update(i, true)) == count_true(s) + 1,
    decreases s.len(),
{
    let t = s.update(i, true);
    if i == s.len() - 1 {
        assert(t.drop_last() =~= s.drop_last());
    } else {
        lemma_count_true_set(s.drop_last(), i);
        assert(t.drop_last() =~= s.drop_last().update(i, true));
    }
}

/// A sequence of `n` copies of `false` counts zero.
pub proof fn lemma_count_true_all_false(s: Seq<bool>)
    requires
        forall|i: int| 0 <= i < s.len() ==> !s[i],
    ensures
        count_true(s) == 0,
    decreases s.len(),
{
    if s.len() > 0 {
        lemma_count_true_all_false(s.drop_last());
    }
}

/// Number of `false` entries in a sequence of flags.
pub open spec fn count_false(s: Seq<bool>) -> nat
    decreases s.len(),
{
    if s.len() == 0 {
        0
    } else {
        count_false(s.drop_last()) + if s.last() {
            0nat
        } else {
            1nat
        }
    }
}

/// Turning one `false` entry into `true` removes exactly one from the count of `false` entries.
pub proof fn lemma_count_false_set(s: Seq<bool>, i: int)
    requires
        0 <= i < s.len(),
        !s[i],
    ensures
        count_false(s.update(i, true)) + 1 == count_false(s),
    decreases s.len(),
{
    let t = s.update(i, true);
    if i == s.len() - 1 {
        assert(t.drop_last() =~= s.drop_last());
    } else {
        lemma_count_false_set(s.drop_last(), i);
        assert(t.drop_last() =~= s.drop_last().update(i, true));
    }
}

/// Number of `false` entries over all rows.
pub open spec fn count_false_rows(r: Seq<Seq<bool>>) -> nat
    decreases r.len(),
{
    if r.len() == 0 {
        0
    } else {
        count_false_rows(r.drop_last()) + count_false(r.last())
    }
}

/// Turning one `false` entry of one row into `true` removes exactly one from the count.
pub proof fn lemma_count_false_rows_set(r: Seq<Seq<bool>>, m: int, s: int)
    requires
        0 <= m < r.len(),
        0 <= s < r[m].len(),
        !r[m][s],
    ensures
        count_false_rows(r.update(m, r[m].update(s, true))) + 1 == count_false_rows(r),
    decreases r.len(),
{
    let t = r.update(m, r[m].update(s, true));
    if m == r.len() - 1 {
        assert(t.drop_last() =~= r.drop_last());
        lemma_count_false_set(r[m], s);
    } else {
        lemma_count_false_rows_set(r.drop_last(), m, s);
        assert(t.drop_last() =~= r.drop_last().update(m, r[m].update(s, true)));
    }
}

/// Builds a vector of `n` copies of `v`.
pub fn vec_of<T: Copy>(v: T, n: usize) -> (r: Vec<T>)
    ensures
        r.len() == n,
        forall|i: int| 0 <= i < n ==> r[i] == v,
{
    let mut r: Vec<T> = Vec::new();
    let mut i: usize = 0;
    while i < n
        invariant
            i <= n,
            r.len() == i,
            forall|j: int| 0 <= j < i ==> r[j] == v,
        decreases n - i,
    {
        r.push(v);
        i += 1;
    }
    r
}

/// What a sequence holds, a longer sequence with it as prefix holds too.
pub proof fn lemma_prefix_contains<A>(w1: Seq<A>, w2: Seq<A>, b: A)
    requires
        w2.len() >= w1.len(),
        w2.subrange(0, w1.len() as int) == w1,
        w1.contains(b),
    ensures
        w2.contains(b),
{
    let k = choose|k: int| 0 <= k < w1.len() && w1[k] == b;
    assert(w2.subrange(0, w1.len() as int)[k] == w2[k]);
}

/// A pushed sequence has the old one as prefix and holds the new element.
pub proof fn lemma_push_prefix<A>(s: Seq<A>, x: A)
    ensures
        s.push(x).len() == s.len() + 1,
        s.push(x).subrange(0, s.len() as int) == s,
        s.push(x)[s.len() as int] == x,
        s.push(x).contains(x),
        forall|i: int| 0 <= i < s.len() ==> #[trigger] s.push(x)[i] == s[i],
{
    assert(s.push(x).subrange(0, s.len() as int) =~= s);
    assert(s.push(x)[s.len() as int] == x);
}

/// Being a prefix is transitive.
pub proof fn lemma_prefix_trans<A>(w1: Seq<A>, w2: Seq<A>, w3: Seq<A>)
    requires
        w2.len() >= w1.len(),
        w2.subrange(0, w1.len() as int) == w1,
        w3.len() >= w2.len(),
        w3.subrange(0, w2.len() as int) == w2,
    ensures
        w3.subrange(0, w1.len() as int) == w1,
{
    assert forall|k: int| 0 <= k < w1.len() implies w3.subrange(0, w1.len() as int)[k] == w1[k] by {
        assert(w3.subrange(0, w2.len() as int)[k] == w3[k]);
        assert(w2.subrange(0, w1.len() as int)[k] == w2[k]);
    }
    assert(w3.subrange(0, w1.len() as int) =~= w1);
}

} // verus!
