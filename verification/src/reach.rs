use vstd::prelude::*;

verus! {

/// `p` is a walk in the relation `edge`.
pub open spec fn is_walk<A>(edge: spec_fn(A, A) -> bool, p: Seq<A>) -> bool {
    &&& p.len() >= 1
    &&& forall|i: int| 0 <= i < p.len() - 1 ==> #[trigger] edge(p[i], p[i + 1])
}

/// `b` can be reached from `a` in zero or more steps of `edge`.
pub open spec fn reaches<A>(edge: spec_fn(A, A) -> bool, a: A, b: A) -> bool {
    exists|p: Seq<A>| #[trigger] is_walk(edge, p) && p[0] == a && p.last() == b
}

/// Every node reaches itself.
pub proof fn lemma_reaches_refl<A>(edge: spec_fn(A, A) -> bool, a: A)
    ensures
        reaches(edge, a, a),
{
    let p = seq![a];
    assert(is_walk(edge, p));
}

/// A walk extends by one step.
pub proof fn lemma_reaches_step<A>(edge: spec_fn(A, A) -> bool, a: A, x: A, d: A)
    requires
        reaches(edge, a, x),
        edge(x, d),
    ensures
        reaches(edge, a, d),
{
    let p = choose|p: Seq<A>| #[trigger] is_walk(edge, p) && p[0] == a && p.last() == x;
    let q = p.push(d);
    assert forall|i: int| 0 <= i < q.len() - 1 implies #[trigger] edge(q[i], q[i + 1]) by {
        if i < p.len() - 1 {
            assert(q[i] == p[i] && q[i + 1] == p[i + 1]);
        } else {
            assert(q[i] == x && q[i + 1] == d);
        }
    }
    assert(is_walk(edge, q));
}

proof fn lemma_closed_holds_walk<A>(
    edge: spec_fn(A, A) -> bool,
    s: spec_fn(A) -> bool,
    p: Seq<A>,
    i: int,
)
    requires
        0 <= i < p.len(),
        is_walk(edge, p),
        s(p[0]),
        forall|a: A, b: A| s(a) && #[trigger] edge(a, b) ==> s(b),
    ensures
        s(p[i]),
    decreases i,
{
    if i > 0 {
        lemma_closed_holds_walk(edge, s, p, i - 1);
        let j = i - 1;
        assert(edge(p[j], p[j + 1]));
    }
}

/// A set closed under `edge` that holds `a` holds everything `a` reaches.
pub proof fn lemma_closed_holds_reached<A>(
    edge: spec_fn(A, A) -> bool,
    s: spec_fn(A) -> bool,
    a: A,
    b: A,
)
    requires
        s(a),
        forall|x: A, y: A| s(x) && #[trigger] edge(x, y) ==> s(y),
        reaches(edge, a, b),
    ensures
        s(b),
{
    let p = choose|p: Seq<A>| #[trigger] is_walk(edge, p) && p[0] == a && p.last() == b;
    lemma_closed_holds_walk(edge, s, p, p.len() - 1);
}


/// Every node of a walk reaches the walk's last node.
pub proof fn lemma_walk_reaches_last<A>(edge: spec_fn(A, A) -> bool, p: Seq<A>, k: int)
    requires
        is_walk(edge, p),
        0 <= k < p.len(),
    ensures
        reaches(edge, p[k], p.last()),
{
    let q = p.subrange(k, p.len() as int);
    assert forall|i: int| 0 <= i < q.len() - 1 implies #[trigger] edge(q[i], q[i + 1]) by {
        assert(q[i] == p[k + i] && q[i + 1] == p[k + i + 1]);
    }
    assert(is_walk(edge, q));
    assert(q[0] == p[k] && q.last() == p.last());
}

/// A walk extends by a step from its last node.
pub proof fn lemma_walk_push<A>(edge: spec_fn(A, A) -> bool, p: Seq<A>, d: A)
    requires
        is_walk(edge, p),
        edge(p.last(), d),
    ensures
        is_walk(edge, p.push(d)),
{
    let q = p.push(d);
    assert forall|i: int| 0 <= i < q.len() - 1 implies #[trigger] edge(q[i], q[i + 1]) by {
        if i < p.len() - 1 {
            assert(q[i] == p[i] && q[i + 1] == p[i + 1]);
        } else {
            assert(q[i] == p.last() && q[i + 1] == d);
        }
    }
}

/// A step followed by a walk.
pub proof fn lemma_reaches_prepend<A>(edge: spec_fn(A, A) -> bool, a: A, x: A, b: A)
    requires
        edge(a, x),
        reaches(edge, x, b),
    ensures
        reaches(edge, a, b),
{
    let p = choose|p: Seq<A>| #[trigger] is_walk(edge, p) && p[0] == x && p.last() == b;
    let q = seq![a] + p;
    assert forall|i: int| 0 <= i < q.len() - 1 implies #[trigger] edge(q[i], q[i + 1]) by {
        if i == 0 {
            assert(q[0] == a && q[1] == p[0]);
        } else {
            let j = i - 1;
            assert(q[i] == p[j] && q[i + 1] == p[j + 1]);
            assert(edge(p[j], p[j + 1]));
        }
    }
    assert(is_walk(edge, q));
    assert(q[0] == a && q.last() == b);
}

} // verus!
