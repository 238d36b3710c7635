//! The reference graph and what it means for one object to reach another.
//!
//! Objects are numbered from zero; `g[a]` lists, in order, the objects that
//! object `a` refers to. A reference of an object to itself carries no
//! information and is never counted as an edge.

use vstd::prelude::*;

verus! {

/// Every listed reference names an object of the graph.
pub open spec fn in_bounds(g: Seq<Seq<usize>>) -> bool {
    forall|a: int, k: int| 0 <= a < g.len() && 0 <= k < g[a].len() ==> (#[trigger] g[a][k]) < g.len()
}

/// Object `a` refers to another object `b`.
pub open spec fn edge(g: Seq<Seq<usize>>, a: usize, b: usize) -> bool {
    &&& a < g.len()
    &&& b < g.len()
    &&& a != b
    &&& g[a as int].contains(b)
}

/// Position `k` and the one after it in `p` are joined by an edge.
pub open spec fn linked(g: Seq<Seq<usize>>, p: Seq<usize>, k: int) -> bool {
    edge(g, p[k], p[k + 1])
}

/// `p` walks through the graph along edges.
pub open spec fn is_path(g: Seq<Seq<usize>>, p: Seq<usize>) -> bool {
    &&& p.len() >= 1
    &&& p[0] < g.len()
    &&& forall|k: int| 0 <= k < p.len() - 1 ==> #[trigger] linked(g, p, k)
}

/// `b` can be reached from `a` by following references; every object reaches
/// itself.
pub open spec fn reaches(g: Seq<Seq<usize>>, a: usize, b: usize) -> bool {
    exists|p: Seq<usize>| #[trigger] is_path(g, p) && p.first() == a && p.last() == b
}

/// Everything that can be reached from `a`.
pub open spec fn reach_set(g: Seq<Seq<usize>>, a: usize) -> Set<usize> {
    Set::new(|b: usize| reaches(g, a, b))
}

/// No object that can be reached from `a` lies on a cycle.
pub open spec fn cycle_free(g: Seq<Seq<usize>>, a: usize) -> bool {
    forall|b: usize, c: usize|
        #![trigger reaches(g, a, b), edge(g, b, c)]
        reaches(g, a, b) && edge(g, b, c) ==> !reaches(g, c, b)
}

/// No cycle passes through two or more objects.
pub open spec fn acyclic(g: Seq<Seq<usize>>) -> bool {
    forall|b: usize, c: usize| #[trigger] edge(g, b, c) ==> !reaches(g, c, b)
}

/// Holds of every object but `a`.
pub open spec fn other_than(a: int) -> spec_fn(usize) -> bool {
    |b: usize| b != a
}

/// The graph with every self-reference taken out.
pub open spec fn without_self_references(g: Seq<Seq<usize>>) -> Seq<Seq<usize>> {
    Seq::new(g.len(), |a: int| g[a].filter(other_than(a)))
}

pub proof fn lemma_reaches_self(g: Seq<Seq<usize>>, a: usize)
    requires
        a < g.len(),
    ensures
        reaches(g, a, a),
{
    let p = seq![a];
    assert(is_path(g, p));
    assert(p.first() == a && p.last() == a);
}

pub proof fn lemma_reaches_in_graph(g: Seq<Seq<usize>>, a: usize, b: usize)
    requires
        reaches(g, a, b),
    ensures
        a < g.len(),
        b < g.len(),
{
    let p = choose|p: Seq<usize>| #[trigger] is_path(g, p) && p.first() == a && p.last() == b;
    if p.len() > 1 {
        assert(linked(g, p, p.len() - 2));
    }
}

/// A path may be extended by one more edge at its end.
pub proof fn lemma_reaches_then_edge(g: Seq<Seq<usize>>, a: usize, b: usize, c: usize)
    requires
        reaches(g, a, b),
        edge(g, b, c),
    ensures
        reaches(g, a, c),
{
    let p = choose|p: Seq<usize>| #[trigger] is_path(g, p) && p.first() == a && p.last() == b;
    let q = p.push(c);
    assert forall|k: int| 0 <= k < q.len() - 1 implies #[trigger] linked(g, q, k) by {
        if k < p.len() - 1 {
            assert(linked(g, p, k));
        }
    }
    assert(is_path(g, q));
    assert(q.first() == a && q.last() == c);
}

/// A path may be extended by one more edge at its start.
pub proof fn lemma_edge_then_reaches(g: Seq<Seq<usize>>, a: usize, b: usize, c: usize)
    requires
        edge(g, a, b),
        reaches(g, b, c),
    ensures
        reaches(g, a, c),
{
    let p = choose|p: Seq<usize>| #[trigger] is_path(g, p) && p.first() == b && p.last() == c;
    let q = seq![a] + p;
    assert forall|k: int| 0 <= k < q.len() - 1 implies #[trigger] linked(g, q, k) by {
        if k >= 1 {
            assert(linked(g, p, k - 1));
        }
    }
    assert(is_path(g, q));
    assert(q.first() == a && q.last() == c);
}

pub proof fn lemma_edge_reaches(g: Seq<Seq<usize>>, a: usize, b: usize)
    requires
        edge(g, a, b),
    ensures
        reaches(g, a, b),
{
    lemma_reaches_self(g, b);
    lemma_edge_then_reaches(g, a, b, b);
}

/// Reaching is transitive.
pub proof fn lemma_reaches_transitive(g: Seq<Seq<usize>>, a: usize, b: usize, c: usize)
    requires
        reaches(g, a, b),
        reaches(g, b, c),
    ensures
        reaches(g, a, c),
{
    let p = choose|p: Seq<usize>| #[trigger] is_path(g, p) && p.first() == a && p.last() == b;
    let q = choose|q: Seq<usize>| #[trigger] is_path(g, q) && q.first() == b && q.last() == c;
    let r = p + q.drop_first();
    assert forall|k: int| 0 <= k < r.len() - 1 implies #[trigger] linked(g, r, k) by {
        if k < p.len() - 1 {
            assert(linked(g, p, k));
        } else {
            assert(linked(g, q, k - (p.len() - 1)));
        }
    }
    assert(is_path(g, r));
    assert(r.first() == a && r.last() == c);
}

/// What is free of cycles from `a` is free of cycles from all that `a` reaches.
pub proof fn lemma_cycle_free_passes_on(g: Seq<Seq<usize>>, a: usize, b: usize)
    requires
        cycle_free(g, a),
        reaches(g, a, b),
    ensures
        cycle_free(g, b),
{
    assert forall|c: usize, d: usize| reaches(g, b, c) && edge(g, c, d) implies !reaches(
        g,
        d,
        c,
    ) by {
        lemma_reaches_transitive(g, a, b, c);
    }
}

/// In a graph without cycles every object is free of cycles.
pub proof fn lemma_acyclic_cycle_free(g: Seq<Seq<usize>>, a: usize)
    requires
        acyclic(g),
    ensures
        cycle_free(g, a),
{
}

/// A self-reference adds no edge: a graph and the same graph without its
/// self-references have the same edges.
pub proof fn lemma_self_references_add_no_edge(g: Seq<Seq<usize>>, a: usize, b: usize)
    ensures
        edge(g, a, b) <==> edge(without_self_references(g), a, b),
{
    let h = without_self_references(g);
    if a < g.len() && b < g.len() && a != b {
        let keep = other_than(a as int);
        assert(h[a as int] == g[a as int].filter(keep));
        if g[a as int].contains(b) {
            let i = choose|i: int| 0 <= i < g[a as int].len() && g[a as int][i] == b;
            g[a as int].lemma_filter_contains(keep, i);
        }
        if h[a as int].contains(b) {
            g[a as int].lemma_filter_contains_rev(keep, b);
        }
    }
}

/// Self-references change nothing about what reaches what.
pub proof fn lemma_self_references_reach_nothing(g: Seq<Seq<usize>>, a: usize, b: usize)
    ensures
        reaches(g, a, b) <==> reaches(without_self_references(g), a, b),
{
    let h = without_self_references(g);
    if reaches(g, a, b) {
        let p = choose|p: Seq<usize>| #[trigger] is_path(g, p) && p.first() == a && p.last() == b;
        assert forall|k: int| 0 <= k < p.len() - 1 implies #[trigger] linked(h, p, k) by {
            assert(linked(g, p, k));
            lemma_self_references_add_no_edge(g, p[k], p[k + 1]);
        }
        assert(is_path(h, p));
    }
    if reaches(h, a, b) {
        let p = choose|p: Seq<usize>| #[trigger] is_path(h, p) && p.first() == a && p.last() == b;
        assert forall|k: int| 0 <= k < p.len() - 1 implies #[trigger] linked(g, p, k) by {
            assert(linked(h, p, k));
            lemma_self_references_add_no_edge(g, p[k], p[k + 1]);
        }
        assert(is_path(g, p));
    }
}

} // verus!
