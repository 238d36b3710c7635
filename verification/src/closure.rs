//! Closures: for every object, the objects it depends on.
//!
//! The closure of an object holds the object itself and what can be reached
//! from it by following references. Closures are computed depth first and
//! each is computed once: a finished closure is kept and reused wherever the
//! object is referred to again.
//!
//! A reference that leads back to an object whose own references are still
//! being followed closes a cycle. Such a reference contributes the object it
//! names and nothing more. So the closure of an object from which no cycle
//! can be reached is exactly what the object reaches, while that of another
//! object may hold less: it lies between the object's direct references and
//! what the object reaches, and depends on the order in which objects are
//! taken up.
//!
//! References to identifiers that are not in the store contribute nothing.
//! The store lists them.
//!
//! This file says what the closures are; the engine computes them.

use crate::graph::{
    acyclic, cycle_free, edge, in_bounds, is_path, lemma_acyclic_cycle_free,
    lemma_cycle_free_passes_on, lemma_edge_reaches, lemma_reaches_in_graph, lemma_reaches_self,
    lemma_self_references_add_no_edge, lemma_self_references_reach_nothing, linked, other_than,
    reach_set, reaches, without_self_references,
};
use vstd::prelude::*;

verus! {

/// Where one object stands in the computation.
pub enum Mark {
    /// Still in the work queue: nothing has been done for it.
    Pending,
    /// Its references are being followed.
    Active,
    /// Done, with its closure.
    Closed(Seq<usize>),
}

/// The closures that are known: for each object its closure, or nothing yet.
pub open spec fn table_of(marks: Seq<Mark>) -> Seq<Option<Seq<usize>>> {
    Seq::new(
        marks.len(),
        |a: int|
            match marks[a] {
                Mark::Closed(s) => Some(s),
                _ => None,
            },
    )
}

/// The closure that `marks` holds for object `b`; empty when it holds none.
pub open spec fn closure_in(marks: Seq<Mark>, b: usize) -> Seq<usize> {
    match marks[b as int] {
        Mark::Closed(s) => s,
        _ => Seq::empty(),
    }
}

/// `s` holds all that `t` holds.
pub open spec fn covers(s: Seq<usize>, t: Seq<usize>) -> bool {
    forall|c: usize| #[trigger] t.contains(c) ==> s.contains(c)
}

/// What holds of the closure that table `t` gives for object `a`:
/// it names nothing twice; it holds `a` and everything `a` refers to; all
/// it holds can be reached from `a`; and it holds the whole closure of
/// every object that `a` refers to, unless that object leads back to `a`.
pub open spec fn entry_ok(g: Seq<Seq<usize>>, t: Seq<Option<Seq<usize>>>, a: usize) -> bool {
    let s = t[a as int]->0;
    &&& s.no_duplicates()
    &&& s.contains(a)
    &&& forall|b: usize| #[trigger] s.contains(b) ==> reaches(g, a, b)
    &&& forall|b: usize| #[trigger] edge(g, a, b) ==> s.contains(b)
    &&& forall|b: usize| #[trigger]
        edge(g, a, b) && !reaches(g, b, a) ==> t[b as int] is Some && covers(s, t[b as int]->0)
}

/// Every closure that table `t` gives is in order.
pub open spec fn table_ok(g: Seq<Seq<usize>>, t: Seq<Option<Seq<usize>>>) -> bool {
    &&& t.len() == g.len()
    &&& forall|a: usize| a < t.len() && (#[trigger] t[a as int]) is Some ==> entry_ok(g, t, a)
}

/// Table `u` gives every closure that `t` gives, and may give more.
pub open spec fn extends(t: Seq<Option<Seq<usize>>>, u: Seq<Option<Seq<usize>>>) -> bool {
    &&& t.len() == u.len()
    &&& forall|a: int| 0 <= a < t.len() && (#[trigger] t[a]) is Some ==> u[a] == t[a]
}

/// The number of objects that are still in the work queue.
pub open spec fn pending(marks: Seq<Mark>) -> nat
    decreases marks.len(),
{
    if marks.len() == 0 {
        0
    } else {
        pending(marks.drop_last()) + if marks.last() is Pending {
            1nat
        } else {
            0nat
        }
    }
}

/// Changing one mark changes the number of objects in the work queue by
/// what that mark adds to or takes from it.
pub(crate) proof fn lemma_pending_update(marks: Seq<Mark>, a: int, mark: Mark)
    requires
        0 <= a < marks.len(),
    ensures
        pending(marks.update(a, mark)) + (if marks[a] is Pending {
            1nat
        } else {
            0nat
        }) == pending(marks) + (if mark is Pending {
            1nat
        } else {
            0nat
        }),
    decreases marks.len(),
{
    let after = marks.update(a, mark);
    if a == marks.len() - 1 {
        assert(after.drop_last() =~= marks.drop_last());
    } else {
        assert(after.drop_last() =~= marks.drop_last().update(a, mark));
        lemma_pending_update(marks.drop_last(), a, mark);
    }
}

/// No more objects are in the work queue than there are objects.
pub(crate) proof fn lemma_pending_bound(marks: Seq<Mark>)
    ensures
        pending(marks) <= marks.len(),
    decreases marks.len(),
{
    if marks.len() > 0 {
        lemma_pending_bound(marks.drop_last());
    }
}

/// A closure that is in order stays in order when the table grows.
pub(crate) proof fn lemma_entry_ok_extends(
    g: Seq<Seq<usize>>,
    t: Seq<Option<Seq<usize>>>,
    u: Seq<Option<Seq<usize>>>,
    a: usize,
)
    requires
        a < t.len(),
        t[a as int] is Some,
        entry_ok(g, t, a),
        extends(t, u),
        t.len() == g.len(),
    ensures
        entry_ok(g, u, a),
{
    let s = t[a as int]->0;
    assert(u[a as int] == t[a as int]);
    assert forall|b: usize| #[trigger] edge(g, a, b) && !reaches(g, b, a) implies u[b as int] is Some
        && covers(s, u[b as int]->0) by {
        assert(t[b as int] is Some);
    }
}

/// `s` with `b` entered: at the end when it is new, not at all when it is
/// there already.
pub open spec fn added(s: Seq<usize>, b: usize) -> Seq<usize> {
    if s.contains(b) {
        s
    } else {
        s.push(b)
    }
}

/// `s` with the values of `t` entered one after the other.
pub open spec fn joined(s: Seq<usize>, t: Seq<usize>) -> Seq<usize>
    decreases t.len(),
{
    if t.len() == 0 {
        s
    } else {
        added(joined(s, t.drop_last()), t.last())
    }
}

/// `added` holds what was held and what was entered, and nothing twice.
pub(crate) proof fn lemma_added(s: Seq<usize>, b: usize)
    requires
        s.no_duplicates(),
    ensures
        added(s, b).no_duplicates(),
        forall|c: usize| #[trigger] added(s, b).contains(c) <==> s.contains(c) || c == b,
{
    let r = added(s, b);
    assert forall|c: usize| #[trigger] r.contains(c) <==> s.contains(c) || c == b by {
        if s.contains(c) {
            let i = s.index_of(c);
            assert(r[i] == c);
        }
        if c == b && !s.contains(b) {
            assert(r[s.len() as int] == b);
        }
    }
}

/// `joined` holds what both hold, and nothing twice.
pub(crate) proof fn lemma_joined(s: Seq<usize>, t: Seq<usize>)
    requires
        s.no_duplicates(),
    ensures
        joined(s, t).no_duplicates(),
        forall|c: usize| #[trigger] joined(s, t).contains(c) <==> s.contains(c) || t.contains(c),
    decreases t.len(),
{
    if t.len() > 0 {
        let head = t.drop_last();
        lemma_joined(s, head);
        lemma_added(joined(s, head), t.last());
        assert forall|c: usize| #[trigger] joined(s, t).contains(c) <==> s.contains(c) || t.contains(
            c,
        ) by {
            if head.contains(c) {
                let i = head.index_of(c);
                assert(t[i] == c);
            }
            if t.contains(c) {
                let i = t.index_of(c);
                if i < head.len() {
                    assert(head[i] == c);
                }
            }
        }
    }
}

/// The marks once the references of `node` have been followed from the
/// `k`-th on and `node` is closed; `acc` is the closure of `node` as far as it
/// has been gathered.
///
/// A reference of `node` to itself is passed over. A reference to a closed
/// object brings that object's closure. A reference to an object whose
/// references are being followed brings that object alone. A reference to an
/// object of the work queue has the references of that object followed
/// first, and then brings its closure.
///
/// The test on what comes back from below always succeeds (see
/// `lemma_follow_shape`); it stands here so that the definition is seen to
/// end.
pub open spec fn follow(
    g: Seq<Seq<usize>>,
    marks: Seq<Mark>,
    node: usize,
    k: nat,
    acc: Seq<usize>,
) -> Seq<Mark>
    decreases pending(marks), g[node as int].len() - k,
    when in_bounds(g) && node < g.len() && marks.len() == g.len()
    via follow_ends
{
    let refs = g[node as int];
    if k >= refs.len() {
        marks.update(node as int, Mark::Closed(acc))
    } else {
        let b = refs[k as int];
        if b == node {
            follow(g, marks, node, k + 1, acc)
        } else {
            match marks[b as int] {
                Mark::Closed(s) => follow(g, marks, node, k + 1, joined(acc, s)),
                Mark::Active => follow(g, marks, node, k + 1, added(acc, b)),
                Mark::Pending => {
                    let below = follow(g, marks.update(b as int, Mark::Active), b, 0, seq![b]);
                    if below.len() == marks.len() && pending(below) < pending(marks) {
                        follow(g, below, node, k + 1, joined(acc, closure_in(below, b)))
                    } else {
                        marks
                    }
                },
            }
        }
    }
}

#[via_fn]
proof fn follow_ends(g: Seq<Seq<usize>>, marks: Seq<Mark>, node: usize, k: nat, acc: Seq<usize>) {
    let refs = g[node as int];
    if k < refs.len() {
        let b = refs[k as int];
        if b != node && marks[b as int] is Pending {
            lemma_pending_update(marks, b as int, Mark::Active);
        }
    }
}

/// The marks once the closure of `a` has been computed: as they were when
/// `a` is not in the work queue.
pub open spec fn explore(g: Seq<Seq<usize>>, marks: Seq<Mark>, a: usize) -> Seq<Mark> {
    if a < marks.len() && marks[a as int] is Pending {
        follow(g, marks.update(a as int, Mark::Active), a, 0, seq![a])
    } else {
        marks
    }
}

/// The marks once the closure of every object from `from` on has been
/// computed, one object after the other. (Computing a closure keeps the
/// number of marks: the test on it always succeeds.)
pub open spec fn drain(g: Seq<Seq<usize>>, marks: Seq<Mark>, from: nat) -> Seq<Mark>
    decreases marks.len() - from,
{
    if from >= marks.len() {
        marks
    } else {
        let next = explore(g, marks, from as usize);
        if next.len() == marks.len() {
            drain(g, next, from + 1)
        } else {
            marks
        }
    }
}

/// The marks before anything is computed: every object is in the work queue.
pub open spec fn fresh(n: nat) -> Seq<Mark> {
    Seq::new(n, |a: int| Mark::Pending)
}

/// The closures of all objects of the graph `g`, computed from nothing, one
/// object after the other.
pub open spec fn closures(g: Seq<Seq<usize>>) -> Seq<Mark> {
    drain(g, fresh(g.len()), 0)
}

/// Following references keeps the number of marks and takes objects out of
/// the work queue, never into it.
pub proof fn lemma_follow_shape(
    g: Seq<Seq<usize>>,
    marks: Seq<Mark>,
    node: usize,
    k: nat,
    acc: Seq<usize>,
)
    requires
        in_bounds(g),
        node < g.len(),
        marks.len() == g.len(),
    ensures
        follow(g, marks, node, k, acc).len() == marks.len(),
        pending(follow(g, marks, node, k, acc)) <= pending(marks),
    decreases pending(marks), g[node as int].len() - k,
{
    let refs = g[node as int];
    if k >= refs.len() {
        lemma_pending_update(marks, node as int, Mark::Closed(acc));
    } else {
        let b = refs[k as int];
        if b == node {
            lemma_follow_shape(g, marks, node, k + 1, acc);
        } else {
            match marks[b as int] {
                Mark::Closed(s) => {
                    lemma_follow_shape(g, marks, node, k + 1, joined(acc, s));
                },
                Mark::Active => {
                    lemma_follow_shape(g, marks, node, k + 1, added(acc, b));
                },
                Mark::Pending => {
                    let started = marks.update(b as int, Mark::Active);
                    lemma_pending_update(marks, b as int, Mark::Active);
                    lemma_follow_shape(g, started, b, 0, seq![b]);
                    let below = follow(g, started, b, 0, seq![b]);
                    lemma_follow_shape(g, below, node, k + 1, joined(acc, closure_in(below, b)));
                },
            }
        }
    }
}

/// When everything is closed, nothing is in the work queue.
pub(crate) proof fn lemma_pending_closed(marks: Seq<Mark>)
    requires
        forall|a: int| 0 <= a < marks.len() ==> (#[trigger] table_of(marks)[a]) is Some,
    ensures
        pending(marks) == 0,
    decreases marks.len(),
{
    if marks.len() > 0 {
        let head = marks.drop_last();
        assert forall|a: int| 0 <= a < head.len() implies (#[trigger] table_of(head)[a]) is Some by {
            assert(table_of(marks)[a] is Some);
        }
        lemma_pending_closed(head);
        assert(table_of(marks)[marks.len() - 1] is Some);
    }
}

/// One more mark adds to the work queue when it is `Pending`.
pub(crate) proof fn lemma_pending_push(marks: Seq<Mark>, mark: Mark)
    ensures
        pending(marks.push(mark)) == pending(marks) + if mark is Pending {
            1nat
        } else {
            0nat
        },
{
    assert(marks.push(mark).drop_last() =~= marks);
}

/// Once nothing is in the work queue, everything is closed.
pub(crate) proof fn lemma_pending_none(marks: Seq<Mark>, a: int)
    requires
        pending(marks) == 0,
        0 <= a < marks.len(),
    ensures
        !(marks[a] is Pending),
    decreases marks.len(),
{
    if a < marks.len() - 1 {
        lemma_pending_none(marks.drop_last(), a);
    }
}

/// Growing twice is growing.
pub(crate) proof fn lemma_extends_twice(
    t: Seq<Option<Seq<usize>>>,
    u: Seq<Option<Seq<usize>>>,
    v: Seq<Option<Seq<usize>>>,
)
    requires
        extends(t, u),
        extends(u, v),
    ensures
        extends(t, v),
{
    assert forall|a: int| 0 <= a < t.len() && (#[trigger] t[a]) is Some implies v[a] == t[a] by {
        assert(u[a] == t[a]);
    }
}

/// When an object leaves the work queue and none enters it, fewer are left.
pub(crate) proof fn lemma_pending_drops(before: Seq<Mark>, after: Seq<Mark>, a: int)
    requires
        before.len() == after.len(),
        0 <= a < before.len(),
        before[a] is Pending,
        !(after[a] is Pending),
        forall|b: int| 0 <= b < after.len() && (#[trigger] after[b]) is Pending ==> before[b] is Pending,
    ensures
        pending(after) < pending(before),
    decreases before.len(),
{
    let n = before.len() - 1;
    if a == n {
        lemma_pending_shrinks(before.drop_last(), after.drop_last());
    } else {
        lemma_pending_drops(before.drop_last(), after.drop_last(), a);
    }
}

/// When no object enters the work queue, no more are left in it.
pub(crate) proof fn lemma_pending_shrinks(before: Seq<Mark>, after: Seq<Mark>)
    requires
        before.len() == after.len(),
        forall|b: int| 0 <= b < after.len() && (#[trigger] after[b]) is Pending ==> before[b] is Pending,
    ensures
        pending(after) <= pending(before),
    decreases before.len(),
{
    if before.len() > 0 {
        lemma_pending_shrinks(before.drop_last(), after.drop_last());
    }
}

/// Along a path that starts at an object from which no cycle can be
/// reached, every closure holds the path's end.
proof fn lemma_path_covered(g: Seq<Seq<usize>>, t: Seq<Option<Seq<usize>>>, p: Seq<usize>)
    requires
        table_ok(g, t),
        is_path(g, p),
        t[p[0] as int] is Some,
        cycle_free(g, p[0]),
    ensures
        (t[p[0] as int]->0).contains(p.last()),
    decreases p.len(),
{
    let a = p[0];
    assert(entry_ok(g, t, a));
    if p.len() > 1 {
        let c = p[1];
        let q = p.drop_first();
        assert(linked(g, p, 0));
        assert forall|k: int| 0 <= k < q.len() - 1 implies #[trigger] linked(g, q, k) by {
            assert(linked(g, p, k + 1));
        }
        assert(is_path(g, q));
        lemma_reaches_self(g, a);
        lemma_edge_reaches(g, a, c);
        lemma_cycle_free_passes_on(g, a, c);
        assert(!reaches(g, c, a));
        assert(t[c as int] is Some && covers(t[a as int]->0, t[c as int]->0));
        lemma_path_covered(g, t, q);
        assert(q.last() == p.last());
    }
}

/// The closure of an object from which no cycle can be reached is exactly
/// what the object reaches.
pub proof fn lemma_closure_exact(g: Seq<Seq<usize>>, t: Seq<Option<Seq<usize>>>, a: usize)
    requires
        table_ok(g, t),
        a < t.len(),
        t[a as int] is Some,
        cycle_free(g, a),
    ensures
        (t[a as int]->0).to_set() == reach_set(g, a),
{
    let s = t[a as int]->0;
    assert(entry_ok(g, t, a));
    assert forall|b: usize| reaches(g, a, b) implies s.contains(b) by {
        let p = choose|p: Seq<usize>| #[trigger] is_path(g, p) && p.first() == a && p.last() == b;
        lemma_path_covered(g, t, p);
    }
    assert(s.to_set() =~= reach_set(g, a));
}

/// The closure of an object holds the closure of every object that it
/// reaches, as long as no reference on the way leads back.
pub proof fn lemma_closure_holds_closure(
    g: Seq<Seq<usize>>,
    t: Seq<Option<Seq<usize>>>,
    a: usize,
    b: usize,
)
    requires
        table_ok(g, t),
        a < t.len(),
        t[a as int] is Some,
        edge(g, a, b),
        !reaches(g, b, a),
    ensures
        t[b as int] is Some,
        covers(t[a as int]->0, t[b as int]->0),
{
    assert(entry_ok(g, t, a));
}

/// A closure holds its own object.
pub proof fn lemma_closure_holds_object(g: Seq<Seq<usize>>, t: Seq<Option<Seq<usize>>>, a: usize)
    requires
        table_ok(g, t),
        a < t.len(),
        t[a as int] is Some,
    ensures
        (t[a as int]->0).contains(a),
{
    assert(entry_ok(g, t, a));
}

/// A closure holds only objects of the graph that its object reaches.
pub proof fn lemma_closure_within_reach(
    g: Seq<Seq<usize>>,
    t: Seq<Option<Seq<usize>>>,
    a: usize,
    b: usize,
)
    requires
        table_ok(g, t),
        a < t.len(),
        t[a as int] is Some,
        (t[a as int]->0).contains(b),
    ensures
        reaches(g, a, b),
        b < g.len(),
{
    assert(entry_ok(g, t, a));
    lemma_reaches_in_graph(g, a, b);
}

/// However the closures were computed, and in whatever order, the closure of
/// an object from which no cycle can be reached holds the same objects.
pub proof fn lemma_closures_agree(
    g: Seq<Seq<usize>>,
    t: Seq<Option<Seq<usize>>>,
    u: Seq<Option<Seq<usize>>>,
    a: usize,
)
    requires
        table_ok(g, t),
        table_ok(g, u),
        a < g.len(),
        t[a as int] is Some,
        u[a as int] is Some,
        cycle_free(g, a),
    ensures
        (t[a as int]->0).to_set() == (u[a as int]->0).to_set(),
{
    lemma_closure_exact(g, t, a);
    lemma_closure_exact(g, u, a);
}

/// Self-references have no part in closures. Closures that are in order for
/// a graph are in order for the graph without its self-references, and the
/// other way round; and the closure of an object from which no cycle can be
/// reached is what the object reaches without them.
pub proof fn lemma_self_references_ignored(g: Seq<Seq<usize>>, t: Seq<Option<Seq<usize>>>)
    ensures
        table_ok(g, t) <==> table_ok(without_self_references(g), t),
        forall|a: usize| cycle_free(g, a) <==> cycle_free(without_self_references(g), a),
        forall|a: usize|
            table_ok(g, t) && a < t.len() && (#[trigger] t[a as int]) is Some && cycle_free(g, a) ==> (
            t[a as int]->0).to_set() == reach_set(without_self_references(g), a),
{
    let h = without_self_references(g);
    assert forall|a: usize, b: usize| #[trigger] edge(g, a, b) <==> edge(h, a, b) by {
        lemma_self_references_add_no_edge(g, a, b);
    }
    assert forall|a: usize, b: usize| #[trigger] reaches(g, a, b) <==> reaches(h, a, b) by {
        lemma_self_references_reach_nothing(g, a, b);
    }
    assert forall|a: usize, b: usize| #[trigger] edge(h, a, b) <==> edge(g, a, b) by {
        lemma_self_references_add_no_edge(g, a, b);
    }
    assert forall|a: usize, b: usize| #[trigger] reaches(h, a, b) <==> reaches(g, a, b) by {
        lemma_self_references_reach_nothing(g, a, b);
    }
    assert forall|a: usize| a < t.len() && t[a as int] is Some implies (entry_ok(g, t, a)
        <==> entry_ok(h, t, a)) by {
        let s = t[a as int]->0;
        if entry_ok(g, t, a) {
            assert forall|b: usize| #[trigger] s.contains(b) implies reaches(h, a, b) by {
                assert(reaches(g, a, b));
            }
            assert forall|b: usize| #[trigger] edge(h, a, b) implies s.contains(b) by {
                assert(edge(g, a, b));
            }
            assert forall|b: usize| #[trigger] edge(h, a, b) && !reaches(h, b, a) implies t[b as int] is Some
                && covers(s, t[b as int]->0) by {
                assert(edge(g, a, b) && !reaches(g, b, a));
            }
        }
        if entry_ok(h, t, a) {
            assert forall|b: usize| #[trigger] s.contains(b) implies reaches(g, a, b) by {
                assert(reaches(h, a, b));
            }
            assert forall|b: usize| #[trigger] edge(g, a, b) implies s.contains(b) by {
                assert(edge(h, a, b));
            }
            assert forall|b: usize| #[trigger] edge(g, a, b) && !reaches(g, b, a) implies t[b as int] is Some
                && covers(s, t[b as int]->0) by {
                assert(edge(h, a, b) && !reaches(h, b, a));
            }
        }
    }
    assert forall|a: usize| cycle_free(g, a) <==> cycle_free(h, a) by {
        if cycle_free(g, a) {
            assert forall|b: usize, c: usize| reaches(h, a, b) && edge(h, b, c) implies !reaches(
                h,
                c,
                b,
            ) by {
                assert(reaches(g, a, b) && edge(g, b, c));
            }
        }
        if cycle_free(h, a) {
            assert forall|b: usize, c: usize| reaches(g, a, b) && edge(g, b, c) implies !reaches(
                g,
                c,
                b,
            ) by {
                assert(reaches(h, a, b) && edge(h, b, c));
            }
        }
    }
    assert forall|a: usize|
        table_ok(g, t) && a < t.len() && (#[trigger] t[a as int]) is Some && cycle_free(
            g,
            a,
        ) implies (t[a as int]->0).to_set() == reach_set(h, a) by {
        lemma_closure_exact(g, t, a);
        assert(reach_set(g, a) =~= reach_set(h, a));
    }
}

/// How many of the first `k` values of `s` are wanted.
spec fn wanted_among(s: Seq<usize>, wanted: spec_fn(usize) -> bool, k: nat) -> nat {
    s.take(k as int).filter(wanted).len()
}

/// Filtering a longer start of `s` adds the next value, if it is wanted, at
/// the end.
proof fn lemma_filter_next(s: Seq<usize>, wanted: spec_fn(usize) -> bool, k: int)
    requires
        0 <= k < s.len(),
    ensures
        s.take(k + 1).filter(wanted) == if wanted(s[k]) {
            s.take(k).filter(wanted).push(s[k])
        } else {
            s.take(k).filter(wanted)
        },
{
    assert(s.take(k + 1) =~= s.take(k).push(s[k]));
    s.take(k).lemma_filter_push(s[k], wanted);
}

/// What is wanted among the first `k` values of `s` stands at the start of
/// what is wanted in `s`.
proof fn lemma_filter_start(s: Seq<usize>, wanted: spec_fn(usize) -> bool, k: int, i: int)
    requires
        0 <= k <= s.len(),
        0 <= i < s.take(k).filter(wanted).len(),
    ensures
        i < s.filter(wanted).len(),
        s.filter(wanted)[i] == s.take(k).filter(wanted)[i],
    decreases s.len() - k,
{
    if k == s.len() {
        assert(s.take(k) =~= s);
    } else {
        lemma_filter_next(s, wanted, k);
        lemma_filter_start(s, wanted, k + 1, i);
    }
}

/// The next value of `s`, when it is wanted, is the next of what is wanted
/// in `s`.
proof fn lemma_filter_at(s: Seq<usize>, wanted: spec_fn(usize) -> bool, k: nat)
    requires
        k < s.len(),
        wanted(s[k as int]),
    ensures
        wanted_among(s, wanted, k) < s.filter(wanted).len(),
        s.filter(wanted)[wanted_among(s, wanted, k) as int] == s[k as int],
        wanted_among(s, wanted, k + 1) == wanted_among(s, wanted, k) + 1,
{
    lemma_filter_next(s, wanted, k as int);
    lemma_filter_start(s, wanted, k as int + 1, wanted_among(s, wanted, k) as int);
}

/// The graph without its self-references refers to objects of the graph.
proof fn lemma_without_self_references_in_bounds(g: Seq<Seq<usize>>)
    requires
        in_bounds(g),
    ensures
        in_bounds(without_self_references(g)),
        without_self_references(g).len() == g.len(),
{
    let h = without_self_references(g);
    assert forall|a: int, k: int| 0 <= a < h.len() && 0 <= k < h[a].len() implies (
    #[trigger] h[a][k]) < h.len() by {
        assert(h[a].contains(h[a][k]));
        g[a].lemma_filter_contains_rev(other_than(a), h[a][k]);
        let j = g[a].index_of(h[a][k]);
        assert(g[a][j] < g.len());
    }
}

/// Following references over a graph and over the same graph without its
/// self-references ends with the same marks.
proof fn lemma_follow_ignores_self(
    g: Seq<Seq<usize>>,
    marks: Seq<Mark>,
    node: usize,
    k: nat,
    acc: Seq<usize>,
)
    requires
        in_bounds(g),
        node < g.len(),
        marks.len() == g.len(),
        k <= g[node as int].len(),
    ensures
        follow(g, marks, node, k, acc) == follow(
            without_self_references(g),
            marks,
            node,
            wanted_among(g[node as int], other_than(node as int), k),
            acc,
        ),
    decreases pending(marks), g[node as int].len() - k,
{
    let h = without_self_references(g);
    let refs = g[node as int];
    let wanted = other_than(node as int);
    let less = h[node as int];
    let j = wanted_among(refs, wanted, k);
    lemma_without_self_references_in_bounds(g);
    assert(less == refs.filter(wanted));
    if k >= refs.len() {
        assert(refs.take(k as int) =~= refs);
    } else {
        let b = refs[k as int];
        lemma_filter_next(refs, wanted, k as int);
        if b == node {
            lemma_follow_ignores_self(g, marks, node, k + 1, acc);
        } else {
            lemma_filter_at(refs, wanted, k);
            assert(less[j as int] == b);
            match marks[b as int] {
                Mark::Closed(s) => {
                    lemma_follow_ignores_self(g, marks, node, k + 1, joined(acc, s));
                },
                Mark::Active => {
                    lemma_follow_ignores_self(g, marks, node, k + 1, added(acc, b));
                },
                Mark::Pending => {
                    let started = marks.update(b as int, Mark::Active);
                    lemma_pending_update(marks, b as int, Mark::Active);
                    lemma_follow_ignores_self(g, started, b, 0, seq![b]);
                    assert(g[b as int].take(0).filter(other_than(b as int)).len() == 0) by {
                        assert(g[b as int].take(0) =~= Seq::<usize>::empty());
                        g[b as int].take(0).lemma_filter_len(other_than(b as int));
                    }
                    lemma_follow_shape(g, started, b, 0, seq![b]);
                    let below = follow(g, started, b, 0, seq![b]);
                    lemma_follow_ignores_self(
                        g,
                        below,
                        node,
                        k + 1,
                        joined(acc, closure_in(below, b)),
                    );
                },
            }
        }
    }
}

proof fn lemma_explore_ignores_self(g: Seq<Seq<usize>>, marks: Seq<Mark>, a: usize)
    requires
        in_bounds(g),
        marks.len() == g.len(),
    ensures
        explore(g, marks, a) == explore(without_self_references(g), marks, a),
        explore(g, marks, a).len() == marks.len(),
{
    if a < marks.len() && marks[a as int] is Pending {
        let started = marks.update(a as int, Mark::Active);
        lemma_follow_ignores_self(g, started, a, 0, seq![a]);
        assert(g[a as int].take(0).filter(other_than(a as int)).len() == 0) by {
            assert(g[a as int].take(0) =~= Seq::<usize>::empty());
            g[a as int].take(0).lemma_filter_len(other_than(a as int));
        }
        lemma_follow_shape(g, started, a, 0, seq![a]);
    }
}

proof fn lemma_drain_ignores_self(g: Seq<Seq<usize>>, marks: Seq<Mark>, from: nat)
    requires
        in_bounds(g),
        marks.len() == g.len(),
    ensures
        drain(g, marks, from) == drain(without_self_references(g), marks, from),
    decreases marks.len() - from,
{
    if from < marks.len() {
        lemma_explore_ignores_self(g, marks, from as usize);
        lemma_drain_ignores_self(g, explore(g, marks, from as usize), from + 1);
    }
}

/// Self-references change no closure. Computed over a graph and over the
/// same graph without its self-references, from the same marks, the closure
/// of an object comes out the same, and so do the closures of all objects.
pub proof fn lemma_self_references_change_nothing(g: Seq<Seq<usize>>, marks: Seq<Mark>, a: usize)
    requires
        in_bounds(g),
        marks.len() == g.len(),
    ensures
        explore(g, marks, a) == explore(without_self_references(g), marks, a),
        drain(g, marks, 0) == drain(without_self_references(g), marks, 0),
        closures(g) == closures(without_self_references(g)),
{
    lemma_explore_ignores_self(g, marks, a);
    lemma_drain_ignores_self(g, marks, 0);
    lemma_drain_ignores_self(g, fresh(g.len()), 0);
}

/// In a graph without cycles every closure is exactly what its object
/// reaches, and holds the closure of every object that its object refers to.
pub proof fn lemma_closures_without_cycles(
    g: Seq<Seq<usize>>,
    t: Seq<Option<Seq<usize>>>,
    a: usize,
)
    requires
        table_ok(g, t),
        acyclic(g),
        a < t.len(),
        t[a as int] is Some,
    ensures
        (t[a as int]->0).to_set() == reach_set(g, a),
        forall|b: usize| #[trigger] edge(g, a, b) ==> t[b as int] is Some && covers(
            t[a as int]->0,
            t[b as int]->0,
        ),
{
    lemma_acyclic_cycle_free(g, a);
    lemma_closure_exact(g, t, a);
    assert(entry_ok(g, t, a));
}

/// The keys of the objects `set`, one after the other.
pub open spec fn named(keys: Seq<Seq<char>>, set: Seq<usize>) -> Seq<Seq<char>> {
    set.map_values(|b: usize| keys[b as int])
}

/// Objects that are not in the work queue are passed over.
pub(crate) proof fn lemma_drain_skip(g: Seq<Seq<usize>>, marks: Seq<Mark>, from: nat, to: nat)
    requires
        from <= to <= marks.len(),
        marks.len() <= usize::MAX,
        forall|a: int| from <= a < to ==> !((#[trigger] marks[a]) is Pending),
    ensures
        drain(g, marks, from) == drain(g, marks, to),
    decreases to - from,
{
    if from < to {
        assert(!(marks[from as int] is Pending));
        assert(explore(g, marks, from as usize) == marks);
        lemma_drain_skip(g, marks, from + 1, to);
    }
}

} // verus!
