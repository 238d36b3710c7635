//! The engine that computes closures.
//!
//! The engine owns the work queue and the closures computed so far. It
//! follows references depth first with a stack of its own, so that long
//! chains of references cost memory, not call depth, and cycles end.

use crate::closure::{
    added, closure_in, covers, drain, entry_ok, explore, extends, follow, fresh, joined,
    lemma_added, lemma_closure_exact, lemma_drain_skip, lemma_entry_ok_extends,
    lemma_extends_twice, lemma_follow_shape, lemma_joined, lemma_pending_bound,
    lemma_pending_closed, lemma_pending_drops, lemma_pending_none, lemma_pending_push,
    lemma_pending_update, named, pending, table_of, table_ok, Mark,
};
use crate::graph::{
    cycle_free, edge, in_bounds, lemma_edge_reaches, lemma_edge_then_reaches,
    lemma_reaches_in_graph, lemma_reaches_self, lemma_reaches_then_edge, reach_set, reaches,
};
use crate::ident::canonical;
use crate::intern::{position, texts};
use crate::record::RecordStore;
use std::collections::HashSet;
use vstd::prelude::*;

verus! {

broadcast use vstd::std_specs::hash::group_hash_axioms;

/// Where one object stands in the computation.
enum Slot {
    /// Still in the work queue: nothing has been done for it.
    Pending,
    /// On the traversal stack: its references are being followed.
    Active,
    /// Done, with its closure.
    Closed(Vec<usize>),
}

/// A slot as plain values.
spec fn mark_of(slot: Slot) -> Mark {
    match slot {
        Slot::Pending => Mark::Pending,
        Slot::Active => Mark::Active,
        Slot::Closed(set) => Mark::Closed(set@),
    }
}

/// The slots as plain values.
spec fn marks_of(slots: Seq<Slot>) -> Seq<Mark> {
    Seq::new(slots.len(), |a: int| mark_of(slots[a]))
}

/// Changing a slot changes its mark and no other.
proof fn lemma_marks_update(slots: Seq<Slot>, a: int, slot: Slot)
    requires
        0 <= a < slots.len(),
    ensures
        marks_of(slots.update(a, slot)) == marks_of(slots).update(a, mark_of(slot)),
{
    assert(marks_of(slots.update(a, slot)) =~= marks_of(slots).update(a, mark_of(slot)));
}

/// One more slot is one more mark.
proof fn lemma_marks_push(slots: Seq<Slot>, slot: Slot)
    ensures
        marks_of(slots.push(slot)) == marks_of(slots).push(mark_of(slot)),
{
    assert(marks_of(slots.push(slot)) =~= marks_of(slots).push(mark_of(slot)));
}

/// One object on the traversal stack: the object, how many of its references
/// have been followed, and what its closure holds so far.
struct Frame {
    node: usize,
    next: usize,
    members: Vec<usize>,
    seen: HashSet<usize>,
}

impl Frame {
    /// The members are held once each, and `seen` holds the same objects.
    spec fn rep_ok(&self) -> bool {
        &&& self.members@.no_duplicates()
        &&& self.seen@ == self.members@.to_set()
    }

    /// The frame for an object none of whose references has been followed.
    fn start(node: usize) -> (frame: Frame)
        ensures
            frame.rep_ok(),
            frame.node == node,
            frame.next == 0,
            frame.members@ == seq![node],
    {
        let mut members: Vec<usize> = Vec::new();
        let mut seen: HashSet<usize> = HashSet::new();
        members.push(node);
        seen.insert(node);
        proof {
            lemma_added(Seq::<usize>::empty(), node);
            assert(members@ =~= added(Seq::<usize>::empty(), node));
            assert(members@ =~= seq![node]);
            assert(seen@ =~= members@.to_set());
        }
        Frame { node, next: 0, members, seen }
    }

    /// Enters one object into the closure.
    fn add(&mut self, b: usize)
        requires
            old(self).rep_ok(),
        ensures
            final(self).rep_ok(),
            final(self).node == old(self).node,
            final(self).next == old(self).next,
            final(self).members@ == added(old(self).members@, b),
    {
        proof {
            lemma_added(self.members@, b);
        }
        if self.seen.insert(b) {
            self.members.push(b);
        }
        assert(self.seen@ =~= self.members@.to_set());
    }

    /// Enters the objects of `set` into the closure, one after the other.
    fn absorb(&mut self, set: &Vec<usize>)
        requires
            old(self).rep_ok(),
        ensures
            final(self).rep_ok(),
            final(self).node == old(self).node,
            final(self).next == old(self).next,
            final(self).members@ == joined(old(self).members@, set@),
    {
        let mut i: usize = 0;
        assert(set@.take(0) =~= Seq::<usize>::empty());
        while i < set.len()
            invariant
                i <= set.len(),
                self.rep_ok(),
                self.node == old(self).node,
                self.next == old(self).next,
                self.members@ == joined(old(self).members@, set@.take(i as int)),
            decreases set.len() - i,
        {
            assert(set@.take(i + 1).drop_last() =~= set@.take(i as int));
            self.add(set[i]);
            i += 1;
        }
        assert(set@.take(i as int) =~= set@);
    }
}

/// Reference `b` of object `node` has been followed: `s`, the closure of
/// `node` so far, holds `b`, and the closure of `b` as well unless `b` leads
/// back to `node`.
spec fn followed(
    g: Seq<Seq<usize>>,
    t: Seq<Option<Seq<usize>>>,
    node: usize,
    s: Seq<usize>,
    b: usize,
) -> bool {
    b != node ==> s.contains(b) && (reaches(g, b, node) || (t[b as int] is Some && covers(
        s,
        t[b as int]->0,
    )))
}

/// The frame `f` is in order: what it holds so far is reached from its
/// object, and every reference before `next` has been followed.
spec fn frame_ok(g: Seq<Seq<usize>>, t: Seq<Option<Seq<usize>>>, f: Frame) -> bool {
    &&& f.rep_ok()
    &&& f.node < g.len()
    &&& f.next <= g[f.node as int].len()
    &&& f.members@.contains(f.node)
    &&& forall|b: usize| #[trigger] f.members@.contains(b) ==> reaches(g, f.node, b)
    &&& forall|j: int|
        0 <= j < f.next ==> #[trigger] followed(g, t, f.node, f.members@, g[f.node as int][j])
}

/// The object that the frame at depth `d` is waiting for.
spec fn child_of(stack: Seq<Frame>, cur: Frame, d: int) -> usize {
    if d + 1 < stack.len() {
        stack[d + 1].node
    } else {
        cur.node
    }
}

/// The frame at depth `d` is in order and waits for the frame above it.
spec fn waiting_ok(g: Seq<Seq<usize>>, marks: Seq<Mark>, stack: Seq<Frame>, cur: Frame, d: int) -> bool {
    let f = stack[d];
    &&& frame_ok(g, table_of(marks), f)
    &&& marks[f.node as int] is Active
    &&& f.node != cur.node
    &&& reaches(g, f.node, cur.node)
    &&& f.next < g[f.node as int].len()
    &&& g[f.node as int][f.next as int] == child_of(stack, cur, d)
}

/// The frames at depths `d` and `e` hold different objects, and the lower
/// reaches the upper.
spec fn apart(g: Seq<Seq<usize>>, stack: Seq<Frame>, d: int, e: int) -> bool {
    stack[d].node != stack[e].node && reaches(g, stack[d].node, stack[e].node)
}

/// Object `a` has a frame on the stack.
spec fn stacked(stack: Seq<Frame>, a: usize) -> bool {
    exists|d: int| 0 <= d < stack.len() && (#[trigger] stack[d]).node == a
}

/// What holds while the closure of `root` is being computed.
spec fn walking(
    g: Seq<Seq<usize>>,
    root: usize,
    before: Seq<Mark>,
    marks: Seq<Mark>,
    stack: Seq<Frame>,
    cur: Frame,
) -> bool {
    &&& in_bounds(g)
    &&& g.len() <= usize::MAX
    &&& forall|a: int| 0 <= a < g.len() ==> (#[trigger] g[a]).len() <= usize::MAX
    &&& marks.len() == g.len()
    &&& before.len() == g.len()
    &&& table_ok(g, table_of(marks))
    &&& extends(table_of(before), table_of(marks))
    &&& frame_ok(g, table_of(marks), cur)
    &&& marks[cur.node as int] is Active
    &&& reaches(g, root, cur.node)
    &&& root == if stack.len() == 0 {
        cur.node
    } else {
        stack[0].node
    }
    &&& forall|d: int| 0 <= d < stack.len() ==> #[trigger] waiting_ok(g, marks, stack, cur, d)
    &&& forall|d: int, e: int| 0 <= d < e < stack.len() ==> #[trigger] apart(g, stack, d, e)
    &&& forall|a: usize|
        a < marks.len() && (#[trigger] marks[a as int]) is Active ==> a == cur.node || stacked(
            stack,
            a,
        )
    &&& forall|a: usize|
        a < marks.len() && !((#[trigger] marks[a as int]) is Pending) && before[a as int] is Pending
            ==> reaches(g, root, a)
    &&& forall|a: int| 0 <= a < marks.len() ==> !((#[trigger] before[a]) is Active)
    &&& forall|a: int|
        0 <= a < marks.len() && (#[trigger] marks[a]) is Pending ==> before[a] is Pending
}

/// What holds when the closure of `root` has been computed.
spec fn walked(g: Seq<Seq<usize>>, root: usize, before: Seq<Mark>, marks: Seq<Mark>) -> bool {
    &&& marks.len() == g.len()
    &&& table_ok(g, table_of(marks))
    &&& extends(table_of(before), table_of(marks))
    &&& marks[root as int] is Closed
    &&& forall|a: int| 0 <= a < marks.len() ==> !((#[trigger] marks[a]) is Active)
    &&& forall|a: usize|
        a < marks.len() && !((#[trigger] marks[a as int]) is Pending) && before[a as int] is Pending
            ==> reaches(g, root, a)
    &&& forall|a: int|
        0 <= a < marks.len() && (#[trigger] marks[a]) is Pending ==> before[a] is Pending
}

/// A frame that is in order stays in order when the table grows.
proof fn lemma_frame_ok_extends(
    g: Seq<Seq<usize>>,
    t: Seq<Option<Seq<usize>>>,
    u: Seq<Option<Seq<usize>>>,
    f: Frame,
)
    requires
        frame_ok(g, t, f),
        extends(t, u),
        t.len() == g.len(),
        in_bounds(g),
    ensures
        frame_ok(g, u, f),
{
    assert forall|j: int| 0 <= j < f.next implies #[trigger] followed(
        g,
        u,
        f.node,
        f.members@,
        g[f.node as int][j],
    ) by {
        let b = g[f.node as int][j];
        assert(followed(g, t, f.node, f.members@, b));
        if b != f.node && t[b as int] is Some {
            assert(u[b as int] == t[b as int]);
        }
    }
}

/// The first step: `root` leaves the work queue and gets the first frame.
proof fn lemma_walk_start(g: Seq<Seq<usize>>, root: usize, before: Seq<Mark>, cur: Frame)
    requires
        in_bounds(g),
        g.len() <= usize::MAX,
        forall|a: int| 0 <= a < g.len() ==> (#[trigger] g[a]).len() <= usize::MAX,
        before.len() == g.len(),
        root < g.len(),
        before[root as int] is Pending,
        table_ok(g, table_of(before)),
        forall|a: int| 0 <= a < before.len() ==> !((#[trigger] before[a]) is Active),
        cur.rep_ok(),
        cur.node == root,
        cur.next == 0,
        cur.members@ == seq![root],
    ensures
        walking(g, root, before, before.update(root as int, Mark::Active), Seq::empty(), cur),
{
    let marks = before.update(root as int, Mark::Active);
    assert(table_of(marks) =~= table_of(before));
    lemma_reaches_self(g, root);
    assert(cur.members@[0] == root);
}

/// One reference of the top frame has been followed without a new frame.
proof fn lemma_walk_advance(
    g: Seq<Seq<usize>>,
    root: usize,
    before: Seq<Mark>,
    marks: Seq<Mark>,
    stack: Seq<Frame>,
    cur: Frame,
    then: Frame,
)
    requires
        walking(g, root, before, marks, stack, cur),
        cur.next < g[cur.node as int].len(),
        then.rep_ok(),
        then.node == cur.node,
        then.next == cur.next + 1,
        covers(then.members@, cur.members@),
        forall|b: usize| #[trigger] then.members@.contains(b) ==> reaches(g, cur.node, b),
        followed(g, table_of(marks), cur.node, then.members@, g[cur.node as int][cur.next as int]),
    ensures
        walking(g, root, before, marks, stack, then),
{
    let t = table_of(marks);
    assert forall|j: int| 0 <= j < then.next implies #[trigger] followed(
        g,
        t,
        then.node,
        then.members@,
        g[then.node as int][j],
    ) by {
        if j < cur.next {
            assert(followed(g, t, cur.node, cur.members@, g[cur.node as int][j]));
        }
    }
    assert(cur.members@.contains(cur.node));
    assert forall|d: int| 0 <= d < stack.len() implies #[trigger] waiting_ok(
        g,
        marks,
        stack,
        then,
        d,
    ) by {
        assert(waiting_ok(g, marks, stack, cur, d));
    }
}

/// A reference of the top frame leads to a closed object: its closure is
/// taken over.
proof fn lemma_walk_reuse(
    g: Seq<Seq<usize>>,
    root: usize,
    before: Seq<Mark>,
    marks: Seq<Mark>,
    stack: Seq<Frame>,
    cur: Frame,
    then: Frame,
)
    requires
        walking(g, root, before, marks, stack, cur),
        cur.next < g[cur.node as int].len(),
        g[cur.node as int][cur.next as int] != cur.node,
        table_of(marks)[g[cur.node as int][cur.next as int] as int] is Some,
        then.rep_ok(),
        then.node == cur.node,
        then.next == cur.next + 1,
        then.members@ == joined(
            cur.members@,
            table_of(marks)[g[cur.node as int][cur.next as int] as int]->0,
        ),
    ensures
        walking(g, root, before, marks, stack, then),
{
    let t = table_of(marks);
    let b = g[cur.node as int][cur.next as int];
    let set = t[b as int]->0;
    lemma_joined(cur.members@, set);
    assert(g[cur.node as int].contains(b));
    assert(edge(g, cur.node, b));
    assert(entry_ok(g, t, b));
    assert forall|c: usize| #[trigger] then.members@.contains(c) implies reaches(g, cur.node, c) by {
        if !cur.members@.contains(c) {
            assert(set.contains(c));
            lemma_edge_then_reaches(g, cur.node, b, c);
        }
    }
    assert(set.contains(b));
    lemma_walk_advance(g, root, before, marks, stack, cur, then);
}

/// A reference of the top frame leads to an object on the stack: the object
/// alone is entered.
proof fn lemma_walk_cut(
    g: Seq<Seq<usize>>,
    root: usize,
    before: Seq<Mark>,
    marks: Seq<Mark>,
    stack: Seq<Frame>,
    cur: Frame,
    then: Frame,
)
    requires
        walking(g, root, before, marks, stack, cur),
        cur.next < g[cur.node as int].len(),
        g[cur.node as int][cur.next as int] != cur.node,
        marks[g[cur.node as int][cur.next as int] as int] is Active,
        then.rep_ok(),
        then.node == cur.node,
        then.next == cur.next + 1,
        then.members@ == added(cur.members@, g[cur.node as int][cur.next as int]),
    ensures
        walking(g, root, before, marks, stack, then),
{
    let b = g[cur.node as int][cur.next as int];
    lemma_added(cur.members@, b);
    assert(g[cur.node as int].contains(b));
    assert(edge(g, cur.node, b));
    lemma_edge_reaches(g, cur.node, b);
    assert(stacked(stack, b));
    let d = choose|d: int| 0 <= d < stack.len() && (#[trigger] stack[d]).node == b;
    assert(waiting_ok(g, marks, stack, cur, d));
    lemma_walk_advance(g, root, before, marks, stack, cur, then);
}

/// The top frame refers to itself: nothing is entered.
proof fn lemma_walk_skip(
    g: Seq<Seq<usize>>,
    root: usize,
    before: Seq<Mark>,
    marks: Seq<Mark>,
    stack: Seq<Frame>,
    cur: Frame,
    then: Frame,
)
    requires
        walking(g, root, before, marks, stack, cur),
        cur.next < g[cur.node as int].len(),
        g[cur.node as int][cur.next as int] == cur.node,
        then.rep_ok(),
        then.node == cur.node,
        then.next == cur.next + 1,
        then.members@ == cur.members@,
    ensures
        walking(g, root, before, marks, stack, then),
{
    lemma_walk_advance(g, root, before, marks, stack, cur, then);
}

/// A reference of the top frame leads to an object of the work queue: the
/// object gets a frame of its own.
proof fn lemma_walk_descend(
    g: Seq<Seq<usize>>,
    root: usize,
    before: Seq<Mark>,
    marks: Seq<Mark>,
    stack: Seq<Frame>,
    cur: Frame,
    child: Frame,
)
    requires
        walking(g, root, before, marks, stack, cur),
        cur.next < g[cur.node as int].len(),
        marks[g[cur.node as int][cur.next as int] as int] is Pending,
        child.rep_ok(),
        child.node == g[cur.node as int][cur.next as int],
        child.next == 0,
        child.members@ == seq![child.node],
    ensures
        walking(
            g,
            root,
            before,
            marks.update(child.node as int, Mark::Active),
            stack.push(cur),
            child,
        ),
        pending(marks.update(child.node as int, Mark::Active)) + 1 == pending(marks),
{
    let b = child.node;
    let after = marks.update(b as int, Mark::Active);
    let deeper = stack.push(cur);
    let t = table_of(marks);
    lemma_pending_update(marks, b as int, Mark::Active);
    assert(table_of(after) =~= t);
    assert(g[cur.node as int].contains(b));
    assert(b != cur.node);
    assert(edge(g, cur.node, b));
    lemma_edge_reaches(g, cur.node, b);
    lemma_reaches_self(g, b);
    lemma_reaches_then_edge(g, root, cur.node, b);
    assert(child.members@[0] == b);
    assert(frame_ok(g, t, child));
    assert forall|d: int| 0 <= d < deeper.len() implies #[trigger] waiting_ok(
        g,
        after,
        deeper,
        child,
        d,
    ) by {
        if d < stack.len() {
            assert(waiting_ok(g, marks, stack, cur, d));
            assert(deeper[d] == stack[d]);
            lemma_reaches_then_edge(g, stack[d].node, cur.node, b);
            if d + 1 < stack.len() {
                assert(deeper[d + 1] == stack[d + 1]);
            } else {
                assert(deeper[d + 1] == cur);
            }
        } else {
            assert(deeper[d] == cur);
        }
    }
    assert forall|d: int, e: int| 0 <= d < e < deeper.len() implies #[trigger] apart(
        g,
        deeper,
        d,
        e,
    ) by {
        if e < stack.len() {
            assert(apart(g, stack, d, e));
        } else {
            assert(waiting_ok(g, marks, stack, cur, d));
        }
    }
    assert forall|a: usize| a < after.len() && (#[trigger] after[a as int]) is Active implies a
        == child.node || stacked(deeper, a) by {
        if a != child.node {
            assert(marks[a as int] is Active);
            if a == cur.node {
                assert(deeper[stack.len() as int].node == a);
            } else {
                assert(stacked(stack, a));
                let d = choose|d: int| 0 <= d < stack.len() && (#[trigger] stack[d]).node == a;
                assert(deeper[d].node == a);
            }
        }
    }
    assert forall|a: usize|
        a < after.len() && !((#[trigger] after[a as int]) is Pending)
            && before[a as int] is Pending implies reaches(g, root, a) by {
        if a != child.node {
            assert(!(marks[a as int] is Pending));
        }
    }
}

/// All references of the top frame have been followed and a frame waits
/// below: the top frame's closure is recorded and handed down.
proof fn lemma_walk_ascend(
    g: Seq<Seq<usize>>,
    root: usize,
    before: Seq<Mark>,
    marks: Seq<Mark>,
    stack: Seq<Frame>,
    cur: Frame,
    closed: Mark,
    then: Frame,
)
    requires
        walking(g, root, before, marks, stack, cur),
        cur.next == g[cur.node as int].len(),
        stack.len() > 0,
        closed == Mark::Closed(cur.members@),
        then.rep_ok(),
        then.node == stack.last().node,
        then.next == stack.last().next + 1,
        then.members@ == joined(stack.last().members@, cur.members@),
    ensures
        walking(g, root, before, marks.update(cur.node as int, closed), stack.drop_last(), then),
        pending(marks.update(cur.node as int, closed)) == pending(marks),
{
    let node = cur.node;
    let after = marks.update(node as int, closed);
    let t = table_of(marks);
    let u = table_of(after);
    let parent = stack.last();
    let lower = stack.drop_last();
    let top = stack.len() - 1;
    lemma_pending_update(marks, node as int, closed);
    lemma_closing(g, root, before, marks, stack, cur, closed);
    assert(waiting_ok(g, marks, stack, cur, top));
    assert(child_of(stack, cur, top) == node);
    lemma_joined(parent.members@, cur.members@);
    lemma_frame_ok_extends(g, t, u, parent);
    assert(g[parent.node as int].contains(node));
    assert(edge(g, parent.node, node));
    assert forall|b: usize| #[trigger] then.members@.contains(b) implies reaches(
        g,
        then.node,
        b,
    ) by {
        if !parent.members@.contains(b) {
            lemma_edge_then_reaches(g, parent.node, node, b);
        }
    }
    assert(parent.members@.contains(parent.node));
    assert forall|j: int| 0 <= j < then.next implies #[trigger] followed(
        g,
        u,
        then.node,
        then.members@,
        g[then.node as int][j],
    ) by {
        if j < parent.next {
            assert(followed(g, u, parent.node, parent.members@, g[parent.node as int][j]));
        } else {
            assert(cur.members@.contains(node));
            assert(u[node as int] == Some(cur.members@));
        }
    }
    assert(frame_ok(g, u, then));
    assert forall|d: int| 0 <= d < lower.len() implies #[trigger] waiting_ok(
        g,
        after,
        lower,
        then,
        d,
    ) by {
        assert(waiting_ok(g, marks, stack, cur, d));
        assert(lower[d] == stack[d]);
        lemma_frame_ok_extends(g, t, u, stack[d]);
        assert(apart(g, stack, d, top));
        if d + 1 < lower.len() {
            assert(lower[d + 1] == stack[d + 1]);
        }
    }
    assert forall|d: int, e: int| 0 <= d < e < lower.len() implies #[trigger] apart(
        g,
        lower,
        d,
        e,
    ) by {
        assert(apart(g, stack, d, e));
    }
    assert forall|a: usize| a < after.len() && (#[trigger] after[a as int]) is Active implies a
        == then.node || stacked(lower, a) by {
        assert(marks[a as int] is Active);
        assert(a != node);
        assert(stacked(stack, a));
        let d = choose|d: int| 0 <= d < stack.len() && (#[trigger] stack[d]).node == a;
        if d < top {
            assert(lower[d].node == a);
        }
    }
    assert forall|a: usize|
        a < after.len() && !((#[trigger] after[a as int]) is Pending)
            && before[a as int] is Pending implies reaches(g, root, a) by {
        assert(!(marks[a as int] is Pending));
    }
    lemma_root_reaches_stack(g, root, before, marks, stack, cur, top);
}

/// Every object on the stack was reached from the root.
proof fn lemma_root_reaches_stack(
    g: Seq<Seq<usize>>,
    root: usize,
    before: Seq<Mark>,
    marks: Seq<Mark>,
    stack: Seq<Frame>,
    cur: Frame,
    d: int,
)
    requires
        walking(g, root, before, marks, stack, cur),
        0 <= d < stack.len(),
    ensures
        reaches(g, root, stack[d].node),
{
    assert(waiting_ok(g, marks, stack, cur, d));
    let a = stack[d].node as int;
    assert(marks[a] is Active);
    assert(!(before[a] is Active));
    if before[a] is Closed {
        assert(table_of(before)[a] is Some);
        assert(table_of(marks)[a] == table_of(before)[a]);
    }
}

/// Recording the top frame's closure, once all its references have been
/// followed, keeps the table in order.
proof fn lemma_closing(
    g: Seq<Seq<usize>>,
    root: usize,
    before: Seq<Mark>,
    marks: Seq<Mark>,
    stack: Seq<Frame>,
    cur: Frame,
    closed: Mark,
)
    requires
        walking(g, root, before, marks, stack, cur),
        cur.next == g[cur.node as int].len(),
        closed == Mark::Closed(cur.members@),
    ensures
        table_ok(g, table_of(marks.update(cur.node as int, closed))),
        extends(table_of(marks), table_of(marks.update(cur.node as int, closed))),
        extends(table_of(before), table_of(marks.update(cur.node as int, closed))),
        table_of(marks.update(cur.node as int, closed))[cur.node as int] == Some(cur.members@),
{
    let node = cur.node;
    let after = marks.update(node as int, closed);
    let t = table_of(marks);
    let u = table_of(after);
    let s = cur.members@;
    assert(t[node as int] is None);
    assert(u =~= t.update(node as int, Some(s)));
    assert(extends(t, u));
    assert forall|b: usize| #[trigger] edge(g, node, b) implies s.contains(b) && (reaches(
        g,
        b,
        node,
    ) || (u[b as int] is Some && covers(s, u[b as int]->0))) by {
        let j = g[node as int].index_of(b);
        assert(followed(g, t, node, s, g[node as int][j]));
    }
    assert(entry_ok(g, u, node));
    assert forall|a: usize| a < u.len() && (#[trigger] u[a as int]) is Some implies entry_ok(
        g,
        u,
        a,
    ) by {
        if a != node {
            assert(t[a as int] is Some);
            lemma_entry_ok_extends(g, t, u, a);
        }
    }
    assert forall|a: int| 0 <= a < t.len() && (#[trigger] table_of(before)[a]) is Some implies u[a]
        == table_of(before)[a] by {
        assert(t[a] == table_of(before)[a]);
    }
}

/// All references of the last frame have been followed: its closure is
/// recorded and the computation is over.
proof fn lemma_walk_finish(
    g: Seq<Seq<usize>>,
    root: usize,
    before: Seq<Mark>,
    marks: Seq<Mark>,
    stack: Seq<Frame>,
    cur: Frame,
    closed: Mark,
)
    requires
        walking(g, root, before, marks, stack, cur),
        cur.next == g[cur.node as int].len(),
        stack.len() == 0,
        closed == Mark::Closed(cur.members@),
    ensures
        walked(g, root, before, marks.update(cur.node as int, closed)),
        pending(marks.update(cur.node as int, closed)) == pending(marks),
{
    let after = marks.update(cur.node as int, closed);
    lemma_pending_update(marks, cur.node as int, closed);
    lemma_closing(g, root, before, marks, stack, cur, closed);
    assert forall|a: int| 0 <= a < after.len() implies !((#[trigger] after[a]) is Active) by {
        if a != cur.node && marks[a] is Active {
            assert(stacked(stack, a as usize));
        }
    }
    assert forall|a: usize|
        a < after.len() && !((#[trigger] after[a as int]) is Pending)
            && before[a as int] is Pending implies reaches(g, root, a) by {
        assert(!(marks[a as int] is Pending));
    }
}

/// The marks at the end of the computation that is under way: what comes of
/// following the remaining references of the top frame, handing its closure
/// to the frame below, and so on down the stack.
spec fn resume(
    g: Seq<Seq<usize>>,
    marks: Seq<Mark>,
    stack: Seq<Frame>,
    node: usize,
    k: nat,
    acc: Seq<usize>,
) -> Seq<Mark>
    decreases stack.len(),
{
    let done = follow(g, marks, node, k, acc);
    if stack.len() == 0 {
        done
    } else {
        let parent = stack.last();
        resume(
            g,
            done,
            stack.drop_last(),
            parent.node,
            parent.next as nat + 1,
            joined(parent.members@, closure_in(done, node)),
        )
    }
}

/// Following one reference of the top frame without a new frame leaves the
/// end of the computation as it was.
proof fn lemma_resume_advance(
    g: Seq<Seq<usize>>,
    marks: Seq<Mark>,
    stack: Seq<Frame>,
    cur: Frame,
    then: Frame,
)
    requires
        in_bounds(g),
        cur.node < g.len(),
        marks.len() == g.len(),
        cur.next < g[cur.node as int].len(),
        then.node == cur.node,
        then.next == cur.next + 1,
        ({
            let b = g[cur.node as int][cur.next as int];
            if b == cur.node {
                then.members@ == cur.members@
            } else {
                match marks[b as int] {
                    Mark::Closed(s) => then.members@ == joined(cur.members@, s),
                    Mark::Active => then.members@ == added(cur.members@, b),
                    Mark::Pending => false,
                }
            }
        }),
    ensures
        resume(g, marks, stack, then.node, then.next as nat, then.members@) == resume(
            g,
            marks,
            stack,
            cur.node,
            cur.next as nat,
            cur.members@,
        ),
{
    assert(follow(g, marks, cur.node, cur.next as nat, cur.members@) == follow(
        g,
        marks,
        then.node,
        then.next as nat,
        then.members@,
    ));
}

/// Giving a frame to an object of the work queue leaves the end of the
/// computation as it was.
proof fn lemma_resume_descend(
    g: Seq<Seq<usize>>,
    marks: Seq<Mark>,
    stack: Seq<Frame>,
    cur: Frame,
    b: usize,
)
    requires
        in_bounds(g),
        cur.node < g.len(),
        marks.len() == g.len(),
        cur.next < g[cur.node as int].len(),
        b == g[cur.node as int][cur.next as int],
        b != cur.node,
        marks[b as int] is Pending,
    ensures
        resume(g, marks.update(b as int, Mark::Active), stack.push(cur), b, 0, seq![b]) == resume(
            g,
            marks,
            stack,
            cur.node,
            cur.next as nat,
            cur.members@,
        ),
{
    let started = marks.update(b as int, Mark::Active);
    let deeper = stack.push(cur);
    lemma_pending_update(marks, b as int, Mark::Active);
    lemma_follow_shape(g, started, b, 0, seq![b]);
    let below = follow(g, started, b, 0, seq![b]);
    assert(deeper.drop_last() =~= stack);
    assert(deeper.last() == cur);
    assert(follow(g, marks, cur.node, cur.next as nat, cur.members@) == follow(
        g,
        below,
        cur.node,
        cur.next as nat + 1,
        joined(cur.members@, closure_in(below, b)),
    ));
    assert(resume(g, started, deeper, b, 0, seq![b]) == resume(
        g,
        below,
        stack,
        cur.node,
        cur.next as nat + 1,
        joined(cur.members@, closure_in(below, b)),
    ));
}

/// Closing the top frame and handing its closure down leaves the end of the
/// computation as it was.
proof fn lemma_resume_ascend(
    g: Seq<Seq<usize>>,
    marks: Seq<Mark>,
    stack: Seq<Frame>,
    cur: Frame,
    then: Frame,
)
    requires
        in_bounds(g),
        cur.node < g.len(),
        marks.len() == g.len(),
        cur.next == g[cur.node as int].len(),
        stack.len() > 0,
        then.node == stack.last().node,
        then.next == stack.last().next + 1,
        then.members@ == joined(stack.last().members@, cur.members@),
    ensures
        resume(
            g,
            marks.update(cur.node as int, Mark::Closed(cur.members@)),
            stack.drop_last(),
            then.node,
            then.next as nat,
            then.members@,
        ) == resume(g, marks, stack, cur.node, cur.next as nat, cur.members@),
{
    let done = marks.update(cur.node as int, Mark::Closed(cur.members@));
    assert(follow(g, marks, cur.node, cur.next as nat, cur.members@) == done);
    assert(closure_in(done, cur.node) == cur.members@);
}

/// Closing the last frame ends the computation.
proof fn lemma_resume_finish(g: Seq<Seq<usize>>, marks: Seq<Mark>, stack: Seq<Frame>, cur: Frame)
    requires
        in_bounds(g),
        cur.node < g.len(),
        marks.len() == g.len(),
        cur.next == g[cur.node as int].len(),
        stack.len() == 0,
    ensures
        marks.update(cur.node as int, Mark::Closed(cur.members@)) == resume(
            g,
            marks,
            stack,
            cur.node,
            cur.next as nat,
            cur.members@,
        ),
{
}

/// Computes closures over the objects of one store, and keeps those it has
/// computed.
///
/// Every object is either in the work queue, with nothing done for it, or
/// closed, with its closure kept for reuse. Objects leave the work queue
/// when their closure is asked for, or met on the way to another, or when
/// the queue is drained.
pub struct ClosureEngine<'a> {
    store: &'a RecordStore,
    slots: Vec<Slot>,
    waiting: usize,
    cursor: usize,
}

impl<'a> ClosureEngine<'a> {
    /// The store whose objects the engine works on.
    pub closed spec fn store(&self) -> RecordStore {
        *self.store
    }

    /// Where every object stands: in the work queue, or closed with its
    /// closure.
    pub closed spec fn marks(&self) -> Seq<Mark> {
        marks_of(self.slots@)
    }

    /// The closures computed so far.
    pub open spec fn table(&self) -> Seq<Option<Seq<usize>>> {
        table_of(self.marks())
    }

    /// The number of objects that are still in the work queue.
    pub open spec fn queued(&self) -> nat {
        pending(self.marks())
    }

    /// The engine is at rest: the stack is empty, every object is in the work
    /// queue or closed, and the closures it holds are in order.
    pub closed spec fn wf(&self) -> bool {
        let marks = marks_of(self.slots@);
        &&& self.store.wf()
        &&& self.slots.len() == self.store.kept().len()
        &&& forall|a: int| 0 <= a < marks.len() ==> !((#[trigger] marks[a]) is Active)
        &&& table_ok(self.store.graph(), table_of(marks))
        &&& self.waiting == pending(marks)
        &&& self.cursor <= self.slots.len()
        &&& forall|a: int| 0 <= a < self.cursor ==> (#[trigger] marks[a]) is Closed
    }

    /// The closure of every object is known.
    pub open spec fn complete(&self) -> bool {
        forall|a: int| 0 <= a < self.table().len() ==> (#[trigger] self.table()[a]) is Some
    }

    /// What holds of the closures that an engine at rest has computed.
    pub proof fn lemma_table(&self)
        requires
            self.wf(),
        ensures
            self.store().wf(),
            self.marks().len() == self.store().kept().len(),
            forall|a: int| 0 <= a < self.marks().len() ==> !((#[trigger] self.marks()[a]) is Active),
            table_ok(self.store().graph(), self.table()),
            self.queued() == 0 <==> self.complete(),
    {
        if self.queued() == 0 {
            assert forall|a: int| 0 <= a < self.table().len() implies (
            #[trigger] self.table()[a]) is Some by {
                lemma_pending_none(self.marks(), a);
                assert(!(self.marks()[a] is Active));
            }
        }
        if self.complete() {
            lemma_pending_closed(self.marks());
        }
    }

    /// An engine for the objects of `store`, with every object in the work
    /// queue and no closure computed.
    pub fn new(store: &'a RecordStore) -> (engine: ClosureEngine<'a>)
        requires
            store.wf(),
        ensures
            engine.wf(),
            engine.store() == *store,
            engine.marks() == fresh(store.kept().len()),
            engine.queued() == store.kept().len(),
    {
        let n: usize = store.len();
        let mut slots: Vec<Slot> = Vec::new();
        assert(marks_of(slots@) =~= fresh(0));
        while slots.len() < n
            invariant
                slots.len() <= n,
                pending(marks_of(slots@)) == slots.len(),
                marks_of(slots@) == fresh(slots.len() as nat),
            decreases n - slots.len(),
        {
            proof {
                lemma_pending_push(marks_of(slots@), Mark::Pending);
                lemma_marks_push(slots@, Slot::Pending);
                assert(fresh(slots.len() as nat).push(Mark::Pending) =~= fresh(
                    (slots.len() + 1) as nat,
                ));
            }
            slots.push(Slot::Pending);
        }
        ClosureEngine { store, slots, waiting: n, cursor: 0 }
    }

    /// Whether the closure of object `a` is known.
    pub fn is_closed(&self, a: usize) -> (known: bool)
        requires
            self.wf(),
            a < self.store().kept().len(),
        ensures
            known == self.table()[a as int] is Some,
            known == !(self.marks()[a as int] is Pending),
    {
        match &self.slots[a] {
            Slot::Closed(_) => true,
            _ => false,
        }
    }

    /// The number of objects whose closure is known.
    pub fn closed_count(&self) -> (n: usize)
        requires
            self.wf(),
        ensures
            n == self.store().kept().len() - self.queued(),
    {
        proof {
            lemma_pending_bound(marks_of(self.slots@));
        }
        self.slots.len() - self.waiting
    }

    /// The number of objects that are still in the work queue.
    pub fn queued_count(&self) -> (n: usize)
        requires
            self.wf(),
        ensures
            n == self.queued(),
    {
        self.waiting
    }

    /// Computes the closure of `root`, an object of the work queue, and of
    /// every object of the work queue that is met on the way.
    fn traverse(&mut self, root: usize)
        requires
            old(self).wf(),
            root < old(self).slots.len(),
            marks_of(old(self).slots@)[root as int] is Pending,
        ensures
            final(self).store == old(self).store,
            final(self).cursor == old(self).cursor,
            final(self).waiting == pending(marks_of(final(self).slots@)),
            walked(
                old(self).store.graph(),
                root,
                marks_of(old(self).slots@),
                marks_of(final(self).slots@),
            ),
            marks_of(final(self).slots@) == explore(
                old(self).store.graph(),
                marks_of(old(self).slots@),
                root,
            ),
    {
        let store = self.store;
        let ghost g = store.graph();
        let ghost before = marks_of(self.slots@);
        let ghost goal = explore(g, before, root);
        proof {
            store.lemma_graph_in_bounds();
            store.lemma_graph_fits();
            lemma_pending_update(before, root as int, Mark::Active);
            lemma_marks_update(self.slots@, root as int, Slot::Active);
        }
        let mut stack: Vec<Frame> = Vec::new();
        let mut cur = Frame::start(root);
        self.slots.set(root, Slot::Active);
        self.waiting = self.waiting - 1;
        proof {
            lemma_walk_start(g, root, before, cur);
        }
        loop
            invariant_except_break
                walking(g, root, before, marks_of(self.slots@), stack@, cur),
                resume(g, marks_of(self.slots@), stack@, cur.node, cur.next as nat, cur.members@)
                    == goal,
            invariant
                self.store == store,
                store.wf(),
                g == store.graph(),
                g.len() == store.kept().len(),
                self.slots.len() == g.len(),
                self.cursor == old(self).cursor,
                self.waiting == pending(marks_of(self.slots@)),
            ensures
                walked(g, root, before, marks_of(self.slots@)),
                marks_of(self.slots@) == goal,
            decreases
                    pending(marks_of(self.slots@)),
                    stack.len(),
                    g[cur.node as int].len() - cur.next,
        {
            let targets = store.references(cur.node);
            let ghost was = cur;
            let ghost marks = marks_of(self.slots@);
            if cur.next < targets.len() {
                let b: usize = targets[cur.next];
                if b == cur.node {
                    cur.next = cur.next + 1;
                    proof {
                        lemma_walk_skip(g, root, before, marks, stack@, was, cur);
                        lemma_resume_advance(g, marks, stack@, was, cur);
                    }
                } else {
                    match &self.slots[b] {
                        Slot::Closed(set) => {
                            cur.absorb(set);
                            cur.next = cur.next + 1;
                            proof {
                                lemma_walk_reuse(g, root, before, marks, stack@, was, cur);
                                lemma_resume_advance(g, marks, stack@, was, cur);
                            }
                        },
                        Slot::Active => {
                            cur.add(b);
                            cur.next = cur.next + 1;
                            proof {
                                lemma_walk_cut(g, root, before, marks, stack@, was, cur);
                                lemma_resume_advance(g, marks, stack@, was, cur);
                            }
                        },
                        Slot::Pending => {
                            let child = Frame::start(b);
                            proof {
                                lemma_walk_descend(g, root, before, marks, stack@, cur, child);
                                lemma_resume_descend(g, marks, stack@, cur, b);
                                lemma_marks_update(self.slots@, b as int, Slot::Active);
                            }
                            self.slots.set(b, Slot::Active);
                            self.waiting = self.waiting - 1;
                            stack.push(cur);
                            cur = child;
                        },
                    }
                }
            } else {
                let ghost below = stack@;
                let Frame { node, next: _, members, seen: _ } = cur;
                match stack.pop() {
                    Some(parent) => {
                        let mut parent = parent;
                        proof {
                            assert(waiting_ok(g, marks, below, was, below.len() - 1));
                        }
                        parent.absorb(&members);
                        parent.next = parent.next + 1;
                        proof {
                            lemma_walk_ascend(
                                g,
                                root,
                                before,
                                marks,
                                below,
                                was,
                                Mark::Closed(members@),
                                parent,
                            );
                            lemma_resume_ascend(g, marks, below, was, parent);
                            lemma_marks_update(self.slots@, node as int, Slot::Closed(members));
                        }
                        self.slots.set(node, Slot::Closed(members));
                        cur = parent;
                    },
                    None => {
                        proof {
                            lemma_walk_finish(
                                g,
                                root,
                                before,
                                marks,
                                below,
                                was,
                                Mark::Closed(members@),
                            );
                            lemma_resume_finish(g, marks, below, was);
                            lemma_marks_update(self.slots@, node as int, Slot::Closed(members));
                        }
                        self.slots.set(node, Slot::Closed(members));
                        break ;
                    },
                }
            }
        }
    }

    /// The closure of object `a`. A closure that is known is handed out as it
    /// is; otherwise it is computed, together with the closures of the
    /// objects of the work queue that `a` reaches, and kept.
    pub fn closure_of_object(&mut self, a: usize) -> (set: &Vec<usize>)
        requires
            old(self).wf(),
            a < old(self).store().kept().len(),
        ensures
            final(self).wf(),
            final(self).store() == old(self).store(),
            final(self).marks() == explore(final(self).store().graph(), old(self).marks(), a),
            final(self).marks()[a as int] == Mark::Closed(set@),
            set@.contains(a),
            forall|i: int|
                0 <= i < set.len() ==> (#[trigger] set@[i]) < final(self).store().kept().len(),
            entry_ok(final(self).store().graph(), final(self).table(), a),
            cycle_free(final(self).store().graph(), a) ==> set@.to_set() == reach_set(
                final(self).store().graph(),
                a,
            ),
            extends(old(self).table(), final(self).table()),
            forall|b: usize|
                b < final(self).marks().len() && !((#[trigger] final(self).marks()[b as int]) is Pending)
                    && old(self).marks()[b as int] is Pending ==> reaches(
                    final(self).store().graph(),
                    a,
                    b,
                ),
            forall|b: int|
                0 <= b < final(self).marks().len() && (#[trigger] final(self).marks()[b]) is Pending
                    ==> old(self).marks()[b] is Pending,
    {
        if !self.is_closed(a) {
            self.traverse(a);
        }
        proof {
            let g = self.store.graph();
            let marks = marks_of(self.slots@);
            let t = table_of(marks);
            assert(!(marks[a as int] is Active));
            assert(t[a as int] is Some);
            assert(entry_ok(g, t, a));
            let members = t[a as int]->0;
            assert forall|i: int| 0 <= i < members.len() implies (#[trigger] members[i]) < t.len() by {
                assert(members.contains(members[i]));
                lemma_reaches_in_graph(g, a, members[i]);
            }
            if cycle_free(g, a) {
                lemma_closure_exact(g, t, a);
            }
            assert forall|c: int| 0 <= c < self.cursor implies (#[trigger] marks[c]) is Closed by {
                assert(table_of(marks_of(old(self).slots@))[c] is Some);
                assert(t[c] is Some);
            }
        }
        match &self.slots[a] {
            Slot::Closed(set) => set,
            _ => unreached(),
        }
    }

    /// The closure of the object that `id` names, in full or canonical form,
    /// as canonical keys. An identifier that names no object of the store has
    /// no closure: the outcome is `Missing`, and nothing is computed.
    pub fn closure_of(&mut self, id: &str) -> (outcome: Closure)
        requires
            old(self).wf(),
        ensures
            final(self).wf(),
            final(self).store() == old(self).store(),
            match outcome {
                Closure::Missing => {
                    &&& position(final(self).store().keys(), canonical(id@)) is None
                    &&& final(self).marks() == old(self).marks()
                },
                Closure::Resolved(keys) => {
                    &&& position(final(self).store().keys(), canonical(id@)) matches Some(a)
                    &&& final(self).marks() == explore(
                        final(self).store().graph(),
                        old(self).marks(),
                        a,
                    )
                    &&& final(self).marks()[a as int] matches Mark::Closed(set)
                    &&& texts(keys@) == named(final(self).store().keys(), set)
                    &&& set.contains(a)
                    &&& entry_ok(final(self).store().graph(), final(self).table(), a)
                    &&& cycle_free(final(self).store().graph(), a) ==> set.to_set() == reach_set(
                        final(self).store().graph(),
                        a,
                    )
                },
            },
    {
        let store = self.store;
        match store.lookup(id) {
            None => Closure::Missing,
            Some(a) => {
                let set = self.closure_of_object(a);
                Closure::Resolved(keys_of_objects(store, set))
            },
        }
    }

    /// Takes the first object out of the work queue and computes its closure.
    /// Returns the object, or nothing when the work queue is empty.
    pub fn advance(&mut self) -> (taken: Option<usize>)
        requires
            old(self).wf(),
        ensures
            final(self).wf(),
            final(self).store() == old(self).store(),
            extends(old(self).table(), final(self).table()),
            match taken {
                Some(a) => {
                    &&& a < final(self).store().kept().len()
                    &&& old(self).marks()[a as int] is Pending
                    &&& forall|b: int| 0 <= b < a ==> (#[trigger] old(self).marks()[b]) is Closed
                    &&& final(self).marks() == explore(
                        final(self).store().graph(),
                        old(self).marks(),
                        a,
                    )
                    &&& final(self).marks()[a as int] is Closed
                    &&& final(self).queued() < old(self).queued()
                },
                None => old(self).complete() && final(self).marks() == old(self).marks(),
            },
    {
        while self.cursor < self.slots.len() && self.is_closed(self.cursor)
            invariant
                self.wf(),
                self.store == old(self).store,
                self.slots == old(self).slots,
                self.waiting == old(self).waiting,
            decreases self.slots.len() - self.cursor,
        {
            proof {
                assert(!(marks_of(self.slots@)[self.cursor as int] is Active));
            }
            self.cursor = self.cursor + 1;
        }
        if self.cursor < self.slots.len() {
            let a: usize = self.cursor;
            self.traverse(a);
            proof {
                let marks = marks_of(self.slots@);
                let t = table_of(marks);
                assert forall|c: int| 0 <= c < self.cursor implies (#[trigger] marks[c]) is Closed by {
                    assert(table_of(marks_of(old(self).slots@))[c] is Some);
                    assert(t[c] is Some);
                }
                lemma_pending_drops(marks_of(old(self).slots@), marks, a as int);
            }
            Some(a)
        } else {
            proof {
                assert forall|b: int| 0 <= b < self.table().len() implies (
                #[trigger] self.table()[b]) is Some by {
                    assert(marks_of(self.slots@)[b] is Closed);
                }
            }
            None
        }
    }

    /// Computes the closure of every object: takes objects out of the work
    /// queue, the first first, until it is empty.
    pub fn compute_all(self) -> (map: ClosureMap)
        requires
            self.wf(),
        ensures
            map.wf(),
            map.graph() == self.store().graph(),
            map.table().len() == self.store().kept().len(),
            map.complete(),
            map.marks() == drain(self.store().graph(), self.marks(), 0),
            extends(self.table(), map.table()),
    {
        let mut engine = self;
        let ghost g = self.store().graph();
        let ghost goal = drain(g, self.marks(), 0);
        proof {
            self.lemma_table();
            self.store.lemma_graph_fits();
        }
        loop
            invariant_except_break
                engine.wf(),
                engine.store() == self.store(),
                extends(self.table(), engine.table()),
                drain(g, engine.marks(), 0) == goal,
            invariant
                g == self.store().graph(),
                g.len() <= usize::MAX,
                g.len() == self.store().kept().len(),
            ensures
                engine.wf(),
                engine.store() == self.store(),
                extends(self.table(), engine.table()),
                engine.complete(),
                engine.marks() == goal,
            decreases engine.queued(),
        {
            let ghost before = engine.marks();
            proof {
                engine.lemma_table();
            }
            match engine.advance() {
                None => {
                    proof {
                        assert forall|b: int| 0 <= b < before.len() implies !((
                        #[trigger] before[b]) is Pending) by {
                            assert(table_of(before)[b] is Some);
                        }
                        lemma_drain_skip(g, before, 0, before.len());
                    }
                    break ;
                },
                Some(a) => {
                    proof {
                        let after = engine.marks();
                        engine.lemma_table();
                        lemma_extends_twice(self.table(), table_of(before), engine.table());
                        lemma_drain_skip(g, before, 0, a as nat);
                        assert forall|b: int| 0 <= b < a + 1 implies !((#[trigger] after[b]) is Pending) by {
                            if b < a {
                                assert(table_of(before)[b] is Some);
                                assert(table_of(after)[b] is Some);
                            }
                        }
                        lemma_drain_skip(g, after, 0, (a + 1) as nat);
                    }
                },
            }
        }
        engine.finish()
    }

    /// The closures computed so far.
    pub fn finish(self) -> (map: ClosureMap)
        requires
            self.wf(),
        ensures
            map.wf(),
            map.graph() == self.store().graph(),
            map.table().len() == self.store().kept().len(),
            map.marks() == self.marks(),
    {
        proof {
            self.store.lemma_graph_in_bounds();
        }
        ClosureMap { slots: self.slots, graph: Ghost(self.store.graph()) }
    }
}

/// What asking for a closure by identifier gives.
#[derive(Debug, Clone, PartialEq, Eq)]
pub enum Closure {
    /// The identifier names no object of the store.
    Missing,
    /// The canonical keys of the objects in the closure.
    Resolved(Vec<String>),
}

/// The canonical keys of the objects `set`.
pub fn keys_of_objects(store: &RecordStore, set: &Vec<usize>) -> (keys: Vec<String>)
    requires
        store.wf(),
        forall|i: int| 0 <= i < set.len() ==> (#[trigger] set@[i]) < store.kept().len(),
    ensures
        texts(keys@) == named(store.keys(), set@),
{
    let mut keys: Vec<String> = Vec::new();
    let mut i: usize = 0;
    while i < set.len()
        invariant
            i <= set.len(),
            store.wf(),
            forall|i: int| 0 <= i < set.len() ==> (#[trigger] set@[i]) < store.kept().len(),
            texts(keys@) == named(store.keys(), set@.take(i as int)),
        decreases set.len() - i,
    {
        let key = store.key(set[i]).clone();
        proof {
            assert(texts(keys@.push(key)) =~= texts(keys@).push(key@));
            assert(named(store.keys(), set@.take(i + 1)) =~= named(
                store.keys(),
                set@.take(i as int),
            ).push(store.keys()[set@[i as int] as int]));
        }
        keys.push(key);
        i += 1;
    }
    assert(set@.take(i as int) =~= set@);
    keys
}

/// The closures of the objects of one store.
pub struct ClosureMap {
    slots: Vec<Slot>,
    graph: Ghost<Seq<Seq<usize>>>,
}

impl ClosureMap {
    /// Where every object stands: closed with its closure, or not.
    pub closed spec fn marks(&self) -> Seq<Mark> {
        marks_of(self.slots@)
    }

    /// For each object its closure, where it is known.
    pub open spec fn table(&self) -> Seq<Option<Seq<usize>>> {
        table_of(self.marks())
    }

    /// The references that the closures were computed over.
    pub closed spec fn graph(&self) -> Seq<Seq<usize>> {
        self.graph@
    }

    /// The closures are in order.
    pub closed spec fn wf(&self) -> bool {
        &&& in_bounds(self.graph@)
        &&& table_ok(self.graph@, table_of(marks_of(self.slots@)))
    }

    /// The closure of every object is known.
    pub open spec fn complete(&self) -> bool {
        forall|a: int| 0 <= a < self.table().len() ==> (#[trigger] self.table()[a]) is Some
    }

    /// What holds of closures that are in order.
    pub proof fn lemma_table(&self)
        requires
            self.wf(),
        ensures
            in_bounds(self.graph()),
            table_ok(self.graph(), self.table()),
            self.table().len() <= usize::MAX,
    {
        assert(self.table().len() == self.slots.len());
    }

    /// The number of objects.
    pub fn len(&self) -> (n: usize)
        ensures
            n == self.table().len(),
    {
        self.slots.len()
    }

    /// The closure of object `a`, if it is known.
    pub fn get(&self, a: usize) -> (found: Option<&Vec<usize>>)
        ensures
            match found {
                Some(set) => a < self.table().len() && self.table()[a as int] == Some(set@),
                None => a >= self.table().len() || self.table()[a as int] is None,
            },
    {
        if a >= self.slots.len() {
            return None;
        }
        match &self.slots[a] {
            Slot::Closed(set) => Some(set),
            _ => None,
        }
    }
}

} // verus!
