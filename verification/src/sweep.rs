//! What to keep and what to delete.
//!
//! The roots and everything in their closures are kept. Every other object
//! may be deleted. An archive may be deleted when no kept object was fetched
//! from it; the sizes of those archives add up to what deleting reclaims.

use crate::closure::{
    closures, entry_ok, lemma_closure_exact, lemma_closure_within_reach, table_of, table_ok,
};
use crate::engine::{ClosureEngine, ClosureMap};
use crate::graph::{cycle_free, lemma_reaches_in_graph, reach_set, reaches};
use crate::record::RecordStore;
use crate::retention::{roots_of, select_roots};
use crate::select::{lemma_picked, lemma_picked_agree, picked};
use vstd::prelude::*;

verus! {

/// Why nothing could be assembled.
#[derive(Debug, Clone, Copy, PartialEq, Eq)]
pub enum GcError {
    /// The closure of this root is not known. Going on would delete what the
    /// root depends on.
    RootWithoutClosure(usize),
}

/// What is kept, what may be deleted, and how many bytes that reclaims.
#[derive(Debug, Clone, PartialEq, Eq)]
pub struct Sweep {
    /// The objects to keep, in rising order.
    pub keep: Vec<usize>,
    /// The objects to delete, in rising order.
    pub delete: Vec<usize>,
    /// The archives to delete, in rising order.
    pub delete_origins: Vec<usize>,
    /// The sizes of the archives to delete, added up.
    pub reclaimable: u128,
}

/// Every number in `list` is below `bound`.
pub open spec fn all_below(list: Seq<usize>, bound: nat) -> bool {
    forall|i: int| 0 <= i < list.len() ==> (#[trigger] list[i]) < bound
}

/// Whether every number in `list` is below `bound`.
fn check_below(list: &Vec<usize>, bound: usize) -> (ok: bool)
    ensures
        ok == all_below(list@, bound as nat),
{
    let mut i: usize = 0;
    while i < list.len()
        invariant
            i <= list.len(),
            forall|j: int| 0 <= j < i ==> (#[trigger] list@[j]) < bound,
        decreases list.len() - i,
    {
        if list[i] >= bound {
            return false;
        }
        i += 1;
    }
    true
}

impl Sweep {
    /// The sweep names objects and archives of `store` only.
    pub open spec fn within(&self, store: RecordStore) -> bool {
        &&& all_below(self.keep@, store.kept().len())
        &&& all_below(self.delete@, store.kept().len())
        &&& all_below(self.delete_origins@, store.origins().len())
    }

    /// Whether the sweep names objects and archives of `store` only. A sweep
    /// that was assembled for `store` does.
    pub fn is_within(&self, store: &RecordStore) -> (ok: bool)
        requires
            store.wf(),
        ensures
            ok == self.within(*store),
    {
        check_below(&self.keep, store.len()) && check_below(&self.delete, store.len())
            && check_below(&self.delete_origins, store.origin_count())
    }
}

/// Table `t` gives a closure for `r`.
pub open spec fn has_closure(t: Seq<Option<Seq<usize>>>, r: usize) -> bool {
    r < t.len() && t[r as int] is Some
}

/// Object `b` is in the closure of one of `roots`.
pub open spec fn kept_for(t: Seq<Option<Seq<usize>>>, roots: Seq<usize>, b: usize) -> bool {
    exists|i: int|
        0 <= i < roots.len() && has_closure(t, #[trigger] roots[i]) && (t[roots[i] as int]->0).contains(
            b,
        )
}

/// Some object that is kept for `roots` was fetched from archive `k`.
pub open spec fn origin_kept(
    store: RecordStore,
    t: Seq<Option<Seq<usize>>>,
    roots: Seq<usize>,
    k: usize,
) -> bool {
    exists|a: usize|
        a < store.kept().len() && #[trigger] kept_for(t, roots, a) && store.origin_of(a as int) == k
}

/// The sizes of the archives `chosen`, added up.
pub open spec fn total(sizes: Seq<u64>, chosen: Seq<usize>) -> nat
    decreases chosen.len(),
{
    if chosen.len() == 0 {
        0
    } else {
        total(sizes, chosen.drop_last()) + sizes[chosen.last() as int] as nat
    }
}

/// The objects to keep for `roots`.
pub open spec fn keep_of(n: nat, t: Seq<Option<Seq<usize>>>, roots: Seq<usize>) -> Seq<usize> {
    picked(n as int, |b: usize| kept_for(t, roots, b))
}

/// The objects to delete when `roots` are kept.
pub open spec fn delete_of(n: nat, t: Seq<Option<Seq<usize>>>, roots: Seq<usize>) -> Seq<usize> {
    picked(n as int, |b: usize| !kept_for(t, roots, b))
}

/// The archives to delete when `roots` are kept.
pub open spec fn delete_origins_of(
    store: RecordStore,
    t: Seq<Option<Seq<usize>>>,
    roots: Seq<usize>,
) -> Seq<usize> {
    picked(store.origins().len() as int, |k: usize| !origin_kept(store, t, roots, k))
}

/// For each of `n` objects, whether it is in the closure of one of `roots`.
/// Fails at the first root whose closure is not known.
fn mark_kept(n: usize, roots: &Vec<usize>, closures: &ClosureMap) -> (result: Result<
    Vec<bool>,
    GcError,
>)
    requires
        closures.wf(),
        closures.table().len() == n,
    ensures
        match result {
            Ok(marks) => {
                &&& marks.len() == n
                &&& forall|i: int| 0 <= i < roots.len() ==> has_closure(closures.table(), #[trigger] roots@[i])
                &&& forall|b: usize|
                    b < n ==> (#[trigger] marks@[b as int]) == kept_for(closures.table(), roots@, b)
            },
            Err(GcError::RootWithoutClosure(r)) => {
                exists|i: int|
                    {
                        &&& 0 <= i < roots.len()
                        &&& #[trigger] roots@[i] == r
                        &&& !has_closure(closures.table(), r)
                        &&& forall|j: int| 0 <= j < i ==> has_closure(closures.table(), #[trigger] roots@[j])
                    }
            },
        },
{
    let ghost t = closures.table();
    let ghost g = closures.graph();
    proof {
        closures.lemma_table();
    }
    let mut marks: Vec<bool> = Vec::new();
    while marks.len() < n
        invariant
            marks.len() <= n,
            forall|b: int| 0 <= b < marks.len() ==> !(#[trigger] marks@[b]),
        decreases n - marks.len(),
    {
        marks.push(false);
    }
    let mut i: usize = 0;
    while i < roots.len()
        invariant
            i <= roots.len(),
            marks.len() == n,
            t == closures.table(),
            g == closures.graph(),
            t.len() == n,
            table_ok(g, t),
            forall|j: int| 0 <= j < i ==> has_closure(t, #[trigger] roots@[j]),
            forall|b: usize| b < n ==> (#[trigger] marks@[b as int]) == kept_for(t, roots@.take(i as int), b),
        decreases roots.len() - i,
    {
        let r: usize = roots[i];
        let ghost done = roots@.take(i as int);
        let ghost more = roots@.take(i + 1);
        match closures.get(r) {
            None => {
                return Err(GcError::RootWithoutClosure(r));
            },
            Some(set) => {
                proof {
                    assert(entry_ok(g, t, r));
                }
                let mut j: usize = 0;
                while j < set.len()
                    invariant
                        j <= set.len(),
                        marks.len() == n,
                        t.len() == n,
                        r < n,
                        g.len() == n,
                        t[r as int] == Some(set@),
                        entry_ok(g, t, r),
                        forall|b: usize|
                            b < n ==> (#[trigger] marks@[b as int]) == (kept_for(t, done, b) || set@.take(
                                j as int,
                            ).contains(b)),
                    decreases set.len() - j,
                {
                    let b: usize = set[j];
                    proof {
                        assert(set@.contains(b));
                        lemma_reaches_in_graph(g, r, b);
                    }
                    let ghost old_marks = marks@;
                    marks.set(b, true);
                    proof {
                        let shorter = set@.take(j as int);
                        let longer = set@.take(j + 1);
                        assert forall|c: usize| c < n implies (#[trigger] marks@[c as int]) == (kept_for(
                            t,
                            done,
                            c,
                        ) || longer.contains(c)) by {
                            if shorter.contains(c) {
                                let x = shorter.index_of(c);
                                assert(longer[x] == c);
                            }
                            if longer.contains(c) {
                                let x = longer.index_of(c);
                                if x < j {
                                    assert(shorter[x] == c);
                                }
                            }
                            if c == b {
                                assert(longer[j as int] == b);
                            }
                        }
                    }
                    j += 1;
                }
                proof {
                    assert(set@.take(j as int) =~= set@);
                    assert(more[i as int] == r);
                    assert forall|b: usize| b < n implies (#[trigger] marks@[b as int]) == kept_for(
                        t,
                        more,
                        b,
                    ) by {
                        if kept_for(t, done, b) {
                            let x = choose|x: int|
                                0 <= x < done.len() && has_closure(t, #[trigger] done[x]) && (t[done[x] as int]->0).contains(
                                    b,
                                );
                            assert(more[x] == done[x]);
                        }
                        if kept_for(t, more, b) {
                            let x = choose|x: int|
                                0 <= x < more.len() && has_closure(t, #[trigger] more[x]) && (t[more[x] as int]->0).contains(
                                    b,
                                );
                            if x < i {
                                assert(done[x] == more[x]);
                            }
                        }
                    }
                }
            },
        }
        i += 1;
    }
    proof {
        assert(roots@.take(i as int) =~= roots@);
    }
    Ok(marks)
}

/// For each archive, whether a marked object was fetched from it.
fn mark_origins(store: &RecordStore, marks: &Vec<bool>) -> (kept: Vec<bool>)
    requires
        store.wf(),
        marks.len() == store.kept().len(),
    ensures
        kept.len() == store.origins().len(),
        forall|k: usize|
            k < kept.len() ==> (#[trigger] kept@[k as int]) == exists|a: usize|
                a < marks.len() && #[trigger] marks@[a as int] && store.origin_of(a as int) == k,
{
    let m: usize = store.origin_count();
    let n: usize = store.len();
    let mut kept: Vec<bool> = Vec::new();
    while kept.len() < m
        invariant
            kept.len() <= m,
            forall|k: int| 0 <= k < kept.len() ==> !(#[trigger] kept@[k]),
        decreases m - kept.len(),
    {
        kept.push(false);
    }
    let mut a: usize = 0;
    while a < n
        invariant
            a <= n,
            n == marks.len(),
            n == store.kept().len(),
            m == store.origins().len(),
            store.wf(),
            kept.len() == m,
            forall|k: usize|
                k < m ==> (#[trigger] kept@[k as int]) == exists|b: usize|
                    b < a && #[trigger] marks@[b as int] && store.origin_of(b as int) == k,
        decreases n - a,
    {
        if marks[a] {
            let k: usize = store.origin_of_object(a);
            kept.set(k, true);
        }
        proof {
            assert forall|k: usize| k < m implies (#[trigger] kept@[k as int]) == exists|b: usize|
                b < a + 1 && #[trigger] marks@[b as int] && store.origin_of(b as int) == k by {
                if marks@[a as int] && store.origin_of(a as int) == k {
                    assert(a < a + 1 && marks@[a as int] && store.origin_of(a as int) == k);
                }
            }
        }
        a += 1;
    }
    kept
}

/// The positions at which `marks` is `want`, in rising order.
fn gather(marks: &Vec<bool>, want: bool) -> (found: Vec<usize>)
    ensures
        found@ == picked(marks.len() as int, |a: usize| marks@[a as int] == want),
{
    let ghost wanted = |a: usize| marks@[a as int] == want;
    let mut found: Vec<usize> = Vec::new();
    let mut a: usize = 0;
    while a < marks.len()
        invariant
            a <= marks.len(),
            wanted == |a: usize| marks@[a as int] == want,
            found@ == picked(a as int, wanted),
        decreases marks.len() - a,
    {
        if marks[a] == want {
            found.push(a);
        }
        a += 1;
    }
    found
}

/// The sizes of the archives `chosen`, added up.
fn sum_sizes(store: &RecordStore, chosen: &Vec<usize>) -> (sum: u128)
    requires
        store.wf(),
        forall|i: int| 0 <= i < chosen.len() ==> (#[trigger] chosen@[i]) < store.origins().len(),
    ensures
        sum == total(store.sizes(), chosen@),
{
    let mut sum: u128 = 0;
    let mut i: usize = 0;
    assert(chosen@.take(0) =~= Seq::<usize>::empty());
    while i < chosen.len()
        invariant
            i <= chosen.len(),
            store.wf(),
            forall|i: int| 0 <= i < chosen.len() ==> (#[trigger] chosen@[i]) < store.origins().len(),
            sum == total(store.sizes(), chosen@.take(i as int)),
            sum <= i * u64::MAX,
        decreases chosen.len() - i,
    {
        let size: u64 = store.origin_size(chosen[i]);
        proof {
            assert(chosen@.take(i + 1).drop_last() =~= chosen@.take(i as int));
            assert(i * u64::MAX + u64::MAX == (i + 1) * u64::MAX) by (nonlinear_arith);
            assert((i + 1) * u64::MAX <= usize::MAX * u64::MAX) by (nonlinear_arith)
                requires
                    i + 1 <= usize::MAX,
            ;
            assert(usize::MAX * u64::MAX <= u64::MAX * u64::MAX) by (nonlinear_arith)
                requires
                    usize::MAX <= u64::MAX,
            ;
        }
        sum = sum + size as u128;
        i += 1;
    }
    assert(chosen@.take(i as int) =~= chosen@);
    sum
}

/// Works out what to keep and what to delete when `roots` and all they
/// depend on are kept.
///
/// A root whose closure is not known stops everything: the first such root
/// is returned as an error.
pub fn assemble(store: &RecordStore, roots: &Vec<usize>, closures: &ClosureMap) -> (result: Result<
    Sweep,
    GcError,
>)
    requires
        store.wf(),
        closures.wf(),
        closures.table().len() == store.kept().len(),
    ensures
        match result {
            Ok(sweep) => {
                let n = store.kept().len();
                let t = closures.table();
                &&& forall|i: int| 0 <= i < roots.len() ==> has_closure(t, #[trigger] roots@[i])
                &&& sweep.keep@ == keep_of(n, t, roots@)
                &&& sweep.delete@ == delete_of(n, t, roots@)
                &&& sweep.delete_origins@ == delete_origins_of(*store, t, roots@)
                &&& sweep.reclaimable == total(store.sizes(), sweep.delete_origins@)
                &&& sweep.within(*store)
                &&& forall|i: int| 0 <= i < roots.len() ==> sweep.keep@.contains(#[trigger] roots@[i])
                &&& forall|a: usize| !(sweep.keep@.contains(a) && sweep.delete@.contains(a))
                &&& forall|a: usize| a < n <==> sweep.keep@.contains(a) || sweep.delete@.contains(a)
            },
            Err(GcError::RootWithoutClosure(r)) => {
                exists|i: int|
                    {
                        &&& 0 <= i < roots.len()
                        &&& #[trigger] roots@[i] == r
                        &&& !has_closure(closures.table(), r)
                        &&& forall|j: int|
                            0 <= j < i ==> has_closure(closures.table(), #[trigger] roots@[j])
                    }
            },
        },
{
    let n: usize = store.len();
    let ghost t = closures.table();
    proof {
        closures.lemma_table();
    }
    let marks = match mark_kept(n, roots, closures) {
        Ok(marks) => marks,
        Err(e) => {
            return Err(e);
        },
    };
    let origin_marks = mark_origins(store, &marks);
    let keep = gather(&marks, true);
    let delete = gather(&marks, false);
    let delete_origins = gather(&origin_marks, false);
    proof {
        let kept = |b: usize| kept_for(t, roots@, b);
        let dropped = |b: usize| !kept_for(t, roots@, b);
        lemma_picked_agree(n as int, |a: usize| marks@[a as int] == true, kept);
        lemma_picked_agree(n as int, |a: usize| marks@[a as int] == false, dropped);
        lemma_picked(n as int, kept);
        lemma_picked(n as int, dropped);
        let m = store.origins().len() as int;
        let spare = |k: usize| !origin_kept(*store, t, roots@, k);
        assert forall|k: usize| k < m implies (origin_marks@[k as int] == false) == #[trigger] spare(k) by {
            if origin_kept(*store, t, roots@, k) {
                let a = choose|a: usize|
                    a < store.kept().len() && #[trigger] kept_for(t, roots@, a) && store.origin_of(
                        a as int,
                    ) == k;
                assert(marks@[a as int]);
            }
            if origin_marks@[k as int] {
                let a = choose|a: usize|
                    a < marks.len() && #[trigger] marks@[a as int] && store.origin_of(a as int) == k;
                assert(kept_for(t, roots@, a));
            }
        }
        lemma_picked_agree(m, |k: usize| origin_marks@[k as int] == false, spare);
        lemma_picked(m, spare);
        assert forall|i: int| 0 <= i < delete_origins.len() implies (#[trigger] delete_origins@[i])
            < store.origins().len() by {
            assert(delete_origins@.contains(delete_origins@[i]));
        }
        assert forall|i: int| 0 <= i < keep.len() implies (#[trigger] keep@[i]) < n by {
            assert(keep@.contains(keep@[i]));
        }
        assert forall|i: int| 0 <= i < delete.len() implies (#[trigger] delete@[i]) < n by {
            assert(delete@.contains(delete@[i]));
        }
        assert forall|i: int| 0 <= i < roots.len() implies keep@.contains(#[trigger] roots@[i]) by {
            let r = roots@[i];
            assert(has_closure(t, r));
            assert(entry_ok(closures.graph(), t, r));
            assert(kept_for(t, roots@, r));
        }
    }
    let reclaimable = sum_sizes(store, &delete_origins);
    Ok(Sweep { keep, delete, delete_origins, reclaimable })
}

/// One of `roots` reaches object `b`.
pub open spec fn reached_from(g: Seq<Seq<usize>>, roots: Seq<usize>, b: usize) -> bool {
    exists|i: int| 0 <= i < roots.len() && reaches(g, #[trigger] roots[i], b)
}

/// What is kept is reached from a root; and where no cycle can be reached
/// from any root, everything that a root reaches is kept.
pub proof fn lemma_kept_is_reached(
    g: Seq<Seq<usize>>,
    t: Seq<Option<Seq<usize>>>,
    roots: Seq<usize>,
    b: usize,
)
    requires
        table_ok(g, t),
        forall|i: int| 0 <= i < roots.len() ==> has_closure(t, #[trigger] roots[i]),
    ensures
        kept_for(t, roots, b) ==> reached_from(g, roots, b),
        (forall|i: int| 0 <= i < roots.len() ==> cycle_free(g, #[trigger] roots[i])) ==> (kept_for(
            t,
            roots,
            b,
        ) <==> reached_from(g, roots, b)),
{
    if kept_for(t, roots, b) {
        let i = choose|i: int|
            0 <= i < roots.len() && has_closure(t, #[trigger] roots[i]) && (t[roots[i] as int]->0).contains(
                b,
            );
        lemma_closure_within_reach(g, t, roots[i], b);
    }
    if (forall|i: int| 0 <= i < roots.len() ==> cycle_free(g, #[trigger] roots[i])) && reached_from(
        g,
        roots,
        b,
    ) {
        let i = choose|i: int| 0 <= i < roots.len() && reaches(g, #[trigger] roots[i], b);
        assert(has_closure(t, roots[i]));
        lemma_closure_exact(g, t, roots[i]);
        assert(reach_set(g, roots[i]).contains(b));
        assert((t[roots[i] as int]->0).to_set().contains(b));
    }
}

/// Works out what to keep and what to delete for the objects of `store`
/// when the objects that entered the store after `cutoff` are the roots.
/// The closures are those that computing from nothing, one object after the
/// other, gives.
pub fn plan_sweep(store: &RecordStore, cutoff: i128) -> (sweep: Sweep)
    requires
        store.wf(),
    ensures
        ({
            let n = store.kept().len();
            let t = table_of(closures(store.graph()));
            let roots = roots_of(store.kept(), cutoff as int);
            &&& table_ok(store.graph(), t)
            &&& forall|a: int| 0 <= a < t.len() ==> (#[trigger] t[a]) is Some
            &&& sweep.keep@ == keep_of(n, t, roots)
            &&& sweep.delete@ == delete_of(n, t, roots)
            &&& sweep.delete_origins@ == delete_origins_of(*store, t, roots)
            &&& sweep.reclaimable == total(store.sizes(), sweep.delete_origins@)
            &&& sweep.within(*store)
            &&& forall|i: int| 0 <= i < roots.len() ==> sweep.keep@.contains(#[trigger] roots[i])
            &&& forall|a: usize| !(sweep.keep@.contains(a) && sweep.delete@.contains(a))
            &&& forall|a: usize| a < n <==> sweep.keep@.contains(a) || sweep.delete@.contains(a)
        }),
{
    let engine = ClosureEngine::new(store);
    let map = engine.compute_all();
    let roots = select_roots(store, cutoff);
    proof {
        map.lemma_table();
    }
    match assemble(store, &roots, &map) {
        Ok(sweep) => sweep,
        Err(_) => {
            proof {
                assert forall|i: int| 0 <= i < roots.len() implies has_closure(
                    map.table(),
                    #[trigger] roots@[i],
                ) by {
                    assert(roots@.contains(roots@[i]));
                }
            }
            unreached()
        },
    }
}

} // verus!
