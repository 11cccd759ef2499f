//! Laws that relate several operations of the graph, stated over its view.

use crate::view::{canon, children_below, GraphView, Term};
use vstd::prelude::*;

verus! {

/// Inserting two terms that agree once canonicalized, one after the other,
/// gives the same handle both times, and the second insertion changes nothing.
pub proof fn lemma_hashcons(g: GraphView, t1: Term, t2: Term, g1: GraphView, h1: usize, g2: GraphView, h2: usize)
    requires
        g.wf(),
        children_below(t1, g.len()),
        children_below(t2, g.len()),
        canon(g.root, t1) == canon(g.root, t2),
        g.insert_result(t1, g1, h1),
        g1.insert_result(t2, g2, h2),
    ensures
        h1 == h2,
        g2 == g1,
{
    let c = canon(g.root, t2);
    if !g.table.contains_key(c) {
        let n = g.len();
        assert forall|k: int| 0 <= k < t2.1.len() implies #[trigger] g1.root[t2.1[k] as int] == g.root[t2.1[k] as int] by {
            assert((t2.1[k] as int) < n);
        }
        assert(canon(g1.root, t2).1 =~= c.1);
        assert(g1.table.contains_key(c));
    }
}

/// Inserting the same term twice on an unchanged graph gives the same handle.
pub proof fn lemma_insert_idempotent(g: GraphView, t: Term, g1: GraphView, h1: usize, g2: GraphView, h2: usize)
    requires
        g.wf(),
        children_below(t, g.len()),
        g.insert_result(t, g1, h1),
        g1.insert_result(t, g2, h2),
    ensures
        h1 == h2,
        g2 == g1,
{
    lemma_hashcons(g, t, t, g1, h1, g2, h2);
}

/// The root of a handle's class is its own root.
pub proof fn lemma_find_idempotent(g: GraphView, h: usize)
    requires
        g.wf(),
        (h as int) < g.len(),
    ensures
        g.find(g.find(h)) == g.find(h),
{
    let _ = g.root[h as int];
}

/// `union(a, b, false)` and `union(b, a, false)` on one graph give the same
/// partition, whichever root each keeps.
pub proof fn lemma_union_commutes(
    g: GraphView,
    a: usize,
    b: usize,
    g1: GraphView,
    r1: Option<crate::ids::HirId>,
    g2: GraphView,
    r2: Option<crate::ids::HirId>,
)
    requires
        g.wf(),
        (a as int) < g.len(),
        (b as int) < g.len(),
        g.union_result(a, b, false, g1, r1),
        g.union_result(b, a, false, g2, r2),
    ensures
        forall|x: int, y: int|
            0 <= x < g.len() && 0 <= y < g.len() ==> (#[trigger] g1.same_class(x as usize, y as usize)
                <==> #[trigger] g2.same_class(x as usize, y as usize)),
{
    let ra = g.find(a);
    let rb = g.find(b);
    if ra != rb {
        assert forall|x: int, y: int|
            0 <= x < g.len() && 0 <= y < g.len() implies (#[trigger] g1.same_class(x as usize, y as usize)
                <==> #[trigger] g2.same_class(x as usize, y as usize)) by {
            let _ = g.root[x];
            let _ = g.root[y];
            let _ = g.root[a as int];
            let _ = g.root[b as int];
        }
    }
}

/// The classes cover every handle, each handle lies in the class of its
/// root, and two distinct classes share no handle.
pub proof fn lemma_classes_partition(g: GraphView)
    requires
        g.wf(),
    ensures
        forall|h: usize|
            (h as int) < g.len() ==> g.classes.contains_key(#[trigger] g.find(h)) && g.classes[g.find(h)].contains(h),
        forall|r: usize, h: usize|
            g.classes.contains_key(r) && #[trigger] g.classes[r].contains(h) ==> (h as int) < g.len(),
        forall|r1: usize, r2: usize, h: usize|
            g.classes.contains_key(r1) && g.classes.contains_key(r2) && r1 != r2 ==> !(#[trigger] g.classes[r1].contains(h)
                && #[trigger] g.classes[r2].contains(h)),
{
    assert forall|h: usize| (h as int) < g.len() implies g.classes.contains_key(#[trigger] g.find(h))
        && g.classes[g.find(h)].contains(h) by {
        let _ = g.root[h as int];
    }
}

/// In a congruence-closed graph, two handles whose stored terms have one
/// operator and children that lie pairwise in one class are in one class.
pub proof fn lemma_congruence(g: GraphView, h1: usize, h2: usize)
    requires
        g.wf(),
        g.closed(),
        (h1 as int) < g.len(),
        (h2 as int) < g.len(),
        g.terms[h1 as int].0 == g.terms[h2 as int].0,
        g.terms[h1 as int].1.len() == g.terms[h2 as int].1.len(),
        forall|k: int|
            0 <= k < g.terms[h1 as int].1.len() ==> g.same_class(#[trigger] g.terms[h1 as int].1[k], g.terms[h2 as int].1[k]),
    ensures
        g.find(h1) == g.find(h2),
{
    let t1 = g.terms[h1 as int];
    let t2 = g.terms[h2 as int];
    assert forall|k: int| 0 <= k < t1.1.len() implies canon(g.root, t1).1[k] == canon(g.root, t2).1[k] by {
        assert(g.same_class(t1.1[k], t2.1[k]));
    }
    assert(canon(g.root, t1).1 =~= canon(g.root, t2).1);
}

/// What `rebuild` promises pins its partition down: the classes it leaves
/// form a congruence-closed coarsening of the classes it was given, and they
/// refine every other one, so they are the least congruence closure.
pub proof fn lemma_rebuild_least_closure(g0: GraphView, g: GraphView)
    requires
        g0.wf(),
        g.wf(),
        g.closed(),
        g0.coarsened_by(g),
        g0.same_terms(g),
        forall|rt: Seq<usize>| g0.closes(rt) ==> #[trigger] g.refines(rt),
    ensures
        g0.closes(g.root),
        forall|rt: Seq<usize>| g0.closes(rt) ==> #[trigger] g.refines(rt),
{
    assert forall|i: int, j: int|
        0 <= i < g0.len() && 0 <= j < g0.len() && #[trigger] canon(g.root, g0.terms[i]) == #[trigger] canon(
            g.root,
            g0.terms[j],
        ) implies g.root[i] == g.root[j] by {
        g0.lemma_same_terms_canon(g, g.root, i);
        g0.lemma_same_terms_canon(g, g.root, j);
    }
}

} // verus!
