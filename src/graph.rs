//! The equivalence graph: an arena of hashconsed terms, a union-find forest
//! over their handles, the class registry, and the congruence-closure loop.

use crate::ids::{HirClass, HirId, Node};
use crate::table::{ClassTable, TermTable};
use crate::ty::{Expr, Type};
use crate::view::{canon, children_below, GraphView, Term};
use vstd::prelude::*;

verus! {

/// Some entry of `es` is owned by handle `i`.
spec fn lists_handle(es: Seq<(Node, usize)>, i: int) -> bool {
    exists|k: int| 0 <= k < es.len() && (#[trigger] es[k]).1 == i
}

/// An equivalence graph over terms with handle children.
pub struct Graph {
    /// The arena of stored terms, indexed by handle.
    ty_map: Vec<Node>,
    /// The hashcons table from stored term to handle.
    id_map: TermTable,
    /// The class registry, keyed by root.
    qspace: ClassTable,
    /// The union-find forest.
    parent: Vec<HirId>,
    /// The root reached from each handle.
    root: Ghost<Seq<usize>>,
    /// A bound that strictly falls along every parent link.
    dist: Ghost<Seq<nat>>,
}

impl View for Graph {
    type V = GraphView;

    closed spec fn view(&self) -> GraphView {
        GraphView {
            terms: self.ty_map@.map_values(|t: Node| t@),
            table: self.id_map@,
            root: self.root@,
            classes: self.qspace@,
        }
    }
}

impl Graph {
    /// The forest agrees with the ghost roots, and its links strictly descend in `dist`.
    closed spec fn forest_wf(&self) -> bool {
        let n = self.ty_map@.len();
        &&& self.parent@.len() == n
        &&& self.dist@.len() == n
        &&& forall|i: int|
            0 <= i < n ==> {
                let p = (#[trigger] self.parent@[i]).0 as int;
                &&& 0 <= p < n
                &&& self.root@[p] == self.root@[i]
                &&& (p == i <==> self.root@[i] == i)
                &&& p != i ==> self.dist@[p] < self.dist@[i]
            }
    }

    /// The invariant of a graph between operations.
    pub closed spec fn wf(&self) -> bool {
        &&& self@.wf()
        &&& self.forest_wf()
    }

    /// A well-formed graph has a well-formed view.
    pub proof fn lemma_view_wf(&self)
        requires
            self.wf(),
        ensures
            self@.wf(),
    {
    }

    /// Constructs a new, empty graph.
    pub fn new() -> (r: Graph)
        ensures
            r.wf(),
            r@ == GraphView::empty(),
    {
        let r = Graph {
            ty_map: Vec::new(),
            id_map: TermTable::new(),
            qspace: ClassTable::new(),
            parent: Vec::new(),
            root: Ghost(Seq::empty()),
            dist: Ghost(Seq::empty()),
        };
        assert(r@.terms =~= Seq::<Term>::empty());
        assert(r@ == GraphView::empty());
        r
    }

    /// The number of handles.
    pub fn len(&self) -> (r: usize)
        ensures
            r == self@.len(),
    {
        self.ty_map.len()
    }

    /// The stored term of `id`.
    pub fn index(&self, id: HirId) -> (r: &Node)
        requires
            (id.0 as int) < self@.len(),
        ensures
            r@ == self@.terms[id.0 as int],
    {
        &self.ty_map[id.0]
    }

    /// Finds the root of the class of `cur_id`, halving the path on the way.
    pub fn find(&mut self, cur_id: HirId) -> (r: HirId)
        requires
            old(self).wf(),
            (cur_id.0 as int) < old(self)@.len(),
        ensures
            final(self).wf(),
            final(self)@ == old(self)@,
            r.0 == old(self)@.find(cur_id.0),
            final(self)@.find(r.0) == r.0,
    {
        let ghost g0 = self@;
        let mut cur = cur_id;
        while self.parent[cur.0] != cur
            invariant
                self.wf(),
                self@ == g0,
                (cur.0 as int) < self@.len(),
                self.root@[cur.0 as int] == g0.root[cur_id.0 as int],
            decreases self.dist@[cur.0 as int],
        {
            let path_id = self.parent[cur.0];
            let next = self.parent[path_id.0];
            let ghost before = self.parent@;
            self.parent.set(cur.0, next);
            proof {
                let n = self.ty_map@.len();
                assert forall|i: int| 0 <= i < n implies {
                    let p = (#[trigger] self.parent@[i]).0 as int;
                    &&& 0 <= p < n
                    &&& self.root@[p] == self.root@[i]
                    &&& (p == i <==> self.root@[i] == i)
                    &&& p != i ==> self.dist@[p] < self.dist@[i]
                } by {
                    if i == cur.0 as int {
                        let _ = self.parent@[path_id.0 as int];
                    } else {
                        let _ = before[i];
                    }
                }
            }
            cur = path_id;
        }
        proof {
            let _ = self.parent@[cur.0 as int];
        }
        cur
    }

    /// Merges the classes of `lhs_id` and `rhs_id`, returning the surviving root,
    /// or nothing when they already share one. An asserted equivalence (`cong`
    /// false) keeps the root of the larger class; a congruence keeps the root of
    /// `lhs_id`.
    pub fn union(&mut self, lhs_id: HirId, rhs_id: HirId, cong: bool) -> (r: Option<HirId>)
        requires
            old(self).wf(),
            (lhs_id.0 as int) < old(self)@.len(),
            (rhs_id.0 as int) < old(self)@.len(),
        ensures
            final(self).wf(),
            old(self)@.union_result(lhs_id.0, rhs_id.0, cong, final(self)@, r),
            r.is_some() ==> final(self)@.classes.dom().len() + 1 == old(self)@.classes.dom().len(),
            r.is_some() ==> final(self)@.classes[r.unwrap().0].len() == old(self)@.classes[old(
                self,
            )@.find(lhs_id.0)].len() + old(self)@.classes[old(self)@.find(rhs_id.0)].len(),
            old(self)@.coarsened_by(final(self)@),
    {
        let ghost g0 = self@;
        let lhs = self.find(lhs_id);
        let rhs = self.find(rhs_id);
        if lhs == rhs {
            return None;
        }
        let lhs_len = match self.qspace.get(lhs.0) {
            Some(c) => c.len(),
            None => 0,
        };
        let rhs_len = match self.qspace.get(rhs.0) {
            Some(c) => c.len(),
            None => 0,
        };
        let (keep, gone) = if !cong && lhs_len < rhs_len {
            (rhs, lhs)
        } else {
            (lhs, rhs)
        };
        proof {
            assert(g0.classes.contains_key(lhs.0));
            assert(g0.classes.contains_key(rhs.0));
        }
        let ghost k = keep.0;
        let ghost z = gone.0;
        let ghost before = self.parent@;
        self.parent.set(gone.0, keep);
        proof {
            let n = self.ty_map@.len();
            let old_root = self.root@;
            let old_dist = self.dist@;
            self.root@ = old_root.map_values(|x: usize| if x == z { k } else { x });
            self.dist@ = Seq::new(
                n,
                |i: int| if old_root[i] == z { old_dist[i] + old_dist[k as int] + 1 } else { old_dist[i] },
            );
            assert forall|i: int| 0 <= i < n implies {
                let p = (#[trigger] self.parent@[i]).0 as int;
                &&& 0 <= p < n
                &&& self.root@[p] == self.root@[i]
                &&& (p == i <==> self.root@[i] == i)
                &&& p != i ==> self.dist@[p] < self.dist@[i]
            } by {
                if i != z as int {
                    let _ = before[i];
                    let _ = old_root[before[i].0 as int];
                    let _ = old_root[i];
                }
            }
        }
        let gone_class = self.qspace.remove(gone.0);
        let keep_class = self.qspace.remove(keep.0);
        match (gone_class, keep_class) {
            (Some(gc), Some(kc)) => {
                let mut kc = kc;
                let ghost kv = kc@;
                let ghost gv = gc@;
                kc.absorb(gc);
                self.qspace.insert(keep.0, kc);
                proof {
                    let n = self.ty_map@.len();
                    let g1 = self@;
                    assert(g1.root =~= g0.merged(k, z).root);
                    assert(g1.classes =~= g0.classes.remove(z).insert(k, kv + gv));
                    assert forall|i: int| 0 <= i < n implies (#[trigger] g1.root[i] as int) < n
                        && g1.root[g1.root[i] as int] == g1.root[i] by {
                        let _ = g0.root[g0.root[i] as int];
                    }
                    assert((kv + gv).no_duplicates()) by {
                        assert forall|a: int, b: int|
                            0 <= a < (kv + gv).len() && 0 <= b < (kv + gv).len() && a != b implies (kv
                            + gv)[a] != (kv + gv)[b] by {
                            if a < kv.len() && b >= kv.len() {
                                assert(kv.contains(kv[a]));
                                assert(gv.contains(gv[b - kv.len()]));
                            }
                            if b < kv.len() && a >= kv.len() {
                                assert(kv.contains(kv[b]));
                                assert(gv.contains(gv[a - kv.len()]));
                            }
                        }
                    }
                    assert forall|r: usize, x: usize| g1.classes.contains_key(r) implies (
                    #[trigger] g1.classes[r].contains(x) <==> ((x as int) < n && g1.root[x as int]
                        == r)) by {
                        if r == k {
                            if (kv + gv).contains(x) {
                                let j = choose|j: int| 0 <= j < (kv + gv).len() && (kv + gv)[j] == x;
                                if j < kv.len() {
                                    assert(kv.contains(kv[j]));
                                } else {
                                    assert(gv.contains(gv[j - kv.len()]));
                                }
                            }
                            if (x as int) < n && g1.root[x as int] == r {
                                if g0.root[x as int] == k {
                                    assert(kv.contains(x));
                                    let j = choose|j: int| 0 <= j < kv.len() && kv[j] == x;
                                    assert((kv + gv)[j] == x);
                                } else {
                                    assert(gv.contains(x));
                                    let j = choose|j: int| 0 <= j < gv.len() && gv[j] == x;
                                    assert((kv + gv)[kv.len() + j] == x);
                                }
                            }
                        } else {
                            assert(g0.classes[r].contains(x) <==> ((x as int) < n && g0.root[x as int] == r));
                        }
                    }
                    assert forall|r: usize| #[trigger] g1.classes.contains_key(r) <==> ((r as int) < n
                        && g1.root[r as int] == r) by {
                        if (r as int) < n {
                            let _ = g0.root[r as int];
                        }
                    }
                    assert(g0.classes.remove(z).dom().len() + 1 == g0.classes.dom().len());
                    assert(g1.classes.dom() =~= g0.classes.remove(z).dom());
                    assert forall|i: int, j: int|
                        0 <= i < n && 0 <= j < n && #[trigger] g0.root[i] == #[trigger] g0.root[j]
                            implies g1.root[i] == g1.root[j] by {}
                    assert(kv == g0.classes[k]);
                    assert(gv == g0.classes[z]);
                    assert(g1.terms == g0.terms);
                    assert(g1.table == g0.table);
                    assert(g1 == g0.merged(k, z));
                }
            },
            _ => {
                assert(false);
            },
        }
        Some(keep)
    }

    /// Replaces every child of `ty` by the root of its class.
    fn canonalize(&mut self, ty: &Node) -> (r: Node)
        requires
            old(self).wf(),
            children_below(ty@, old(self)@.len()),
        ensures
            final(self).wf(),
            final(self)@ == old(self)@,
            r@ == canon(old(self)@.root, ty@),
            children_below(r@, old(self)@.len()),
    {
        let ghost g0 = self@;
        let mut children: Vec<HirId> = Vec::new();
        let mut i: usize = 0;
        while i < ty.children.len()
            invariant
                self.wf(),
                self@ == g0,
                i <= ty.children@.len(),
                children@.len() == i,
                children_below(ty@, g0.len()),
                forall|k: int| 0 <= k < i ==> (#[trigger] children@[k]).0 == g0.root[ty.children@[k].0 as int],
            decreases ty.children@.len() - i,
        {
            proof {
                assert(ty@.1[i as int] == ty.children@[i as int].0);
            }
            let c = self.find(ty.children[i]);
            children.push(c);
            i += 1;
        }
        let r = Node { op: ty.op, children };
        proof {
            assert(r@.1 =~= canon(g0.root, ty@).1);
            assert forall|k: int| 0 <= k < r@.1.len() implies (#[trigger] r@.1[k] as int) < g0.len() by {
                let _ = ty@.1[k];
                let _ = g0.root[ty@.1[k] as int];
            }
        }
        r
    }

    /// Stores `ty` under a fresh handle, in a class of its own.
    fn new_id(&mut self, ty: Node) -> (r: HirId)
        requires
            old(self).wf(),
            !old(self)@.table.contains_key(ty@),
            children_below(ty@, old(self)@.len()),
            old(self)@.len() < usize::MAX,
        ensures
            final(self).wf(),
            final(self)@ == old(self)@.added(ty@),
            r.0 == old(self)@.len(),
    {
        let ghost g0 = self@;
        let next_id = HirId(self.ty_map.len());
        self.id_map.insert(&ty, next_id.0);
        self.ty_map.push(ty);
        self.qspace.insert(next_id.0, HirClass::singleton(next_id));
        let ghost before = self.parent@;
        self.parent.push(next_id);
        proof {
            let n = g0.len();
            self.root@ = self.root@.push(next_id.0);
            self.dist@ = self.dist@.push(0);
            let g1 = self@;
            assert(g1.terms =~= g0.terms.push(ty@));
            assert(g1 == g0.added(ty@));
            assert forall|i: int| 0 <= i < n + 1 implies {
                let p = (#[trigger] self.parent@[i]).0 as int;
                &&& 0 <= p < n + 1
                &&& self.root@[p] == self.root@[i]
                &&& (p == i <==> self.root@[i] == i)
                &&& p != i ==> self.dist@[p] < self.dist@[i]
            } by {
                if i < n {
                    let _ = before[i];
                }
            }
            assert forall|i: int| 0 <= i < n + 1 implies (#[trigger] g1.root[i] as int) < n + 1
                && g1.root[g1.root[i] as int] == g1.root[i] by {
                if i < n {
                    let _ = g0.root[i];
                }
            }
            assert forall|i: int| 0 <= i < n + 1 implies g1.table.contains_key(#[trigger] g1.terms[i])
                && g1.table[g1.terms[i]] == i && children_below(g1.terms[i], n + 1) by {
                if i < n {
                    let _ = g0.terms[i];
                    assert(children_below(g0.terms[i], n));
                }
            }
            assert forall|t: Term| #[trigger] g1.table.contains_key(t) implies (g1.table[t] as int) < n + 1
                && g1.terms[g1.table[t] as int] == t by {
                if t != ty@ {
                    assert(g0.table.contains_key(t));
                }
            }
            assert forall|r: usize, x: usize| g1.classes.contains_key(r) implies (
            #[trigger] g1.classes[r].contains(x) <==> ((x as int) < n + 1 && g1.root[x as int] == r)) by {
                if r as int == n {
                    if g1.classes[r].contains(x) {
                        assert(g1.classes[r][0] == n);
                    }
                    if (x as int) < n {
                        let _ = g0.root[x as int];
                    }
                    if x as int == n {
                        assert(g1.classes[r][0] == x);
                    }
                } else {
                    assert(g0.classes[r].contains(x) <==> ((x as int) < n && g0.root[x as int] == r));
                }
            }
            assert forall|r: usize| #[trigger] g1.classes.contains_key(r) <==> ((r as int) < n + 1
                && g1.root[r as int] == r) by {
                if (r as int) < n {
                    let _ = g0.root[r as int];
                }
            }
        }
        next_id
    }

    /// Inserts `ty` and returns the handle of its class: the root of the class
    /// that already owns its canonical form, or a fresh handle.
    pub fn insert(&mut self, ty: Node) -> (r: HirId)
        requires
            old(self).wf(),
            children_below(ty@, old(self)@.len()),
            old(self)@.len() < usize::MAX,
        ensures
            final(self).wf(),
            old(self)@.insert_result(ty@, final(self)@, r.0),
            old(self)@.extended_by(final(self)@),
            (r.0 as int) < final(self)@.len(),
            final(self)@.find(r.0) == r.0,
    {
        let ty = self.canonalize(&ty);
        match self.id_map.get(&ty) {
            Some(cur_id) => self.find(HirId(cur_id)),
            None => self.new_id(ty),
        }
    }

    /// Restores congruence closure: merges every two classes whose terms agree
    /// once canonicalized, re-keying each stored term to its canonical form,
    /// until a whole pass merges nothing. Congruence merges keep the root of
    /// the handle that already owns the canonical form.
    pub fn rebuild(&mut self)
        requires
            old(self).wf(),
        ensures
            final(self).wf(),
            final(self)@.len() == old(self)@.len(),
            final(self)@.closed(),
            final(self)@.table.dom().len() == final(self)@.terms.len(),
            old(self)@.coarsened_by(final(self)@),
            forall|rt: Seq<usize>| old(self)@.closes(rt) ==> #[trigger] final(self)@.refines(rt),
            old(self)@.same_terms(final(self)@),
    {
        let ghost g0 = self@;
        let n = self.ty_map.len();
        loop
            invariant
                self.wf(),
                self@.len() == n,
                n == g0.len(),
                g0.wf(),
                g0.coarsened_by(self@),
                forall|rt: Seq<usize>| g0.closes(rt) ==> #[trigger] self@.refines(rt),
                g0.same_terms(self@),
            ensures
                self.wf(),
                self@.len() == n,
                self@.closed(),
                g0.coarsened_by(self@),
                forall|rt: Seq<usize>| g0.closes(rt) ==> #[trigger] self@.refines(rt),
                g0.same_terms(self@),
            decreases self@.classes.dom().len(),
        {
            let ghost start = self@.classes.dom().len();
            let ghost t0 = self@;
            let mut cong = true;
            let entries = self.id_map.entries();
            proof {
                assert forall|k: int| 0 <= k < entries@.len() implies (#[trigger] entries@[k]).1 < n
                    && t0.terms[entries@[k].1 as int] == entries@[k].0@ by {
                    assert(t0.table.contains_key(entries@[k].0@));
                }
                assert forall|k: int, l: int|
                    0 <= k < entries@.len() && 0 <= l < entries@.len() && k != l implies (#[trigger] entries@[k]).1
                        != (#[trigger] entries@[l]).1 by {
                    assert(t0.table.contains_key(entries@[k].0@));
                    assert(t0.table.contains_key(entries@[l].0@));
                }
                assert forall|i: int| 0 <= i < n implies #[trigger] lists_handle(entries@, i) by {
                    assert(t0.table.contains_key(t0.terms[i]));
                    let k = choose|k: int| 0 <= k < entries@.len() && entries@[k].0@ == t0.terms[i];
                    assert(t0.table.contains_key(entries@[k].0@));
                    assert(entries@[k].1 == i);
                }
            }
            let mut idx: usize = 0;
            while idx < entries.len()
                invariant
                    self.wf(),
                    self@.len() == n,
                    n == g0.len(),
                    g0.wf(),
                    g0.coarsened_by(self@),
                    forall|rt: Seq<usize>| g0.closes(rt) ==> #[trigger] self@.refines(rt),
                    g0.same_terms(self@),
                    idx <= entries@.len(),
                    forall|k: int| 0 <= k < entries@.len() ==> (#[trigger] entries@[k]).1 < n,
                    forall|k: int, l: int|
                        0 <= k < entries@.len() && 0 <= l < entries@.len() && k != l ==> (#[trigger] entries@[k]).1
                            != (#[trigger] entries@[l]).1,
                    forall|i: int| 0 <= i < n ==> #[trigger] lists_handle(entries@, i),
                    forall|k: int| idx <= k < entries@.len() ==> self@.terms[(#[trigger] entries@[k]).1 as int] == entries@[k].0@,
                    self@.classes.dom().len() <= start,
                    !cong ==> self@.classes.dom().len() < start,
                    cong ==> forall|k: int| 0 <= k < idx ==> self@.settled((#[trigger] entries@[k]).1 as int),
                decreases entries@.len() - idx,
            {
                let ghost g1 = self@;
                let id = entries[idx].1;
                let expr = &entries[idx].0;
                proof {
                    assert(expr@ == g1.terms[id as int]);
                    assert(children_below(g1.terms[id as int], n as nat));
                }
                let cexpr = self.canonalize(expr);
                match self.id_map.get(&cexpr) {
                    Some(cid) => {
                        let merged = self.union(HirId(cid), HirId(id), true);
                        if merged.is_some() {
                            cong = false;
                        } else {
                            proof {
                                assert(self@ == g1);
                                assert(g1.root[cid as int] == g1.root[id as int]);
                                assert(self@.settled(id as int));
                                if cong {
                                    assert forall|k: int| 0 <= k < idx + 1 implies self@.settled(
                                        (#[trigger] entries@[k]).1 as int,
                                    ) by {
                                        if k < idx {
                                            assert(g1.settled(entries@[k].1 as int));
                                        }
                                    }
                                }
                            }
                        }
                        proof {
                            let g2 = self@;
                            assert(g1.coarsened_by(g2));
                            assert(g1.terms[cid as int] == cexpr@);
                            assert forall|rt: Seq<usize>| g0.closes(rt) implies #[trigger] g2.refines(rt) by {
                                assert(g1.refines(rt));
                                g0.lemma_same_terms_canon(g1, rt, cid as int);
                                g0.lemma_same_terms_canon(g1, rt, id as int);
                                g1.lemma_canon_labels(rt, g1.terms[id as int]);
                                assert(rt[cid as int] == rt[id as int]);
                                assert forall|i: int, j: int|
                                    0 <= i < g2.len() && 0 <= j < g2.len() && #[trigger] g2.root[i] == #[trigger] g2.root[j]
                                        implies rt[i] == rt[j] by {
                                    let ra = g1.root[cid as int];
                                    let rb = g1.root[id as int];
                                    if g1.root[i] == ra {
                                        assert(rt[i] == rt[cid as int]);
                                    }
                                    if g1.root[i] == rb {
                                        assert(rt[i] == rt[id as int]);
                                    }
                                    if g1.root[j] == ra {
                                        assert(rt[j] == rt[cid as int]);
                                    }
                                    if g1.root[j] == rb {
                                        assert(rt[j] == rt[id as int]);
                                    }
                                }
                            }
                            assert forall|i: int, k: int|
                                0 <= i < g0.len() && 0 <= k < g0.terms[i].1.len() implies g2.root[(#[trigger] g2.terms[i].1[k]) as int]
                                    == g2.root[g0.terms[i].1[k] as int] by {
                                assert(children_below(g0.terms[i], g0.len()));
                                assert(children_below(g1.terms[i], g1.len()));
                                assert(g1.root[g1.terms[i].1[k] as int] == g1.root[g0.terms[i].1[k] as int]);
                            }
                            assert(g1.coarsened_by(self@));
                            assert forall|i: int, j: int|
                                0 <= i < g0.len() && 0 <= j < g0.len() && #[trigger] g0.root[i] == #[trigger] g0.root[j]
                                    implies self@.root[i] == self@.root[j] by {
                                assert(g1.root[i] == g1.root[j]);
                            }
                        }
                    },
                    None => {
                        self.id_map.insert(&cexpr, id);
                        self.id_map.remove(expr);
                        self.ty_map.set(id, cexpr);
                        proof {
                            assert(self@.terms =~= g1.terms.update(id as int, canon(g1.root, g1.terms[id as int])));
                            self.lemma_rekeyed(g1, id as int);
                            if cong {
                                assert forall|k: int| 0 <= k < idx + 1 implies self@.settled(
                                    (#[trigger] entries@[k]).1 as int,
                                ) by {
                                    if k < idx {
                                        assert(g1.settled(entries@[k].1 as int));
                                        assert(entries@[k].1 != id);
                                    }
                                }
                            }
                            assert forall|k: int| idx + 1 <= k < entries@.len() implies self@.terms[(#[trigger] entries@[k]).1 as int]
                                == entries@[k].0@ by {
                                assert(entries@[k].1 != entries@[idx as int].1);
                            }
                            let g2 = self@;
                            assert(g2.root == g1.root);
                            assert forall|rt: Seq<usize>| g0.closes(rt) implies #[trigger] g2.refines(rt) by {
                                assert(g1.refines(rt));
                            }
                            assert forall|i: int, k: int|
                                0 <= i < g0.len() && 0 <= k < g0.terms[i].1.len() implies g2.root[(#[trigger] g2.terms[i].1[k]) as int]
                                    == g2.root[g0.terms[i].1[k] as int] by {
                                assert(children_below(g1.terms[i], g1.len()));
                                assert(g1.root[g1.terms[i].1[k] as int] == g1.root[g0.terms[i].1[k] as int]);
                                if i == id as int {
                                    let x = g1.terms[i].1[k] as int;
                                    assert(g2.terms[i].1[k] == g1.root[x]);
                                    assert(g1.root[g1.root[x] as int] == g1.root[x]);
                                }
                            }
                        }
                    },
                }
                idx += 1;
            }
            if cong {
                proof {
                    let g = self@;
                    assert forall|i: int| 0 <= i < g.len() implies #[trigger] g.settled(i) by {
                        assert(lists_handle(entries@, i));
                        let k = choose|k: int| 0 <= k < entries@.len() && (#[trigger] entries@[k]).1 == i;
                        assert(g.settled(entries@[k].1 as int));
                    }
                    assert forall|i: int, j: int|
                        0 <= i < g.len() && 0 <= j < g.len() && #[trigger] canon(g.root, g.terms[i])
                            == #[trigger] canon(g.root, g.terms[j]) implies g.root[i] == g.root[j] by {
                        assert(g.settled(i));
                        assert(g.settled(j));
                    }
                }
                break;
            }
        }
    }

    /// After the term of `id` in `g1` is replaced by its canonical form, which
    /// the table lacked, and re-keyed in the table, the graph is still well
    /// formed, every other handle settled before stays settled, and `id` is
    /// settled.
    proof fn lemma_rekeyed(&self, g1: GraphView, id: int)
        requires
            g1.wf(),
            0 <= id < g1.len(),
            !g1.table.contains_key(canon(g1.root, g1.terms[id])),
            self@.terms == g1.terms.update(id, canon(g1.root, g1.terms[id])),
            self@.table == g1.table.insert(canon(g1.root, g1.terms[id]), id as usize).remove(g1.terms[id]),
            self@.root == g1.root,
            self@.classes == g1.classes,
            self.forest_wf(),
        ensures
            self.wf(),
            forall|k: int| 0 <= k < g1.len() && k != id && g1.settled(k) ==> #[trigger] self@.settled(k),
            self@.settled(id),
    {
        let g = self@;
        let n = g1.len();
        let e = g1.terms[id];
        let c = canon(g1.root, e);
        assert(children_below(e, n));
        g1.lemma_canon_idem(e);
        assert(c != e);
        assert forall|i: int| 0 <= i < n implies g.table.contains_key(#[trigger] g.terms[i]) && g.table[g.terms[i]]
            == i && children_below(g.terms[i], n) by {
            if i != id {
                let _ = g1.terms[i];
                assert(g1.table[g1.terms[i]] == i);
            } else {
                assert forall|k: int| 0 <= k < c.1.len() implies (#[trigger] c.1[k] as int) < n by {
                    let _ = e.1[k];
                    let _ = g1.root[e.1[k] as int];
                }
            }
        }
        assert forall|t: Term| #[trigger] g.table.contains_key(t) implies (g.table[t] as int) < n
            && g.terms[g.table[t] as int] == t by {
            if t != c {
                assert(g1.table.contains_key(t));
                assert(g1.terms[g1.table[t] as int] == t);
            }
        }
        assert(g1.table.dom().insert(c).remove(e).len() == n);
        assert(g.table.dom() =~= g1.table.dom().insert(c).remove(e));
        assert forall|k: int| 0 <= k < n && k != id && g1.settled(k) implies #[trigger] g.settled(k) by {
            let ck = canon(g1.root, g1.terms[k]);
            assert(children_below(g1.terms[k], n));
            g1.lemma_canon_idem(g1.terms[k]);
            assert(ck != e);
        }
        assert(g.terms[id] == c);
    }

    /// Stores `expr` bottom-up: each argument first, then the term over the
    /// handles of the arguments. Nothing is returned once the arena holds
    /// `usize::MAX` handles.
    pub fn lower_expr(&mut self, expr: &Expr) -> (r: Option<HirId>)
        requires
            old(self).wf(),
        ensures
            final(self).wf(),
            old(self)@.extended_by(final(self)@),
            match r {
                Some(h) => (h.0 as int) < final(self)@.len() && final(self)@.find(h.0) == h.0 && final(self)@.denotes(
                    h.0,
                    *expr,
                ),
                None => final(self)@.len() == usize::MAX,
            },
        decreases expr,
    {
        let mut children: Vec<HirId> = Vec::new();
        let mut i: usize = 0;
        while i < expr.args.len()
            invariant
                self.wf(),
                old(self)@.extended_by(self@),
                children@.len() == i,
                i <= expr.args@.len(),
                forall|k: int| 0 <= k < i ==> (#[trigger] children@[k].0 as int) < self@.len(),
                forall|k: int| 0 <= k < i ==> self@.find(#[trigger] children@[k].0) == children@[k].0,
                forall|k: int| 0 <= k < i ==> self@.denotes(#[trigger] children@[k].0, expr.args@[k]),
            decreases expr.args@.len() - i,
        {
            let ghost g1 = self@;
            let ghost cs = children@;
            match self.lower_expr(&expr.args[i]) {
                Some(c) => {
                    children.push(c);
                    proof {
                        assert forall|k: int| 0 <= k < i implies self@.denotes(#[trigger] children@[k].0, expr.args@[k])
                            && self@.find(children@[k].0) == children@[k].0 by {
                            assert(children@[k] == cs[k]);
                            g1.lemma_denotes_extended(self@, cs[k].0, expr.args@[k]);
                        }
                    }
                },
                None => {
                    proof {
                        GraphView::lemma_extended_trans(old(self)@, g1, self@);
                    }
                    return None;
                },
            }
            proof {
                GraphView::lemma_extended_trans(old(self)@, g1, self@);
            }
            i += 1;
        }
        if self.ty_map.len() == usize::MAX {
            return None;
        }
        let ghost g1 = self@;
        let node = Node { op: expr.op, children };
        proof {
            assert forall|k: int| 0 <= k < node@.1.len() implies (#[trigger] node@.1[k] as int) < g1.len() by {
                let _ = children@[k];
            }
        }
        let ghost cv = node@;
        let h = self.insert(node);
        proof {
            GraphView::lemma_extended_trans(old(self)@, g1, self@);
            let g2 = self@;
            assert(canon(g1.root, cv).1 =~= cv.1);
            assert(g2.table.contains_key(cv));
            assert forall|k: int| 0 <= k < cv.1.len() implies g2.denotes(cv.1[k], #[trigger] expr.args@[k]) by {
                g1.lemma_denotes_extended(g2, children@[k].0, expr.args@[k]);
            }
            assert(g2.denotes(h.0, *expr));
        }
        Some(h)
    }

    /// Stores a value of a user's expression type, as [`Graph::lower_expr`] does.
    pub fn lower<T: Type>(&mut self, expr: T) -> (r: Option<HirId>)
        requires
            old(self).wf(),
        ensures
            final(self).wf(),
            old(self)@.extended_by(final(self)@),
            match r {
                Some(h) => (h.0 as int) < final(self)@.len() && final(self)@.find(h.0) == h.0,
                None => final(self)@.len() == usize::MAX,
            },
    {
        let e = expr.into_ty();
        self.lower_expr(&e)
    }

    /// Rebuilds the stored term of `cur_id` as an expression, following child
    /// links at most `fuel` deep.
    fn inst_rec(&self, cur_id: HirId, fuel: usize) -> (r: Option<Expr>)
        requires
            self.wf(),
            (cur_id.0 as int) < self@.len(),
        ensures
            r.is_some() <==> !self@.has_path(cur_id.0, fuel as nat),
            match r {
                Some(e) => self@.spells(cur_id.0, e),
                None => true,
            },
        decreases fuel,
    {
        if fuel == 0 {
            return None;
        }
        let ghost g = self@;
        let node = &self.ty_map[cur_id.0];
        proof {
            assert(node@ == g.terms[cur_id.0 as int]);
            assert(children_below(node@, g.len()));
        }
        let mut args: Vec<Expr> = Vec::new();
        let mut i: usize = 0;
        while i < node.children.len()
            invariant
                self.wf(),
                self@ == g,
                node@ == g.terms[cur_id.0 as int],
                children_below(node@, g.len()),
                fuel > 0,
                args@.len() == i,
                i <= node.children@.len(),
                forall|k: int| 0 <= k < i ==> g.spells(node@.1[k], #[trigger] args@[k]),
                forall|k: int| 0 <= k < i ==> !g.has_path(#[trigger] node@.1[k], (fuel - 1) as nat),
            decreases node.children@.len() - i,
        {
            proof {
                assert(node@.1[i as int] == node.children@[i as int].0);
                assert((node@.1[i as int] as int) < g.len());
            }
            match self.inst_rec(node.children[i], fuel - 1) {
                Some(a) => args.push(a),
                None => {
                    proof {
                        assert(g.has_path(node@.1[i as int], (fuel - 1) as nat));
                    }
                    return None;
                },
            }
            i += 1;
        }
        let e = Expr { op: node.op, args };
        proof {
            assert(e.args@ == args@);
            assert forall|k: int| 0 <= k < e.args@.len() implies g.spells(g.terms[cur_id.0 as int].1[k], #[trigger] e.args@[k]) by {}
            assert(!g.has_path(cur_id.0, fuel as nat));
        }
        Some(e)
    }

    /// Rebuilds the stored term of `cur_id` as an expression tree. Nothing is
    /// returned when the child links from `cur_id` run into a cycle, that is
    /// when some path of as many steps as there are handles leaves it.
    pub fn inst_expr(&self, cur_id: HirId) -> (r: Option<Expr>)
        requires
            self.wf(),
            (cur_id.0 as int) < self@.len(),
        ensures
            r.is_some() <==> !self@.has_path(cur_id.0, self@.len()),
            match r {
                Some(e) => self@.spells(cur_id.0, e),
                None => true,
            },
    {
        self.inst_rec(cur_id, self.ty_map.len())
    }

    /// Rebuilds the stored term of `cur_id` as a value of a user's expression
    /// type, as [`Graph::inst_expr`] does.
    pub fn inst<T: Type>(&self, cur_id: HirId) -> (r: Option<T>)
        requires
            self.wf(),
            (cur_id.0 as int) < self@.len(),
        ensures
            r.is_some() <==> !self@.has_path(cur_id.0, self@.len()),
    {
        match self.inst_expr(cur_id) {
            Some(e) => Some(T::from_ty(e)),
            None => None,
        }
    }

    /// Finds the root of the class of `cur_id` without changing the forest.
    pub fn search(&self, cur_id: HirId) -> (r: HirId)
        requires
            self.wf(),
            (cur_id.0 as int) < self@.len(),
        ensures
            r.0 == self@.find(cur_id.0),
    {
        let mut cur = cur_id;
        while self.parent[cur.0] != cur
            invariant
                self.wf(),
                (cur.0 as int) < self@.len(),
                self.root@[cur.0 as int] == self.root@[cur_id.0 as int],
            decreases self.dist@[cur.0 as int],
        {
            cur = self.parent[cur.0];
        }
        proof {
            let _ = self.parent@[cur.0 as int];
        }
        cur
    }

    /// The class whose root is `id`, if `id` is a root.
    pub fn class(&self, id: HirId) -> (r: Option<&HirClass>)
        requires
            self.wf(),
        ensures
            match r {
                Some(c) => self@.classes.contains_key(id.0) && c@ == self@.classes[id.0],
                None => !self@.classes.contains_key(id.0),
            },
            r.is_some() <==> ((id.0 as int) < self@.len() && self@.find(id.0) == id.0),
    {
        self.qspace.get(id.0)
    }

    /// Whether `t1` and `t2` are equivalent: inserts both, then compares the
    /// roots of their classes.
    pub fn is_equivalent(&mut self, t1: Node, t2: Node) -> (r: bool)
        requires
            old(self).wf(),
            children_below(t1@, old(self)@.len()),
            children_below(t2@, old(self)@.len()),
            old(self)@.len() + 1 < usize::MAX,
        ensures
            final(self).wf(),
            old(self)@.extended_by(final(self)@),
            r == ({
                let g = old(self)@;
                let c1 = canon(g.root, t1@);
                let c2 = canon(g.root, t2@);
                c1 == c2 || (g.table.contains_key(c1) && g.table.contains_key(c2) && g.root[g.table[c1] as int]
                    == g.root[g.table[c2] as int])
            }),
    {
        let ghost g = self@;
        let ghost v2 = t2@;
        let h1 = self.insert(t1);
        let ghost g1 = self@;
        proof {
            assert forall|k: int| 0 <= k < v2.1.len() implies (#[trigger] v2.1[k] as int) < g1.len() by {}
            assert forall|k: int| 0 <= k < v2.1.len() implies #[trigger] g1.root[v2.1[k] as int] == g.root[v2.1[k] as int] by {
                assert((v2.1[k] as int) < g.len());
            }
            assert(canon(g1.root, v2).1 =~= canon(g.root, v2).1);
        }
        let h2 = self.insert(t2);
        let r1 = self.find(h1);
        let r2 = self.find(h2);
        proof {
            GraphView::lemma_extended_trans(g, g1, self@);
            let c1 = canon(g.root, t1@);
            let c2 = canon(g.root, v2);
            if !g.table.contains_key(c1) && c1 != c2 {
                assert(h1.0 == g.len());
                if g.table.contains_key(c2) {
                    assert((g.table[c2] as int) < g.len());
                    let _ = g.root[g.table[c2] as int];
                    assert(g1.table[c2] == g.table[c2]);
                }
            }
            if g.table.contains_key(c1) && !g.table.contains_key(c2) {
                let _ = g.root[g.table[c1] as int];
                assert(h2.0 == g1.len());
            }
        }
        r1 == r2
    }

    /// The number of entries of the hashcons table.
    pub fn hashcons_len(&self) -> (r: usize)
        requires
            self.wf(),
        ensures
            r == self@.table.dom().len(),
            r == self@.len(),
    {
        self.id_map.len()
    }
}


impl Default for Graph {
    /// An empty graph, as [`Graph::new`] makes.
    fn default() -> (r: Graph)
        ensures
            r.wf(),
            r@ == GraphView::empty(),
    {
        Graph::new()
    }
}

} // verus!
