//! The mathematical model of a graph: its stored terms, hashcons table,
//! roots and classes as sequences and maps, the invariant that ties them
//! together, and what each operation does to them.

use crate::ids::HirId;
use crate::ty::Expr;
use vstd::prelude::*;

verus! {

/// The plain value of a term: its operator and the indices of its children.
pub type Term = (u64, Seq<usize>);

/// What a graph holds, as mathematical values.
pub ghost struct GraphView {
    /// The arena: the stored term of each handle.
    pub terms: Seq<Term>,
    /// The hashcons table: the handle that owns each stored term.
    pub table: Map<Term, usize>,
    /// The root of each handle's class.
    pub root: Seq<usize>,
    /// The members of the class of each root.
    pub classes: Map<usize, Seq<usize>>,
}

/// Every child of `t` is a handle below `n`.
pub open spec fn children_below(t: Term, n: nat) -> bool {
    forall|k: int| 0 <= k < t.1.len() ==> (#[trigger] t.1[k] as int) < n
}

/// `t` with each child replaced by the root of its class.
pub open spec fn canon(root: Seq<usize>, t: Term) -> Term {
    (t.0, t.1.map_values(|c: usize| root[c as int]))
}

impl GraphView {
    /// The graph with no handle.
    pub open spec fn empty() -> GraphView {
        GraphView { terms: Seq::empty(), table: Map::empty(), root: Seq::empty(), classes: Map::empty() }
    }

    /// The number of handles.
    pub open spec fn len(self) -> nat {
        self.terms.len()
    }

    /// The root of the class of `h`.
    pub open spec fn find(self, h: usize) -> usize {
        self.root[h as int]
    }

    /// `a` and `b` are in one class.
    pub open spec fn same_class(self, a: usize, b: usize) -> bool {
        self.root[a as int] == self.root[b as int]
    }

    /// The roots form a valid partition of the handles.
    pub open spec fn roots_wf(self) -> bool {
        &&& self.root.len() == self.terms.len()
        &&& forall|i: int|
            0 <= i < self.len() ==> (#[trigger] self.root[i] as int) < self.len() && self.root[self.root[i] as int] == self.root[i]
    }

    /// The hashcons table holds exactly the stored terms, each under its own handle.
    pub open spec fn table_wf(self) -> bool {
        &&& forall|i: int|
            0 <= i < self.len() ==> self.table.contains_key(#[trigger] self.terms[i]) && self.table[self.terms[i]] == i
        &&& forall|t: Term|
            #[trigger] self.table.contains_key(t) ==> (self.table[t] as int) < self.len() && self.terms[self.table[t] as int] == t
        &&& forall|i: int| 0 <= i < self.len() ==> children_below(#[trigger] self.terms[i], self.len())
        &&& self.table.dom().finite()
        &&& self.table.dom().len() == self.len()
    }

    /// The registry holds one class per root, made of the handles under that root.
    pub open spec fn classes_wf(self) -> bool {
        &&& forall|r: usize| #[trigger]
            self.classes.contains_key(r) <==> ((r as int) < self.len() && self.root[r as int] == r)
        &&& forall|r: usize| #[trigger] self.classes.contains_key(r) ==> self.classes[r].no_duplicates()
        &&& forall|r: usize, x: usize|
            self.classes.contains_key(r) ==> (#[trigger] self.classes[r].contains(x) <==> ((x as int) < self.len()
                && self.root[x as int] == r))
        &&& self.classes.dom().finite()
    }

    /// The invariant of a graph between operations.
    pub open spec fn wf(self) -> bool {
        &&& self.roots_wf()
        &&& self.table_wf()
        &&& self.classes_wf()
    }

    /// Congruence closure: handles whose terms agree once canonicalized are in one class.
    pub open spec fn closed(self) -> bool {
        forall|i: int, j: int|
            0 <= i < self.len() && 0 <= j < self.len() && #[trigger] canon(self.root, self.terms[i])
                == #[trigger] canon(self.root, self.terms[j]) ==> self.root[i] == self.root[j]
    }

    /// Every class of `self` lies inside one class of `other`.
    pub open spec fn coarsened_by(self, other: GraphView) -> bool {
        forall|i: int, j: int|
            0 <= i < self.len() && 0 <= j < self.len() && #[trigger] self.root[i] == #[trigger] self.root[j]
                ==> other.root[i] == other.root[j]
    }

    /// `self` with the term `c` stored under a new handle, alone in its class.
    pub open spec fn added(self, c: Term) -> GraphView {
        let n = self.len() as usize;
        GraphView {
            terms: self.terms.push(c),
            table: self.table.insert(c, n),
            root: self.root.push(n),
            classes: self.classes.insert(n, seq![n]),
        }
    }

    /// `self` after the class of root `gone` is merged into that of root `keep`.
    pub open spec fn merged(self, keep: usize, gone: usize) -> GraphView {
        GraphView {
            terms: self.terms,
            table: self.table,
            root: self.root.map_values(|x: usize| if x == gone { keep } else { x }),
            classes: self.classes.remove(gone).insert(keep, self.classes[keep] + self.classes[gone]),
        }
    }

    /// The root that survives `union(a, b, cong)`, when the roots of `a` and `b` differ.
    pub open spec fn survivor(self, a: usize, b: usize, cong: bool) -> usize {
        let ra = self.find(a);
        let rb = self.find(b);
        if !cong && self.classes[ra].len() < self.classes[rb].len() {
            rb
        } else {
            ra
        }
    }

    /// What `union(a, b, cong)` turns `self` into, and what it returns.
    pub open spec fn union_result(self, a: usize, b: usize, cong: bool, post: GraphView, r: Option<HirId>) -> bool {
        let ra = self.find(a);
        let rb = self.find(b);
        if ra == rb {
            r.is_none() && post == self
        } else {
            let keep = self.survivor(a, b, cong);
            let gone = if keep == ra { rb } else { ra };
            r == Some(HirId(keep)) && post == self.merged(keep, gone)
        }
    }


    /// The canonical form of the term of `k` is in the table, owned by a
    /// handle of the class of `k`.
    pub open spec fn settled(self, k: int) -> bool {
        let c = canon(self.root, self.terms[k]);
        self.table.contains_key(c) && self.root[self.table[c] as int] == self.root[k]
    }

    /// Canonicalizing twice gives what canonicalizing once gives.
    pub proof fn lemma_canon_idem(self, t: Term)
        requires
            self.roots_wf(),
            children_below(t, self.len()),
        ensures
            canon(self.root, canon(self.root, t)) == canon(self.root, t),
            children_below(canon(self.root, t), self.len()),
    {
        let c = canon(self.root, t);
        assert forall|k: int| 0 <= k < t.1.len() implies #[trigger] self.root[c.1[k] as int] == c.1[k]
            && (c.1[k] as int) < self.len() by {
            let _ = t.1[k];
            let _ = self.root[t.1[k] as int];
        }
        assert(canon(self.root, c).1 =~= c.1);
    }


    /// `other` keeps every handle, stored term, root and table entry of `self`.
    pub open spec fn extended_by(self, other: GraphView) -> bool {
        &&& self.len() <= other.len()
        &&& forall|i: int| 0 <= i < self.len() ==> other.terms[i] == #[trigger] self.terms[i]
        &&& forall|i: int| 0 <= i < self.len() ==> other.root[i] == #[trigger] self.root[i]
        &&& forall|t: Term| #[trigger] self.table.contains_key(t) ==> other.table.contains_key(t) && other.table[t] == self.table[t]
    }

    /// Following child links from `h`, some path takes `d` steps.
    pub open spec fn has_path(self, h: usize, d: nat) -> bool
        decreases d,
    {
        if d == 0 {
            true
        } else {
            exists|k: int| 0 <= k < self.terms[h as int].1.len() && self.has_path(#[trigger] self.terms[h as int].1[k], (d - 1) as nat)
        }
    }

    /// `e` spells out the stored term of `h`, and recursively those of its children.
    pub open spec fn spells(self, h: usize, e: Expr) -> bool
        decreases e,
    {
        &&& e.op == self.terms[h as int].0
        &&& e.args@.len() == self.terms[h as int].1.len()
        &&& forall|k: int| 0 <= k < e.args@.len() ==> self.spells(self.terms[h as int].1[k], #[trigger] e.args@[k])
    }


    /// Extension is transitive.
    pub proof fn lemma_extended_trans(a: GraphView, b: GraphView, c: GraphView)
        requires
            a.extended_by(b),
            b.extended_by(c),
        ensures
            a.extended_by(c),
    {
        assert forall|t: Term| #[trigger] a.table.contains_key(t) implies c.table.contains_key(t) && c.table[t] == a.table[t] by {
            assert(b.table.contains_key(t));
        }
    }


    /// The class of `h` holds a term with the operator of `e` whose children,
    /// in order, lie in classes that denote the arguments of `e`.
    pub open spec fn denotes(self, h: usize, e: Expr) -> bool
        decreases e,
    {
        exists|cs: Seq<usize>|
            #![trigger self.table.contains_key((e.op, cs))]
            cs.len() == e.args@.len() && (forall|k: int| 0 <= k < cs.len() ==> self.denotes(cs[k], #[trigger] e.args@[k]))
                && self.table.contains_key((e.op, cs)) && self.root[self.table[(e.op, cs)] as int] == self.root[h as int]
    }

    /// What a class denotes stays denoted as the graph is extended.
    pub proof fn lemma_denotes_extended(self, other: GraphView, h: usize, e: Expr)
        requires
            self.extended_by(other),
            self.wf(),
            (h as int) < self.len(),
            self.denotes(h, e),
        ensures
            other.denotes(h, e),
        decreases e,
    {
        let cs = choose|cs: Seq<usize>|
            #![trigger self.table.contains_key((e.op, cs))]
            cs.len() == e.args@.len() && (forall|k: int| 0 <= k < cs.len() ==> self.denotes(cs[k], #[trigger] e.args@[k]))
                && self.table.contains_key((e.op, cs)) && self.root[self.table[(e.op, cs)] as int] == self.root[h as int];
        let t = (e.op, cs);
        assert(children_below(self.terms[self.table[t] as int], self.len()));
        assert forall|k: int| 0 <= k < cs.len() implies other.denotes(cs[k], #[trigger] e.args@[k]) by {
            assert(cs[k] == t.1[k]);
            assert((t.1[k] as int) < self.len());
            self.lemma_denotes_extended(other, cs[k], e.args@[k]);
        }
        assert(other.table.contains_key(t));
        assert(other.root[other.table[t] as int] == other.root[h as int]);
    }


    /// The labelling `rt` of handles joins every two handles of one class of
    /// `self`, and every two handles whose terms agree once each child is
    /// replaced by its label: a congruence-closed coarsening of `self`.
    pub open spec fn closes(self, rt: Seq<usize>) -> bool {
        &&& rt.len() == self.len()
        &&& forall|i: int, j: int|
            0 <= i < self.len() && 0 <= j < self.len() && #[trigger] self.root[i] == #[trigger] self.root[j] ==> rt[i]
                == rt[j]
        &&& forall|i: int, j: int|
            0 <= i < self.len() && 0 <= j < self.len() && #[trigger] canon(rt, self.terms[i]) == #[trigger] canon(
                rt,
                self.terms[j],
            ) ==> rt[i] == rt[j]
    }

    /// Two handles of one class of `self` carry one label of `rt`.
    pub open spec fn refines(self, rt: Seq<usize>) -> bool {
        forall|i: int, j: int|
            0 <= i < self.len() && 0 <= j < self.len() && #[trigger] self.root[i] == #[trigger] self.root[j] ==> rt[i]
                == rt[j]
    }

    /// `other` stores for each handle a term with the same operator as in
    /// `self`, whose children lie, one by one, in the classes of `other` of
    /// the children in `self`.
    pub open spec fn same_terms(self, other: GraphView) -> bool {
        &&& other.len() == self.len()
        &&& forall|i: int|
            0 <= i < self.len() ==> (#[trigger] other.terms[i]).0 == self.terms[i].0 && other.terms[i].1.len()
                == self.terms[i].1.len()
        &&& forall|i: int, k: int|
            0 <= i < self.len() && 0 <= k < self.terms[i].1.len() ==> other.root[(#[trigger] other.terms[i].1[k]) as int]
                == other.root[self.terms[i].1[k] as int]
    }

    /// Under a labelling that `other` refines, a stored term of `other` and
    /// the term of `self` it stands for agree once labelled.
    pub proof fn lemma_same_terms_canon(self, other: GraphView, rt: Seq<usize>, i: int)
        requires
            self.wf(),
            other.wf(),
            self.same_terms(other),
            other.refines(rt),
            rt.len() == self.len(),
            0 <= i < self.len(),
        ensures
            canon(rt, other.terms[i]) == canon(rt, self.terms[i]),
    {
        assert(children_below(self.terms[i], self.len()));
        assert(children_below(other.terms[i], other.len()));
        assert forall|k: int| 0 <= k < self.terms[i].1.len() implies rt[other.terms[i].1[k] as int] == rt[self.terms[i].1[k] as int] by {
            assert(other.root[other.terms[i].1[k] as int] == other.root[self.terms[i].1[k] as int]);
        }
        assert(canon(rt, other.terms[i]).1 =~= canon(rt, self.terms[i]).1);
    }

    /// Under a labelling that `self` refines, canonicalizing a term first
    /// changes nothing once it is labelled.
    pub proof fn lemma_canon_labels(self, rt: Seq<usize>, t: Term)
        requires
            self.wf(),
            self.refines(rt),
            rt.len() == self.len(),
            children_below(t, self.len()),
        ensures
            canon(rt, canon(self.root, t)) == canon(rt, t),
    {
        assert forall|k: int| 0 <= k < t.1.len() implies rt[self.root[t.1[k] as int] as int] == rt[t.1[k] as int] by {
            let x = t.1[k] as int;
            assert(self.root[self.root[x] as int] == self.root[x]);
        }
        assert(canon(rt, canon(self.root, t)).1 =~= canon(rt, t).1);
    }

    /// What `insert(t)` turns `self` into, and what it returns.
    pub open spec fn insert_result(self, t: Term, post: GraphView, h: usize) -> bool {
        let c = canon(self.root, t);
        if self.table.contains_key(c) {
            h == self.root[self.table[c] as int] && post == self
        } else {
            h == self.len() && post == self.added(c)
        }
    }
}

} // verus!
