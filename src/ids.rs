//! Handles, terms over handles, and equivalence classes.

use vstd::prelude::*;

verus! {

/// A handle to one stored term: its index in the graph's arena.
#[derive(Clone, Copy, PartialEq, Eq, Structural, Hash, Debug)]
pub struct HirId(pub usize);

/// A term whose immediate children are handles: an operator tag and the
/// ordered list of child references.
#[derive(Debug)]
pub struct Node {
    pub op: u64,
    pub children: Vec<HirId>,
}

/// The plain value of a term: its operator and the indices of its children.
pub open spec fn node_value(op: u64, children: Seq<HirId>) -> (u64, Seq<usize>) {
    (op, children.map_values(|c: HirId| c.0))
}

impl View for Node {
    type V = (u64, Seq<usize>);

    open spec fn view(&self) -> (u64, Seq<usize>) {
        node_value(self.op, self.children@)
    }
}

impl Node {
    /// Builds the term `op(children...)`.
    pub fn new(op: u64, children: Vec<HirId>) -> (r: Node)
        ensures
            r.op == op,
            r.children == children,
    {
        Node { op, children }
    }
}

/// A class of equivalent terms: the handles that were merged into one root.
#[derive(Debug, Clone, PartialEq, Eq, Hash)]
pub struct HirClass {
    pub(crate) nodes: Vec<HirId>,
}

impl View for HirClass {
    type V = Seq<usize>;

    closed spec fn view(&self) -> Seq<usize> {
        self.nodes@.map_values(|c: HirId| c.0)
    }
}

impl HirClass {
    /// The number of handles in the class.
    pub fn len(&self) -> (r: usize)
        ensures
            r == self@.len(),
    {
        self.nodes.len()
    }

    /// The handle at position `i` of the class.
    pub fn member(&self, i: usize) -> (r: HirId)
        requires
            i < self@.len(),
        ensures
            r.0 == self@[i as int],
    {
        self.nodes[i]
    }

    /// The class that holds `h` alone.
    pub(crate) fn singleton(h: HirId) -> (r: HirClass)
        ensures
            r@ == seq![h.0],
    {
        let r = HirClass { nodes: vec![h] };
        assert(r@ =~= seq![h.0]);
        r
    }

    /// Moves every member of `other` to the end of `self`.
    pub(crate) fn absorb(&mut self, other: HirClass)
        ensures
            final(self)@ == old(self)@ + other@,
    {
        let ghost o = other@;
        let mut other = other;
        self.nodes.append(&mut other.nodes);
        assert(self@ =~= old(self)@ + o);
    }
}

} // verus!
