//! The two hash tables of the graph, both `rustc_hash::FxHashMap`s: the
//! hashcons table from a canonical term to the handle that owns it, and the
//! class registry from a root handle to its members.
//!
//! Each table is opaque to the verifier; what it holds is named by an
//! uninterpreted spec function, and each operation states its effect on it.

use crate::ids::{HirClass, HirId, Node};
use rustc_hash::FxHashMap;
use vstd::prelude::*;

verus! {

/// A hash map from a term, keyed by its plain value, to a handle index.
#[verifier::external_body]
pub struct TermTable {
    map: FxHashMap<(u64, Vec<usize>), usize>,
}

/// The table with no entry.
pub open spec fn no_terms() -> Map<(u64, Seq<usize>), usize> {
    Map::empty()
}

/// The entries of a hashcons table.
pub uninterp spec fn term_entries(t: TermTable) -> Map<(u64, Seq<usize>), usize>;

impl View for TermTable {
    type V = Map<(u64, Seq<usize>), usize>;

    open spec fn view(&self) -> Map<(u64, Seq<usize>), usize> {
        term_entries(*self)
    }
}

impl TermTable {
    /// Relies on `FxHashMap::default`: a new map holds no entry.
    #[verifier::external_body]
    pub(crate) fn new() -> (r: TermTable)
        ensures
            term_entries(r) == no_terms(),
    {
        TermTable { map: FxHashMap::default() }
    }

    /// Relies on `HashMap::get`: the value stored under the key, if any.
    #[verifier::external_body]
    pub(crate) fn get(&self, t: &Node) -> (r: Option<usize>)
        ensures
            match r {
                Some(h) => term_entries(*self).contains_key(t@) && term_entries(*self)[t@] == h,
                None => !term_entries(*self).contains_key(t@),
            },
    {
        let key: (u64, Vec<usize>) = (t.op, t.children.iter().map(|c| c.0).collect());
        self.map.get(&key).copied()
    }

    /// Relies on `HashMap::insert`: the key now maps to `h`, other keys are untouched.
    #[verifier::external_body]
    pub(crate) fn insert(&mut self, t: &Node, h: usize)
        ensures
            term_entries(*final(self)) == term_entries(*old(self)).insert(t@, h),
    {
        let key: (u64, Vec<usize>) = (t.op, t.children.iter().map(|c| c.0).collect());
        self.map.insert(key, h);
    }

    /// Relies on `HashMap::remove`: the key is gone, other keys are untouched.
    #[verifier::external_body]
    pub(crate) fn remove(&mut self, t: &Node)
        ensures
            term_entries(*final(self)) == term_entries(*old(self)).remove(t@),
    {
        let key: (u64, Vec<usize>) = (t.op, t.children.iter().map(|c| c.0).collect());
        self.map.remove(&key);
    }


    /// Relies on `HashMap::iter`: every entry once, in an order the map picks.
    #[verifier::external_body]
    pub(crate) fn entries(&self) -> (r: Vec<(Node, usize)>)
        ensures
            r@.len() == term_entries(*self).dom().len(),
            forall|i: int|
                0 <= i < r@.len() ==> term_entries(*self).contains_key((#[trigger] r@[i]).0@) && term_entries(
                    *self,
                )[r@[i].0@] == r@[i].1,
            forall|i: int, j: int|
                0 <= i < r@.len() && 0 <= j < r@.len() && i != j ==> (#[trigger] r@[i]).0@ != (#[trigger] r@[j]).0@,
            forall|t: (u64, Seq<usize>)|
                #[trigger] term_entries(*self).contains_key(t) ==> exists|i: int| 0 <= i < r@.len() && r@[i].0@ == t,
    {
        self.map.iter().map(|(k, v)| (Node { op: k.0, children: k.1.iter().map(|&c| HirId(c)).collect() }, *v)).collect()
    }

    /// Relies on `HashMap::len`: the number of entries.
    #[verifier::external_body]
    pub(crate) fn len(&self) -> (r: usize)
        ensures
            r == term_entries(*self).dom().len(),
    {
        self.map.len()
    }
}

/// A hash map from a root handle index to the class it stands for.
#[verifier::external_body]
pub struct ClassTable {
    map: FxHashMap<usize, HirClass>,
}

/// The registry with no class.
pub open spec fn no_classes() -> Map<usize, Seq<usize>> {
    Map::empty()
}

/// The entries of a class registry, each class given by its members.
pub uninterp spec fn class_entries(t: ClassTable) -> Map<usize, Seq<usize>>;

impl View for ClassTable {
    type V = Map<usize, Seq<usize>>;

    open spec fn view(&self) -> Map<usize, Seq<usize>> {
        class_entries(*self)
    }
}

impl ClassTable {
    /// Relies on `FxHashMap::default`: a new map holds no entry.
    #[verifier::external_body]
    pub(crate) fn new() -> (r: ClassTable)
        ensures
            class_entries(r) == no_classes(),
    {
        ClassTable { map: FxHashMap::default() }
    }

    /// Relies on `HashMap::get`: the class stored under the key, if any.
    #[verifier::external_body]
    pub(crate) fn get(&self, k: usize) -> (r: Option<&HirClass>)
        ensures
            match r {
                Some(c) => class_entries(*self).contains_key(k) && class_entries(*self)[k] == c@,
                None => !class_entries(*self).contains_key(k),
            },
    {
        self.map.get(&k)
    }

    /// Relies on `HashMap::insert`: the key now maps to `c`, other keys are untouched.
    #[verifier::external_body]
    pub(crate) fn insert(&mut self, k: usize, c: HirClass)
        ensures
            class_entries(*final(self)) == class_entries(*old(self)).insert(k, c@),
    {
        self.map.insert(k, c);
    }

    /// Relies on `HashMap::remove`: the key is gone and its class, if any, is handed back.
    #[verifier::external_body]
    pub(crate) fn remove(&mut self, k: usize) -> (r: Option<HirClass>)
        ensures
            class_entries(*final(self)) == class_entries(*old(self)).remove(k),
            match r {
                Some(c) => class_entries(*old(self)).contains_key(k) && class_entries(*old(self))[k] == c@,
                None => !class_entries(*old(self)).contains_key(k),
            },
    {
        self.map.remove(&k)
    }
}

} // verus!
