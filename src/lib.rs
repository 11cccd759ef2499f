//! An equivalence graph: hashconsed terms over dense handles, a union-find
//! forest over those handles, the classes it induces, and the congruence
//! closure that keeps them consistent.

pub mod graph;
pub mod ids;
pub mod laws;
pub mod table;
pub mod ty;
pub mod view;

pub use graph::Graph;
pub use view::GraphView;
pub use ids::{HirClass, HirId, Node};
pub use ty::{Expr, Type};
