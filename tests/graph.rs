use hir_graph::{Expr, Graph, HirId, Node, Type};

fn leaf(g: &mut Graph, op: u64) -> HirId {
    g.insert(Node::new(op, vec![]))
}

#[test]
fn congruence_after_union_and_rebuild() {
    let mut g = Graph::new();
    let a = leaf(&mut g, 1);
    let b = leaf(&mut g, 2);
    let _c = leaf(&mut g, 3);
    let fa = g.insert(Node::new(10, vec![a]));
    let fb = g.insert(Node::new(10, vec![b]));
    assert_ne!(g.find(fa), g.find(fb));
    assert!(g.union(a, b, false).is_some());
    g.rebuild();
    assert_eq!(g.find(fa), g.find(fb));
    assert_eq!(g.hashcons_len(), g.len());
}

#[test]
fn same_leaf_twice_gives_same_handle() {
    let mut g = Graph::new();
    let first = g.insert(Node::new(7, Vec::new()));
    let second = g.insert(Node::new(7, vec![]));
    assert_eq!(first, second);
    assert_eq!(g.len(), 1);
}

#[test]
fn three_step_chain() {
    let mut g = Graph::new();
    let a = leaf(&mut g, 1);
    let b = leaf(&mut g, 2);
    let c = leaf(&mut g, 3);
    g.union(a, b, false);
    let ra = g.find(a);
    g.union(ra, c, false);
    let root = g.find(a);
    assert_eq!(root, g.find(b));
    assert_eq!(root, g.find(c));
    assert_eq!(g.class(root).unwrap().len(), 3);
}

#[test]
fn union_of_one_class_is_none() {
    let mut g = Graph::new();
    let a = leaf(&mut g, 1);
    let b = leaf(&mut g, 2);
    assert_eq!(g.union(a, a, false), None);
    assert!(g.union(a, b, false).is_some());
    assert_eq!(g.union(b, a, false), None);
    assert_eq!(g.union(a, b, true), None);
}

#[test]
fn union_keeps_larger_class() {
    let mut g = Graph::new();
    let a = leaf(&mut g, 1);
    let b = leaf(&mut g, 2);
    let c = leaf(&mut g, 3);
    assert_eq!(g.union(a, b, false), Some(a));
    // the class of `a` has two members, that of `c` one
    assert_eq!(g.union(c, a, false), Some(a));
    assert_eq!(g.class(a).unwrap().len(), 3);
    assert!(g.class(c).is_none());
}

#[test]
fn union_equal_sizes_keeps_first() {
    let mut g = Graph::new();
    let a = leaf(&mut g, 1);
    let b = leaf(&mut g, 2);
    assert_eq!(g.union(b, a, false), Some(b));
    assert_eq!(g.find(a), b);
}

#[test]
fn congruence_union_keeps_first_root() {
    let mut g = Graph::new();
    let a = leaf(&mut g, 1);
    let b = leaf(&mut g, 2);
    let c = leaf(&mut g, 3);
    g.union(a, b, false);
    // class of `a` has two members, but a congruence keeps the first argument
    assert_eq!(g.union(c, a, true), Some(c));
    assert_eq!(g.find(a), c);
    assert_eq!(g.find(b), c);
    assert_eq!(g.class(c).unwrap().len(), 3);
}

#[test]
fn union_sizes_add_up() {
    let mut g = Graph::new();
    let ids: Vec<HirId> = (0..5).map(|i| leaf(&mut g, i)).collect();
    g.union(ids[0], ids[1], false);
    g.union(ids[2], ids[3], false);
    g.union(ids[2], ids[4], false);
    let r = g.union(ids[0], ids[4], false).unwrap();
    assert_eq!(g.class(r).unwrap().len(), 5);
}

#[test]
fn union_direction_gives_same_partition() {
    let build = || {
        let mut g = Graph::new();
        let ids: Vec<HirId> = (0..4).map(|i| leaf(&mut g, i)).collect();
        (g, ids)
    };
    let (mut g1, ids) = build();
    let (mut g2, _) = build();
    g1.union(ids[0], ids[2], false);
    g2.union(ids[2], ids[0], false);
    for &x in &ids {
        for &y in &ids {
            let s1 = g1.find(x) == g1.find(y);
            let s2 = g2.find(x) == g2.find(y);
            assert_eq!(s1, s2);
        }
    }
}

#[test]
fn find_is_idempotent() {
    let mut g = Graph::new();
    let ids: Vec<HirId> = (0..6).map(|i| leaf(&mut g, i)).collect();
    for w in ids.windows(2) {
        g.union(w[0], w[1], true);
    }
    for &h in &ids {
        let r = g.find(h);
        assert_eq!(g.find(r), r);
        assert_eq!(g.search(h), r);
    }
}

#[test]
fn classes_partition_the_handles() {
    let mut g = Graph::new();
    let ids: Vec<HirId> = (0..6).map(|i| leaf(&mut g, i)).collect();
    g.union(ids[0], ids[3], false);
    g.union(ids[1], ids[4], false);
    g.union(ids[4], ids[5], false);
    let mut seen = vec![0usize; g.len()];
    for i in 0..g.len() {
        if let Some(class) = g.class(HirId(i)) {
            for k in 0..class.len() {
                let m = class.member(k);
                seen[m.0] += 1;
                assert_eq!(g.search(m), HirId(i));
            }
        }
    }
    assert!(seen.iter().all(|&n| n == 1));
}

#[test]
fn insert_canonicalizes_children() {
    let mut g = Graph::new();
    let a = leaf(&mut g, 1);
    let b = leaf(&mut g, 2);
    let fa = g.insert(Node::new(10, vec![a]));
    let root = g.union(a, b, false).unwrap();
    assert_eq!(root, a);
    // f(b) now canonicalizes to f(a)
    assert_eq!(g.insert(Node::new(10, vec![b])), fa);
    assert_eq!(g.index(fa).children, vec![a]);
}

#[test]
fn nested_congruence_propagates() {
    let mut g = Graph::new();
    let a = leaf(&mut g, 1);
    let b = leaf(&mut g, 2);
    let fa = g.insert(Node::new(10, vec![a]));
    let fb = g.insert(Node::new(10, vec![b]));
    let gfa = g.insert(Node::new(11, vec![fa, a]));
    let gfb = g.insert(Node::new(11, vec![fb, b]));
    let len = g.len();
    g.union(b, a, false);
    g.rebuild();
    assert_eq!(g.find(gfa), g.find(gfb));
    assert_eq!(g.len(), len);
    assert_eq!(g.hashcons_len(), len);
    // every stored child lies in the class of `a` or in that of `f(a)`
    let r = g.find(a);
    let rf = g.find(fa);
    let stored: Vec<Vec<HirId>> = (0..len).map(|i| g.index(HirId(i)).children.clone()).collect();
    assert!(stored.iter().flatten().all(|&c| g.search(c) == r || g.search(c) == rf));
}

#[test]
fn rebuild_without_unions_changes_nothing() {
    let mut g = Graph::new();
    let a = leaf(&mut g, 1);
    let fa = g.insert(Node::new(10, vec![a]));
    g.rebuild();
    assert_eq!(g.len(), 2);
    assert_ne!(g.find(a), g.find(fa));
    assert_eq!(g.hashcons_len(), 2);
}

#[test]
fn equivalence_query_inserts() {
    let mut g = Graph::new();
    let a = leaf(&mut g, 1);
    let b = leaf(&mut g, 2);
    assert!(!g.is_equivalent(Node::new(10, vec![a]), Node::new(10, vec![b])));
    assert_eq!(g.len(), 4);
    g.union(a, b, false);
    g.rebuild();
    assert!(g.is_equivalent(Node::new(10, vec![a]), Node::new(10, vec![b])));
    assert!(g.is_equivalent(Node::new(3, vec![]), Node::new(3, vec![])));
    assert_eq!(g.len(), 5);
}

#[derive(Debug, PartialEq, Clone)]
enum Arith {
    Num(u64),
    Add(Box<Arith>, Box<Arith>),
}

const ADD: u64 = u64::MAX;

impl Type for Arith {
    fn into_ty(self) -> Expr {
        match self {
            Arith::Num(n) => Expr::leaf(n),
            Arith::Add(l, r) => Expr::new(ADD, vec![l.into_ty(), r.into_ty()]),
        }
    }

    fn from_ty(ty: Expr) -> Self {
        if ty.op == ADD {
            let mut args = ty.args.into_iter();
            let l = Arith::from_ty(args.next().unwrap());
            let r = Arith::from_ty(args.next().unwrap());
            Arith::Add(Box::new(l), Box::new(r))
        } else {
            Arith::Num(ty.op)
        }
    }

    fn is_lit() -> bool {
        false
    }
}

fn add(l: Arith, r: Arith) -> Arith {
    Arith::Add(Box::new(l), Box::new(r))
}

#[test]
fn lower_shares_subterms_and_inst_rebuilds() {
    let mut g = Graph::new();
    let e = add(add(Arith::Num(1), Arith::Num(2)), add(Arith::Num(1), Arith::Num(2)));
    let h = g.lower(e.clone()).unwrap();
    // 1, 2, 1 + 2, and the outer sum
    assert_eq!(g.len(), 4);
    let back: Arith = g.inst(h).unwrap();
    assert_eq!(back, e);
    assert_eq!(g.lower(e.clone()), Some(h));
}

#[test]
fn inst_of_cycle_is_none() {
    let mut g = Graph::new();
    let a = leaf(&mut g, 1);
    let fa = g.insert(Node::new(10, vec![a]));
    g.union(fa, a, false);
    g.rebuild();
    // f(a) is stored as f(f(a)) now: its class contains its own child
    assert_eq!(g.index(fa).children, vec![fa]);
    assert!(g.inst_expr(fa).is_none());
    assert_eq!(g.inst_expr(a).unwrap().op, 1);
}

#[test]
fn handles_are_dense() {
    let mut g = Graph::new();
    for i in 0..10u64 {
        assert_eq!(leaf(&mut g, i), HirId(i as usize));
    }
    assert_eq!(leaf(&mut g, 3), HirId(3));
    assert_eq!(g.len(), 10);
}

#[test]
fn same_compound_term_twice_gives_same_handle() {
    let mut g = Graph::new();
    let a = leaf(&mut g, 1);
    let b = leaf(&mut g, 2);
    let first = g.insert(Node::new(20, vec![a, b]));
    let second = g.insert(Node::new(20, vec![a, b]));
    assert_eq!(first, second);
    assert_eq!(g.len(), 3);
}

#[test]
fn independently_built_terms_share_a_handle() {
    let mut g = Graph::new();
    let e1 = Expr::new(30, vec![Expr::leaf(1), Expr::new(31, vec![Expr::leaf(2)])]);
    let e2 = Expr::new(30, vec![Expr::leaf(1), Expr::new(31, vec![Expr::leaf(2)])]);
    let h1 = g.lower_expr(&e1).unwrap();
    let len = g.len();
    let h2 = g.lower_expr(&e2).unwrap();
    assert_eq!(h1, h2);
    assert_eq!(g.len(), len);
    assert_eq!(len, 4);
}

#[test]
fn different_operators_stay_apart() {
    let mut g = Graph::new();
    let a = leaf(&mut g, 1);
    let f = g.insert(Node::new(10, vec![a]));
    let h = g.insert(Node::new(11, vec![a]));
    assert_ne!(f, h);
    g.rebuild();
    assert_ne!(g.find(f), g.find(h));
}

#[test]
fn rebuild_merges_only_what_congruence_forces() {
    let mut g = Graph::new();
    let a = leaf(&mut g, 1);
    let b = leaf(&mut g, 2);
    let c = leaf(&mut g, 3);
    let fa = g.insert(Node::new(10, vec![a]));
    let fb = g.insert(Node::new(10, vec![b]));
    let fc = g.insert(Node::new(10, vec![c]));
    g.union(a, b, false);
    g.rebuild();
    assert_eq!(g.find(fa), g.find(fb));
    assert_ne!(g.find(fa), g.find(fc));
    assert_ne!(g.find(a), g.find(c));
    assert_ne!(g.find(fa), g.find(a));
}

#[test]
fn inst_expr_spells_the_stored_term() {
    let mut g = Graph::new();
    let e = Expr::new(40, vec![Expr::leaf(5), Expr::leaf(6)]);
    let h = g.lower_expr(&e).unwrap();
    let back = g.inst_expr(h).unwrap();
    assert_eq!(back.op, 40);
    assert_eq!(back.args.len(), 2);
    assert_eq!(back.args[0].op, 5);
    assert_eq!(back.args[1].op, 6);
}

#[test]
fn class_of_non_root_is_none() {
    let mut g = Graph::new();
    let a = leaf(&mut g, 1);
    let b = leaf(&mut g, 2);
    assert_eq!(g.class(a).unwrap().len(), 1);
    g.union(a, b, false);
    assert!(g.class(b).is_none());
    assert!(g.class(HirId(7)).is_none());
    let c = g.class(a).unwrap();
    assert_eq!((c.member(0), c.member(1)), (a, b));
}

#[test]
fn default_graph_is_empty() {
    let mut g = Graph::default();
    assert_eq!(g.len(), 0);
    assert_eq!(g.hashcons_len(), 0);
    assert_eq!(leaf(&mut g, 4), HirId(0));
}
