use robdd::engine::{top_variable, BDD};
use robdd::func::{BDDFunc, BDDNode};

const T: BDDFunc = BDDFunc::C(true);
const F: BDDFunc = BDDFunc::C(false);

/// The value of `f` where the variable `i` has the value `env[i]`.
fn value(bdd: &BDD, f: BDDFunc, env: &[bool]) -> bool {
    let mut at = f;
    loop {
        match bdd.node(at) {
            None => match at {
                BDDFunc::C(b) => return b,
                BDDFunc::N(_) => unreachable!(),
            },
            Some(node) => {
                at = if env[node.label] { node.then_edge } else { node.else_edge };
            }
        }
    }
}

/// All assignments to `n` variables.
fn assignments(n: usize) -> Vec<Vec<bool>> {
    let mut all = vec![vec![]];
    for _ in 0..n {
        let mut next = Vec::new();
        for a in &all {
            for b in [false, true] {
                let mut c: Vec<bool> = a.clone();
                c.push(b);
                next.push(c);
            }
        }
        all = next;
    }
    all
}

fn var(bdd: &mut BDD, v: usize) -> BDDFunc {
    bdd.find_or_add_unique_table(v, T, F)
}

fn node(label: usize, then_edge: BDDFunc, else_edge: BDDFunc) -> BDDNode {
    BDDNode { label, then_edge, else_edge }
}

#[test]
fn new_engine_is_empty() {
    let bdd = BDD::new();
    assert_eq!(bdd.len(), 0);
    assert_eq!(bdd.node(T), None);
    assert_eq!(bdd.node(F), None);
}

#[test]
fn find_or_add_appends_new_triples() {
    let mut bdd = BDD::new();
    let x0 = bdd.find_or_add_unique_table(0, T, F);
    assert_eq!(x0, BDDFunc::N(0));
    assert_eq!(bdd.len(), 1);
    let x1 = bdd.find_or_add_unique_table(1, T, F);
    assert_eq!(x1, BDDFunc::N(1));
    assert_eq!(bdd.len(), 2);
    let n = bdd.find_or_add_unique_table(0, x1, x0);
    assert_eq!(n, BDDFunc::N(2));
    assert_eq!(bdd.node(n), Some(node(0, x1, x0)));
    assert_eq!(bdd.node(x0), Some(node(0, T, F)));
    assert_eq!(bdd.node(x1), Some(node(1, T, F)));
}

#[test]
fn find_or_add_twice_gives_the_same_reference() {
    let mut bdd = BDD::new();
    let a = bdd.find_or_add_unique_table(3, T, F);
    let len = bdd.len();
    let b = bdd.find_or_add_unique_table(3, T, F);
    assert_eq!(a, b);
    assert_eq!(bdd.len(), len);
}

#[test]
fn find_or_add_again_after_other_calls() {
    let mut bdd = BDD::new();
    let a = bdd.find_or_add_unique_table(0, T, F);
    let b = bdd.find_or_add_unique_table(1, T, F);
    let c = bdd.find_or_add_unique_table(0, b, F);
    let d = bdd.find_or_add_unique_table(0, F, T);
    let len = bdd.len();
    assert_eq!(len, 4);
    assert_eq!(bdd.find_or_add_unique_table(1, T, F), b);
    assert_eq!(bdd.find_or_add_unique_table(0, F, T), d);
    assert_eq!(bdd.find_or_add_unique_table(0, T, F), a);
    assert_eq!(bdd.find_or_add_unique_table(0, b, F), c);
    assert_eq!(bdd.len(), len);
}

#[test]
fn find_or_add_tells_triples_apart() {
    let mut bdd = BDD::new();
    let a = bdd.find_or_add_unique_table(0, T, F);
    let b = bdd.find_or_add_unique_table(0, F, T);
    let c = bdd.find_or_add_unique_table(1, T, F);
    let d = bdd.find_or_add_unique_table(0, T, T);
    let e = bdd.find_or_add_unique_table(0, a, F);
    let all = [a, b, c, d, e];
    for i in 0..all.len() {
        for j in 0..all.len() {
            assert_eq!(all[i] == all[j], i == j);
        }
    }
    assert_eq!(bdd.len(), 5);
}

#[test]
fn find_or_add_keeps_a_node_with_equal_edges() {
    let mut bdd = BDD::new();
    let n = bdd.find_or_add_unique_table(2, T, T);
    assert_eq!(n, BDDFunc::N(0));
    assert_eq!(bdd.node(n), Some(node(2, T, T)));
}

#[test]
fn many_triples_are_found_again() {
    let mut bdd = BDD::new();
    let mut refs = Vec::new();
    for v in 0..200usize {
        refs.push(bdd.find_or_add_unique_table(v, T, F));
        refs.push(bdd.find_or_add_unique_table(v, F, T));
    }
    assert_eq!(bdd.len(), 400);
    for v in 0..200usize {
        assert_eq!(bdd.find_or_add_unique_table(v, T, F), refs[2 * v]);
        assert_eq!(bdd.find_or_add_unique_table(v, F, T), refs[2 * v + 1]);
    }
    assert_eq!(bdd.len(), 400);
    for (i, r) in refs.iter().enumerate() {
        assert_eq!(*r, BDDFunc::N(i));
    }
}

#[test]
fn top_variable_of_two_constants_is_the_first() {
    let bdd = BDD::new();
    assert_eq!(top_variable(&bdd, 5, T, F), 5);
    assert_eq!(top_variable(&bdd, 0, F, F), 0);
}

#[test]
fn top_variable_is_the_least_root_variable() {
    let mut bdd = BDD::new();
    let x2 = var(&mut bdd, 2);
    let x7 = var(&mut bdd, 7);
    assert_eq!(top_variable(&bdd, 5, x2, F), 2);
    assert_eq!(top_variable(&bdd, 5, T, x2), 2);
    assert_eq!(top_variable(&bdd, 5, x7, F), 5);
    assert_eq!(top_variable(&bdd, 5, T, x7), 5);
    assert_eq!(top_variable(&bdd, 5, x7, x2), 2);
    assert_eq!(top_variable(&bdd, 5, x2, x7), 2);
    assert_eq!(top_variable(&bdd, 1, x2, x7), 1);
    assert_eq!(top_variable(&bdd, 9, x7, x7), 7);
}

#[test]
fn top_variable_reads_the_label_and_not_the_index() {
    let mut bdd = BDD::new();
    let x9 = var(&mut bdd, 9);
    assert_eq!(x9, BDDFunc::N(0));
    assert_eq!(top_variable(&bdd, 4, x9, F), 4);
    assert_eq!(top_variable(&bdd, 12, x9, F), 9);
}

#[test]
fn restrict_leaves_constants() {
    let mut bdd = BDD::new();
    assert_eq!(bdd.restrict(T, 0, false), T);
    assert_eq!(bdd.restrict(F, 3, true), F);
    assert_eq!(bdd.len(), 0);
}

#[test]
fn restrict_at_the_root_gives_the_edge() {
    let mut bdd = BDD::new();
    let x1 = var(&mut bdd, 1);
    let f = bdd.find_or_add_unique_table(0, x1, F);
    let len = bdd.len();
    assert_eq!(bdd.restrict(f, 0, true), x1);
    assert_eq!(bdd.restrict(f, 0, false), F);
    assert_eq!(bdd.restrict(x1, 1, true), T);
    assert_eq!(bdd.restrict(x1, 1, false), F);
    assert_eq!(bdd.len(), len);
}

#[test]
fn restrict_above_the_root_gives_the_function() {
    let mut bdd = BDD::new();
    let x2 = var(&mut bdd, 2);
    let f = bdd.find_or_add_unique_table(1, x2, T);
    let len = bdd.len();
    assert_eq!(bdd.restrict(f, 0, true), f);
    assert_eq!(bdd.restrict(f, 0, false), f);
    assert_eq!(bdd.len(), len);
}

#[test]
fn restrict_below_the_root_keeps_the_root_variable() {
    let mut bdd = BDD::new();
    let x1 = var(&mut bdd, 1);
    let f = bdd.find_or_add_unique_table(0, x1, F);
    assert_eq!(bdd.len(), 2);
    let r = bdd.restrict(f, 1, true);
    assert_eq!(bdd.node(r), Some(node(0, T, F)));
    assert_eq!(r, BDDFunc::N(2));
    assert_eq!(bdd.len(), 3);
    let s = bdd.restrict(f, 1, false);
    assert_eq!(bdd.node(s), Some(node(0, F, F)));
    assert_eq!(s, BDDFunc::N(3));
    assert_eq!(bdd.len(), 4);
}

#[test]
fn restrict_of_an_absent_variable_gives_the_function() {
    let mut bdd = BDD::new();
    let x2 = var(&mut bdd, 2);
    let x4 = var(&mut bdd, 4);
    let g = bdd.find_or_add_unique_table(1, x2, x4);
    let f = bdd.find_or_add_unique_table(0, g, x4);
    let len = bdd.len();
    for v in [3usize, 5, 6, 100] {
        assert_eq!(bdd.restrict(f, v, true), f);
        assert_eq!(bdd.restrict(f, v, false), f);
    }
    assert_eq!(bdd.len(), len);
}

#[test]
fn restrict_is_substitution() {
    let mut bdd = BDD::new();
    let x2 = var(&mut bdd, 2);
    let n2 = bdd.find_or_add_unique_table(2, F, T);
    let g = bdd.find_or_add_unique_table(1, x2, n2);
    let f = bdd.find_or_add_unique_table(0, g, x2);
    for v in 0..3usize {
        for b in [false, true] {
            let r = bdd.restrict(f, v, b);
            for env in assignments(3) {
                let mut fixed: Vec<bool> = env.clone();
                fixed[v] = b;
                assert_eq!(value(&bdd, r, &env), value(&bdd, f, &fixed));
            }
        }
    }
}

#[test]
fn ite_of_a_constant_condition_selects() {
    let mut bdd = BDD::new();
    let x0 = var(&mut bdd, 0);
    let x1 = var(&mut bdd, 1);
    let len = bdd.len();
    assert_eq!(bdd.ite(T, x0, x1), x0);
    assert_eq!(bdd.ite(F, x0, x1), x1);
    assert_eq!(bdd.ite(T, T, F), T);
    assert_eq!(bdd.ite(F, T, F), F);
    assert_eq!(bdd.ite(T, F, T), F);
    assert_eq!(bdd.len(), len);
}

#[test]
fn ite_with_true_and_false_gives_the_condition() {
    let mut bdd = BDD::new();
    let x1 = var(&mut bdd, 1);
    let f = bdd.find_or_add_unique_table(0, x1, F);
    let len = bdd.len();
    assert_eq!(bdd.ite(f, T, F), f);
    assert_eq!(bdd.ite(x1, T, F), x1);
    assert_eq!(bdd.ite(T, T, F), T);
    assert_eq!(bdd.ite(F, T, F), F);
    assert_eq!(bdd.len(), len);
}

#[test]
fn and_of_two_variables() {
    let mut bdd = BDD::new();
    let f1 = bdd.find_or_add_unique_table(0, T, F);
    let f2 = bdd.find_or_add_unique_table(1, T, F);
    assert_eq!(bdd.len(), 2);
    let and_result = bdd.ite(f1, f2, F);
    assert_eq!(bdd.len(), 3);
    assert_eq!(and_result, BDDFunc::N(2));
    assert_eq!(bdd.node(and_result), Some(node(0, f2, F)));
    assert!(value(&bdd, and_result, &[true, true]));
    assert!(!value(&bdd, and_result, &[true, false]));
    assert!(!value(&bdd, and_result, &[false, true]));
    assert!(!value(&bdd, and_result, &[false, false]));
}

#[test]
fn ite_expands_on_the_least_variable() {
    let mut bdd = BDD::new();
    let x0 = var(&mut bdd, 0);
    let x1 = var(&mut bdd, 1);
    let r = bdd.ite(x1, x0, F);
    let root = bdd.node(r).unwrap();
    assert_eq!(root.label, 0);
    assert_eq!(root.then_edge, x1);
    assert_eq!(bdd.node(root.else_edge), Some(node(1, F, F)));
}

#[test]
fn connectives_from_ite() {
    let mut bdd = BDD::new();
    let x0 = var(&mut bdd, 0);
    let x1 = var(&mut bdd, 1);
    let x2 = var(&mut bdd, 2);
    let and = bdd.ite(x0, x1, F);
    let or = bdd.ite(x0, T, x1);
    let not = bdd.ite(x0, F, T);
    let not1 = bdd.ite(x1, F, T);
    let xor = bdd.ite(x0, not1, x1);
    let mux = bdd.ite(x0, x1, x2);
    let big = bdd.ite(xor, and, mux);
    for env in assignments(3) {
        let (a, b, c) = (env[0], env[1], env[2]);
        assert_eq!(value(&bdd, and, &env), a && b);
        assert_eq!(value(&bdd, or, &env), a || b);
        assert_eq!(value(&bdd, not, &env), !a);
        assert_eq!(value(&bdd, xor, &env), a != b);
        assert_eq!(value(&bdd, mux, &env), if a { b } else { c });
        assert_eq!(
            value(&bdd, big, &env),
            if a != b { a && b } else if a { b } else { c }
        );
    }
}

#[test]
fn ite_results_are_ordered() {
    let mut bdd = BDD::new();
    let x0 = var(&mut bdd, 0);
    let x1 = var(&mut bdd, 1);
    let x2 = var(&mut bdd, 2);
    let a = bdd.ite(x2, x1, x0);
    let b = bdd.ite(a, x2, x1);
    let _ = bdd.ite(b, a, x0);
    for i in 0..bdd.len() {
        let n = bdd.node(BDDFunc::N(i)).unwrap();
        for edge in [n.then_edge, n.else_edge] {
            if let Some(m) = bdd.node(edge) {
                assert!(n.label < m.label);
            }
        }
    }
}

#[test]
fn restrict_commutes_with_ite_as_functions() {
    let mut bdd = BDD::new();
    let x0 = var(&mut bdd, 0);
    let x1 = var(&mut bdd, 1);
    let x2 = var(&mut bdd, 2);
    let and = bdd.ite(x0, x1, F);
    let or = bdd.ite(x1, T, x2);
    let funcs = [T, F, x0, x1, x2, and, or];
    for f in funcs {
        for g in funcs {
            for h in funcs {
                for v in 0..3usize {
                    for b in [false, true] {
                        let whole = bdd.ite(f, g, h);
                        let lhs = bdd.restrict(whole, v, b);
                        let fr = bdd.restrict(f, v, b);
                        let gr = bdd.restrict(g, v, b);
                        let hr = bdd.restrict(h, v, b);
                        let rhs = bdd.ite(fr, gr, hr);
                        for env in assignments(3) {
                            assert_eq!(value(&bdd, lhs, &env), value(&bdd, rhs, &env));
                        }
                    }
                }
            }
        }
    }
}

#[test]
fn restrict_commutes_with_ite_at_the_top_variable() {
    let mut bdd = BDD::new();
    let x1 = var(&mut bdd, 1);
    let x2 = var(&mut bdd, 2);
    let x3 = var(&mut bdd, 3);
    let and = bdd.ite(x1, x2, F);
    let or = bdd.ite(x2, T, x3);
    let funcs = [T, F, x1, x2, x3, and, or];
    for f in funcs {
        for g in funcs {
            for h in funcs {
                let mut top = usize::MAX;
                for x in [f, g, h] {
                    if let Some(n) = bdd.node(x) {
                        top = top.min(n.label);
                    }
                }
                for v in 0..4usize {
                    if v > top {
                        continue;
                    }
                    for b in [false, true] {
                        let whole = bdd.ite(f, g, h);
                        let lhs = bdd.restrict(whole, v, b);
                        let fr = bdd.restrict(f, v, b);
                        let gr = bdd.restrict(g, v, b);
                        let hr = bdd.restrict(h, v, b);
                        let rhs = bdd.ite(fr, gr, hr);
                        assert_eq!(lhs, rhs);
                    }
                }
            }
        }
    }
}

#[test]
fn a_node_with_equal_edges_is_not_removed() {
    let mut bdd = BDD::new();
    let x0 = var(&mut bdd, 0);
    let x1 = var(&mut bdd, 1);
    let whole = bdd.ite(x1, x0, F);
    let lhs = bdd.restrict(whole, 1, false);
    assert_eq!(bdd.node(lhs), Some(node(0, F, F)));
    let fr = bdd.restrict(x1, 1, false);
    let gr = bdd.restrict(x0, 1, false);
    let rhs = bdd.ite(fr, gr, F);
    assert_eq!(rhs, F);
    for env in assignments(2) {
        assert_eq!(value(&bdd, lhs, &env), value(&bdd, rhs, &env));
    }
}

#[test]
fn the_arena_only_grows() {
    let mut bdd = BDD::new();
    let x0 = var(&mut bdd, 0);
    let x1 = var(&mut bdd, 1);
    let x2 = var(&mut bdd, 2);
    let mut snapshot: Vec<BDDNode> = Vec::new();
    let mut made = vec![x0, x1, x2];
    for round in 0..4usize {
        let f = made[round % made.len()];
        let g = made[(round + 1) % made.len()];
        let h = made[(round + 2) % made.len()];
        let r = bdd.ite(f, g, h);
        let s = bdd.restrict(r, round % 3, round % 2 == 0);
        made.push(r);
        made.push(s);
        assert!(bdd.len() >= snapshot.len());
        for (i, old) in snapshot.iter().enumerate() {
            assert_eq!(bdd.node(BDDFunc::N(i)), Some(*old));
        }
        snapshot.clear();
        for i in 0..bdd.len() {
            snapshot.push(bdd.node(BDDFunc::N(i)).unwrap());
        }
    }
}

#[test]
fn edges_lead_to_earlier_nodes_and_triples_are_unique() {
    let mut bdd = BDD::new();
    let x0 = var(&mut bdd, 0);
    let x1 = var(&mut bdd, 1);
    let x2 = var(&mut bdd, 2);
    let a = bdd.ite(x0, x1, x2);
    let b = bdd.ite(x2, a, x1);
    let c = bdd.ite(b, a, x0);
    let _ = bdd.restrict(c, 2, true);
    let _ = bdd.restrict(c, 1, false);
    let mut seen: Vec<BDDNode> = Vec::new();
    for i in 0..bdd.len() {
        let n = bdd.node(BDDFunc::N(i)).unwrap();
        for edge in [n.then_edge, n.else_edge] {
            if let BDDFunc::N(j) = edge {
                assert!(j < i);
            }
        }
        assert!(!seen.contains(&n));
        seen.push(n);
    }
}
