//! The engine: the node arena with its unique table, and the operations
//! that build functions in it.

use std::collections::HashMap;
use vstd::prelude::*;
use crate::arena::{
    branch, extends, grown_for, in_range, lemma_extends_trans, lemma_reaches_stable,
    lemma_tree_stable, names, rank, reaches, tree_of, valid, well_formed, with_node,
};
use crate::lemmas::{lemma_ite_eval, lemma_ite_ordered, lemma_restrict_eval, lemma_restrict_ordered};
use crate::func::{BDDFunc, BDDNode, VariableIndex};
use crate::tree::{
    assign, eval, ite_tree, min_var, occurs, ordered, pivot, restrict_tree, Assignment, Tree,
};

verus! {

broadcast use vstd::std_specs::hash::group_hash_axioms;

/// The factor by which a key is multiplied before the next part is added.
const KEY_FACTOR: u64 = 0x0000_0100_0000_01b3;

/// The number that stands for a function reference in a table key.
spec fn code_of(f: BDDFunc) -> u64 {
    match f {
        BDDFunc::C(b) => if b {
            1
        } else {
            0
        },
        BDDFunc::N(i) => (i as u64).wrapping_add(2),
    }
}

/// The table key of a triple. Equal triples have equal keys; different
/// triples may share one.
#[verifier::opaque]
spec fn key_of(node: BDDNode) -> u64 {
    (node.label as u64).wrapping_mul(KEY_FACTOR).wrapping_add(
        code_of(node.then_edge),
    ).wrapping_mul(KEY_FACTOR).wrapping_add(code_of(node.else_edge))
}

/// Computes the number that stands for `f` in a table key.
fn code(f: BDDFunc) -> (r: u64)
    ensures
        r == code_of(f),
{
    match f {
        BDDFunc::C(b) => if b {
            1
        } else {
            0
        },
        BDDFunc::N(i) => (i as u64).wrapping_add(2),
    }
}

/// Computes the table key of a triple.
fn key(node: BDDNode) -> (r: u64)
    ensures
        r == key_of(node),
{
    reveal(key_of);
    (node.label as u64).wrapping_mul(KEY_FACTOR).wrapping_add(code(node.then_edge)).wrapping_mul(
        KEY_FACTOR,
    ).wrapping_add(code(node.else_edge))
}

/// Whether `idx` may stand in the table under the key `k`: it names a node
/// of the arena whose triple has that key.
spec fn entry_ok(nodes: Seq<BDDNode>, k: u64, idx: usize) -> bool {
    idx < nodes.len() && key_of(nodes[idx as int]) == k
}

/// Whether the table lists the node at `i` under the key of its triple.
spec fn listed(m: Map<u64, Vec<usize>>, nodes: Seq<BDDNode>, i: int) -> bool {
    m.contains_key(key_of(nodes[i])) && m[key_of(nodes[i])]@.contains(i as usize)
}

/// A decision diagram engine.
///
/// `nodes` is the arena, to which nodes are only ever added. `unique_table`
/// finds the node that holds a given triple: under the key of a triple it
/// lists the indices of the nodes whose triples have that key.
pub struct BDD {
    nodes: Vec<BDDNode>,
    unique_table: HashMap<u64, Vec<usize>>,
}

impl View for BDD {
    type V = Seq<BDDNode>;

    /// The arena, as the sequence of its nodes in the order they were added.
    closed spec fn view(&self) -> Seq<BDDNode> {
        self.nodes@
    }
}

impl BDD {
    /// Whether the unique table lists every node of the arena under the key
    /// of its triple, and nothing else.
    pub closed spec fn table_ok(&self) -> bool {
        let m = self.unique_table@;
        let nodes = self.nodes@;
        &&& forall|k: u64, j: int|
            m.contains_key(k) && 0 <= j < m[k]@.len() ==> #[trigger] entry_ok(nodes, k, m[k]@[j])
        &&& forall|i: int| 0 <= i < nodes.len() ==> #[trigger] listed(m, nodes, i)
    }

    /// The engine's invariant: a well-formed arena, indexed by the table.
    pub open spec fn wf(&self) -> bool {
        &&& well_formed(self@)
        &&& self.table_ok()
    }

    /// An engine with an empty arena.
    pub fn new() -> (bdd: BDD)
        ensures
            bdd.wf(),
            bdd@ == Seq::<BDDNode>::empty(),
    {
        BDD { nodes: Vec::new(), unique_table: HashMap::new() }
    }

    /// The number of nodes in the arena.
    pub fn len(&self) -> (n: usize)
        ensures
            n == self@.len(),
    {
        self.nodes.len()
    }

    /// The node that `f` names, or `None` where `f` is a constant.
    pub fn node(&self, f: BDDFunc) -> (r: Option<BDDNode>)
        requires
            valid(self@, f),
        ensures
            r == match f {
                BDDFunc::C(_) => None::<BDDNode>,
                BDDFunc::N(i) => Some(self@[i as int]),
            },
    {
        match f {
            BDDFunc::C(_) => None,
            BDDFunc::N(i) => Some(self.nodes[i]),
        }
    }

    /// Looks for the node that holds the triple `node`, whose key is `k`.
    fn lookup(&self, k: u64, node: BDDNode) -> (r: Option<usize>)
        requires
            self.table_ok(),
            k == key_of(node),
        ensures
            match r {
                Some(i) => i < self@.len() && self@[i as int] == node,
                None => !self@.contains(node),
            },
    {
        match self.unique_table.get(&k) {
            None => {
                proof {
                    if self@.contains(node) {
                        let i = choose|i: int| 0 <= i < self@.len() && self@[i] == node;
                        assert(listed(self.unique_table@, self.nodes@, i));
                    }
                }
                None
            },
            Some(bucket) => {
                let mut j: usize = 0;
                assert(self.nodes@.len() == self.nodes.len());
                while j < bucket.len()
                    invariant
                        j <= bucket.len(),
                        self.nodes@.len() <= usize::MAX,
                        self.table_ok(),
                        self.unique_table@.contains_key(k),
                        self.unique_table@[k] == *bucket,
                        forall|x: int|
                            0 <= x < j ==> #[trigger] bucket@[x] < self.nodes@.len()
                                && self.nodes@[bucket@[x] as int] != node,
                    decreases bucket.len() - j,
                {
                    assert(entry_ok(self.nodes@, k, self.unique_table@[k]@[j as int]));
                    let i = bucket[j];
                    if self.nodes[i] == node {
                        return Some(i);
                    }
                    j += 1;
                }
                proof {
                    if self@.contains(node) {
                        let i = choose|i: int| 0 <= i < self@.len() && self@[i] == node;
                        assert(listed(self.unique_table@, self.nodes@, i));
                        assert(bucket@.contains(i as usize));
                        let x = choose|x: int|
                            0 <= x < bucket@.len() && bucket@[x] == i as usize;
                        assert(self.nodes@[bucket@[x] as int] == node);
                    }
                }
                None
            },
        }
    }

    /// The canonical reference to the node `(v, t, e)`: the node of the
    /// arena that holds this triple, added behind the others where there was
    /// none.
    ///
    /// The arena is left as it was where it held the triple, and grows by
    /// that one node where it did not. Old references keep their meaning.
    pub fn find_or_add_unique_table(&mut self, v: VariableIndex, t: BDDFunc, e: BDDFunc) -> (r:
        BDDFunc)
        requires
            old(self).wf(),
            valid(old(self)@, t),
            valid(old(self)@, e),
        ensures
            final(self).wf(),
            final(self)@ == with_node(
                old(self)@,
                (BDDNode { label: v, then_edge: t, else_edge: e }),
            ),
            names(final(self)@, r, (BDDNode { label: v, then_edge: t, else_edge: e })),
            extends(old(self)@, final(self)@),
            grown_for(old(self)@, final(self)@, r),
            tree_of(final(self)@, r) == Tree::Node(
                v,
                Box::new(tree_of(old(self)@, t)),
                Box::new(tree_of(old(self)@, e)),
            ),
    {
        let node = BDDNode { label: v, then_edge: t, else_edge: e };
        let k = key(node);
        match self.lookup(k, node) {
            Some(i) => {
                proof {
                    assert(self@.contains(node));
                }
                BDDFunc::N(i)
            },
            None => {
                let idx = self.nodes.len();
                let ghost before = self.nodes@;
                let ghost table = self.unique_table@;
                let mut bucket = match self.unique_table.remove(&k) {
                    Some(b) => b,
                    None => Vec::new(),
                };
                let ghost bucket_before = bucket@;
                self.nodes.push(node);
                bucket.push(idx);
                self.unique_table.insert(k, bucket);
                proof {
                    let after = self.nodes@;
                    let m = self.unique_table@;
                    assert(after[idx as int] == node);
                    assert forall|i: int, j: int|
                        #![trigger after[i], after[j]]
                        0 <= i < after.len() && 0 <= j < after.len() && after[i]
                            == after[j] implies i == j by {
                        if i != j {
                            if i == idx {
                                assert(before[j] == node);
                            } else if j == idx {
                                assert(before[i] == node);
                            } else {
                                assert(before[i] == before[j]);
                            }
                        }
                    }
                    assert forall|i: int|
                        #![trigger after[i]]
                        0 <= i < after.len() implies in_range(after[i].then_edge, i) && in_range(
                        after[i].else_edge,
                        i,
                    ) by {
                        if i < idx {
                            assert(after[i] == before[i]);
                        }
                    }
                    assert forall|kk: u64, j: int|
                        m.contains_key(kk) && 0 <= j < m[kk]@.len() implies #[trigger] entry_ok(
                        after,
                        kk,
                        m[kk]@[j],
                    ) by {
                        if kk == k {
                            if j < bucket_before.len() {
                                assert(table.contains_key(k));
                                assert(entry_ok(before, k, table[k]@[j]));
                            }
                        } else {
                            assert(table.contains_key(kk));
                            assert(entry_ok(before, kk, table[kk]@[j]));
                        }
                    }
                    assert forall|i: int| 0 <= i < after.len() implies #[trigger] listed(
                        m,
                        after,
                        i,
                    ) by {
                        if i == idx {
                            assert(m[k]@[bucket_before.len() as int] == idx);
                        } else {
                            assert(after[i] == before[i]);
                            assert(listed(table, before, i));
                            let kk = key_of(before[i]);
                            let x = choose|x: int|
                                0 <= x < table[kk]@.len() && table[kk]@[x] == i as usize;
                            assert(m[kk]@[x] == i as usize);
                        }
                    }
                    assert(after == before.push(node));
                    lemma_tree_stable(before, after, t);
                    lemma_tree_stable(before, after, e);
                }
                BDDFunc::N(idx)
            },
        }
    }

    /// The cofactor of `f` with the variable `v` fixed to `value`.
    ///
    /// A constant is returned as it is. A node that tests `v` gives the edge
    /// that `value` selects; a node that tests a greater variable is returned
    /// as it is. Under a node that tests a smaller variable both edges are
    /// restricted, and the result is the canonical node over the two results
    /// with that node's own variable. In the first three cases the arena is
    /// left as it was, and so it is wherever `v` does not occur in `f`.
    ///
    /// What was added to the arena is part of the result. For an ordered `f`
    /// the result is ordered and is the function `f` with `value` in the
    /// place of `v`.
    pub fn restrict(&mut self, f: BDDFunc, v: VariableIndex, value: bool) -> (r: BDDFunc)
        requires
            old(self).wf(),
            valid(old(self)@, f),
        ensures
            final(self).wf(),
            extends(old(self)@, final(self)@),
            grown_for(old(self)@, final(self)@, r),
            valid(final(self)@, r),
            tree_of(final(self)@, r) == restrict_tree(tree_of(old(self)@, f), v, value),
            f is C ==> r == f && final(self)@ == old(self)@,
            f matches BDDFunc::N(n) ==> (old(self)@[n as int].label == v ==> r == branch(
                old(self)@[n as int],
                value,
            ) && final(self)@ == old(self)@),
            f matches BDDFunc::N(n) ==> (v < old(self)@[n as int].label ==> r == f
                && final(self)@ == old(self)@),
            !occurs(tree_of(old(self)@, f), v) ==> r == f && final(self)@ == old(self)@,
            ordered(tree_of(old(self)@, f)) ==> ordered(tree_of(final(self)@, r)),
            ordered(tree_of(old(self)@, f)) ==> forall|env: Assignment|
                #[trigger] eval(tree_of(final(self)@, r), env) == eval(
                    tree_of(old(self)@, f),
                    assign(env, v, value),
                ),
        decreases rank(f),
    {
        let ghost tf = tree_of(self@, f);
        proof {
            if ordered(tf) {
                lemma_restrict_ordered(tf, v, value, 0);
                assert forall|env: Assignment|
                    #[trigger] eval(restrict_tree(tf, v, value), env) == eval(
                        tf,
                        assign(env, v, value),
                    ) by {
                    lemma_restrict_eval(tf, v, value, env);
                }
            }
        }
        match f {
            BDDFunc::C(_) => f,
            BDDFunc::N(n) => {
                let node = self.nodes[n];
                if node.label == v {
                    if value {
                        node.then_edge
                    } else {
                        node.else_edge
                    }
                } else if v < node.label {
                    f
                } else {
                    let ghost a0 = self@;
                    let t = self.restrict(node.then_edge, v, value);
                    let ghost a1 = self@;
                    proof {
                        lemma_tree_stable(a0, a1, node.else_edge);
                    }
                    let e = self.restrict(node.else_edge, v, value);
                    let ghost a2 = self@;
                    proof {
                        lemma_tree_stable(a1, a2, t);
                    }
                    let r = self.find_or_add_unique_table(node.label, t, e);
                    proof {
                        let a3 = self@;
                        let k = r->N_0;
                        assert(a3[k as int].then_edge == t);
                        assert(a3[k as int].else_edge == e);
                        assert forall|i: int| a0.len() <= i < a3.len() implies #[trigger] reaches(
                            a3,
                            r,
                            i,
                        ) by {
                            if i < a1.len() {
                                lemma_extends_trans(a1, a2, a3);
                                lemma_reaches_stable(a1, a3, t, i);
                            } else if i < a2.len() {
                                lemma_reaches_stable(a2, a3, e, i);
                            }
                        }
                        if !occurs(tf, v) {
                            assert(a0.contains(node));
                        }
                    }
                    r
                }
            },
        }
    }

    /// The function `if f then g else h`.
    ///
    /// A constant `f` selects `g` or `h`, and with `g` true and `h` false
    /// the result is `f`; the arena is then left as it was. Otherwise the
    /// result is the canonical node that tests the least root variable of
    /// the three, over the if-then-else of the cofactors at that variable
    /// true and at that variable false.
    ///
    /// What was added to the arena is part of the result. Under every
    /// assignment the result has the value of `g` where `f` is true and that
    /// of `h` where `f` is false, and it is ordered where the three are.
    pub fn ite(&mut self, f: BDDFunc, g: BDDFunc, h: BDDFunc) -> (r: BDDFunc)
        requires
            old(self).wf(),
            valid(old(self)@, f),
            valid(old(self)@, g),
            valid(old(self)@, h),
        ensures
            final(self).wf(),
            extends(old(self)@, final(self)@),
            grown_for(old(self)@, final(self)@, r),
            valid(final(self)@, r),
            tree_of(final(self)@, r) == ite_tree(
                tree_of(old(self)@, f),
                tree_of(old(self)@, g),
                tree_of(old(self)@, h),
            ),
            f == BDDFunc::C(true) ==> r == g && final(self)@ == old(self)@,
            f == BDDFunc::C(false) ==> r == h && final(self)@ == old(self)@,
            g == BDDFunc::C(true) && h == BDDFunc::C(false) ==> r == f && final(self)@ == old(
                self,
            )@,
            forall|env: Assignment|
                #[trigger] eval(tree_of(final(self)@, r), env) == if eval(
                    tree_of(old(self)@, f),
                    env,
                ) {
                    eval(tree_of(old(self)@, g), env)
                } else {
                    eval(tree_of(old(self)@, h), env)
                },
            ordered(tree_of(old(self)@, f)) && ordered(tree_of(old(self)@, g)) && ordered(
                tree_of(old(self)@, h),
            ) ==> ordered(tree_of(final(self)@, r)),
    {
        let ghost tf = tree_of(self@, f);
        let ghost tg = tree_of(self@, g);
        let ghost th = tree_of(self@, h);
        proof {
            assert forall|env: Assignment|
                #[trigger] eval(ite_tree(tf, tg, th), env) == if eval(tf, env) {
                    eval(tg, env)
                } else {
                    eval(th, env)
                } by {
                lemma_ite_eval(tf, tg, th, env);
            }
            if ordered(tf) && ordered(tg) && ordered(th) {
                lemma_ite_ordered(tf, tg, th, 0);
            }
        }
        self.expand(f, g, h)
    }

    /// The recursion of `ite`: the shortcuts, and the expansion on the pivot.
    fn expand(&mut self, f: BDDFunc, g: BDDFunc, h: BDDFunc) -> (r: BDDFunc)
        requires
            old(self).wf(),
            valid(old(self)@, f),
            valid(old(self)@, g),
            valid(old(self)@, h),
        ensures
            final(self).wf(),
            extends(old(self)@, final(self)@),
            grown_for(old(self)@, final(self)@, r),
            valid(final(self)@, r),
            tree_of(final(self)@, r) == ite_tree(
                tree_of(old(self)@, f),
                tree_of(old(self)@, g),
                tree_of(old(self)@, h),
            ),
            f == BDDFunc::C(true) ==> r == g && final(self)@ == old(self)@,
            f == BDDFunc::C(false) ==> r == h && final(self)@ == old(self)@,
            g == BDDFunc::C(true) && h == BDDFunc::C(false) ==> r == f && final(self)@ == old(
                self,
            )@,
        decreases rank(f) + rank(g) + rank(h),
    {
        let ghost a0 = self@;
        match f {
            BDDFunc::C(c) => if c {
                g
            } else {
                h
            },
            BDDFunc::N(n) => {
                if g == BDDFunc::C(true) && h == BDDFunc::C(false) {
                    f
                } else {
                    let v = top_variable(self, self.nodes[n].label, g, h);
                    let f1 = self.restrict(f, v, true);
                    let f0 = self.restrict(f, v, false);
                    let g1 = self.restrict(g, v, true);
                    let g0 = self.restrict(g, v, false);
                    let h1 = self.restrict(h, v, true);
                    let h0 = self.restrict(h, v, false);
                    assert(self@ == a0);
                    let t = self.expand(f1, g1, h1);
                    let ghost a1 = self@;
                    proof {
                        lemma_tree_stable(a0, a1, f0);
                        lemma_tree_stable(a0, a1, g0);
                        lemma_tree_stable(a0, a1, h0);
                    }
                    let e = self.expand(f0, g0, h0);
                    let ghost a2 = self@;
                    proof {
                        lemma_tree_stable(a1, a2, t);
                    }
                    let r = self.find_or_add_unique_table(v, t, e);
                    proof {
                        let a3 = self@;
                        let k = r->N_0;
                        assert(a3[k as int].then_edge == t);
                        assert(a3[k as int].else_edge == e);
                        assert forall|i: int| a0.len() <= i < a3.len() implies #[trigger] reaches(
                            a3,
                            r,
                            i,
                        ) by {
                            if i < a1.len() {
                                lemma_extends_trans(a1, a2, a3);
                                lemma_reaches_stable(a1, a3, t, i);
                            } else if i < a2.len() {
                                lemma_reaches_stable(a2, a3, e, i);
                            }
                        }
                    }
                    r
                }
            },
        }
    }
}

/// The smaller of two variables.
fn smaller(a: VariableIndex, b: VariableIndex) -> (r: VariableIndex)
    ensures
        r == min_var(a, b),
{
    if a <= b {
        a
    } else {
        b
    }
}

/// The variable on which an if-then-else expands whose condition is a node
/// that tests `f` and whose branches are `g` and `h`: the least of `f` and
/// the variables that `g` and `h` test at their roots, where they are nodes.
pub fn top_variable(bdd: &BDD, f: VariableIndex, g: BDDFunc, h: BDDFunc) -> (v: VariableIndex)
    requires
        bdd.wf(),
        valid(bdd@, g),
        valid(bdd@, h),
    ensures
        v == pivot(f, tree_of(bdd@, g), tree_of(bdd@, h)),
{
    match (g, h) {
        (BDDFunc::C(_), BDDFunc::C(_)) => f,
        (BDDFunc::C(_), BDDFunc::N(j)) => smaller(f, bdd.nodes[j].label),
        (BDDFunc::N(i), BDDFunc::C(_)) => smaller(f, bdd.nodes[i].label),
        (BDDFunc::N(i), BDDFunc::N(j)) => smaller(
            f,
            smaller(bdd.nodes[i].label, bdd.nodes[j].label),
        ),
    }
}

} // verus!
