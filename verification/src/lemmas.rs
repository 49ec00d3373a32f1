//! What holds of cofactors and of if-then-else on decision trees.

use vstd::prelude::*;
use crate::arena::{lemma_tree_injective, tree_of, valid, well_formed};
use crate::func::{BDDFunc, BDDNode};
use crate::tree::{
    assign, eval, ite_tree, lemma_restrict_size, occurs, ordered, pivot, restrict_tree,
    root_above, root_at_or_above, size, Assignment, Tree,
};

verus! {

/// Fixing a variable that a tree does not test leaves the tree as it is,
/// whichever value the variable is given.
pub proof fn lemma_restrict_absent(t: Tree, v: usize, b: bool)
    requires
        !occurs(t, v),
    ensures
        restrict_tree(t, v, b) == t,
    decreases t,
{
    match t {
        Tree::Leaf(_) => {},
        Tree::Node(w, hi, lo) => {
            lemma_restrict_absent(*hi, v, b);
            lemma_restrict_absent(*lo, v, b);
        },
    }
}

/// In an ordered tree no variable below the root's occurs: a tree whose root
/// lies above `v` does not test `v`.
pub proof fn lemma_above_absent(t: Tree, v: usize)
    requires
        ordered(t),
        root_above(t, v),
    ensures
        !occurs(t, v),
    decreases t,
{
    match t {
        Tree::Leaf(_) => {},
        Tree::Node(w, hi, lo) => {
            lemma_above_absent(*hi, v);
            lemma_above_absent(*lo, v);
        },
    }
}

/// A cofactor of an ordered tree is ordered, and its root lies no higher in
/// the order than the root it was taken of.
pub proof fn lemma_restrict_ordered(t: Tree, v: usize, b: bool, u: usize)
    requires
        ordered(t),
    ensures
        ordered(restrict_tree(t, v, b)),
        root_above(t, u) ==> root_above(restrict_tree(t, v, b), u),
        root_at_or_above(t, u) ==> root_at_or_above(restrict_tree(t, v, b), u),
    decreases t,
{
    match t {
        Tree::Leaf(_) => {},
        Tree::Node(w, hi, lo) => {
            if w != v && !(v < w) {
                lemma_restrict_ordered(*hi, v, b, w);
                lemma_restrict_ordered(*lo, v, b, w);
            }
        },
    }
}

/// The cofactor of an ordered tree at `v` no longer tests `v`.
pub proof fn lemma_restrict_removes(t: Tree, v: usize, b: bool)
    requires
        ordered(t),
    ensures
        !occurs(restrict_tree(t, v, b), v),
    decreases t,
{
    match t {
        Tree::Leaf(_) => {},
        Tree::Node(w, hi, lo) => {
            if w == v {
                lemma_above_absent(*hi, v);
                lemma_above_absent(*lo, v);
            } else if v < w {
                lemma_above_absent(t, v);
            } else {
                lemma_restrict_removes(*hi, v, b);
                lemma_restrict_removes(*lo, v, b);
            }
        },
    }
}

/// The value of a tree does not depend on a variable that it does not test.
pub proof fn lemma_eval_absent(t: Tree, env: Assignment, v: usize, b: bool)
    requires
        !occurs(t, v),
    ensures
        eval(t, assign(env, v, b)) == eval(t, env),
    decreases t,
{
    match t {
        Tree::Leaf(_) => {},
        Tree::Node(w, hi, lo) => {
            lemma_eval_absent(*hi, env, v, b);
            lemma_eval_absent(*lo, env, v, b);
        },
    }
}

/// The cofactor is the substitution: the cofactor of an ordered tree at `v`
/// fixed to `b` has under every assignment the value that the tree has where
/// `v` is `b`.
pub proof fn lemma_restrict_eval(t: Tree, v: usize, b: bool, env: Assignment)
    requires
        ordered(t),
    ensures
        eval(restrict_tree(t, v, b), env) == eval(t, assign(env, v, b)),
    decreases t,
{
    match t {
        Tree::Leaf(_) => {},
        Tree::Node(w, hi, lo) => {
            if w == v {
                lemma_above_absent(*hi, v);
                lemma_above_absent(*lo, v);
                lemma_eval_absent(*hi, env, v, b);
                lemma_eval_absent(*lo, env, v, b);
            } else if v < w {
                lemma_above_absent(t, v);
                lemma_eval_absent(t, env, v, b);
            } else {
                lemma_restrict_eval(*hi, v, b, env);
                lemma_restrict_eval(*lo, v, b, env);
            }
        },
    }
}

/// Expansion on a variable at or above the root: the tree has the value of
/// its cofactor at the value that the assignment gives that variable.
pub proof fn lemma_expand(t: Tree, v: usize, env: Assignment)
    requires
        root_at_or_above(t, v),
    ensures
        eval(t, env) == eval(restrict_tree(t, v, env.contains(v)), env),
{
}

/// With the constants true and false as its branches, if-then-else gives
/// back its condition.
pub proof fn lemma_ite_identity(f: Tree)
    ensures
        ite_tree(f, Tree::Leaf(true), Tree::Leaf(false)) == f,
{
}

/// If-then-else computes what its name says: under every assignment its
/// value is that of `g` where `f` is true and that of `h` where `f` is false.
pub proof fn lemma_ite_eval(f: Tree, g: Tree, h: Tree, env: Assignment)
    ensures
        eval(ite_tree(f, g, h), env) == if eval(f, env) {
            eval(g, env)
        } else {
            eval(h, env)
        },
    decreases size(f) + size(g) + size(h),
{
    match f {
        Tree::Leaf(_) => {},
        Tree::Node(fv, _, _) => {
            if !(g == Tree::Leaf(true) && h == Tree::Leaf(false)) {
                let v = pivot(fv, g, h);
                let b = env.contains(v);
                lemma_restrict_size(f, v, b);
                lemma_restrict_size(g, v, b);
                lemma_restrict_size(h, v, b);
                lemma_ite_eval(
                    restrict_tree(f, v, b),
                    restrict_tree(g, v, b),
                    restrict_tree(h, v, b),
                    env,
                );
                lemma_expand(f, v, env);
                lemma_expand(g, v, env);
                lemma_expand(h, v, env);
            }
        },
    }
}

/// If-then-else of ordered trees is ordered, and its root lies no higher in
/// the order than the three roots.
pub proof fn lemma_ite_ordered(f: Tree, g: Tree, h: Tree, u: usize)
    requires
        ordered(f),
        ordered(g),
        ordered(h),
    ensures
        ordered(ite_tree(f, g, h)),
        root_above(f, u) && root_above(g, u) && root_above(h, u) ==> root_above(
            ite_tree(f, g, h),
            u,
        ),
        root_at_or_above(f, u) && root_at_or_above(g, u) && root_at_or_above(h, u)
            ==> root_at_or_above(ite_tree(f, g, h), u),
    decreases size(f) + size(g) + size(h),
{
    match f {
        Tree::Leaf(_) => {},
        Tree::Node(fv, _, _) => {
            if !(g == Tree::Leaf(true) && h == Tree::Leaf(false)) {
                let v = pivot(fv, g, h);
                lemma_cofactors_above(f, v, true);
                lemma_cofactors_above(g, v, true);
                lemma_cofactors_above(h, v, true);
                lemma_cofactors_above(f, v, false);
                lemma_cofactors_above(g, v, false);
                lemma_cofactors_above(h, v, false);
                lemma_restrict_size(f, v, true);
                lemma_restrict_size(g, v, true);
                lemma_restrict_size(h, v, true);
                lemma_restrict_size(f, v, false);
                lemma_restrict_size(g, v, false);
                lemma_restrict_size(h, v, false);
                lemma_ite_ordered(
                    restrict_tree(f, v, true),
                    restrict_tree(g, v, true),
                    restrict_tree(h, v, true),
                    v,
                );
                lemma_ite_ordered(
                    restrict_tree(f, v, false),
                    restrict_tree(g, v, false),
                    restrict_tree(h, v, false),
                    v,
                );
            }
        },
    }
}

/// The cofactor of an ordered tree at a variable at or above its root is
/// ordered and has its root above that variable.
pub proof fn lemma_cofactors_above(t: Tree, v: usize, b: bool)
    requires
        ordered(t),
        root_at_or_above(t, v),
    ensures
        ordered(restrict_tree(t, v, b)),
        root_above(restrict_tree(t, v, b), v),
{
}

/// Cofactors commute with if-then-else as functions: for ordered `f`, `g`
/// and `h`, every variable and both values, the cofactor of the
/// if-then-else and the if-then-else of the cofactors have the same value
/// under every assignment.
pub proof fn lemma_ite_restrict_eval(
    f: Tree,
    g: Tree,
    h: Tree,
    v: usize,
    b: bool,
    env: Assignment,
)
    requires
        ordered(f),
        ordered(g),
        ordered(h),
    ensures
        eval(restrict_tree(ite_tree(f, g, h), v, b), env) == eval(
            ite_tree(restrict_tree(f, v, b), restrict_tree(g, v, b), restrict_tree(h, v, b)),
            env,
        ),
{
    lemma_ite_ordered(f, g, h, 0);
    lemma_restrict_eval(ite_tree(f, g, h), v, b, env);
    lemma_ite_eval(f, g, h, assign(env, v, b));
    lemma_restrict_eval(f, v, b, env);
    lemma_restrict_eval(g, v, b, env);
    lemma_restrict_eval(h, v, b, env);
    lemma_ite_eval(restrict_tree(f, v, b), restrict_tree(g, v, b), restrict_tree(h, v, b), env);
}

/// Cofactors commute with if-then-else as trees where the variable lies at
/// or above the three roots: the cofactor of the if-then-else is then the
/// very tree of the if-then-else of the cofactors.
pub proof fn lemma_ite_restrict_top(f: Tree, g: Tree, h: Tree, v: usize, b: bool)
    requires
        root_at_or_above(f, v),
        root_at_or_above(g, v),
        root_at_or_above(h, v),
    ensures
        restrict_tree(ite_tree(f, g, h), v, b) == ite_tree(
            restrict_tree(f, v, b),
            restrict_tree(g, v, b),
            restrict_tree(h, v, b),
        ),
{
    match f {
        Tree::Leaf(_) => {},
        Tree::Node(fv, _, _) => {
            if g == Tree::Leaf(true) && h == Tree::Leaf(false) {
                lemma_ite_identity(restrict_tree(f, v, b));
            } else {
                let p = pivot(fv, g, h);
                if v < p {
                    assert(restrict_tree(f, v, b) == f);
                    assert(restrict_tree(g, v, b) == g);
                    assert(restrict_tree(h, v, b) == h);
                } else {
                    assert(v == p);
                }
            }
        },
    }
}

/// In a well-formed arena the two sides are then one reference: where `v`
/// lies at or above the roots of `f`, `g` and `h`, a reference to the
/// cofactor of their if-then-else and a reference to the if-then-else of
/// their cofactors are equal.
pub proof fn lemma_ite_restrict_same_ref(
    nodes: Seq<BDDNode>,
    f: BDDFunc,
    g: BDDFunc,
    h: BDDFunc,
    v: usize,
    b: bool,
    left: BDDFunc,
    right: BDDFunc,
)
    requires
        well_formed(nodes),
        valid(nodes, left),
        valid(nodes, right),
        root_at_or_above(tree_of(nodes, f), v),
        root_at_or_above(tree_of(nodes, g), v),
        root_at_or_above(tree_of(nodes, h), v),
        tree_of(nodes, left) == restrict_tree(
            ite_tree(tree_of(nodes, f), tree_of(nodes, g), tree_of(nodes, h)),
            v,
            b,
        ),
        tree_of(nodes, right) == ite_tree(
            restrict_tree(tree_of(nodes, f), v, b),
            restrict_tree(tree_of(nodes, g), v, b),
            restrict_tree(tree_of(nodes, h), v, b),
        ),
    ensures
        left == right,
{
    lemma_ite_restrict_top(tree_of(nodes, f), tree_of(nodes, g), tree_of(nodes, h), v, b);
    lemma_tree_injective(nodes, left, right);
}

} // verus!
