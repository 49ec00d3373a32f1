//! The decision trees that function references stand for, and the two
//! operations of the engine stated on them.

use vstd::prelude::*;

verus! {

/// A decision tree: the unfolding of a function reference.
pub enum Tree {
    Leaf(bool),
    Node(usize, Box<Tree>, Box<Tree>),
}

/// An assignment is the set of the variables that are true.
pub type Assignment = Set<usize>;

/// The assignment that gives `v` the value `b` and agrees with `env` elsewhere.
pub open spec fn assign(env: Assignment, v: usize, b: bool) -> Assignment {
    if b {
        env.insert(v)
    } else {
        env.remove(v)
    }
}

/// The number of nodes and leaves of a tree.
pub open spec fn size(t: Tree) -> nat
    decreases t,
{
    match t {
        Tree::Leaf(_) => 1,
        Tree::Node(_, hi, lo) => 1 + size(*hi) + size(*lo),
    }
}

/// The value of the function `t` under the assignment `env`.
pub open spec fn eval(t: Tree, env: Assignment) -> bool
    decreases t,
{
    match t {
        Tree::Leaf(b) => b,
        Tree::Node(v, hi, lo) => if env.contains(v) {
            eval(*hi, env)
        } else {
            eval(*lo, env)
        },
    }
}

/// Whether some node of `t` tests the variable `v`.
pub open spec fn occurs(t: Tree, v: usize) -> bool
    decreases t,
{
    match t {
        Tree::Leaf(_) => false,
        Tree::Node(w, hi, lo) => w == v || occurs(*hi, v) || occurs(*lo, v),
    }
}

/// Whether every variable tested at the root of `t` is greater than `v`;
/// a leaf tests none.
pub open spec fn root_above(t: Tree, v: usize) -> bool {
    match t {
        Tree::Leaf(_) => true,
        Tree::Node(w, _, _) => v < w,
    }
}

/// Whether the root of `t` tests no variable less than `v`.
pub open spec fn root_at_or_above(t: Tree, v: usize) -> bool {
    match t {
        Tree::Leaf(_) => true,
        Tree::Node(w, _, _) => v <= w,
    }
}

/// Whether the variables increase strictly along every path from the root.
pub open spec fn ordered(t: Tree) -> bool
    decreases t,
{
    match t {
        Tree::Leaf(_) => true,
        Tree::Node(v, hi, lo) => {
            &&& root_above(*hi, v)
            &&& root_above(*lo, v)
            &&& ordered(*hi)
            &&& ordered(*lo)
        },
    }
}

/// The cofactor of `t` with the variable `v` fixed to `b`.
///
/// At a node that tests `v` it is the branch that `b` selects. A node that
/// tests a greater variable is left as it is: in an ordered tree `v` cannot
/// occur below it. Under a node that tests a smaller variable both branches
/// are restricted and the node keeps its variable.
pub open spec fn restrict_tree(t: Tree, v: usize, b: bool) -> Tree
    decreases t,
{
    match t {
        Tree::Leaf(_) => t,
        Tree::Node(w, hi, lo) => if w == v {
            if b {
                *hi
            } else {
                *lo
            }
        } else if v < w {
            t
        } else {
            Tree::Node(
                w,
                Box::new(restrict_tree(*hi, v, b)),
                Box::new(restrict_tree(*lo, v, b)),
            )
        },
    }
}

/// The smaller of two variables.
pub open spec fn min_var(a: usize, b: usize) -> usize {
    if a <= b {
        a
    } else {
        b
    }
}

/// The variable on which an if-then-else over a node that tests `fv` and the
/// trees `g` and `h` expands: the least of `fv` and the root variables of
/// those of `g` and `h` that are nodes.
pub open spec fn pivot(fv: usize, g: Tree, h: Tree) -> usize {
    match (g, h) {
        (Tree::Leaf(_), Tree::Leaf(_)) => fv,
        (Tree::Leaf(_), Tree::Node(hv, _, _)) => min_var(fv, hv),
        (Tree::Node(gv, _, _), Tree::Leaf(_)) => min_var(fv, gv),
        (Tree::Node(gv, _, _), Tree::Node(hv, _, _)) => min_var(fv, min_var(gv, hv)),
    }
}

/// A cofactor is no larger than the tree it was taken of, and smaller where
/// the root tests the variable that was fixed.
pub proof fn lemma_restrict_size(t: Tree, v: usize, b: bool)
    ensures
        size(restrict_tree(t, v, b)) <= size(t),
        t matches Tree::Node(w, _, _) && w == v ==> size(restrict_tree(t, v, b)) < size(t),
    decreases t,
{
    match t {
        Tree::Leaf(_) => {},
        Tree::Node(w, hi, lo) => {
            if w != v && !(v < w) {
                lemma_restrict_size(*hi, v, b);
                lemma_restrict_size(*lo, v, b);
            }
        },
    }
}

/// The tree of `if f then g else h`, by expansion on the pivot variable.
///
/// A constant `f` selects `g` or `h`. With `g` true and `h` false the result
/// is `f` itself. Otherwise the result tests the pivot `v`, and its branches
/// are the if-then-else of the three cofactors at `v` true and at `v` false.
pub open spec fn ite_tree(f: Tree, g: Tree, h: Tree) -> Tree
    decreases size(f) + size(g) + size(h),
{
    match f {
        Tree::Leaf(c) => if c {
            g
        } else {
            h
        },
        Tree::Node(fv, _, _) => if g == Tree::Leaf(true) && h == Tree::Leaf(false) {
            f
        } else {
            let v = pivot(fv, g, h);
            proof {
                lemma_restrict_size(f, v, true);
                lemma_restrict_size(g, v, true);
                lemma_restrict_size(h, v, true);
                lemma_restrict_size(f, v, false);
                lemma_restrict_size(g, v, false);
                lemma_restrict_size(h, v, false);
            }
            Tree::Node(
                v,
                Box::new(
                    ite_tree(
                        restrict_tree(f, v, true),
                        restrict_tree(g, v, true),
                        restrict_tree(h, v, true),
                    ),
                ),
                Box::new(
                    ite_tree(
                        restrict_tree(f, v, false),
                        restrict_tree(g, v, false),
                        restrict_tree(h, v, false),
                    ),
                ),
            )
        },
    }
}

} // verus!
