//! The arena as a sequence of decision nodes: which sequences are well
//! formed, and the tree that a function reference unfolds to.

use vstd::prelude::*;
use crate::func::{BDDFunc, BDDNode};
use crate::tree::Tree;

verus! {

/// Whether `f` is a constant or names a node below the index `n`.
pub open spec fn in_range(f: BDDFunc, n: int) -> bool {
    match f {
        BDDFunc::C(_) => true,
        BDDFunc::N(i) => i < n,
    }
}

/// The edge of `node` that the value `b` of its variable selects.
pub open spec fn branch(node: BDDNode, b: bool) -> BDDFunc {
    if b {
        node.then_edge
    } else {
        node.else_edge
    }
}

/// Whether `f` is a function reference of the arena `nodes`.
pub open spec fn valid(nodes: Seq<BDDNode>, f: BDDFunc) -> bool {
    in_range(f, nodes.len() as int)
}

/// A well-formed arena: the edges of every node lead to constants or to
/// nodes that were added before it, and no two nodes hold the same triple.
pub open spec fn well_formed(nodes: Seq<BDDNode>) -> bool {
    &&& forall|i: int|
        #![trigger nodes[i]]
        0 <= i < nodes.len() ==> in_range(nodes[i].then_edge, i) && in_range(
            nodes[i].else_edge,
            i,
        )
    &&& forall|i: int, j: int|
        #![trigger nodes[i], nodes[j]]
        0 <= i < nodes.len() && 0 <= j < nodes.len() && nodes[i] == nodes[j] ==> i == j
}

/// The arena after the triple `node` was looked for and, where no node held
/// it, added behind the others.
pub open spec fn with_node(nodes: Seq<BDDNode>, node: BDDNode) -> Seq<BDDNode> {
    if nodes.contains(node) {
        nodes
    } else {
        nodes.push(node)
    }
}

/// Whether `f` names a node of the arena that holds the triple `node`.
pub open spec fn names(nodes: Seq<BDDNode>, f: BDDFunc, node: BDDNode) -> bool {
    f matches BDDFunc::N(i) && i < nodes.len() && nodes[i as int] == node
}

/// Whether the arena `b` is `a` with nodes added behind it.
pub open spec fn extends(a: Seq<BDDNode>, b: Seq<BDDNode>) -> bool {
    &&& a.len() <= b.len()
    &&& forall|i: int| #![trigger b[i]] 0 <= i < a.len() ==> b[i] == a[i]
}

/// Zero for a constant, and one more than its index for a node.
pub open spec fn rank(f: BDDFunc) -> nat {
    match f {
        BDDFunc::C(_) => 0,
        BDDFunc::N(i) => (i + 1) as nat,
    }
}

/// The decision tree that `f` unfolds to in the arena `nodes`.
///
/// A reference that is not valid, or a node with an edge that does not lead
/// back, unfolds to the leaf `false`; in a well-formed arena neither occurs.
pub open spec fn tree_of(nodes: Seq<BDDNode>, f: BDDFunc) -> Tree
    decreases rank(f),
{
    match f {
        BDDFunc::C(b) => Tree::Leaf(b),
        BDDFunc::N(i) => if i < nodes.len() && in_range(nodes[i as int].then_edge, i as int)
            && in_range(nodes[i as int].else_edge, i as int) {
            Tree::Node(
                nodes[i as int].label,
                Box::new(tree_of(nodes, nodes[i as int].then_edge)),
                Box::new(tree_of(nodes, nodes[i as int].else_edge)),
            )
        } else {
            Tree::Leaf(false)
        },
    }
}

/// Whether the node at index `i` is part of the diagram of `f`: `f` names
/// it, or one of the edges of the node that `f` names leads on to it.
pub open spec fn reaches(nodes: Seq<BDDNode>, f: BDDFunc, i: int) -> bool
    decreases rank(f),
{
    match f {
        BDDFunc::C(_) => false,
        BDDFunc::N(n) => n < nodes.len() && in_range(nodes[n as int].then_edge, n as int)
            && in_range(nodes[n as int].else_edge, n as int) && (n == i || reaches(
            nodes,
            nodes[n as int].then_edge,
            i,
        ) || reaches(nodes, nodes[n as int].else_edge, i)),
    }
}

/// Whether every node that `b` holds behind those of `a` is part of the
/// diagram of `f`.
pub open spec fn grown_for(a: Seq<BDDNode>, b: Seq<BDDNode>, f: BDDFunc) -> bool {
    forall|i: int| a.len() <= i < b.len() ==> #[trigger] reaches(b, f, i)
}

/// Every arena extends itself, and extension is transitive.
pub proof fn lemma_extends_trans(a: Seq<BDDNode>, b: Seq<BDDNode>, c: Seq<BDDNode>)
    requires
        extends(a, b),
        extends(b, c),
    ensures
        extends(a, a),
        extends(a, c),
{
}

/// Looking for a triple a second time finds the node of the first time:
/// whatever was added to the arena in between, the same reference names the
/// triple, and the arena does not grow again.
pub proof fn lemma_find_again(
    a: Seq<BDDNode>,
    b: Seq<BDDNode>,
    node: BDDNode,
    first: BDDFunc,
    second: BDDFunc,
)
    requires
        well_formed(b),
        extends(with_node(a, node), b),
        names(with_node(a, node), first, node),
        names(with_node(b, node), second, node),
    ensures
        with_node(b, node) == b,
        second == first,
{
    let i = first->N_0;
    assert(b[i as int] == node);
}

/// A reference keeps its tree when nodes are added to the arena: what was
/// built is never changed.
pub proof fn lemma_tree_stable(a: Seq<BDDNode>, b: Seq<BDDNode>, f: BDDFunc)
    requires
        extends(a, b),
        valid(a, f),
    ensures
        valid(b, f),
        tree_of(b, f) == tree_of(a, f),
    decreases rank(f),
{
    match f {
        BDDFunc::C(_) => {},
        BDDFunc::N(i) => {
            let n = a[i as int];
            assert(b[i as int] == n);
            if in_range(n.then_edge, i as int) && in_range(n.else_edge, i as int) {
                lemma_tree_stable(a, b, n.then_edge);
                lemma_tree_stable(a, b, n.else_edge);
            }
        },
    }
}

/// A diagram keeps its nodes when nodes are added to the arena.
pub proof fn lemma_reaches_stable(a: Seq<BDDNode>, b: Seq<BDDNode>, f: BDDFunc, i: int)
    requires
        extends(a, b),
        valid(a, f),
    ensures
        reaches(b, f, i) == reaches(a, f, i),
    decreases rank(f),
{
    match f {
        BDDFunc::C(_) => {},
        BDDFunc::N(n) => {
            let node = a[n as int];
            assert(b[n as int] == node);
            if in_range(node.then_edge, n as int) && in_range(node.else_edge, n as int) {
                lemma_reaches_stable(a, b, node.then_edge, i);
                lemma_reaches_stable(a, b, node.else_edge, i);
            }
        },
    }
}

/// In a well-formed arena a reference is determined by its tree: two valid
/// references that unfold to the same tree are the same reference.
pub proof fn lemma_tree_injective(nodes: Seq<BDDNode>, f: BDDFunc, g: BDDFunc)
    requires
        well_formed(nodes),
        valid(nodes, f),
        valid(nodes, g),
        tree_of(nodes, f) == tree_of(nodes, g),
    ensures
        f == g,
    decreases rank(f),
{
    match (f, g) {
        (BDDFunc::N(i), BDDFunc::N(j)) => {
            let n = nodes[i as int];
            let m = nodes[j as int];
            lemma_tree_injective(nodes, n.then_edge, m.then_edge);
            lemma_tree_injective(nodes, n.else_edge, m.else_edge);
            assert(n == m);
        },
        _ => {},
    }
}

} // verus!
