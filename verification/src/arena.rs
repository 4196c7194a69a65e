//! The expression arena: a flat, append-only store of nodes that refer to
//! each other by index. Node 0 is the root.

use vstd::prelude::*;
use crate::term::{substitute, NodeId, NodeModel, Term, TermModel, TermNode};

verus! {

/// Node `c` is in the arena, is not the root, and names `i` as its parent.
pub open spec fn child_ok(nodes: Seq<NodeModel>, i: int, c: NodeId) -> bool {
    0 < c < nodes.len() && nodes[c as int].parent == Some(i as usize)
}

/// The parent of node `i`, if it has one, is in the arena and lists `i` as a
/// child.
pub open spec fn parent_ok(nodes: Seq<NodeModel>, i: int) -> bool {
    match nodes[i].parent {
        Some(p) => p < nodes.len() && nodes[p as int].term.children().contains(i as usize),
        None => true,
    }
}

/// The structural invariant of an arena: the root has no parent, every node
/// knows its own index, and child and parent links agree in both directions.
pub open spec fn tree_wf(nodes: Seq<NodeModel>) -> bool {
    &&& 0 < nodes.len() <= usize::MAX
    &&& nodes[0].parent is None
    &&& forall|i: int| 0 <= i < nodes.len() ==> (#[trigger] nodes[i]).id == i
    &&& forall|i: int, k: int|
        0 <= i < nodes.len() && 0 <= k < nodes[i].term.children().len() ==> child_ok(
            nodes,
            i,
            #[trigger] nodes[i].term.children()[k],
        )
    &&& forall|i: int| 0 <= i < nodes.len() ==> #[trigger] parent_ok(nodes, i)
    &&& forall|i: int|
        0 <= i < nodes.len() ==> (#[trigger] nodes[i]).term.children().no_duplicates()
}

/// `rank` strictly decreases from every node to each of its children, so no
/// node is its own descendant.
pub open spec fn ranked(nodes: Seq<NodeModel>, rank: Seq<nat>) -> bool {
    &&& rank.len() == nodes.len()
    &&& forall|i: int, k: int|
        0 <= i < nodes.len() && 0 <= k < nodes[i].term.children().len() ==> rank[(
        #[trigger] nodes[i].term.children()[k]) as int] < rank[i]
}

/// The terms of an arena, node by node.
pub open spec fn terms(nodes: Seq<NodeModel>) -> Seq<TermModel> {
    Seq::new(nodes.len(), |i: int| nodes[i].term)
}

/// Node `i` is node `a` or stands below it: it is `a`, a child of `a`, a
/// child of a child, and so on. Only links that go down in rank count, as
/// all links of a valid arena do.
pub open spec fn below(terms: Seq<TermModel>, rank: Seq<nat>, a: NodeId, i: NodeId) -> bool
    decreases rank[a as int],
{
    a < terms.len() && (i == a || exists|k: int|
        0 <= k < terms[a as int].children().len() && rank[(
        #[trigger] terms[a as int].children()[k]) as int] < rank[a as int] && below(
            terms,
            rank,
            terms[a as int].children()[k],
            i,
        ))
}

/// What stands below a node holds its children: if `i` is below `a`, so is
/// every child of `i`.
pub proof fn lemma_below_child(nodes: Seq<NodeModel>, rank: Seq<nat>, a: NodeId, i: NodeId, k: int)
    requires
        tree_wf(nodes),
        ranked(nodes, rank),
        below(terms(nodes), rank, a, i),
        i < nodes.len(),
        0 <= k < nodes[i as int].term.children().len(),
    ensures
        below(terms(nodes), rank, a, nodes[i as int].term.children()[k]),
        nodes[i as int].term.children()[k] < nodes.len(),
    decreases rank[a as int],
{
    let t = terms(nodes);
    let c = nodes[i as int].term.children()[k];
    assert(child_ok(nodes, i as int, c));
    assert(rank[c as int] < rank[i as int]);
    assert(t[i as int] == nodes[i as int].term);
    assert(t[c as int] == nodes[c as int].term);
    if i == a {
        assert(below(t, rank, c, c));
        assert(t[a as int].children()[k] == c);
    } else {
        let k0 = choose|k0: int|
            0 <= k0 < t[a as int].children().len() && rank[(
            #[trigger] t[a as int].children()[k0]) as int] < rank[a as int] && below(
                t,
                rank,
                t[a as int].children()[k0],
                i,
            );
        assert(t[a as int] == nodes[a as int].term);
        lemma_below_child(nodes, rank, t[a as int].children()[k0], i, k);
    }
}

/// The arena is one tree that has not been measured: every node but the
/// root has a parent, and no node has a cached size.
pub open spec fn pristine(nodes: Seq<NodeModel>) -> bool {
    forall|i: int|
        0 <= i < nodes.len() ==> (#[trigger] nodes[i]).layout is None && (i > 0
            ==> nodes[i].parent is Some)
}

/// No node of the arena is empty.
pub open spec fn no_empty(nodes: Seq<NodeModel>) -> bool {
    forall|j: int| 0 <= j < nodes.len() ==> !((#[trigger] nodes[j]).term is Empty)
}

/// Node `e` is the one empty node of the arena.
pub open spec fn only_empty(nodes: Seq<NodeModel>, e: int) -> bool {
    forall|j: int| 0 <= j < nodes.len() ==> ((#[trigger] nodes[j]).term is Empty <==> j == e)
}

/// A node as it is when it enters the arena: not yet measured.
pub open spec fn fresh(id: int, term: TermModel, parent: Option<NodeId>) -> NodeModel {
    NodeModel { id: id as usize, term, parent, layout: None }
}

/// The arena with the term of node `i` replaced and its cached size dropped.
pub open spec fn set_term(nodes: Seq<NodeModel>, i: int, term: TermModel) -> Seq<NodeModel> {
    nodes.update(i, NodeModel { term, layout: None, ..nodes[i] })
}

/// A rank for an arena that has just grown: every old rank is raised, so
/// that a new leaf of rank 0 fits below any old node.
pub open spec fn bump(rank: Seq<nat>) -> Seq<nat> {
    Seq::new(rank.len(), |j: int| 2 * rank[j] + 1)
}

/// The unary term around child `c`.
pub open spec fn unary(negative: bool, c: NodeId) -> TermModel {
    if negative {
        TermModel::Negative(c)
    } else {
        TermModel::Parentheses(c)
    }
}

/// The arena after leaf `i` has become a negation or a pair of parentheses
/// around a new empty node, which is the last node.
pub open spec fn enclose(nodes: Seq<NodeModel>, i: int, negative: bool) -> Seq<NodeModel> {
    set_term(nodes, i, unary(negative, nodes.len() as usize)).push(
        fresh(nodes.len() as int, TermModel::Empty, Some(i as usize)),
    )
}

/// The arena after the product or sum `p` has got a new empty node as its
/// last child, which is the last node.
pub open spec fn append_child(nodes: Seq<NodeModel>, p: int) -> Seq<NodeModel> {
    set_term(
        nodes,
        p,
        nodes[p].term.with_children(nodes[p].term.children().push(nodes.len() as usize)),
    ).push(fresh(nodes.len() as int, TermModel::Empty, Some(p as usize)))
}

/// The operator that `wrap` puts in the place of a node.
#[derive(Clone, Copy, Debug, PartialEq, Eq, Structural)]
pub enum WrapKind {
    /// A multiplication of the old term and the new node.
    Product,
    /// An addition of the old term and the new node.
    Sum,
    /// A division of the old term by the new node.
    Quotient,
    /// The old term raised to the new node.
    Power,
}

impl WrapKind {
    /// The operator term over the moved term `o` and the new node `e`.
    pub open spec fn term(self, o: NodeId, e: NodeId) -> TermModel {
        match self {
            WrapKind::Product => TermModel::Multiplication(seq![o, e]),
            WrapKind::Sum => TermModel::Addition(seq![o, e]),
            WrapKind::Quotient => TermModel::Division(o, e),
            WrapKind::Power => TermModel::Exponentiation(o, e),
        }
    }
}

/// The arena after every node of `cs` has been given the parent `p`.
pub open spec fn adopt(nodes: Seq<NodeModel>, cs: Seq<NodeId>, p: NodeId) -> Seq<NodeModel> {
    Seq::new(
        nodes.len(),
        |j: int|
            if cs.contains(j as usize) {
                NodeModel { parent: Some(p), ..nodes[j] }
            } else {
                nodes[j]
            },
    )
}

/// The arena after node `m` has been wrapped in an operator: its term moves,
/// with its children, to a new node `o` (the last but one), a new empty node
/// `e` (the last) joins it, and `m` becomes the operator over `o` and `e`.
pub open spec fn wrap(nodes: Seq<NodeModel>, m: int, kind: WrapKind) -> Seq<NodeModel> {
    let o = nodes.len() as usize;
    let e = (nodes.len() + 1) as usize;
    set_term(adopt(nodes, nodes[m].term.children(), o), m, kind.term(o, e)).push(
        fresh(o as int, nodes[m].term, Some(m as usize)),
    ).push(fresh(e as int, TermModel::Empty, Some(m as usize)))
}

/// The rank that goes with `wrap`.
pub open spec fn wrap_rank(rank: Seq<nat>, m: int) -> Seq<nat> {
    Seq::new(
        rank.len() + 2,
        |j: int|
            if j == m {
                2 * rank[m] + 2
            } else if j == rank.len() {
                2 * rank[m] + 1
            } else if j == rank.len() + 1 {
                0
            } else {
                2 * rank[j] + 1
            },
    )
}

/// Wrapping a node keeps the invariant.
pub proof fn lemma_wrap_wf(nodes: Seq<NodeModel>, rank: Seq<nat>, m: int, kind: WrapKind)
    requires
        tree_wf(nodes),
        ranked(nodes, rank),
        0 <= m < nodes.len(),
        nodes.len() + 2 <= usize::MAX,
    ensures
        tree_wf(wrap(nodes, m, kind)),
        ranked(wrap(nodes, m, kind), wrap_rank(rank, m)),
{
    let after = wrap(nodes, m, kind);
    let o = nodes.len() as usize;
    let e = (nodes.len() + 1) as usize;
    let cs = nodes[m].term.children();
    let rank2 = wrap_rank(rank, m);
    assert(after[m as int].term.children() =~= seq![o, e]);
    assert(after[o as int].term.children() == cs);
    assert(after[e as int].term.children() =~= Seq::<NodeId>::empty());
    assert forall|k: int| 0 <= k < cs.len() implies child_ok(nodes, m, #[trigger] cs[k])
        && rank[cs[k] as int] < rank[m] && cs[k] != m by {
        assert(child_ok(nodes, m, nodes[m].term.children()[k]));
        assert(rank[nodes[m].term.children()[k] as int] < rank[m]);
    }
    assert forall|j: int| 0 <= j < nodes.len() && j != m implies (#[trigger] after[j]).term
        == nodes[j].term && after[j].id == nodes[j].id && after[j].parent == (if cs.contains(
        j as usize,
    ) {
        Some(o)
    } else {
        nodes[j].parent
    }) by {}
    assert(!cs.contains(m as usize));
    assert(after[m].parent == nodes[m].parent);
    assert forall|j: int| 0 <= j < after.len() implies #[trigger] parent_ok(after, j) by {
        if j == o {
            assert(seq![o, e][0] == o);
        } else if j == e {
            assert(seq![o, e][1] == e);
        } else if j != m && cs.contains(j as usize) {
        } else {
            assert(parent_ok(nodes, j));
            match nodes[j].parent {
                Some(p) => {
                    if p == m {
                        assert(cs.contains(j as usize));
                    }
                },
                None => {},
            }
        }
    }
    assert forall|j: int| 0 <= j < after.len() implies (#[trigger] after[j]).id == j by {
        if j < nodes.len() {
            assert(nodes[j].id == j);
        }
    }
    assert forall|j: int, k: int|
        0 <= j < after.len() && 0 <= k < after[j].term.children().len() implies child_ok(
        after,
        j,
        #[trigger] after[j].term.children()[k],
    ) && rank2[after[j].term.children()[k] as int] < rank2[j] by {
        if j == m {
        } else if j == o {
            assert(cs.contains(cs[k]));
        } else {
            let c = nodes[j].term.children()[k];
            assert(child_ok(nodes, j, c));
            assert(rank[c as int] < rank[j]);
            if cs.contains(c) {
                let k2 = choose|k2: int| 0 <= k2 < cs.len() && cs[k2] == c;
                assert(child_ok(nodes, m, cs[k2]));
            }
        }
    }
    assert forall|j: int| 0 <= j < after.len() implies (
    #[trigger] after[j]).term.children().no_duplicates() by {
        if j == o {
            assert(nodes[m].term.children().no_duplicates());
        } else if j < nodes.len() && j != m {
            assert(nodes[j].term.children().no_duplicates());
        }
    }
}

/// The arena after a new empty factor has been opened beside node `i`: in
/// the product that `i` is, else in the product that `i` is a factor of,
/// else in a new product that wraps `i`. The new node is the last one.
pub open spec fn append_mult(nodes: Seq<NodeModel>, i: int) -> Seq<NodeModel> {
    if nodes[i].term is Multiplication {
        append_child(nodes, i)
    } else if nodes[i].parent is Some && nodes[nodes[i].parent->0 as int].term is Multiplication {
        append_child(nodes, nodes[i].parent->0 as int)
    } else {
        wrap(nodes, i, WrapKind::Product)
    }
}

/// The arena after the parent of node `c` has been made to refer to a new
/// node (the last one) holding `term` in the place of `c`, which is left
/// without a parent.
pub open spec fn replace_child(nodes: Seq<NodeModel>, c: int, term: TermModel) -> Seq<NodeModel> {
    let p = nodes[c].parent->0 as int;
    let n = nodes.len() as usize;
    set_term(
        nodes,
        p,
        nodes[p].term.with_children(substitute(nodes[p].term.children(), c as usize, n)),
    ).update(c, NodeModel { parent: None, ..nodes[c] }).push(fresh(n as int, term, Some(p as usize)))
}

/// Replacing a child keeps the invariant.
pub proof fn lemma_replace_child_wf(nodes: Seq<NodeModel>, rank: Seq<nat>, c: int, term: TermModel)
    requires
        tree_wf(nodes),
        ranked(nodes, rank),
        0 <= c < nodes.len() < usize::MAX,
        nodes[c].parent is Some,
        term.children().len() == 0,
    ensures
        tree_wf(replace_child(nodes, c, term)),
        ranked(replace_child(nodes, c, term), bump(rank).push(0)),
{
    let after = replace_child(nodes, c, term);
    let p = nodes[c].parent->0 as int;
    let n = nodes.len() as usize;
    let cs = nodes[p].term.children();
    let cs2 = substitute(cs, c as usize, n);
    let rank2 = bump(rank).push(0);
    assert(parent_ok(nodes, c));
    assert(nodes[p].term.with_children(cs2).children() =~= cs2) by {
        assert(cs2.len() == cs.len());
        match nodes[p].term {
            TermModel::Negative(_) | TermModel::Parentheses(_) => {
                assert(seq![cs2[0]] =~= cs2);
            },
            TermModel::Division(_, _) | TermModel::Exponentiation(_, _) => {
                assert(seq![cs2[0], cs2[1]] =~= cs2);
            },
            _ => {},
        }
    }
    let kc = choose|k: int| 0 <= k < cs.len() && cs[k] == c as usize;
    assert(child_ok(nodes, p, nodes[p].term.children()[kc]));
    assert(rank[nodes[p].term.children()[kc] as int] < rank[p]);
    assert(p != c);
    assert(after[p].term.children() == cs2);
    assert(after[c].term == nodes[c].term);
    assert forall|j: int| 0 <= j < nodes.len() && j != p && j != c implies after[j]
        == nodes[j] by {}
    assert forall|j: int| 0 <= j < after.len() implies #[trigger] parent_ok(after, j) by {
        if j == n {
            assert(cs2[kc] == n);
        } else if j != c {
            assert(parent_ok(nodes, j));
            if nodes[j].parent == Some(p as usize) {
                let k = choose|k: int| 0 <= k < cs.len() && cs[k] == j as usize;
                assert(cs2[k] == j as usize);
            }
            if nodes[j].parent == Some(c as usize) {
                assert(after[c].term.children() == nodes[c].term.children());
            }
        }
    }
    assert forall|j: int| 0 <= j < after.len() implies (#[trigger] after[j]).id == j by {
        if j < nodes.len() {
            assert(nodes[j].id == j);
        }
    }
    assert forall|j: int, k: int|
        0 <= j < after.len() && 0 <= k < after[j].term.children().len() implies child_ok(
        after,
        j,
        #[trigger] after[j].term.children()[k],
    ) && rank2[after[j].term.children()[k] as int] < rank2[j] by {
        if j == p {
            if cs[k] != c as usize {
                assert(child_ok(nodes, p, nodes[p].term.children()[k]));
                assert(rank[nodes[p].term.children()[k] as int] < rank[p]);
            }
        } else if j < nodes.len() {
            let x = nodes[j].term.children()[k];
            assert(child_ok(nodes, j, x));
            assert(rank[x as int] < rank[j]);
            assert(x != c as usize);
        }
    }
    assert forall|j: int| 0 <= j < after.len() implies (
    #[trigger] after[j]).term.children().no_duplicates() by {
        if j == p {
            assert(cs.no_duplicates());
            assert forall|a: int, b: int|
                0 <= a < cs2.len() && 0 <= b < cs2.len() && a != b implies cs2[a] != cs2[b] by {
                assert(child_ok(nodes, p, nodes[p].term.children()[a]));
                assert(child_ok(nodes, p, nodes[p].term.children()[b]));
            }
        } else if j < nodes.len() {
            assert(nodes[j].term.children().no_duplicates());
        }
    }
}

/// Enclosing a leaf keeps the invariant.
pub proof fn lemma_enclose_wf(nodes: Seq<NodeModel>, rank: Seq<nat>, i: int, negative: bool)
    requires
        tree_wf(nodes),
        ranked(nodes, rank),
        0 <= i < nodes.len() < usize::MAX,
        nodes[i].term.children().len() == 0,
    ensures
        tree_wf(enclose(nodes, i, negative)),
        ranked(enclose(nodes, i, negative), bump(rank).push(0)),
{
    let after = enclose(nodes, i, negative);
    let e = nodes.len() as usize;
    let rank2 = bump(rank).push(0);
    assert(after[i].term.children() =~= seq![e]);
    assert forall|j: int| 0 <= j < nodes.len() && j != i implies after[j] == nodes[j] by {}
    assert forall|j: int| 0 <= j < after.len() implies #[trigger] parent_ok(after, j) by {
        if j < nodes.len() {
            assert(parent_ok(nodes, j));
        } else {
            assert(after[i].term.children()[0] == e);
        }
    }
    assert forall|j: int| 0 <= j < after.len() implies (#[trigger] after[j]).id == j by {
        if j < nodes.len() {
            assert(nodes[j].id == j);
        }
    }
    assert forall|j: int, k: int|
        0 <= j < after.len() && 0 <= k < after[j].term.children().len() implies child_ok(
        after,
        j,
        #[trigger] after[j].term.children()[k],
    ) && rank2[after[j].term.children()[k] as int] < rank2[j] by {
        if j != i {
            assert(child_ok(nodes, j, nodes[j].term.children()[k]));
            assert(rank[nodes[j].term.children()[k] as int] < rank[j]);
        }
    }
    assert forall|j: int| 0 <= j < after.len() implies (
    #[trigger] after[j]).term.children().no_duplicates() by {
        if j < nodes.len() && j != i {
            assert(nodes[j].term.children().no_duplicates());
        }
    }
}

/// Appending a child to a product or a sum keeps the invariant.
pub proof fn lemma_append_child_wf(nodes: Seq<NodeModel>, rank: Seq<nat>, p: int)
    requires
        tree_wf(nodes),
        ranked(nodes, rank),
        0 <= p < nodes.len() < usize::MAX,
        nodes[p].term is Multiplication || nodes[p].term is Addition,
    ensures
        tree_wf(append_child(nodes, p)),
        ranked(append_child(nodes, p), bump(rank).push(0)),
{
    let after = append_child(nodes, p);
    let e = nodes.len() as usize;
    let rank2 = bump(rank).push(0);
    let cs = nodes[p].term.children();
    assert(after[p].term.children() =~= cs.push(e));
    assert forall|j: int| 0 <= j < nodes.len() && j != p implies after[j] == nodes[j] by {}
    assert forall|k: int| 0 <= k < cs.len() implies child_ok(nodes, p, #[trigger] cs[k]) && rank[cs[k] as int] < rank[p] by {
        assert(child_ok(nodes, p, nodes[p].term.children()[k]));
        assert(rank[nodes[p].term.children()[k] as int] < rank[p]);
    }
    assert forall|j: int| 0 <= j < after.len() implies #[trigger] parent_ok(after, j) by {
        if j < nodes.len() {
            assert(parent_ok(nodes, j));
            if nodes[j].parent == Some(p as usize) {
                let k = choose|k: int| 0 <= k < cs.len() && cs[k] == j as usize;
                assert(cs.push(e)[k] == j as usize);
            }
        } else {
            assert(cs.push(e)[cs.len() as int] == e);
        }
    }
    assert forall|j: int| 0 <= j < after.len() implies (#[trigger] after[j]).id == j by {
        if j < nodes.len() {
            assert(nodes[j].id == j);
        }
    }
    assert forall|j: int, k: int|
        0 <= j < after.len() && 0 <= k < after[j].term.children().len() implies child_ok(
        after,
        j,
        #[trigger] after[j].term.children()[k],
    ) && rank2[after[j].term.children()[k] as int] < rank2[j] by {
        if j != p {
            assert(child_ok(nodes, j, nodes[j].term.children()[k]));
            assert(rank[nodes[j].term.children()[k] as int] < rank[j]);
        } else if k < cs.len() {
            assert(child_ok(nodes, p, cs[k]));
        }
    }
    assert forall|j: int| 0 <= j < after.len() implies (
    #[trigger] after[j]).term.children().no_duplicates() by {
        if j < nodes.len() && j != p {
            assert(nodes[j].term.children().no_duplicates());
        } else if j == p {
            assert(cs.no_duplicates());
            assert forall|a: int, b: int|
                0 <= a < cs.push(e).len() && 0 <= b < cs.push(e).len() && a != b implies cs.push(
                e,
            )[a] != cs.push(e)[b] by {
                if a < cs.len() {
                    assert(child_ok(nodes, p, cs[a]));
                }
                if b < cs.len() {
                    assert(child_ok(nodes, p, cs[b]));
                }
            }
        }
    }
}

/// Replacing one leaf term by another keeps the invariant.
pub proof fn lemma_fill_wf(nodes: Seq<NodeModel>, rank: Seq<nat>, i: int, term: TermModel)
    requires
        tree_wf(nodes),
        ranked(nodes, rank),
        0 <= i < nodes.len(),
        nodes[i].term.children().len() == 0,
        term.children().len() == 0,
    ensures
        tree_wf(set_term(nodes, i, term)),
        ranked(set_term(nodes, i, term), rank),
{
    let after = set_term(nodes, i, term);
    assert forall|j: int| 0 <= j < after.len() implies after[j].term.children()
        == nodes[j].term.children() by {
        if j == i {
            assert(after[j].term.children() =~= nodes[j].term.children());
        }
    }
    assert forall|j: int| 0 <= j < after.len() implies #[trigger] parent_ok(after, j) by {
        assert(parent_ok(nodes, j));
    }
    assert forall|j: int| 0 <= j < after.len() implies (#[trigger] after[j]).id == j by {
        assert(nodes[j].id == j);
    }
    assert forall|j: int, k: int|
        0 <= j < after.len() && 0 <= k < after[j].term.children().len() implies child_ok(
        after,
        j,
        #[trigger] after[j].term.children()[k],
    ) by {
        assert(child_ok(nodes, j, nodes[j].term.children()[k]));
    }
    assert forall|j: int| 0 <= j < after.len() implies (
    #[trigger] after[j]).term.children().no_duplicates() by {
        assert(nodes[j].term.children().no_duplicates());
    }
    assert forall|j: int, k: int|
        0 <= j < after.len() && 0 <= k < after[j].term.children().len() implies rank[(
    #[trigger] after[j].term.children()[k]) as int] < rank[j] by {
        assert(rank[nodes[j].term.children()[k] as int] < rank[j]);
    }
}

/// An expression tree held in an arena.
pub struct TermTree {
    pub(crate) nodes: Vec<TermNode>,
    pub(crate) rank: Ghost<Seq<nat>>,
}

impl View for TermTree {
    type V = Seq<NodeModel>;

    open(crate) spec fn view(&self) -> Seq<NodeModel> {
        Seq::new(self.nodes@.len(), |i: int| self.nodes@[i]@)
    }
}

impl TermTree {
    /// A rank for every node, smaller for a child than for its parent.
    pub open(crate) spec fn ranks(&self) -> Seq<nat> {
        self.rank@
    }

    /// Node `i` is node `a` or stands below it.
    pub open(crate) spec fn is_below(&self, a: NodeId, i: NodeId) -> bool {
        below(terms(self@), self.rank@, a, i)
    }

    /// The invariant that every operation keeps.
    pub open(crate) spec fn wf(&self) -> bool {
        tree_wf(self@) && ranked(self@, self.rank@)
    }

    /// A tree of one empty root.
    pub fn new() -> (t: TermTree)
        ensures
            t.wf(),
            t@ == seq![fresh(0, TermModel::Empty, None)],
            pristine(t@),
    {
        let mut nodes: Vec<TermNode> = Vec::new();
        nodes.push(TermNode { id: 0, term: Term::Empty, parent: None, layout: None });
        let ghost rank = seq![0nat];
        let t = TermTree { nodes, rank: Ghost(rank) };
        assert(t@ =~= seq![fresh(0, TermModel::Empty, None)]);
        t
    }

    /// How many nodes the arena holds.
    pub fn len(&self) -> (n: usize)
        ensures
            n == self@.len(),
    {
        self.nodes.len()
    }

    /// A copy of node `idx`.
    pub fn get(&self, idx: NodeId) -> (node: TermNode)
        requires
            idx < self@.len(),
        ensures
            node@ == self@[idx as int],
    {
        self.nodes[idx].duplicate()
    }

    /// Turns the leaf `idx` into a negation, or a pair of parentheses, around
    /// a new empty node, and returns that node.
    pub fn enclose(&mut self, idx: NodeId, negative: bool) -> (e: NodeId)
        requires
            old(self).wf(),
            idx < old(self)@.len() < usize::MAX,
            old(self)@[idx as int].term.children().len() == 0,
        ensures
            final(self).wf(),
            final(self)@ == enclose(old(self)@, idx as int, negative),
            e == old(self)@.len(),
            pristine(old(self)@) ==> pristine(final(self)@),
            only_empty(old(self)@, idx as int) ==> only_empty(final(self)@, e as int),
    {
        let e = self.nodes.len();
        self.nodes.push(TermNode { id: e, term: Term::Empty, parent: Some(idx), layout: None });
        self.nodes[idx].term = if negative {
            Term::Negative(e)
        } else {
            Term::Parentheses(e)
        };
        self.nodes[idx].layout = None;
        proof {
            assert(self@ =~= enclose(old(self)@, idx as int, negative));
            lemma_enclose_wf(old(self)@, old(self).rank@, idx as int, negative);
            self.rank@ = bump(old(self).rank@).push(0);
        }
        e
    }

    /// Gives the product or sum `p` a new empty node as its last child, and
    /// returns that node.
    pub fn append_child(&mut self, p: NodeId) -> (e: NodeId)
        requires
            old(self).wf(),
            p < old(self)@.len() < usize::MAX,
            old(self)@[p as int].term is Multiplication || old(self)@[p as int].term is Addition,
        ensures
            final(self).wf(),
            final(self)@ == append_child(old(self)@, p as int),
            e == old(self)@.len(),
            pristine(old(self)@) ==> pristine(final(self)@),
            no_empty(old(self)@) ==> only_empty(final(self)@, e as int),
    {
        let e = self.nodes.len();
        self.nodes.push(TermNode { id: e, term: Term::Empty, parent: Some(p), layout: None });
        match &mut self.nodes[p].term {
            Term::Multiplication(cs) => {
                cs.push(e);
            },
            Term::Addition(cs) => {
                cs.push(e);
            },
            _ => {},
        }
        self.nodes[p].layout = None;
        proof {
            assert(self@ =~= append_child(old(self)@, p as int));
            lemma_append_child_wf(old(self)@, old(self).rank@, p as int);
            self.rank@ = bump(old(self).rank@).push(0);
        }
        e
    }

    /// Wraps node `m` in an operator of the given kind: the term of `m` moves
    /// to a new node, and `m` becomes the operator over that node and a new
    /// empty node, which is returned.
    pub fn wrap(&mut self, m: NodeId, kind: WrapKind) -> (e: NodeId)
        requires
            old(self).wf(),
            m < old(self)@.len(),
            old(self)@.len() + 2 <= usize::MAX,
        ensures
            final(self).wf(),
            final(self)@ == wrap(old(self)@, m as int, kind),
            e == old(self)@.len() + 1,
            pristine(old(self)@) ==> pristine(final(self)@),
            no_empty(old(self)@) ==> only_empty(final(self)@, e as int),
    {
        let o = self.nodes.len();
        let e = o + 1;
        let term = self.nodes[m].term.duplicate();
        let cs = term.children();
        let mut k: usize = 0;
        while k < cs.len()
            invariant
                0 <= k <= cs.len(),
                cs@ == old(self)@[m as int].term.children(),
                o == old(self)@.len(),
                self@ =~= adopt(old(self)@, cs@.take(k as int), o),
                tree_wf(old(self)@),
                self.nodes@.len() == o,
                m < o,
            decreases cs.len() - k,
        {
            let c = cs[k];
            proof {
                assert(child_ok(old(self)@, m as int, old(self)@[m as int].term.children()[k as int]));
                assert(cs@.take(k as int + 1) =~= cs@.take(k as int).push(c));
                assert forall|j: usize|
                    cs@.take(k as int + 1).contains(j) <==> cs@.take(k as int).contains(j) || j
                        == c by {
                    if cs@.take(k as int).contains(j) {
                        let i = choose|i: int|
                            0 <= i < cs@.take(k as int).len() && cs@.take(k as int)[i] == j;
                        assert(cs@.take(k as int + 1)[i] == j);
                    }
                    if j == c {
                        assert(cs@.take(k as int + 1)[k as int] == j);
                    }
                }
            }
            let ghost before = self@;
            self.nodes[c].parent = Some(o);
            k += 1;
            proof {
                assert(self@ =~= before.update(
                    c as int,
                    NodeModel { parent: Some(o), ..before[c as int] },
                ));
                assert(self@ =~= adopt(old(self)@, cs@.take(k as int), o));
            }
        }
        proof {
            assert(cs@.take(k as int) =~= cs@);
        }
        self.nodes.push(TermNode { id: o, term, parent: Some(m), layout: None });
        self.nodes.push(TermNode { id: e, term: Term::Empty, parent: Some(m), layout: None });
        self.nodes[m].term = match kind {
            WrapKind::Product => Term::Multiplication(vec![o, e]),
            WrapKind::Sum => Term::Addition(vec![o, e]),
            WrapKind::Quotient => Term::Division(o, e),
            WrapKind::Power => Term::Exponentiation(o, e),
        };
        self.nodes[m].layout = None;
        proof {
            assert(self@ =~= wrap(old(self)@, m as int, kind));
            lemma_wrap_wf(old(self)@, old(self).rank@, m as int, kind);
            self.rank@ = wrap_rank(old(self).rank@, m as int);
        }
        e
    }

    /// Opens a new empty factor beside node `idx` and returns it: `idx`
    /// itself gets it if it is a product, else the product that `idx` is a
    /// factor of, else a new product that wraps `idx`.
    pub fn append_mult(&mut self, idx: NodeId) -> (e: NodeId)
        requires
            old(self).wf(),
            idx < old(self)@.len(),
            old(self)@.len() + 2 <= usize::MAX,
        ensures
            final(self).wf(),
            final(self)@ == append_mult(old(self)@, idx as int),
            e == final(self)@.len() - 1,
            final(self)@[e as int].term is Empty,
            old(self)@.len() < final(self)@.len() <= old(self)@.len() + 2,
            pristine(old(self)@) ==> pristine(final(self)@),
            no_empty(old(self)@) ==> only_empty(final(self)@, e as int),
    {
        if let Term::Multiplication(_) = &self.nodes[idx].term {
            return self.append_child(idx);
        }
        if let Some(p) = self.nodes[idx].parent {
            proof {
                assert(parent_ok(self@, idx as int));
            }
            if let Term::Multiplication(_) = &self.nodes[p].term {
                return self.append_child(p);
            }
        }
        self.wrap(idx, WrapKind::Product)
    }

    /// Makes the parent of node `child` refer to a new node that holds the
    /// leaf `term` in the place of `child`, and returns the new node. `child`
    /// stays in the arena, without a parent.
    pub fn replace_child(&mut self, child: NodeId, term: Term) -> (n: NodeId)
        requires
            old(self).wf(),
            child < old(self)@.len() < usize::MAX,
            old(self)@[child as int].parent is Some,
            term@.children().len() == 0,
        ensures
            final(self).wf(),
            final(self)@ == replace_child(old(self)@, child as int, term@),
            n == old(self)@.len(),
    {
        let n = self.nodes.len();
        let p = self.nodes[child].parent.unwrap();
        proof {
            assert(parent_ok(self@, child as int));
        }
        let redirected = self.nodes[p].term.redirected(child, n);
        self.nodes[p].term = redirected;
        self.nodes[p].layout = None;
        self.nodes[child].parent = None;
        self.nodes.push(TermNode { id: n, term, parent: Some(p), layout: None });
        proof {
            assert(self@ =~= replace_child(old(self)@, child as int, term@));
            lemma_replace_child_wf(old(self)@, old(self).rank@, child as int, term@);
            self.rank@ = bump(old(self).rank@).push(0);
        }
        n
    }

    /// Gives the leaf `idx` another leaf term.
    pub fn fill(&mut self, idx: NodeId, term: Term)
        requires
            old(self).wf(),
            idx < old(self)@.len(),
            old(self)@[idx as int].term.children().len() == 0,
            term@.children().len() == 0,
        ensures
            final(self).wf(),
            final(self)@ == set_term(old(self)@, idx as int, term@),
            pristine(old(self)@) ==> pristine(final(self)@),
            !(term@ is Empty) && (only_empty(old(self)@, idx as int) || no_empty(old(self)@))
                ==> no_empty(final(self)@),
    {
        self.nodes[idx].term = term;
        self.nodes[idx].layout = None;
        proof {
            assert(self@ =~= set_term(old(self)@, idx as int, term@));
            lemma_fill_wf(old(self)@, self.rank@, idx as int, term@);
        }
    }
}

} // verus!
