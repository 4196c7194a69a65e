//! The typesetting engine, first phase: the size of every node, computed
//! from the sizes of its children and from what the host measured of the
//! glyphs that the node itself draws.

use vstd::prelude::*;
use crate::arena::{below, child_ok, lemma_below_child, ranked, terms, tree_wf, TermTree};
use crate::term::{NodeId, NodeModel, RenderData, Term, TermModel};
use crate::units::{half, half_of, larger, max_of, minus, plus, portion, portion_of, sat_minus, sat_plus};

verus! {

/// What the host measured for one node, at the scale of that node.
#[derive(Clone, Copy, Debug, PartialEq, Eq, Structural)]
pub struct NodeMetrics {
    /// The height of a line of text.
    pub line_height: i64,
    /// The size of what the node draws first: the placeholder of an empty
    /// node, the caret, the digits of a numeral, the base character of a
    /// variable, the minus sign of a negation, both parentheses, the
    /// separator of a positive summand.
    pub glyph: RenderData,
    /// The width of what the node draws besides: the subscript of a
    /// variable, the opening parenthesis, the separator of a negated summand.
    pub extra_width: i64,
}

/// The fixed distances of the layout, in layout units.
#[derive(Clone, Copy, Debug, PartialEq, Eq, Structural)]
pub struct Config {
    /// Space left and right of a fraction.
    pub division_padding_x: i64,
    /// Space between numerator and denominator, with the bar in its middle.
    pub division_padding_y: i64,
    /// By how much an exponent's box reaches into its base.
    pub exponent_overlap: i64,
    /// The scale of a subscript, in thousandths of the scale of its base.
    pub subscript_permille: u16,
}

/// What can go wrong with what the host hands to the layout.
#[derive(Clone, Copy, Debug, PartialEq, Eq, Structural)]
pub enum LayoutError {
    /// The metrics are not one for each node.
    MetricsMismatch,
}

/// How far below its line a subscript hangs.
pub open spec fn subscript_drop(line_height: i64, cfg: Config) -> i64 {
    half(portion(line_height, cfg.subscript_permille))
}

/// The cached size of node `c`, or nothing if it has none.
pub open spec fn layout_of(nodes: Seq<NodeModel>, c: NodeId) -> RenderData {
    match nodes[c as int].layout {
        Some(d) => d,
        None => RenderData { width: 0, height: 0 },
    }
}

/// The width that node `c` takes as a summand. The first summand takes its
/// own width. Behind a separator a negation counts for what it negates,
/// since its sign is part of the separator.
pub open spec fn summand_width(nodes: Seq<NodeModel>, c: NodeId, first: bool) -> i64 {
    match nodes[c as int].term {
        TermModel::Negative(g) => if first {
            layout_of(nodes, c).width
        } else {
            layout_of(nodes, g).width
        },
        _ => layout_of(nodes, c).width,
    }
}

/// The size of the factors `cs` side by side.
pub open spec fn product_size(nodes: Seq<NodeModel>, cs: Seq<NodeId>) -> RenderData
    decreases cs.len(),
{
    if cs.len() == 0 {
        RenderData { width: 0, height: 0 }
    } else {
        let before = product_size(nodes, cs.drop_last());
        let c = layout_of(nodes, cs.last());
        RenderData {
            width: plus(before.width, c.width),
            height: larger(before.height, c.height),
        }
    }
}

/// The separator in front of summand `c`: none in front of the first.
pub open spec fn separator_width(
    nodes: Seq<NodeModel>,
    c: NodeId,
    first: bool,
    m: NodeMetrics,
) -> i64 {
    if first {
        0
    } else if nodes[c as int].term is Negative {
        m.extra_width
    } else {
        m.glyph.width
    }
}

/// The size of the summands `cs` side by side with their separators.
pub open spec fn sum_size(nodes: Seq<NodeModel>, cs: Seq<NodeId>, m: NodeMetrics) -> RenderData
    decreases cs.len(),
{
    if cs.len() == 0 {
        RenderData { width: 0, height: 0 }
    } else {
        let before = sum_size(nodes, cs.drop_last(), m);
        let c = cs.last();
        RenderData {
            width: plus(
                before.width,
                plus(
                    separator_width(nodes, c, cs.len() == 1, m),
                    summand_width(nodes, c, cs.len() == 1),
                ),
            ),
            height: larger(before.height, layout_of(nodes, c).height),
        }
    }
}

/// The size of node `i`, given the cached sizes of the nodes below it and
/// the metrics `m` of its own glyphs.
pub open spec fn node_size(nodes: Seq<NodeModel>, cfg: Config, m: NodeMetrics, i: int) -> RenderData {
    match nodes[i].term {
        TermModel::Empty | TermModel::Cursor => m.glyph,
        TermModel::Numeral(_, _) => RenderData { width: m.glyph.width, height: m.line_height },
        TermModel::Variable(name) => if name.len() > 2 {
            RenderData {
                width: plus(m.glyph.width, m.extra_width),
                height: plus(m.line_height, subscript_drop(m.line_height, cfg)),
            }
        } else {
            RenderData { width: m.glyph.width, height: m.line_height }
        },
        TermModel::Negative(c) | TermModel::Parentheses(c) => RenderData {
            width: plus(m.glyph.width, layout_of(nodes, c).width),
            height: larger(m.glyph.height, layout_of(nodes, c).height),
        },
        TermModel::Multiplication(cs) => product_size(nodes, cs),
        TermModel::Addition(cs) => sum_size(nodes, cs, m),
        TermModel::Exponentiation(b, e) => RenderData {
            width: plus(layout_of(nodes, b).width, layout_of(nodes, e).width),
            height: minus(plus(layout_of(nodes, e).height, half(m.line_height)), cfg.exponent_overlap),
        },
        TermModel::Division(n, d) => RenderData {
            width: plus(
                larger(layout_of(nodes, n).width, layout_of(nodes, d).width),
                plus(cfg.division_padding_x, cfg.division_padding_x),
            ),
            height: plus(
                plus(layout_of(nodes, d).height, layout_of(nodes, n).height),
                cfg.division_padding_y,
            ),
        },
    }
}

/// Every child of node `i` has a cached size.
pub open spec fn children_measured(nodes: Seq<NodeModel>, i: int) -> bool {
    forall|k: int|
        0 <= k < nodes[i].term.children().len() ==> nodes[(
        #[trigger] nodes[i].term.children()[k]) as int].layout is Some
}

/// Node `i` and its children have cached sizes, and that of `i` is what
/// the layout rules make of those below it.
pub open spec fn measured_at(
    nodes: Seq<NodeModel>,
    cfg: Config,
    metrics: Seq<NodeMetrics>,
    i: int,
) -> bool {
    &&& nodes[i].layout == Some(node_size(nodes, cfg, metrics[i], i))
    &&& children_measured(nodes, i)
}

/// Every node below `a` that has a cached size is measured.
pub open spec fn measured_so_far(
    nodes: Seq<NodeModel>,
    rank: Seq<nat>,
    cfg: Config,
    metrics: Seq<NodeMetrics>,
    a: NodeId,
) -> bool {
    forall|i: int|
        0 <= i < nodes.len() && below(terms(nodes), rank, a, i as usize) && (
        #[trigger] nodes[i]).layout is Some ==> measured_at(nodes, cfg, metrics, i)
}

/// There is one entry of `metrics` for each node, and every node below `a`
/// is measured with it.
pub open spec fn measured_below(
    nodes: Seq<NodeModel>,
    rank: Seq<nat>,
    cfg: Config,
    metrics: Seq<NodeMetrics>,
    a: NodeId,
) -> bool {
    &&& metrics.len() == nodes.len()
    &&& forall|i: int|
        0 <= i < nodes.len() && below(terms(nodes), rank, a, i as usize) ==> #[trigger] measured_at(
            nodes,
            cfg,
            metrics,
            i,
        )
}

/// A node that is not below `a` has in `after` the cached size, or none,
/// that it has in `before`.
pub open spec fn same_outside(
    before: Seq<NodeModel>,
    after: Seq<NodeModel>,
    rank: Seq<nat>,
    a: NodeId,
) -> bool {
    forall|i: int|
        0 <= i < before.len() && !below(terms(before), rank, a, i as usize) ==> (
        #[trigger] after[i]).layout == before[i].layout
}

/// Two arenas hold the same terms under the same parents.
pub open spec fn same_shape(a: Seq<NodeModel>, b: Seq<NodeModel>) -> bool {
    &&& a.len() == b.len()
    &&& forall|i: int|
        0 <= i < a.len() ==> (#[trigger] a[i]).term == b[i].term && a[i].parent == b[i].parent
            && a[i].id == b[i].id
}

/// Every cached size of `a` is a cached size of `b`.
pub open spec fn keeps_sizes(a: Seq<NodeModel>, b: Seq<NodeModel>) -> bool {
    forall|i: int| 0 <= i < a.len() && (#[trigger] a[i]).layout is Some ==> b[i].layout == a[i].layout
}

/// The invariant of an arena speaks of its shape alone.
pub proof fn lemma_same_shape_wf(a: Seq<NodeModel>, b: Seq<NodeModel>, rank: Seq<nat>)
    requires
        tree_wf(a),
        ranked(a, rank),
        same_shape(a, b),
    ensures
        tree_wf(b),
        ranked(b, rank),
{
    assert forall|i: int| 0 <= i < b.len() implies (#[trigger] b[i]).id == i by {
        assert(a[i].id == i);
    }
    assert forall|i: int, k: int|
        0 <= i < b.len() && 0 <= k < b[i].term.children().len() implies child_ok(
        b,
        i,
        #[trigger] b[i].term.children()[k],
    ) && rank[b[i].term.children()[k] as int] < rank[i] by {
        assert(a[i].term == b[i].term);
        let c = a[i].term.children()[k];
        assert(child_ok(a, i, c));
        assert(rank[c as int] < rank[i]);
        assert(a[c as int].parent == b[c as int].parent);
    }
    assert forall|i: int| 0 <= i < b.len() implies #[trigger] crate::arena::parent_ok(b, i) by {
        assert(crate::arena::parent_ok(a, i));
        assert(a[i].parent == b[i].parent);
        match a[i].parent {
            Some(p) => {
                assert(a[p as int].term == b[p as int].term);
            },
            None => {},
        }
    }
    assert forall|i: int| 0 <= i < b.len() implies (
    #[trigger] b[i]).term.children().no_duplicates() by {
        assert(a[i].term == b[i].term);
        assert(a[i].term.children().no_duplicates());
    }
    assert(a[0].parent == b[0].parent);
}

/// The nodes `cs` look the same in both arenas: same cached size, same
/// width as a summand, same kind of term.
pub open spec fn same_sizes(a: Seq<NodeModel>, b: Seq<NodeModel>, cs: Seq<NodeId>) -> bool {
    forall|k: int|
        0 <= k < cs.len() ==> layout_of(a, #[trigger] cs[k]) == layout_of(b, cs[k])
            && summand_width(a, cs[k], true) == summand_width(b, cs[k], true)
            && summand_width(a, cs[k], false) == summand_width(b, cs[k], false) && a[cs[k] as int].term
            == b[cs[k] as int].term
}

/// The size of a product depends on the sizes of its factors alone.
pub proof fn lemma_product_size_stable(a: Seq<NodeModel>, b: Seq<NodeModel>, cs: Seq<NodeId>)
    requires
        same_sizes(a, b, cs),
    ensures
        product_size(a, cs) == product_size(b, cs),
    decreases cs.len(),
{
    if cs.len() > 0 {
        let rest = cs.drop_last();
        assert forall|k: int| 0 <= k < rest.len() implies layout_of(a, #[trigger] rest[k])
            == layout_of(b, rest[k]) && summand_width(a, rest[k], true) == summand_width(b, rest[k], true)
            && summand_width(a, rest[k], false) == summand_width(b, rest[k], false)
            && a[rest[k] as int].term == b[rest[k] as int].term by {
            assert(rest[k] == cs[k]);
        }
        lemma_product_size_stable(a, b, rest);
        assert(cs.last() == cs[cs.len() - 1]);
    }
}

/// The size of a sum depends on the sizes of its summands alone.
pub proof fn lemma_sum_size_stable(
    a: Seq<NodeModel>,
    b: Seq<NodeModel>,
    cs: Seq<NodeId>,
    m: NodeMetrics,
)
    requires
        same_sizes(a, b, cs),
    ensures
        sum_size(a, cs, m) == sum_size(b, cs, m),
    decreases cs.len(),
{
    if cs.len() > 0 {
        let rest = cs.drop_last();
        assert forall|k: int| 0 <= k < rest.len() implies layout_of(a, #[trigger] rest[k])
            == layout_of(b, rest[k]) && summand_width(a, rest[k], true) == summand_width(b, rest[k], true)
            && summand_width(a, rest[k], false) == summand_width(b, rest[k], false)
            && a[rest[k] as int].term == b[rest[k] as int].term by {
            assert(rest[k] == cs[k]);
        }
        lemma_sum_size_stable(a, b, rest, m);
        assert(cs.last() == cs[cs.len() - 1]);
    }
}

/// Measuring more nodes does not change the size of a node whose children
/// are measured already.
pub proof fn lemma_node_size_stable(
    a: Seq<NodeModel>,
    b: Seq<NodeModel>,
    rank: Seq<nat>,
    cfg: Config,
    metrics: Seq<NodeMetrics>,
    root: NodeId,
    j: int,
)
    requires
        tree_wf(a),
        ranked(a, rank),
        same_shape(a, b),
        keeps_sizes(a, b),
        measured_so_far(a, rank, cfg, metrics, root),
        0 <= j < a.len(),
        below(terms(a), rank, root, j as usize),
        children_measured(a, j),
    ensures
        node_size(b, cfg, metrics[j], j) == node_size(a, cfg, metrics[j], j),
        children_measured(b, j),
{
    let cs = a[j].term.children();
    assert(b[j].term == a[j].term);
    assert forall|k: int| 0 <= k < cs.len() implies layout_of(a, #[trigger] cs[k]) == layout_of(
        b,
        cs[k],
    ) && summand_width(a, cs[k], true) == summand_width(b, cs[k], true)
            && summand_width(a, cs[k], false) == summand_width(b, cs[k], false) && a[cs[k] as int].term
        == b[cs[k] as int].term && b[cs[k] as int].layout is Some by {
        let c = a[j].term.children()[k];
        assert(child_ok(a, j, c));
        lemma_below_child(a, rank, root, j as usize, k);
        assert(a[c as int].layout is Some);
        assert(b[c as int].layout == a[c as int].layout);
        assert(a[c as int].term == b[c as int].term);
        assert(measured_at(a, cfg, metrics, c as int));
        match a[c as int].term {
            TermModel::Negative(g) => {
                assert(a[c as int].term.children()[0] == g);
                assert(child_ok(a, c as int, a[c as int].term.children()[0]));
                assert(a[g as int].layout is Some);
                assert(b[g as int].layout == a[g as int].layout);
            },
            _ => {},
        }
    }
    match a[j].term {
        TermModel::Negative(c) | TermModel::Parentheses(c) => {
            assert(cs[0] == c);
        },
        TermModel::Multiplication(_) => {
            lemma_product_size_stable(a, b, cs);
        },
        TermModel::Addition(_) => {
            lemma_sum_size_stable(a, b, cs, metrics[j]);
        },
        TermModel::Exponentiation(x, y) | TermModel::Division(x, y) => {
            assert(cs[0] == x);
            assert(cs[1] == y);
        },
        _ => {},
    }
}

/// Two arenas of the same shape, both measured below `root` with the same
/// metrics, hold the same size at a node `i` below `root`.
pub proof fn lemma_same_size(
    a: Seq<NodeModel>,
    b: Seq<NodeModel>,
    rank: Seq<nat>,
    cfg: Config,
    metrics: Seq<NodeMetrics>,
    root: NodeId,
    i: int,
)
    requires
        tree_wf(a),
        ranked(a, rank),
        same_shape(a, b),
        measured_below(a, rank, cfg, metrics, root),
        measured_below(b, rank, cfg, metrics, root),
        0 <= i < a.len(),
        below(terms(a), rank, root, i as usize),
    ensures
        a[i].layout == b[i].layout,
    decreases rank[i],
{
    let cs = a[i].term.children();
    assert(terms(a) =~= terms(b));
    assert(a[i].term == b[i].term);
    assert(measured_at(a, cfg, metrics, i));
    assert(measured_at(b, cfg, metrics, i));
    assert forall|k: int| 0 <= k < cs.len() implies layout_of(a, #[trigger] cs[k]) == layout_of(
        b,
        cs[k],
    ) && summand_width(a, cs[k], true) == summand_width(b, cs[k], true) && summand_width(
        a,
        cs[k],
        false,
    ) == summand_width(b, cs[k], false) && a[cs[k] as int].term == b[cs[k] as int].term by {
        let c = a[i].term.children()[k];
        assert(child_ok(a, i, c));
        assert(rank[c as int] < rank[i]);
        lemma_below_child(a, rank, root, i as usize, k);
        lemma_same_size(a, b, rank, cfg, metrics, root, c as int);
        assert(a[c as int].term == b[c as int].term);
        match a[c as int].term {
            TermModel::Negative(g) => {
                assert(a[c as int].term.children()[0] == g);
                assert(child_ok(a, c as int, a[c as int].term.children()[0]));
                assert(rank[a[c as int].term.children()[0] as int] < rank[c as int]);
                lemma_below_child(a, rank, root, c, 0);
                lemma_same_size(a, b, rank, cfg, metrics, root, g as int);
            },
            _ => {},
        }
    }
    match a[i].term {
        TermModel::Negative(c) | TermModel::Parentheses(c) => {
            assert(cs[0] == c);
        },
        TermModel::Multiplication(_) => {
            lemma_product_size_stable(a, b, cs);
        },
        TermModel::Addition(_) => {
            lemma_sum_size_stable(a, b, cs, metrics[i]);
        },
        TermModel::Exponentiation(x, y) | TermModel::Division(x, y) => {
            assert(cs[0] == x);
            assert(cs[1] == y);
        },
        _ => {},
    }
}

/// Measuring is a function of the shape of the tree and of the metrics: two
/// arenas of the same shape, both measured from the root with the same
/// metrics, hold the same sizes at every node below the root. So measuring
/// a tree a second time changes nothing.
pub proof fn lemma_measure_unique(
    a: Seq<NodeModel>,
    b: Seq<NodeModel>,
    rank: Seq<nat>,
    cfg: Config,
    metrics: Seq<NodeMetrics>,
)
    requires
        tree_wf(a),
        ranked(a, rank),
        same_shape(a, b),
        measured_below(a, rank, cfg, metrics, 0),
        measured_below(b, rank, cfg, metrics, 0),
    ensures
        forall|i: int|
            0 <= i < a.len() && below(terms(a), rank, 0, i as usize) ==> (#[trigger] a[i]) == b[i],
{
    assert forall|i: int| 0 <= i < a.len() && below(terms(a), rank, 0, i as usize) implies (
    #[trigger] a[i]) == b[i] by {
        lemma_same_size(a, b, rank, cfg, metrics, 0, i);
    }
}

/// Below a measured node all is measured: if the nodes below `root` that
/// have a size are measured, and `a` below `root` has a size, then every
/// node below `a` is measured.
pub proof fn lemma_measured_down(
    nodes: Seq<NodeModel>,
    rank: Seq<nat>,
    cfg: Config,
    metrics: Seq<NodeMetrics>,
    root: NodeId,
    a: NodeId,
    i: NodeId,
)
    requires
        tree_wf(nodes),
        ranked(nodes, rank),
        measured_so_far(nodes, rank, cfg, metrics, root),
        below(terms(nodes), rank, root, a),
        a < nodes.len(),
        nodes[a as int].layout is Some,
        below(terms(nodes), rank, a, i),
    ensures
        i < nodes.len(),
        measured_at(nodes, cfg, metrics, i as int),
    decreases rank[a as int],
{
    let t = terms(nodes);
    assert(measured_at(nodes, cfg, metrics, a as int));
    if i != a {
        let k = choose|k: int|
            0 <= k < t[a as int].children().len() && rank[(
            #[trigger] t[a as int].children()[k]) as int] < rank[a as int] && below(
                t,
                rank,
                t[a as int].children()[k],
                i,
            );
        assert(t[a as int] == nodes[a as int].term);
        let c = nodes[a as int].term.children()[k];
        assert(child_ok(nodes, a as int, c));
        lemma_below_child(nodes, rank, root, a, k);
        assert(nodes[c as int].layout is Some);
        lemma_measured_down(nodes, rank, cfg, metrics, root, c, i);
    }
}

impl TermTree {
    /// The size of node `idx` as the layout rules give it, from the cached
    /// sizes of the nodes below it.
    pub fn size_of(&self, cfg: &Config, m: NodeMetrics, idx: NodeId) -> (r: RenderData)
        requires
            self.wf(),
            idx < self@.len(),
        ensures
            r == node_size(self@, *cfg, m, idx as int),
    {
        match &self.nodes[idx].term {
            Term::Empty | Term::Cursor => m.glyph,
            Term::Numeral(_, _) => RenderData { width: m.glyph.width, height: m.line_height },
            Term::Variable(name) => {
                if name.as_str().unicode_len() > 2 {
                    RenderData {
                        width: sat_plus(m.glyph.width, m.extra_width),
                        height: sat_plus(
                            m.line_height,
                            half_of(portion_of(m.line_height, cfg.subscript_permille)),
                        ),
                    }
                } else {
                    RenderData { width: m.glyph.width, height: m.line_height }
                }
            },
            Term::Negative(c) | Term::Parentheses(c) => {
                proof {
                    assert(child_ok(self@, idx as int, self@[idx as int].term.children()[0]));
                }
                let inner = self.cached(*c);
                RenderData {
                    width: sat_plus(m.glyph.width, inner.width),
                    height: max_of(m.glyph.height, inner.height),
                }
            },
            Term::Multiplication(cs) => {
                let mut size = RenderData { width: 0, height: 0 };
                let mut k: usize = 0;
                while k < cs.len()
                    invariant
                        0 <= k <= cs.len(),
                        self.wf(),
                        idx < self@.len(),
                        cs@ == self@[idx as int].term.children(),
                        size == product_size(self@, cs@.take(k as int)),
                    decreases cs.len() - k,
                {
                    proof {
                        assert(child_ok(self@, idx as int, self@[idx as int].term.children()[k as int]));
                        assert(cs@.take(k as int + 1).drop_last() =~= cs@.take(k as int));
                    }
                    let c = self.cached(cs[k]);
                    size = RenderData {
                        width: sat_plus(size.width, c.width),
                        height: max_of(size.height, c.height),
                    };
                    k += 1;
                }
                proof {
                    assert(cs@.take(k as int) =~= cs@);
                }
                size
            },
            Term::Addition(cs) => {
                let mut size = RenderData { width: 0, height: 0 };
                let mut k: usize = 0;
                while k < cs.len()
                    invariant
                        0 <= k <= cs.len(),
                        self.wf(),
                        idx < self@.len(),
                        cs@ == self@[idx as int].term.children(),
                        size == sum_size(self@, cs@.take(k as int), m),
                    decreases cs.len() - k,
                {
                    proof {
                        assert(child_ok(self@, idx as int, self@[idx as int].term.children()[k as int]));
                        assert(cs@.take(k as int + 1).drop_last() =~= cs@.take(k as int));
                    }
                    let c = cs[k];
                    let negated = self.negated(c);
                    let separator = if k == 0 {
                        0
                    } else if negated.is_some() {
                        m.extra_width
                    } else {
                        m.glyph.width
                    };
                    let width = match negated {
                        Some(g) => if k == 0 {
                            self.cached(c).width
                        } else {
                            self.cached(g).width
                        },
                        None => self.cached(c).width,
                    };
                    size = RenderData {
                        width: sat_plus(size.width, sat_plus(separator, width)),
                        height: max_of(size.height, self.cached(c).height),
                    };
                    k += 1;
                }
                proof {
                    assert(cs@.take(k as int) =~= cs@);
                }
                size
            },
            Term::Exponentiation(b, e) => {
                proof {
                    assert(child_ok(self@, idx as int, self@[idx as int].term.children()[0]));
                    assert(child_ok(self@, idx as int, self@[idx as int].term.children()[1]));
                }
                let base = self.cached(*b);
                let exponent = self.cached(*e);
                RenderData {
                    width: sat_plus(base.width, exponent.width),
                    height: sat_minus(
                        sat_plus(exponent.height, half_of(m.line_height)),
                        cfg.exponent_overlap,
                    ),
                }
            },
            Term::Division(n, d) => {
                proof {
                    assert(child_ok(self@, idx as int, self@[idx as int].term.children()[0]));
                    assert(child_ok(self@, idx as int, self@[idx as int].term.children()[1]));
                }
                let above = self.cached(*n);
                let below = self.cached(*d);
                RenderData {
                    width: sat_plus(
                        max_of(above.width, below.width),
                        sat_plus(cfg.division_padding_x, cfg.division_padding_x),
                    ),
                    height: sat_plus(sat_plus(below.height, above.height), cfg.division_padding_y),
                }
            },
        }
    }

    /// Measures node `idx`, which is below the root, and what is below it,
    /// unless it has a cached size already.
    fn measure_node(&mut self, cfg: &Config, metrics: &Vec<NodeMetrics>, idx: NodeId)
        requires
            old(self).wf(),
            idx < old(self)@.len(),
            metrics@.len() == old(self)@.len(),
            old(self).is_below(0, idx),
            measured_so_far(old(self)@, old(self).ranks(), *cfg, metrics@, 0),
        ensures
            final(self).wf(),
            final(self).ranks() == old(self).ranks(),
            same_shape(old(self)@, final(self)@),
            keeps_sizes(old(self)@, final(self)@),
            same_outside(old(self)@, final(self)@, old(self).ranks(), 0),
            measured_so_far(final(self)@, final(self).ranks(), *cfg, metrics@, 0),
            final(self)@[idx as int].layout is Some,
        decreases old(self).ranks()[idx as int],
    {
        if self.nodes[idx].layout.is_some() {
            return ;
        }
        let cs = self.nodes[idx].term.children();
        let mut k: usize = 0;
        while k < cs.len()
            invariant
                0 <= k <= cs.len(),
                self.wf(),
                self.rank@ == old(self).rank@,
                idx < self@.len(),
                metrics@.len() == self@.len(),
                self.is_below(0, idx),
                same_shape(old(self)@, self@),
                keeps_sizes(old(self)@, self@),
                same_outside(old(self)@, self@, self.rank@, 0),
                measured_so_far(self@, self.rank@, *cfg, metrics@, 0),
                cs@ == self@[idx as int].term.children(),
                forall|j: int| 0 <= j < k ==> self@[(#[trigger] cs@[j]) as int].layout is Some,
            decreases cs.len() - k,
        {
            let c = cs[k];
            proof {
                assert(child_ok(self@, idx as int, self@[idx as int].term.children()[k as int]));
                assert(self.rank@[self@[idx as int].term.children()[k as int] as int]
                    < self.rank@[idx as int]);
                lemma_below_child(self@, self.rank@, 0, idx, k as int);
            }
            let ghost before = self@;
            self.measure_node(cfg, metrics, c);
            proof {
                assert(terms(self@) =~= terms(before));
                assert(terms(before) =~= terms(old(self)@));
                assert forall|j: int| 0 <= j < k + 1 implies self@[(#[trigger] cs@[j]) as int].layout
                    is Some by {
                    if j < k {
                        assert(before[cs@[j] as int].layout is Some);
                    }
                }
                assert(self@[idx as int].term == before[idx as int].term);
            }
            k += 1;
        }
        let size = self.size_of(cfg, metrics[idx], idx);
        let ghost before = self@;
        self.nodes[idx].layout = Some(size);
        proof {
            let after = self@;
            assert(after =~= before.update(
                idx as int,
                NodeModel { layout: Some(size), ..before[idx as int] },
            ));
            assert(same_shape(before, after));
            assert(terms(after) =~= terms(before));
            assert(terms(before) =~= terms(old(self)@));
            lemma_same_shape_wf(before, after, self.rank@);
            assert(children_measured(before, idx as int));
            assert(keeps_sizes(before, after));
            assert forall|j: int|
                0 <= j < after.len() && below(terms(after), self.rank@, 0, j as usize) && (
                #[trigger] after[j]).layout is Some implies measured_at(after, *cfg, metrics@, j) by {
                if j != idx {
                    assert(before[j].layout is Some);
                    assert(measured_at(before, *cfg, metrics@, j));
                }
                lemma_node_size_stable(before, after, self.rank@, *cfg, metrics@, 0, j);
            }
        }
    }

    /// Forgets the cached size of node `idx` and of every node below it.
    fn clear_below(&mut self, idx: NodeId)
        requires
            old(self).wf(),
            idx < old(self)@.len(),
        ensures
            final(self).wf(),
            final(self).ranks() == old(self).ranks(),
            same_shape(old(self)@, final(self)@),
            same_outside(old(self)@, final(self)@, old(self).ranks(), idx),
            forall|j: int|
                0 <= j < final(self)@.len() ==> (#[trigger] final(self)@[j]).layout is None
                    || final(self)@[j].layout == old(self)@[j].layout,
            forall|j: int|
                0 <= j < final(self)@.len() && old(self).is_below(idx, j as usize) ==> (
                #[trigger] final(self)@[j]).layout is None,
        decreases old(self).ranks()[idx as int],
    {
        let ghost shape = terms(self@);
        let ghost start = self@;
        self.nodes[idx].layout = None;
        proof {
            assert(self@ =~= start.update(idx as int, NodeModel { layout: None, ..start[idx as int] }));
            assert(same_shape(start, self@));
            lemma_same_shape_wf(start, self@, self.rank@);
            assert(terms(self@) =~= shape);
            assert(below(shape, self.rank@, idx, idx));
        }
        let cs = self.nodes[idx].term.children();
        let mut k: usize = 0;
        while k < cs.len()
            invariant
                0 <= k <= cs.len(),
                self.wf(),
                self.rank@ == old(self).rank@,
                idx < self@.len(),
                shape == terms(old(self)@),
                shape == terms(self@),
                same_shape(old(self)@, self@),
                same_outside(old(self)@, self@, self.rank@, idx),
                cs@ == self@[idx as int].term.children(),
                self@[idx as int].layout is None,
                forall|j: int|
                    0 <= j < self@.len() ==> (#[trigger] self@[j]).layout is None
                        || self@[j].layout == old(self)@[j].layout,
                forall|k2: int, j: int|
                    0 <= k2 < k && 0 <= j < self@.len() && below(
                        shape,
                        self.rank@,
                        #[trigger] cs@[k2],
                        j as usize,
                    ) ==> (#[trigger] self@[j]).layout is None,
            decreases cs.len() - k,
        {
            let c = cs[k];
            proof {
                assert(child_ok(self@, idx as int, self@[idx as int].term.children()[k as int]));
                assert(self.rank@[self@[idx as int].term.children()[k as int] as int]
                    < self.rank@[idx as int]);
            }
            let ghost before = self@;
            self.clear_below(c);
            proof {
                assert(terms(self@) =~= shape);
                assert(shape[idx as int].children()[k as int] == c);
                assert forall|j: int|
                    0 <= j < self@.len() && !below(shape, self.rank@, idx, j as usize) implies (
                #[trigger] self@[j]).layout == old(self)@[j].layout by {
                    if below(shape, self.rank@, c, j as usize) {
                        assert(below(shape, self.rank@, idx, j as usize));
                    }
                    assert(before[j].layout == old(self)@[j].layout);
                }
                assert forall|k2: int, j: int|
                    0 <= k2 < k + 1 && 0 <= j < self@.len() && below(
                        shape,
                        self.rank@,
                        #[trigger] cs@[k2],
                        j as usize,
                    ) implies (#[trigger] self@[j]).layout is None by {
                    if k2 < k {
                        assert(before[j].layout is None);
                    }
                }
            }
            k += 1;
        }
        proof {
            assert forall|j: int|
                0 <= j < self@.len() && below(shape, self.rank@, idx, j as usize) implies (
            #[trigger] self@[j]).layout is None by {
                if j != idx {
                    let k0 = choose|k0: int|
                        0 <= k0 < shape[idx as int].children().len() && self.rank@[(
                        #[trigger] shape[idx as int].children()[k0]) as int] < self.rank@[idx as int]
                            && below(shape, self.rank@, shape[idx as int].children()[k0], j as usize);
                    assert(shape[idx as int].children()[k0] == cs@[k0]);
                }
            }
        }
    }

    /// Forgets every cached size.
    pub fn clear_layout(&mut self)
        requires
            old(self).wf(),
        ensures
            final(self).wf(),
            final(self).ranks() == old(self).ranks(),
            same_shape(old(self)@, final(self)@),
            forall|i: int| 0 <= i < final(self)@.len() ==> (#[trigger] final(self)@[i]).layout is None,
    {
        let mut k: usize = 0;
        while k < self.nodes.len()
            invariant
                0 <= k <= self@.len(),
                self.wf(),
                self.rank@ == old(self).rank@,
                same_shape(old(self)@, self@),
                forall|i: int| 0 <= i < k ==> (#[trigger] self@[i]).layout is None,
            decreases self@.len() - k,
        {
            let ghost before = self@;
            self.nodes[k].layout = None;
            proof {
                assert(self@ =~= before.update(
                    k as int,
                    NodeModel { layout: None, ..before[k as int] },
                ));
                assert(same_shape(before, self@));
                lemma_same_shape_wf(before, self@, self.rank@);
            }
            k += 1;
        }
    }

    /// The first phase of the layout: gives the root and every node below
    /// it its size, from the metrics that the host measured for it, whatever
    /// size it had before. A node that is not below the root is not
    /// visited: it keeps the size that it has, or none. `metrics` holds
    /// one entry for each node, in the order of the arena; with any other
    /// number of entries nothing is measured.
    pub fn measure(&mut self, cfg: &Config, metrics: &Vec<NodeMetrics>) -> (r: Result<
        (),
        LayoutError,
    >)
        requires
            old(self).wf(),
        ensures
            final(self).wf(),
            final(self).ranks() == old(self).ranks(),
            same_shape(old(self)@, final(self)@),
            same_outside(old(self)@, final(self)@, old(self).ranks(), 0),
            match r {
                Ok(_) => measured_below(final(self)@, final(self).ranks(), *cfg, metrics@, 0),
                Err(e) => e == LayoutError::MetricsMismatch && metrics@.len() != old(self)@.len()
                    && final(self)@ == old(self)@,
            },
    {
        if metrics.len() != self.nodes.len() {
            return Err(LayoutError::MetricsMismatch);
        }
        self.clear_below(0);
        let ghost cleared = self@;
        proof {
            assert(terms(cleared) =~= terms(old(self)@));
            assert(below(terms(cleared), self.rank@, 0, 0));
        }
        self.measure_node(cfg, metrics, 0);
        proof {
            assert(terms(self@) =~= terms(cleared));
            assert forall|i: int|
                0 <= i < self@.len() && below(terms(self@), self.rank@, 0, i as usize) implies #[trigger] measured_at(
                self@,
                *cfg,
                metrics@,
                i,
            ) by {
                lemma_measured_down(self@, self.rank@, *cfg, metrics@, 0, 0, i as usize);
            }
            assert forall|i: int|
                0 <= i < self@.len() && !below(terms(old(self)@), self.rank@, 0, i as usize) implies (
            #[trigger] self@[i]).layout == old(self)@[i].layout by {
                assert(cleared[i].layout == old(self)@[i].layout);
            }
        }
        Ok(())
    }

    /// The cached size of node `idx`, or nothing if it has none.
    pub fn cached(&self, idx: NodeId) -> (r: RenderData)
        requires
            idx < self@.len(),
        ensures
            r == layout_of(self@, idx),
    {
        match self.nodes[idx].layout {
            Some(d) => d,
            None => RenderData { width: 0, height: 0 },
        }
    }

    /// What node `idx` negates, if it is a negation.
    pub fn negated(&self, idx: NodeId) -> (r: Option<NodeId>)
        requires
            self.wf(),
            idx < self@.len(),
        ensures
            match r {
                Some(g) => self@[idx as int].term == TermModel::Negative(g) && g < self@.len(),
                None => !(self@[idx as int].term is Negative),
            },
    {
        match &self.nodes[idx].term {
            Term::Negative(g) => {
                proof {
                    assert(child_ok(self@, idx as int, self@[idx as int].term.children()[0]));
                }
                Some(*g)
            },
            _ => None,
        }
    }
}

} // verus!
