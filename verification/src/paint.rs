//! The typesetting engine, second phase: where every node of a measured
//! tree goes, as a list of drawing commands for the host.

use vstd::prelude::*;
use crate::arena::{below, child_ok, lemma_below_child, ranked, terms, tree_wf, TermTree};
use crate::clock::caret_shown;
use crate::layout::{
    layout_of, measured_at, measured_below, product_size, same_outside, same_shape, sum_size,
    subscript_drop, Config, LayoutError, NodeMetrics,
};
use crate::parser::SUBSCRIPT_CURSOR;
use crate::text::{
    char_string, head_string, numeral_chars, numeral_text, string_of, tail_string,
};
use crate::term::{NodeId, NodeModel, RenderData, Term, TermModel};
use crate::units::{
    half, half_of, larger, max_of, minus, plus, portion_of, sat_minus, sat_plus,
};

verus! {

/// The arena is valid, ranked by `rank`, and holds node `i`.
pub open spec fn in_tree(nodes: Seq<NodeModel>, rank: Seq<nat>, i: NodeId) -> bool {
    tree_wf(nodes) && ranked(nodes, rank) && i < nodes.len()
}

/// The midline of node `i`: how far below its top edge the line runs on
/// which it is aligned with its neighbours.
pub open spec fn midline(
    nodes: Seq<NodeModel>,
    rank: Seq<nat>,
    metrics: Seq<NodeMetrics>,
    i: NodeId,
) -> i64
    decreases rank[i as int], nodes[i as int].term.children().len() + 1,
{
    if !in_tree(nodes, rank, i) {
        0
    } else {
        match nodes[i as int].term {
            TermModel::Division(_, d) => minus(
                layout_of(nodes, i).height,
                layout_of(nodes, d).height,
            ),
            TermModel::Exponentiation(_, e) => layout_of(nodes, e).height,
            TermModel::Variable(name) => if name.len() > 2 {
                half(metrics[i as int].line_height)
            } else {
                half(layout_of(nodes, i).height)
            },
            TermModel::Multiplication(cs) | TermModel::Addition(cs) => max_midline(
                nodes,
                rank,
                metrics,
                i,
                cs.len(),
            ),
            _ => half(layout_of(nodes, i).height),
        }
    }
}

/// The largest midline among the first `n` children of node `i`, and at
/// least 0.
pub open spec fn max_midline(
    nodes: Seq<NodeModel>,
    rank: Seq<nat>,
    metrics: Seq<NodeMetrics>,
    i: NodeId,
    n: nat,
) -> i64
    decreases rank[i as int], n,
{
    if !in_tree(nodes, rank, i) || n == 0 || n > nodes[i as int].term.children().len() {
        0
    } else {
        larger(
            max_midline(nodes, rank, metrics, i, (n - 1) as nat),
            midline(nodes, rank, metrics, nodes[i as int].term.children()[n - 1]),
        )
    }
}

/// Node `i` and every node below it has a cached size.
pub open spec fn paintable(nodes: Seq<NodeModel>, rank: Seq<nat>, i: NodeId) -> bool
    decreases rank[i as int],
{
    &&& in_tree(nodes, rank, i)
    &&& nodes[i as int].layout is Some
    &&& forall|k: int|
        0 <= k < nodes[i as int].term.children().len() ==> paintable(
            nodes,
            rank,
            #[trigger] nodes[i as int].term.children()[k],
        )
}

/// What has been measured can be painted: once the first phase has run
/// from `root`, the second never meets, at `root` or below it, a node that
/// has not been given its size.
pub proof fn lemma_measured_paintable(
    nodes: Seq<NodeModel>,
    rank: Seq<nat>,
    cfg: Config,
    metrics: Seq<NodeMetrics>,
    root: NodeId,
    i: NodeId,
)
    requires
        tree_wf(nodes),
        ranked(nodes, rank),
        measured_below(nodes, rank, cfg, metrics, root),
        below(terms(nodes), rank, root, i),
        i < nodes.len(),
    ensures
        paintable(nodes, rank, i),
    decreases rank[i as int],
{
    assert(measured_at(nodes, cfg, metrics, i as int));
    assert forall|k: int| 0 <= k < nodes[i as int].term.children().len() implies paintable(
        nodes,
        rank,
        #[trigger] nodes[i as int].term.children()[k],
    ) by {
        let c = nodes[i as int].term.children()[k];
        assert(child_ok(nodes, i as int, c));
        assert(rank[c as int] < rank[i as int]);
        lemma_below_child(nodes, rank, root, i, k);
        lemma_measured_paintable(nodes, rank, cfg, metrics, root, c);
    }
}

/// Node `i` has what its midline is read from: a cached size of its own,
/// that of the denominator of a fraction or of the exponent of a power, and
/// the same for every child of a product or a sum.
pub open spec fn midline_ready(nodes: Seq<NodeModel>, rank: Seq<nat>, i: NodeId) -> bool
    decreases rank[i as int],
{
    &&& in_tree(nodes, rank, i)
    &&& nodes[i as int].layout is Some
    &&& match nodes[i as int].term {
        TermModel::Division(_, d) => d < nodes.len() && nodes[d as int].layout is Some,
        TermModel::Exponentiation(_, e) => e < nodes.len() && nodes[e as int].layout is Some,
        TermModel::Multiplication(_) | TermModel::Addition(_) => forall|k: int|
            0 <= k < nodes[i as int].term.children().len() ==> midline_ready(
                nodes,
                rank,
                #[trigger] nodes[i as int].term.children()[k],
            ),
        _ => true,
    }
}

/// A node that can be painted has what its midline is read from.
pub proof fn lemma_paintable_midline_ready(nodes: Seq<NodeModel>, rank: Seq<nat>, i: NodeId)
    requires
        paintable(nodes, rank, i),
    ensures
        midline_ready(nodes, rank, i),
    decreases rank[i as int],
{
    let cs = nodes[i as int].term.children();
    assert forall|k: int| 0 <= k < cs.len() implies child_ok(nodes, i as int, #[trigger] cs[k])
        && paintable(nodes, rank, cs[k]) && rank[cs[k] as int] < rank[i as int] by {
        assert(child_ok(nodes, i as int, nodes[i as int].term.children()[k]));
        assert(paintable(nodes, rank, nodes[i as int].term.children()[k]));
        assert(rank[nodes[i as int].term.children()[k] as int] < rank[i as int]);
    }
    match nodes[i as int].term {
        TermModel::Division(_, d) => {
            assert(cs[1] == d);
        },
        TermModel::Exponentiation(_, e) => {
            assert(cs[1] == e);
        },
        TermModel::Multiplication(_) | TermModel::Addition(_) => {
            assert forall|k: int|
                0 <= k < nodes[i as int].term.children().len() implies midline_ready(
                nodes,
                rank,
                #[trigger] nodes[i as int].term.children()[k],
            ) by {
                assert(paintable(nodes, rank, cs[k]));
                lemma_paintable_midline_ready(nodes, rank, nodes[i as int].term.children()[k]);
            }
        },
        _ => {},
    }
}

/// One thing for the host to draw.
#[derive(Debug, PartialEq, Eq)]
pub enum PaintCommand {
    /// Text whose baseline starts at `(x, y)`, at the scale of `node`, or
    /// at the scale of its subscript.
    Text { node: NodeId, text: String, x: i64, y: i64, subscript: bool },
    /// The bar of the fraction `node`, from `(x1, y1)` to `(x2, y2)`.
    Line { node: NodeId, x1: i64, y1: i64, x2: i64, y2: i64 },
}

/// What a `PaintCommand` is, as a mathematical value.
pub enum CommandModel {
    Text { node: NodeId, text: Seq<char>, x: i64, y: i64, subscript: bool },
    Line { node: NodeId, x1: i64, y1: i64, x2: i64, y2: i64 },
}

impl View for PaintCommand {
    type V = CommandModel;

    open spec fn view(&self) -> CommandModel {
        match *self {
            PaintCommand::Text { node, text, x, y, subscript } => CommandModel::Text {
                node,
                text: text@,
                x,
                y,
                subscript,
            },
            PaintCommand::Line { node, x1, y1, x2, y2 } => CommandModel::Line {
                node,
                x1,
                y1,
                x2,
                y2,
            },
        }
    }
}

/// The models of a list of commands.
pub open spec fn view_all(commands: Seq<PaintCommand>) -> Seq<CommandModel> {
    Seq::new(commands.len(), |k: int| commands[k]@)
}

/// The text drawn for an empty node.
pub open spec fn placeholder_chars() -> Seq<char> {
    seq![' ', '|', ' ']
}

/// The text drawn for the caret.
pub open spec fn caret_chars() -> Seq<char> {
    seq!['|']
}

/// The separator in front of a positive summand.
pub open spec fn plus_chars() -> Seq<char> {
    seq![' ', '+', ' ']
}

/// The separator in front of a negated summand.
pub open spec fn minus_chars() -> Seq<char> {
    seq![' ', '-', ' ']
}

/// The base of a variable: its first character.
pub open spec fn base_chars(name: Seq<char>) -> Seq<char> {
    if name.len() == 0 {
        name
    } else {
        name.subrange(0, 1)
    }
}

/// The subscript of a variable: what follows its second character. While
/// the caret is shown, a caret in the subscript is drawn as a space.
pub open spec fn subscript_chars(name: Seq<char>, caret_visible: bool) -> Seq<char> {
    Seq::new(
        (name.len() - 2) as nat,
        |k: int|
            if caret_visible && name[k + 2] == SUBSCRIPT_CURSOR {
                ' '
            } else {
                name[k + 2]
            },
    )
}

/// A text command.
pub open spec fn text_at(node: NodeId, text: Seq<char>, x: i64, y: i64) -> CommandModel {
    CommandModel::Text { node, text, x, y, subscript: false }
}

/// What the host is to draw for node `i` with its top left corner at
/// `(x, y)`, in drawing order.
pub open spec fn painted(
    nodes: Seq<NodeModel>,
    rank: Seq<nat>,
    cfg: Config,
    metrics: Seq<NodeMetrics>,
    caret_visible: bool,
    i: NodeId,
    x: i64,
    y: i64,
) -> Seq<CommandModel>
    decreases rank[i as int], nodes[i as int].term.children().len() + 1,
{
    if !in_tree(nodes, rank, i) {
        Seq::empty()
    } else {
        let m = metrics[i as int];
        let size = layout_of(nodes, i);
        let line = plus(y, m.line_height);
        let bottom = plus(y, size.height);
        match nodes[i as int].term {
            TermModel::Empty => seq![text_at(i, placeholder_chars(), x, line)],
            TermModel::Cursor => if caret_visible {
                seq![text_at(i, caret_chars(), x, line)]
            } else {
                Seq::empty()
            },
            TermModel::Numeral(value, fraction) => seq![
                text_at(
                    i,
                    numeral_chars(
                        value as nat,
                        match fraction {
                            Some(p) => p as nat,
                            None => 0,
                        },
                    ),
                    x,
                    line,
                ),
            ],
            TermModel::Variable(name) => if name.len() > 2 {
                seq![
                    text_at(i, base_chars(name), x, line),
                    CommandModel::Text {
                        node: i,
                        text: subscript_chars(name, caret_visible),
                        x: plus(x, m.glyph.width),
                        y: plus(y, plus(m.line_height, subscript_drop(m.line_height, cfg))),
                        subscript: true,
                    },
                ]
            } else {
                seq![text_at(i, base_chars(name), x, line)]
            },
            TermModel::Negative(_) => {
                let c = nodes[i as int].term.children()[0];
                seq![text_at(i, seq!['-'], x, bottom)] + painted(
                    nodes,
                    rank,
                    cfg,
                    metrics,
                    caret_visible,
                    c,
                    plus(x, m.glyph.width),
                    y,
                )
            },
            TermModel::Parentheses(_) => {
                let c = nodes[i as int].term.children()[0];
                seq![text_at(i, seq!['('], x, bottom)] + painted(
                    nodes,
                    rank,
                    cfg,
                    metrics,
                    caret_visible,
                    c,
                    plus(x, m.extra_width),
                    y,
                ) + seq![
                    text_at(
                        i,
                        seq![')'],
                        plus(plus(x, m.extra_width), layout_of(nodes, c).width),
                        bottom,
                    ),
                ]
            },
            TermModel::Multiplication(cs) => painted_product(
                nodes,
                rank,
                cfg,
                metrics,
                caret_visible,
                i,
                cs.len(),
                x,
                y,
            ),
            TermModel::Addition(cs) => painted_sum(
                nodes,
                rank,
                cfg,
                metrics,
                caret_visible,
                i,
                cs.len(),
                x,
                y,
            ),
            TermModel::Exponentiation(_, _) => {
                let b = nodes[i as int].term.children()[0];
                let e = nodes[i as int].term.children()[1];
                painted(
                    nodes,
                    rank,
                    cfg,
                    metrics,
                    caret_visible,
                    b,
                    x,
                    minus(
                        minus(
                            plus(plus(y, layout_of(nodes, e).height), half(m.line_height)),
                            layout_of(nodes, b).height,
                        ),
                        cfg.exponent_overlap,
                    ),
                ) + painted(
                    nodes,
                    rank,
                    cfg,
                    metrics,
                    caret_visible,
                    e,
                    plus(x, layout_of(nodes, b).width),
                    y,
                )
            },
            TermModel::Division(_, _) => {
                let n = nodes[i as int].term.children()[0];
                let d = nodes[i as int].term.children()[1];
                let above = layout_of(nodes, n);
                let below = layout_of(nodes, d);
                let bar = plus(plus(y, above.height), half(cfg.division_padding_y));
                painted(
                    nodes,
                    rank,
                    cfg,
                    metrics,
                    caret_visible,
                    n,
                    plus(
                        plus(x, cfg.division_padding_x),
                        half(larger(0, minus(below.width, above.width))),
                    ),
                    y,
                ) + seq![
                    CommandModel::Line { node: i, x1: x, y1: bar, x2: plus(x, size.width), y2: bar },
                ] + painted(
                    nodes,
                    rank,
                    cfg,
                    metrics,
                    caret_visible,
                    d,
                    plus(
                        plus(x, cfg.division_padding_x),
                        half(larger(0, minus(above.width, below.width))),
                    ),
                    plus(plus(y, cfg.division_padding_y), above.height),
                )
            },
        }
    }
}

/// What is drawn for the first `n` factors of the product `i`: one beside
/// the other, each with its midline on that of the product.
pub open spec fn painted_product(
    nodes: Seq<NodeModel>,
    rank: Seq<nat>,
    cfg: Config,
    metrics: Seq<NodeMetrics>,
    caret_visible: bool,
    i: NodeId,
    n: nat,
    x: i64,
    y: i64,
) -> Seq<CommandModel>
    decreases rank[i as int], n,
{
    if !in_tree(nodes, rank, i) || n == 0 || n > nodes[i as int].term.children().len() {
        Seq::empty()
    } else {
        let cs = nodes[i as int].term.children();
        let c = nodes[i as int].term.children()[n - 1];
        let mid = max_midline(nodes, rank, metrics, i, cs.len());
        painted_product(nodes, rank, cfg, metrics, caret_visible, i, (n - 1) as nat, x, y)
            + painted(
            nodes,
            rank,
            cfg,
            metrics,
            caret_visible,
            c,
            plus(x, product_size(nodes, cs.take(n - 1)).width),
            minus(plus(y, mid), midline(nodes, rank, metrics, c)),
        )
    }
}

/// What is drawn for the first `n` summands of the sum `i`: the first as
/// it is, each further one behind its separator. A negated summand gives
/// its sign to the separator, and what it negates is drawn in its place.
pub open spec fn painted_sum(
    nodes: Seq<NodeModel>,
    rank: Seq<nat>,
    cfg: Config,
    metrics: Seq<NodeMetrics>,
    caret_visible: bool,
    i: NodeId,
    n: nat,
    x: i64,
    y: i64,
) -> Seq<CommandModel>
    decreases rank[i as int], n,
{
    if !in_tree(nodes, rank, i) || n == 0 || n > nodes[i as int].term.children().len() {
        Seq::empty()
    } else {
        let cs = nodes[i as int].term.children();
        let c = nodes[i as int].term.children()[n - 1];
        let m = metrics[i as int];
        let mid = max_midline(nodes, rank, metrics, i, cs.len());
        let left = plus(x, sum_size(nodes, cs.take(n - 1), m).width);
        let before = painted_sum(
            nodes,
            rank,
            cfg,
            metrics,
            caret_visible,
            i,
            (n - 1) as nat,
            x,
            y,
        );
        if n == 1 {
            before + painted(
                nodes,
                rank,
                cfg,
                metrics,
                caret_visible,
                c,
                left,
                minus(plus(y, mid), midline(nodes, rank, metrics, c)),
            )
        } else if nodes[c as int].term is Negative && c < nodes.len() {
            let g = nodes[c as int].term.children()[0];
            before + seq![
                text_at(i, minus_chars(), left, plus(plus(y, mid), half(m.line_height))),
            ] + painted(
                nodes,
                rank,
                cfg,
                metrics,
                caret_visible,
                g,
                plus(
                    plus(x, m.extra_width),
                    sum_size(nodes, cs.take(n - 1), m).width,
                ),
                minus(plus(y, mid), midline(nodes, rank, metrics, g)),
            )
        } else {
            before + seq![
                text_at(i, plus_chars(), left, plus(plus(y, mid), half(m.line_height))),
            ] + painted(
                nodes,
                rank,
                cfg,
                metrics,
                caret_visible,
                c,
                plus(
                    plus(x, m.glyph.width),
                    sum_size(nodes, cs.take(n - 1), m).width,
                ),
                minus(plus(y, mid), midline(nodes, rank, metrics, c)),
            )
        }
    }
}

/// The node that a command draws a part of.
pub open spec fn command_node(command: CommandModel) -> NodeId {
    match command {
        CommandModel::Text { node, .. } => node,
        CommandModel::Line { node, .. } => node,
    }
}

/// Every command of the list draws a part of a node that has a cached
/// size.
pub open spec fn draws_measured(nodes: Seq<NodeModel>, commands: Seq<CommandModel>) -> bool {
    forall|k: int|
        0 <= k < commands.len() ==> command_node(#[trigger] commands[k]) < nodes.len()
            && nodes[command_node(commands[k]) as int].layout is Some
}

/// Two lists that draw measured nodes only, one after the other, draw
/// measured nodes only.
pub proof fn lemma_draws_measured_concat(
    nodes: Seq<NodeModel>,
    a: Seq<CommandModel>,
    b: Seq<CommandModel>,
)
    requires
        draws_measured(nodes, a),
        draws_measured(nodes, b),
    ensures
        draws_measured(nodes, a + b),
{
    assert forall|k: int| 0 <= k < (a + b).len() implies command_node(#[trigger] (a + b)[k])
        < nodes.len() && nodes[command_node((a + b)[k]) as int].layout is Some by {
        if k < a.len() {
            assert((a + b)[k] == a[k]);
        } else {
            assert((a + b)[k] == b[k - a.len()]);
        }
    }
}

/// Painting never draws a node that has not been measured: every command
/// for a node that can be painted draws a part of a node with a cached size.
pub proof fn lemma_painted_measured(
    nodes: Seq<NodeModel>,
    rank: Seq<nat>,
    cfg: Config,
    metrics: Seq<NodeMetrics>,
    caret_visible: bool,
    i: NodeId,
    x: i64,
    y: i64,
)
    requires
        paintable(nodes, rank, i),
    ensures
        draws_measured(nodes, painted(nodes, rank, cfg, metrics, caret_visible, i, x, y)),
    decreases rank[i as int], nodes[i as int].term.children().len() + 1,
{
    let m = metrics[i as int];
    let size = layout_of(nodes, i);
    let cs = nodes[i as int].term.children();
    let bottom = plus(y, size.height);
    assert forall|k: int| 0 <= k < cs.len() implies child_ok(nodes, i as int, #[trigger] cs[k])
        && rank[cs[k] as int] < rank[i as int] && paintable(nodes, rank, cs[k]) by {
        assert(child_ok(nodes, i as int, nodes[i as int].term.children()[k]));
        assert(rank[nodes[i as int].term.children()[k] as int] < rank[i as int]);
        assert(paintable(nodes, rank, nodes[i as int].term.children()[k]));
    }
    match nodes[i as int].term {
        TermModel::Negative(_) => {
            let first = seq![text_at(i, seq!['-'], x, bottom)];
            let inner = painted(nodes, rank, cfg, metrics, caret_visible, cs[0], plus(x, m.glyph.width), y);
            lemma_painted_measured(nodes, rank, cfg, metrics, caret_visible, cs[0], plus(x, m.glyph.width), y);
            lemma_draws_measured_concat(nodes, first, inner);
        },
        TermModel::Parentheses(_) => {
            let first = seq![text_at(i, seq!['('], x, bottom)];
            let inner = painted(nodes, rank, cfg, metrics, caret_visible, cs[0], plus(x, m.extra_width), y);
            let last = seq![
                text_at(
                    i,
                    seq![')'],
                    plus(plus(x, m.extra_width), layout_of(nodes, cs[0]).width),
                    bottom,
                ),
            ];
            lemma_painted_measured(nodes, rank, cfg, metrics, caret_visible, cs[0], plus(x, m.extra_width), y);
            lemma_draws_measured_concat(nodes, first, inner);
            lemma_draws_measured_concat(nodes, first + inner, last);
        },
        TermModel::Multiplication(_) => {
            lemma_painted_product_measured(nodes, rank, cfg, metrics, caret_visible, i, cs.len(), x, y);
        },
        TermModel::Addition(_) => {
            lemma_painted_sum_measured(nodes, rank, cfg, metrics, caret_visible, i, cs.len(), x, y);
        },
        TermModel::Exponentiation(_, _) => {
            let b = cs[0];
            let e = cs[1];
            let top = minus(
                minus(
                    plus(plus(y, layout_of(nodes, e).height), half(m.line_height)),
                    layout_of(nodes, b).height,
                ),
                cfg.exponent_overlap,
            );
            lemma_painted_measured(nodes, rank, cfg, metrics, caret_visible, b, x, top);
            lemma_painted_measured(nodes, rank, cfg, metrics, caret_visible, e, plus(x, layout_of(nodes, b).width), y);
            lemma_draws_measured_concat(
                nodes,
                painted(nodes, rank, cfg, metrics, caret_visible, b, x, top),
                painted(nodes, rank, cfg, metrics, caret_visible, e, plus(x, layout_of(nodes, b).width), y),
            );
        },
        TermModel::Division(_, _) => {
            let n = cs[0];
            let d = cs[1];
            let above = layout_of(nodes, n);
            let below = layout_of(nodes, d);
            let bar = plus(plus(y, above.height), half(cfg.division_padding_y));
            let nx = plus(
                plus(x, cfg.division_padding_x),
                half(larger(0, minus(below.width, above.width))),
            );
            let dx = plus(
                plus(x, cfg.division_padding_x),
                half(larger(0, minus(above.width, below.width))),
            );
            let dy = plus(plus(y, cfg.division_padding_y), above.height);
            let line = seq![
                CommandModel::Line { node: i, x1: x, y1: bar, x2: plus(x, size.width), y2: bar },
            ];
            lemma_painted_measured(nodes, rank, cfg, metrics, caret_visible, n, nx, y);
            lemma_painted_measured(nodes, rank, cfg, metrics, caret_visible, d, dx, dy);
            let top = painted(nodes, rank, cfg, metrics, caret_visible, n, nx, y);
            lemma_draws_measured_concat(nodes, top, line);
            lemma_draws_measured_concat(
                nodes,
                top + line,
                painted(nodes, rank, cfg, metrics, caret_visible, d, dx, dy),
            );
        },
        _ => {},
    }
}

/// The factors of a product that can be painted are drawn from measured
/// nodes only.
pub proof fn lemma_painted_product_measured(
    nodes: Seq<NodeModel>,
    rank: Seq<nat>,
    cfg: Config,
    metrics: Seq<NodeMetrics>,
    caret_visible: bool,
    i: NodeId,
    n: nat,
    x: i64,
    y: i64,
)
    requires
        paintable(nodes, rank, i),
    ensures
        draws_measured(
            nodes,
            painted_product(nodes, rank, cfg, metrics, caret_visible, i, n, x, y),
        ),
    decreases rank[i as int], n,
{
    let cs = nodes[i as int].term.children();
    if n > 0 && n <= cs.len() {
        let c = nodes[i as int].term.children()[n - 1];
        assert(child_ok(nodes, i as int, c));
        assert(rank[c as int] < rank[i as int]);
        assert(paintable(nodes, rank, c));
        let mid = max_midline(nodes, rank, metrics, i, cs.len());
        let cx = plus(x, product_size(nodes, cs.take(n - 1)).width);
        let cy = minus(plus(y, mid), midline(nodes, rank, metrics, c));
        lemma_painted_product_measured(nodes, rank, cfg, metrics, caret_visible, i, (n - 1) as nat, x, y);
        lemma_painted_measured(nodes, rank, cfg, metrics, caret_visible, c, cx, cy);
        lemma_draws_measured_concat(
            nodes,
            painted_product(nodes, rank, cfg, metrics, caret_visible, i, (n - 1) as nat, x, y),
            painted(nodes, rank, cfg, metrics, caret_visible, c, cx, cy),
        );
    }
}

/// The summands of a sum that can be painted are drawn from measured nodes
/// only.
pub proof fn lemma_painted_sum_measured(
    nodes: Seq<NodeModel>,
    rank: Seq<nat>,
    cfg: Config,
    metrics: Seq<NodeMetrics>,
    caret_visible: bool,
    i: NodeId,
    n: nat,
    x: i64,
    y: i64,
)
    requires
        paintable(nodes, rank, i),
    ensures
        draws_measured(nodes, painted_sum(nodes, rank, cfg, metrics, caret_visible, i, n, x, y)),
    decreases rank[i as int], n,
{
    let cs = nodes[i as int].term.children();
    if n > 0 && n <= cs.len() {
        let c = nodes[i as int].term.children()[n - 1];
        assert(child_ok(nodes, i as int, c));
        assert(rank[c as int] < rank[i as int]);
        assert(paintable(nodes, rank, c));
        let m = metrics[i as int];
        let mid = max_midline(nodes, rank, metrics, i, cs.len());
        let advance = sum_size(nodes, cs.take(n - 1), m).width;
        let left = plus(x, advance);
        let before = painted_sum(nodes, rank, cfg, metrics, caret_visible, i, (n - 1) as nat, x, y);
        lemma_painted_sum_measured(nodes, rank, cfg, metrics, caret_visible, i, (n - 1) as nat, x, y);
        let baseline = plus(plus(y, mid), half(m.line_height));
        if n == 1 {
            let cy = minus(plus(y, mid), midline(nodes, rank, metrics, c));
            lemma_painted_measured(nodes, rank, cfg, metrics, caret_visible, c, left, cy);
            lemma_draws_measured_concat(
                nodes,
                before,
                painted(nodes, rank, cfg, metrics, caret_visible, c, left, cy),
            );
        } else if nodes[c as int].term is Negative {
            let g = nodes[c as int].term.children()[0];
            assert(child_ok(nodes, c as int, g));
            assert(rank[g as int] < rank[c as int]);
            assert(paintable(nodes, rank, g));
            let sign = seq![text_at(i, minus_chars(), left, baseline)];
            let gx = plus(plus(x, m.extra_width), advance);
            let gy = minus(plus(y, mid), midline(nodes, rank, metrics, g));
            lemma_painted_measured(nodes, rank, cfg, metrics, caret_visible, g, gx, gy);
            lemma_draws_measured_concat(nodes, before, sign);
            lemma_draws_measured_concat(
                nodes,
                before + sign,
                painted(nodes, rank, cfg, metrics, caret_visible, g, gx, gy),
            );
        } else {
            let sign = seq![text_at(i, plus_chars(), left, baseline)];
            let cx = plus(plus(x, m.glyph.width), advance);
            let cy = minus(plus(y, mid), midline(nodes, rank, metrics, c));
            lemma_painted_measured(nodes, rank, cfg, metrics, caret_visible, c, cx, cy);
            lemma_draws_measured_concat(nodes, before, sign);
            lemma_draws_measured_concat(
                nodes,
                before + sign,
                painted(nodes, rank, cfg, metrics, caret_visible, c, cx, cy),
            );
        }
    }
}

/// The string of `c` between two spaces.
pub fn spaced(c: char) -> (s: String)
    ensures
        s@ == seq![' ', c, ' '],
{
    let v = vec![' ', c, ' '];
    assert(v@ =~= seq![' ', c, ' ']);
    string_of(&v)
}

/// Adds a command to the end of the list.
pub fn emit(out: &mut Vec<PaintCommand>, command: PaintCommand)
    ensures
        view_all(final(out)@) == view_all(old(out)@).push(command@),
{
    out.push(command);
    assert(view_all(out@) =~= view_all(old(out)@).push(command@));
}

/// Adds a text command, not in subscript, to the end of the list.
pub fn emit_text(out: &mut Vec<PaintCommand>, node: NodeId, text: String, x: i64, y: i64)
    ensures
        view_all(final(out)@) == view_all(old(out)@).push(text_at(node, text@, x, y)),
{
    emit(out, PaintCommand::Text { node, text, x, y, subscript: false });
}

impl TermTree {
    /// Adds to `out` what the host is to draw for node `idx` with its top
    /// left corner at `(x, y)`.
    pub fn paint_node(
        &self,
        cfg: &Config,
        metrics: &Vec<NodeMetrics>,
        caret_visible: bool,
        idx: NodeId,
        x: i64,
        y: i64,
        out: &mut Vec<PaintCommand>,
    )
        requires
            self.wf(),
            idx < self@.len(),
            metrics@.len() == self@.len(),
            paintable(self@, self.ranks(), idx),
        ensures
            view_all(final(out)@) == view_all(old(out)@) + painted(
                self@,
                self.ranks(),
                *cfg,
                metrics@,
                caret_visible,
                idx,
                x,
                y,
            ),
        decreases self.ranks()[idx as int], 1nat,
    {
        match &self.nodes[idx].term {
            Term::Empty | Term::Cursor | Term::Numeral(..) | Term::Variable(..) => {
                self.paint_leaf(cfg, metrics, caret_visible, idx, x, y, out);
            },
            Term::Negative(_) | Term::Parentheses(_) => {
                self.paint_enclosed(cfg, metrics, caret_visible, idx, x, y, out);
            },
            Term::Multiplication(_) => {
                self.paint_product(cfg, metrics, caret_visible, idx, x, y, out);
            },
            Term::Addition(_) => {
                self.paint_sum(cfg, metrics, caret_visible, idx, x, y, out);
            },
            Term::Exponentiation(..) => {
                self.paint_power(cfg, metrics, caret_visible, idx, x, y, out);
            },
            Term::Division(..) => {
                self.paint_fraction(cfg, metrics, caret_visible, idx, x, y, out);
            },
        }
    }

    /// Draws a node without children: its own text.
    pub fn paint_leaf(
        &self,
        cfg: &Config,
        metrics: &Vec<NodeMetrics>,
        caret_visible: bool,
        idx: NodeId,
        x: i64,
        y: i64,
        out: &mut Vec<PaintCommand>,
    )
        requires
            self.wf(),
            idx < self@.len(),
            metrics@.len() == self@.len(),
            paintable(self@, self.ranks(), idx),
            self@[idx as int].term is Empty || self@[idx as int].term is Cursor
                || self@[idx as int].term is Numeral || self@[idx as int].term is Variable,
        ensures
            view_all(final(out)@) == view_all(old(out)@) + painted(
                self@,
                self.ranks(),
                *cfg,
                metrics@,
                caret_visible,
                idx,
                x,
                y,
            ),
        decreases self.ranks()[idx as int], 0nat,
    {
        let m = metrics[idx];
        let size = self.cached(idx);
        let line = sat_plus(y, m.line_height);
        let bottom = sat_plus(y, size.height);
        let ghost start = view_all(out@);
        let ghost goal = painted(self@, self.ranks(), *cfg, metrics@, caret_visible, idx, x, y);
        match &self.nodes[idx].term {
            Term::Empty => {
                emit_text(out, idx, spaced('|'), x, line);
                assert(view_all(out@) =~= start + goal);
            },
            Term::Cursor => {
                if caret_visible {
                    emit_text(out, idx, char_string('|'), x, line);
                }
                assert(view_all(out@) =~= start + goal);
            },
            Term::Numeral(value, fraction) => {
                emit_text(out, idx, numeral_text(*value, *fraction), x, line);
                assert(view_all(out@) =~= start + goal);
            },
            Term::Variable(name) => {
                let count = name.as_str().unicode_len();
                emit_text(out, idx, head_string(name.as_str()), x, line);
                if count > 2 {
                    let drop = half_of(portion_of(m.line_height, cfg.subscript_permille));
                    let text = tail_string(name.as_str(), 2, SUBSCRIPT_CURSOR, caret_visible);
                    assert(text@ =~= subscript_chars(name@, caret_visible));
                    emit(
                        out,
                        PaintCommand::Text {
                            node: idx,
                            text,
                            x: sat_plus(x, m.glyph.width),
                            y: sat_plus(y, sat_plus(m.line_height, drop)),
                            subscript: true,
                        },
                    );
                }
                assert(view_all(out@) =~= start + goal);
            },
            _ => {},
        }
    }

    /// Draws a negation or a pair of parentheses: its sign or brackets, and
    /// what is inside.
    pub fn paint_enclosed(
        &self,
        cfg: &Config,
        metrics: &Vec<NodeMetrics>,
        caret_visible: bool,
        idx: NodeId,
        x: i64,
        y: i64,
        out: &mut Vec<PaintCommand>,
    )
        requires
            self.wf(),
            idx < self@.len(),
            metrics@.len() == self@.len(),
            paintable(self@, self.ranks(), idx),
            self@[idx as int].term is Negative || self@[idx as int].term is Parentheses,
        ensures
            view_all(final(out)@) == view_all(old(out)@) + painted(
                self@,
                self.ranks(),
                *cfg,
                metrics@,
                caret_visible,
                idx,
                x,
                y,
            ),
        decreases self.ranks()[idx as int], 0nat,
    {
        let m = metrics[idx];
        let size = self.cached(idx);
        let line = sat_plus(y, m.line_height);
        let bottom = sat_plus(y, size.height);
        let ghost start = view_all(out@);
        let ghost goal = painted(self@, self.ranks(), *cfg, metrics@, caret_visible, idx, x, y);
        match &self.nodes[idx].term {
            Term::Negative(c) => {
                proof {
                    assert(child_ok(self@, idx as int, self@[idx as int].term.children()[0]));
                    assert(self.ranks()[self@[idx as int].term.children()[0] as int]
                        < self.ranks()[idx as int]);
                }
                emit_text(out, idx, char_string('-'), x, bottom);
                self.paint_node(cfg, metrics, caret_visible, *c, sat_plus(x, m.glyph.width), y, out);
                assert(view_all(out@) =~= start + goal);
            },
            Term::Parentheses(c) => {
                proof {
                    assert(child_ok(self@, idx as int, self@[idx as int].term.children()[0]));
                    assert(self.ranks()[self@[idx as int].term.children()[0] as int]
                        < self.ranks()[idx as int]);
                }
                let inner = sat_plus(x, m.extra_width);
                emit_text(out, idx, char_string('('), x, bottom);
                self.paint_node(cfg, metrics, caret_visible, *c, inner, y, out);
                emit_text(
                    out,
                    idx,
                    char_string(')'),
                    sat_plus(inner, self.cached(*c).width),
                    bottom,
                );
                assert(view_all(out@) =~= start + goal);
            },
            _ => {},
        }
    }

    /// Draws a product: its factors side by side, on one midline.
    pub fn paint_product(
        &self,
        cfg: &Config,
        metrics: &Vec<NodeMetrics>,
        caret_visible: bool,
        idx: NodeId,
        x: i64,
        y: i64,
        out: &mut Vec<PaintCommand>,
    )
        requires
            self.wf(),
            idx < self@.len(),
            metrics@.len() == self@.len(),
            paintable(self@, self.ranks(), idx),
            self@[idx as int].term is Multiplication,
        ensures
            view_all(final(out)@) == view_all(old(out)@) + painted(
                self@,
                self.ranks(),
                *cfg,
                metrics@,
                caret_visible,
                idx,
                x,
                y,
            ),
        decreases self.ranks()[idx as int], 0nat,
    {
        let m = metrics[idx];
        let size = self.cached(idx);
        let line = sat_plus(y, m.line_height);
        let bottom = sat_plus(y, size.height);
        let ghost start = view_all(out@);
        let ghost goal = painted(self@, self.ranks(), *cfg, metrics@, caret_visible, idx, x, y);
        match &self.nodes[idx].term {
            Term::Multiplication(cs) => {
                proof {
                    lemma_paintable_midline_ready(self@, self.ranks(), idx);
                }
                let mid = self.mid_line(metrics, idx);
                let mut advance: i64 = 0;
                let mut k: usize = 0;
                while k < cs.len()
                    invariant
                        0 <= k <= cs.len(),
                        self.wf(),
                        idx < self@.len(),
                        metrics@.len() == self@.len(),
                        paintable(self@, self.ranks(), idx),
                        cs@ == self@[idx as int].term.children(),
                        self@[idx as int].term is Multiplication,
                        mid == max_midline(self@, self.ranks(), metrics@, idx, cs@.len()),
                        advance == product_size(self@, cs@.take(k as int)).width,
                        view_all(out@) == start + painted_product(
                            self@,
                            self.ranks(),
                            *cfg,
                            metrics@,
                            caret_visible,
                            idx,
                            k as nat,
                            x,
                            y,
                        ),
                    decreases cs.len() - k,
                {
                    let c = cs[k];
                    proof {
                        assert(child_ok(self@, idx as int, self@[idx as int].term.children()[k as int]));
                        assert(self.ranks()[self@[idx as int].term.children()[k as int] as int]
                            < self.ranks()[idx as int]);
                        assert(cs@.take(k as int + 1).drop_last() =~= cs@.take(k as int));
                    }
                    let ghost before = view_all(out@);
                    proof {
                        lemma_paintable_midline_ready(self@, self.ranks(), c);
                    }
                    let top = sat_minus(sat_plus(y, mid), self.mid_line(metrics, c));
                    self.paint_node(cfg, metrics, caret_visible, c, sat_plus(x, advance), top, out);
                    advance = sat_plus(advance, self.cached(c).width);
                    k += 1;
                    proof {
                        let step = painted(
                            self@,
                            self.ranks(),
                            *cfg,
                            metrics@,
                            caret_visible,
                            c,
                            plus(x, product_size(self@, cs@.take(k - 1)).width),
                            minus(plus(y, mid), midline(self@, self.ranks(), metrics@, c)),
                        );
                        let prefix = painted_product(
                            self@,
                            self.ranks(),
                            *cfg,
                            metrics@,
                            caret_visible,
                            idx,
                            (k - 1) as nat,
                            x,
                            y,
                        );
                        assert(view_all(out@) =~= start + (prefix + step));
                    }
                }
                assert(view_all(out@) =~= start + goal);
            },
            _ => {},
        }
    }

    /// Draws a sum: its summands side by side behind their separators, on one
    /// midline.
    pub fn paint_sum(
        &self,
        cfg: &Config,
        metrics: &Vec<NodeMetrics>,
        caret_visible: bool,
        idx: NodeId,
        x: i64,
        y: i64,
        out: &mut Vec<PaintCommand>,
    )
        requires
            self.wf(),
            idx < self@.len(),
            metrics@.len() == self@.len(),
            paintable(self@, self.ranks(), idx),
            self@[idx as int].term is Addition,
        ensures
            view_all(final(out)@) == view_all(old(out)@) + painted(
                self@,
                self.ranks(),
                *cfg,
                metrics@,
                caret_visible,
                idx,
                x,
                y,
            ),
        decreases self.ranks()[idx as int], 0nat,
    {
        let m = metrics[idx];
        let size = self.cached(idx);
        let line = sat_plus(y, m.line_height);
        let bottom = sat_plus(y, size.height);
        let ghost start = view_all(out@);
        let ghost goal = painted(self@, self.ranks(), *cfg, metrics@, caret_visible, idx, x, y);
        match &self.nodes[idx].term {
            Term::Addition(cs) => {
                proof {
                    lemma_paintable_midline_ready(self@, self.ranks(), idx);
                }
                let mid = self.mid_line(metrics, idx);
                let mut advance: i64 = 0;
                let mut k: usize = 0;
                while k < cs.len()
                    invariant
                        0 <= k <= cs.len(),
                        self.wf(),
                        idx < self@.len(),
                        metrics@.len() == self@.len(),
                        paintable(self@, self.ranks(), idx),
                        m == metrics@[idx as int],
                        cs@ == self@[idx as int].term.children(),
                        self@[idx as int].term is Addition,
                        mid == max_midline(self@, self.ranks(), metrics@, idx, cs@.len()),
                        advance == sum_size(self@, cs@.take(k as int), m).width,
                        view_all(out@) == start + painted_sum(
                            self@,
                            self.ranks(),
                            *cfg,
                            metrics@,
                            caret_visible,
                            idx,
                            k as nat,
                            x,
                            y,
                        ),
                    decreases cs.len() - k,
                {
                    let c = cs[k];
                    proof {
                        assert(cs@.take(k as int + 1).drop_last() =~= cs@.take(k as int));
                        assert(cs@.take(k as int + 1).last() == cs@[k as int]);
                        assert(child_ok(self@, idx as int, self@[idx as int].term.children()[k as int]));
                        assert(self.ranks()[self@[idx as int].term.children()[k as int] as int]
                            < self.ranks()[idx as int]);
                    }
                    let ghost prefix = painted_sum(
                        self@,
                        self.ranks(),
                        *cfg,
                        metrics@,
                        caret_visible,
                        idx,
                        k as nat,
                        x,
                        y,
                    );
                    let left = sat_plus(x, advance);
                    let baseline = sat_plus(sat_plus(y, mid), half_of(m.line_height));
                    if k == 0 {
                        proof {
                            lemma_paintable_midline_ready(self@, self.ranks(), c);
                        }
                        let top = sat_minus(sat_plus(y, mid), self.mid_line(metrics, c));
                        self.paint_node(cfg, metrics, caret_visible, c, left, top, out);
                        advance = sat_plus(advance, self.cached(c).width);
                        proof {
                            let step = painted(
                                self@,
                                self.ranks(),
                                *cfg,
                                metrics@,
                                caret_visible,
                                c,
                                left,
                                top,
                            );
                            assert(view_all(out@) =~= start + (prefix + step));
                        }
                    } else {
                        match self.negated(c) {
                            Some(g) => {
                                proof {
                                    assert(child_ok(
                                        self@,
                                        c as int,
                                        self@[c as int].term.children()[0],
                                    ));
                                    assert(self.ranks()[self@[c as int].term.children()[0] as int]
                                        < self.ranks()[c as int]);
                                }
                                emit_text(out, idx, spaced('-'), left, baseline);
                                proof {
                                    assert(paintable(self@, self.ranks(), c));
                                    assert(paintable(
                                        self@,
                                        self.ranks(),
                                        self@[c as int].term.children()[0],
                                    ));
                                    lemma_paintable_midline_ready(self@, self.ranks(), g);
                                }
                                let top = sat_minus(sat_plus(y, mid), self.mid_line(metrics, g));
                                let inner = sat_plus(sat_plus(x, m.extra_width), advance);
                                self.paint_node(cfg, metrics, caret_visible, g, inner, top, out);
                                advance =
                                sat_plus(advance, sat_plus(m.extra_width, self.cached(g).width));
                                proof {
                                    let step = painted(
                                        self@,
                                        self.ranks(),
                                        *cfg,
                                        metrics@,
                                        caret_visible,
                                        g,
                                        inner,
                                        top,
                                    );
                                    assert(view_all(out@) =~= start + (prefix + seq![
                                        text_at(idx, minus_chars(), left, baseline),
                                    ] + step));
                                }
                            },
                            None => {
                                emit_text(out, idx, spaced('+'), left, baseline);
                                proof {
                                    lemma_paintable_midline_ready(self@, self.ranks(), c);
                                }
                                let top = sat_minus(sat_plus(y, mid), self.mid_line(metrics, c));
                                let inner = sat_plus(sat_plus(x, m.glyph.width), advance);
                                self.paint_node(cfg, metrics, caret_visible, c, inner, top, out);
                                advance =
                                sat_plus(advance, sat_plus(m.glyph.width, self.cached(c).width));
                                proof {
                                    let step = painted(
                                        self@,
                                        self.ranks(),
                                        *cfg,
                                        metrics@,
                                        caret_visible,
                                        c,
                                        inner,
                                        top,
                                    );
                                    assert(view_all(out@) =~= start + (prefix + seq![
                                        text_at(idx, plus_chars(), left, baseline),
                                    ] + step));
                                }
                            },
                        }
                    }
                    k += 1;
                }
                assert(view_all(out@) =~= start + goal);
            },
            _ => {},
        }
    }

    /// Draws a power: the base, and the raised exponent to its right.
    pub fn paint_power(
        &self,
        cfg: &Config,
        metrics: &Vec<NodeMetrics>,
        caret_visible: bool,
        idx: NodeId,
        x: i64,
        y: i64,
        out: &mut Vec<PaintCommand>,
    )
        requires
            self.wf(),
            idx < self@.len(),
            metrics@.len() == self@.len(),
            paintable(self@, self.ranks(), idx),
            self@[idx as int].term is Exponentiation,
        ensures
            view_all(final(out)@) == view_all(old(out)@) + painted(
                self@,
                self.ranks(),
                *cfg,
                metrics@,
                caret_visible,
                idx,
                x,
                y,
            ),
        decreases self.ranks()[idx as int], 0nat,
    {
        let m = metrics[idx];
        let size = self.cached(idx);
        let line = sat_plus(y, m.line_height);
        let bottom = sat_plus(y, size.height);
        let ghost start = view_all(out@);
        let ghost goal = painted(self@, self.ranks(), *cfg, metrics@, caret_visible, idx, x, y);
        match &self.nodes[idx].term {
            Term::Exponentiation(b, e) => {
                proof {
                    assert(child_ok(self@, idx as int, self@[idx as int].term.children()[0]));
                    assert(child_ok(self@, idx as int, self@[idx as int].term.children()[1]));
                    assert(self.ranks()[self@[idx as int].term.children()[0] as int]
                        < self.ranks()[idx as int]);
                    assert(self.ranks()[self@[idx as int].term.children()[1] as int]
                        < self.ranks()[idx as int]);
                }
                let base = self.cached(*b);
                let exponent = self.cached(*e);
                let top = sat_minus(
                    sat_minus(
                        sat_plus(sat_plus(y, exponent.height), half_of(m.line_height)),
                        base.height,
                    ),
                    cfg.exponent_overlap,
                );
                self.paint_node(cfg, metrics, caret_visible, *b, x, top, out);
                self.paint_node(cfg, metrics, caret_visible, *e, sat_plus(x, base.width), y, out);
                assert(view_all(out@) =~= start + goal);
            },
            _ => {},
        }
    }

    /// Draws a fraction: numerator, bar and denominator, each centred.
    pub fn paint_fraction(
        &self,
        cfg: &Config,
        metrics: &Vec<NodeMetrics>,
        caret_visible: bool,
        idx: NodeId,
        x: i64,
        y: i64,
        out: &mut Vec<PaintCommand>,
    )
        requires
            self.wf(),
            idx < self@.len(),
            metrics@.len() == self@.len(),
            paintable(self@, self.ranks(), idx),
            self@[idx as int].term is Division,
        ensures
            view_all(final(out)@) == view_all(old(out)@) + painted(
                self@,
                self.ranks(),
                *cfg,
                metrics@,
                caret_visible,
                idx,
                x,
                y,
            ),
        decreases self.ranks()[idx as int], 0nat,
    {
        let m = metrics[idx];
        let size = self.cached(idx);
        let line = sat_plus(y, m.line_height);
        let bottom = sat_plus(y, size.height);
        let ghost start = view_all(out@);
        let ghost goal = painted(self@, self.ranks(), *cfg, metrics@, caret_visible, idx, x, y);
        match &self.nodes[idx].term {
            Term::Division(n, d) => {
                proof {
                    assert(child_ok(self@, idx as int, self@[idx as int].term.children()[0]));
                    assert(child_ok(self@, idx as int, self@[idx as int].term.children()[1]));
                    assert(self.ranks()[self@[idx as int].term.children()[0] as int]
                        < self.ranks()[idx as int]);
                    assert(self.ranks()[self@[idx as int].term.children()[1] as int]
                        < self.ranks()[idx as int]);
                }
                let above = self.cached(*n);
                let below = self.cached(*d);
                let bar = sat_plus(sat_plus(y, above.height), half_of(cfg.division_padding_y));
                let inner = sat_plus(x, cfg.division_padding_x);
                self.paint_node(
                    cfg,
                    metrics,
                    caret_visible,
                    *n,
                    sat_plus(inner, half_of(max_of(0, sat_minus(below.width, above.width)))),
                    y,
                    out,
                );
                emit(
                    out,
                    PaintCommand::Line {
                        node: idx,
                        x1: x,
                        y1: bar,
                        x2: sat_plus(x, size.width),
                        y2: bar,
                    },
                );
                self.paint_node(
                    cfg,
                    metrics,
                    caret_visible,
                    *d,
                    sat_plus(inner, half_of(max_of(0, sat_minus(above.width, below.width)))),
                    sat_plus(sat_plus(y, cfg.division_padding_y), above.height),
                    out,
                );
                assert(view_all(out@) =~= start + goal);
            },
            _ => {},
        }
    }

    /// The second phase of the layout: the commands that draw the whole
    /// tree with its top left corner at `(x, y)`. The first phase must have
    /// run: the root and every node below it has its size. It fails, and
    /// draws nothing, if the metrics are not one for each node.
    pub fn paint(
        &self,
        cfg: &Config,
        metrics: &Vec<NodeMetrics>,
        caret_visible: bool,
        x: i64,
        y: i64,
    ) -> (r: Result<Vec<PaintCommand>, LayoutError>)
        requires
            self.wf(),
            paintable(self@, self.ranks(), 0),
        ensures
            match r {
                Ok(commands) => metrics@.len() == self@.len() && draws_measured(
                    self@,
                    view_all(commands@),
                ) && view_all(commands@) == painted(
                    self@,
                    self.ranks(),
                    *cfg,
                    metrics@,
                    caret_visible,
                    0,
                    x,
                    y,
                ),
                Err(e) => e == LayoutError::MetricsMismatch && metrics@.len() != self@.len(),
            },
    {
        if metrics.len() != self.nodes.len() {
            return Err(LayoutError::MetricsMismatch);
        }
        let mut out: Vec<PaintCommand> = Vec::new();
        self.paint_node(cfg, metrics, caret_visible, 0, x, y, &mut out);
        proof {
            lemma_painted_measured(self@, self.ranks(), *cfg, metrics@, caret_visible, 0, x, y);
        }
        assert(view_all(out@) =~= painted(
            self@,
            self.ranks(),
            *cfg,
            metrics@,
            caret_visible,
            0,
            x,
            y,
        ));
        Ok(out)
    }

    /// The second phase of the layout at the present time: as `paint`, with
    /// the caret shown or hidden as the clock has it.
    pub fn render(&self, cfg: &Config, metrics: &Vec<NodeMetrics>, x: i64, y: i64) -> (r: Result<
        Vec<PaintCommand>,
        LayoutError,
    >)
        requires
            self.wf(),
            paintable(self@, self.ranks(), 0),
        ensures
            match r {
                Ok(commands) => metrics@.len() == self@.len() && draws_measured(
                    self@,
                    view_all(commands@),
                ) && (view_all(commands@) == painted(
                    self@,
                    self.ranks(),
                    *cfg,
                    metrics@,
                    true,
                    0,
                    x,
                    y,
                ) || view_all(commands@) == painted(
                    self@,
                    self.ranks(),
                    *cfg,
                    metrics@,
                    false,
                    0,
                    x,
                    y,
                )),
                Err(e) => e == LayoutError::MetricsMismatch && metrics@.len() != self@.len(),
            },
    {
        let caret_visible = caret_shown();
        self.paint(cfg, metrics, caret_visible, x, y)
    }

    /// Both phases in one: measures the tree unless its root has a cached
    /// size already, then paints it. A root that has a size must have it
    /// from the first phase, with every node below it. It fails, with
    /// nothing measured and nothing drawn, if the metrics are not one for
    /// each node.
    pub fn render_and_fill(
        &mut self,
        cfg: &Config,
        metrics: &Vec<NodeMetrics>,
        caret_visible: bool,
        x: i64,
        y: i64,
    ) -> (r: Result<Vec<PaintCommand>, LayoutError>)
        requires
            old(self).wf(),
            old(self)@[0].layout is Some ==> paintable(old(self)@, old(self).ranks(), 0),
        ensures
            final(self).wf(),
            final(self).ranks() == old(self).ranks(),
            same_shape(old(self)@, final(self)@),
            same_outside(old(self)@, final(self)@, old(self).ranks(), 0),
            old(self)@[0].layout is Some ==> final(self)@ == old(self)@,
            match r {
                Ok(commands) => metrics@.len() == final(self)@.len() && paintable(
                    final(self)@,
                    final(self).ranks(),
                    0,
                ) && (old(self)@[0].layout is None ==> measured_below(
                    final(self)@,
                    final(self).ranks(),
                    *cfg,
                    metrics@,
                    0,
                )) && draws_measured(final(self)@, view_all(commands@)) && view_all(commands@)
                    == painted(
                    final(self)@,
                    final(self).ranks(),
                    *cfg,
                    metrics@,
                    caret_visible,
                    0,
                    x,
                    y,
                ),
                Err(e) => e == LayoutError::MetricsMismatch && metrics@.len() != old(self)@.len()
                    && final(self)@ == old(self)@,
            },
    {
        if self.nodes[0].layout.is_none() {
            match self.measure(cfg, metrics) {
                Ok(_) => {
                    proof {
                        assert(below(terms(self@), self.ranks(), 0, 0));
                        lemma_measured_paintable(self@, self.ranks(), *cfg, metrics@, 0, 0);
                    }
                },
                Err(e) => {
                    return Err(e);
                },
            }
        }
        self.paint(cfg, metrics, caret_visible, x, y)
    }

    /// Whether node `idx` and every node below it has a cached size.
    pub fn is_paintable(&self, idx: NodeId) -> (r: bool)
        requires
            self.wf(),
            idx < self@.len(),
        ensures
            r == paintable(self@, self.ranks(), idx),
        decreases self.ranks()[idx as int],
    {
        if self.nodes[idx].layout.is_none() {
            return false;
        }
        let cs = self.nodes[idx].term.children();
        let mut k: usize = 0;
        while k < cs.len()
            invariant
                0 <= k <= cs.len(),
                self.wf(),
                idx < self@.len(),
                cs@ == self@[idx as int].term.children(),
                forall|j: int|
                    0 <= j < k ==> paintable(self@, self.ranks(), #[trigger] cs@[j]),
            decreases cs.len() - k,
        {
            proof {
                assert(child_ok(self@, idx as int, self@[idx as int].term.children()[k as int]));
                assert(self.ranks()[self@[idx as int].term.children()[k as int] as int]
                    < self.ranks()[idx as int]);
            }
            if !self.is_paintable(cs[k]) {
                assert(!paintable(self@, self.ranks(), self@[idx as int].term.children()[k as int]));
                return false;
            }
            k += 1;
        }
        true
    }

    /// Whether node `idx` has what its midline is read from.
    pub fn has_midline(&self, idx: NodeId) -> (r: bool)
        requires
            self.wf(),
            idx < self@.len(),
        ensures
            r == midline_ready(self@, self.ranks(), idx),
        decreases self.ranks()[idx as int],
    {
        if self.nodes[idx].layout.is_none() {
            return false;
        }
        match &self.nodes[idx].term {
            Term::Division(_, d) => {
                proof {
                    assert(child_ok(self@, idx as int, self@[idx as int].term.children()[1]));
                }
                self.nodes[*d].layout.is_some()
            },
            Term::Exponentiation(_, e) => {
                proof {
                    assert(child_ok(self@, idx as int, self@[idx as int].term.children()[1]));
                }
                self.nodes[*e].layout.is_some()
            },
            Term::Multiplication(cs) | Term::Addition(cs) => {
                let mut k: usize = 0;
                while k < cs.len()
                    invariant
                        0 <= k <= cs.len(),
                        self.wf(),
                        idx < self@.len(),
                        cs@ == self@[idx as int].term.children(),
                        self@[idx as int].layout is Some,
                        self@[idx as int].term is Multiplication || self@[idx as int].term
                            is Addition,
                        forall|j: int|
                            0 <= j < k ==> midline_ready(self@, self.ranks(), #[trigger] cs@[j]),
                    decreases cs.len() - k,
                {
                    proof {
                        assert(child_ok(self@, idx as int, self@[idx as int].term.children()[k as int]));
                        assert(self.ranks()[self@[idx as int].term.children()[k as int] as int]
                            < self.ranks()[idx as int]);
                    }
                    if !self.has_midline(cs[k]) {
                        assert(!midline_ready(
                            self@,
                            self.ranks(),
                            self@[idx as int].term.children()[k as int],
                        ));
                        return false;
                    }
                    k += 1;
                }
                true
            },
            _ => true,
        }
    }

    /// The midline of node `idx`, which must have been measured, with what
    /// its midline is read from.
    pub fn mid_line(&self, metrics: &Vec<NodeMetrics>, idx: NodeId) -> (r: i64)
        requires
            self.wf(),
            idx < self@.len(),
            metrics@.len() == self@.len(),
            midline_ready(self@, self.ranks(), idx),
        ensures
            r == midline(self@, self.ranks(), metrics@, idx),
        decreases self.ranks()[idx as int],
    {
        match &self.nodes[idx].term {
            Term::Division(_, d) => {
                proof {
                    assert(child_ok(self@, idx as int, self@[idx as int].term.children()[1]));
                }
                sat_minus(self.cached(idx).height, self.cached(*d).height)
            },
            Term::Exponentiation(_, e) => {
                proof {
                    assert(child_ok(self@, idx as int, self@[idx as int].term.children()[1]));
                }
                self.cached(*e).height
            },
            Term::Variable(name) => {
                if name.as_str().unicode_len() > 2 {
                    half_of(metrics[idx].line_height)
                } else {
                    half_of(self.cached(idx).height)
                }
            },
            Term::Multiplication(cs) | Term::Addition(cs) => {
                let mut best: i64 = 0;
                let mut k: usize = 0;
                while k < cs.len()
                    invariant
                        0 <= k <= cs.len(),
                        self.wf(),
                        idx < self@.len(),
                        metrics@.len() == self@.len(),
                        cs@ == self@[idx as int].term.children(),
                        midline_ready(self@, self.ranks(), idx),
                        self@[idx as int].term is Multiplication || self@[idx as int].term
                            is Addition,
                        best == max_midline(self@, self.ranks(), metrics@, idx, k as nat),
                    decreases cs.len() - k,
                {
                    proof {
                        assert(child_ok(self@, idx as int, self@[idx as int].term.children()[k as int]));
                        assert(self.ranks()[self@[idx as int].term.children()[k as int] as int]
                            < self.ranks()[idx as int]);
                    }
                    let m = self.mid_line(metrics, cs[k]);
                    best = max_of(best, m);
                    k += 1;
                }
                best
            },
            _ => half_of(self.cached(idx).height),
        }
    }
}

} // verus!
