//! An equation on the canvas: the text that the user edits, one character
//! at a time, and the trees of its sides, which are the parts of the text
//! between equals signs.

use vstd::prelude::*;
use crate::arena::{below, terms, TermTree};
use crate::clock::caret_shown;
use crate::layout::{
    layout_of, measured_below, same_outside, same_shape, Config, LayoutError, NodeMetrics,
};
use crate::paint::{
    lemma_measured_paintable, lemma_paintable_midline_ready, midline, paintable, painted,
    view_all, CommandModel,
    PaintCommand,
};
use crate::parser::{parse, parse_spec, ParseError};
use crate::request::{requested, requests_view, MetricRequest, RequestModel, Scale};
use crate::term::{NodeModel, RenderData};
use crate::text::{push_char, string_of, CURSOR_SYMBOL};
use crate::units::{half, half_of, larger, max_of, minus, plus, sat_minus, sat_plus};

verus! {

/// A character that can be typed into an equation: a printable ASCII
/// character or ASCII white space.
pub open spec fn is_typeable(c: char) -> bool {
    '!' <= c <= '~' || c == ' ' || c == '\t' || c == '\n' || c == '\r' || c == '\x0C'
}

/// Whether `c` can be typed into an equation.
pub fn char_is_typeable(c: char) -> (r: bool)
    ensures
        r == is_typeable(c),
{
    ('!' <= c && c <= '~') || c == ' ' || c == '\t' || c == '\n' || c == '\r' || c == '\x0C'
}

/// The parts of `text` between its equals signs: one more than it has
/// equals signs.
pub open spec fn split_sides(text: Seq<char>) -> Seq<Seq<char>>
    decreases text.len(),
{
    if text.len() == 0 {
        seq![Seq::empty()]
    } else {
        let before = split_sides(text.drop_last());
        if text.last() == '=' {
            before.push(Seq::empty())
        } else {
            before.drop_last().push(before.last().push(text.last()))
        }
    }
}

/// The arenas that the texts `sides` parse to, or `None` if one of them
/// does not parse.
pub open spec fn parse_sides(sides: Seq<Seq<char>>) -> Option<Seq<Seq<NodeModel>>>
    decreases sides.len(),
{
    if sides.len() == 0 {
        Some(Seq::empty())
    } else {
        match parse_sides(sides.drop_last()) {
            None => None,
            Some(before) => match parse_spec(sides.last()) {
                None => None,
                Some(nodes) => Some(before.push(nodes)),
            },
        }
    }
}

/// The arenas of a list of trees.
pub open spec fn trees_view(trees: Seq<TermTree>) -> Seq<Seq<NodeModel>> {
    Seq::new(trees.len(), |k: int| trees[k]@)
}

/// Every tree of the list is valid.
pub open spec fn trees_wf(trees: Seq<TermTree>) -> bool {
    forall|k: int| 0 <= k < trees.len() ==> (#[trigger] trees[k]).wf()
}


/// The views of a list of strings.
pub open spec fn strings_view(strings: Seq<String>) -> Seq<Seq<char>> {
    Seq::new(strings.len(), |k: int| strings[k]@)
}

/// Once one side has failed to parse, the sides do not parse.
pub proof fn lemma_parse_sides_fails(sides: Seq<Seq<char>>, k: int)
    requires
        0 <= k <= sides.len(),
        parse_sides(sides.take(k)) is None,
    ensures
        parse_sides(sides) is None,
    decreases sides.len() - k,
{
    if k < sides.len() {
        assert(sides.take(k + 1).drop_last() =~= sides.take(k));
        lemma_parse_sides_fails(sides, k + 1);
    } else {
        assert(sides.take(k) =~= sides);
    }
}

/// The parts of `text` between its equals signs.
pub fn split_text(text: &Vec<char>) -> (r: Vec<String>)
    ensures
        strings_view(r@) == split_sides(text@),
{
    let mut sides: Vec<String> = Vec::new();
    let mut current = String::new();
    let mut k: usize = 0;
    assert(strings_view(sides@).push(current@) =~= split_sides(text@.take(0)));
    while k < text.len()
        invariant
            0 <= k <= text.len(),
            strings_view(sides@).push(current@) == split_sides(text@.take(k as int)),
        decreases text.len() - k,
    {
        let c = text[k];
        proof {
            assert(text@.take(k as int + 1).drop_last() =~= text@.take(k as int));
            assert(text@.take(k as int + 1).last() == c);
        }
        let ghost before = strings_view(sides@).push(current@);
        if c == '=' {
            sides.push(current);
            current = String::new();
            assert(strings_view(sides@).push(current@) =~= before.push(Seq::empty()));
        } else {
            push_char(&mut current, c);
            assert(strings_view(sides@).push(current@) =~= before.drop_last().push(
                before.last().push(c),
            ));
        }
        k += 1;
    }
    proof {
        assert(text@.take(k as int) =~= text@);
    }
    let ghost before = strings_view(sides@).push(current@);
    sides.push(current);
    assert(strings_view(sides@) =~= before);
    sides
}

/// Parses every side of the equation `text`. One side that does not parse
/// fails the whole equation.
pub fn parse_equation(text: &Vec<char>) -> (r: Result<Vec<TermTree>, ParseError>)
    ensures
        match r {
            Ok(trees) => trees_wf(trees@) && parse_sides(split_sides(text@)) == Some(
                trees_view(trees@),
            ),
            Err(_) => parse_sides(split_sides(text@)) is None,
        },
{
    let sides = split_text(text);
    let mut trees: Vec<TermTree> = Vec::new();
    let mut k: usize = 0;
    assert(trees_view(trees@) =~= Seq::empty());
    while k < sides.len()
        invariant
            0 <= k <= sides.len(),
            strings_view(sides@) == split_sides(text@),
            trees_wf(trees@),
            parse_sides(split_sides(text@).take(k as int)) == Some(trees_view(trees@)),
        decreases sides.len() - k,
    {
        proof {
            assert(split_sides(text@).take(k as int + 1).drop_last() =~= split_sides(text@).take(
                k as int,
            ));
            assert(split_sides(text@).take(k as int + 1).last() == sides@[k as int]@);
        }
        let ghost before = trees_view(trees@);
        match parse(sides[k].as_str()) {
            Ok(tree) => {
                trees.push(tree);
                assert(trees_view(trees@) =~= before.push(tree@));
            },
            Err(e) => {
                proof {
                    lemma_parse_sides_fails(split_sides(text@), k as int + 1);
                }
                return Err(e);
            },
        }
        k += 1;
    }
    proof {
        assert(split_sides(text@).take(k as int) =~= split_sides(text@));
    }
    Ok(trees)
}

/// What the host is to draw for one side of an equation.
#[derive(Debug, PartialEq, Eq)]
pub struct SidePaint {
    /// Where the equals sign in front of the side goes; the first side has
    /// none.
    pub equals: Option<(i64, i64)>,
    /// The commands that draw the side.
    pub commands: Vec<PaintCommand>,
}

/// What a `SidePaint` is, as a mathematical value.
pub struct SidePaintModel {
    pub equals: Option<(i64, i64)>,
    pub commands: Seq<CommandModel>,
}

impl View for SidePaint {
    type V = SidePaintModel;

    open spec fn view(&self) -> SidePaintModel {
        SidePaintModel { equals: self.equals, commands: view_all(self.commands@) }
    }
}

/// Side `k` has been measured: its root and every node below it has its
/// size.
pub open spec fn side_measured(trees: Seq<TermTree>, k: int) -> bool {
    paintable(trees[k]@, trees[k].ranks(), 0)
}

/// Every side has been measured.
pub open spec fn sides_measured(trees: Seq<TermTree>) -> bool {
    forall|k: int| 0 <= k < trees.len() ==> #[trigger] side_measured(trees, k)
}

/// The largest midline among the roots of the first `n` sides, and at
/// least 0: the line on which all sides are aligned.
pub open spec fn sides_midline(trees: Seq<TermTree>, metrics: Seq<Vec<NodeMetrics>>, n: nat) -> i64
    decreases n,
{
    if n == 0 || n > trees.len() {
        0
    } else {
        larger(
            sides_midline(trees, metrics, (n - 1) as nat),
            midline(trees[n - 1]@, trees[n - 1].ranks(), metrics[n - 1]@, 0),
        )
    }
}

/// How far right of the equation's left edge side `k` ends.
pub open spec fn side_right(trees: Seq<TermTree>, equals_width: i64, k: nat) -> i64
    decreases k, 1nat,
{
    plus(side_left(trees, equals_width, k), layout_of(trees[k as int]@, 0).width)
}

/// How far right of the equation's left edge side `k` begins: behind the
/// side before it and an equals sign.
pub open spec fn side_left(trees: Seq<TermTree>, equals_width: i64, k: nat) -> i64
    decreases k, 0nat,
{
    if k == 0 {
        0
    } else {
        plus(side_right(trees, equals_width, (k - 1) as nat), equals_width)
    }
}

/// What is drawn for side `k` of an equation whose top left corner is at
/// `(x, y)` and whose equals signs have the size `equals`.
pub open spec fn side_painted(
    trees: Seq<TermTree>,
    cfg: Config,
    metrics: Seq<Vec<NodeMetrics>>,
    equals: RenderData,
    caret_visible: bool,
    x: i64,
    y: i64,
    k: nat,
) -> SidePaintModel {
    let mid = sides_midline(trees, metrics, trees.len());
    SidePaintModel {
        equals: if k == 0 {
            None
        } else {
            Some(
                (
                    plus(x, side_right(trees, equals.width, (k - 1) as nat)),
                    minus(plus(y, mid), half(equals.height)),
                ),
            )
        },
        commands: painted(
            trees[k as int]@,
            trees[k as int].ranks(),
            cfg,
            metrics[k as int]@,
            caret_visible,
            0,
            plus(x, side_left(trees, equals.width, k)),
            minus(
                plus(y, mid),
                midline(trees[k as int]@, trees[k as int].ranks(), metrics[k as int]@, 0),
            ),
        ),
    }
}

/// `metrics` holds, for each side, one entry for each node.
pub open spec fn metrics_fit(trees: Seq<TermTree>, metrics: Seq<Vec<NodeMetrics>>) -> bool {
    &&& metrics.len() == trees.len()
    &&& forall|k: int| 0 <= k < trees.len() ==> (#[trigger] metrics[k])@.len() == trees[k]@.len()
}

/// `sides` is what is drawn for the equation of the sides `trees`: one
/// entry for each side, in order.
pub open spec fn sides_drawn(
    sides: Seq<SidePaint>,
    trees: Seq<TermTree>,
    cfg: Config,
    metrics: Seq<Vec<NodeMetrics>>,
    equals: RenderData,
    caret_visible: bool,
    x: i64,
    y: i64,
) -> bool {
    &&& sides.len() == trees.len()
    &&& forall|k: int|
        0 <= k < sides.len() ==> (#[trigger] sides[k])@ == side_painted(
            trees,
            cfg,
            metrics,
            equals,
            caret_visible,
            x,
            y,
            k as nat,
        )
}

/// The tree `after` is the tree `before` measured with `metrics`: the same
/// terms under the same parents, its root and every node below it measured,
/// and any other node with the size that it had.
pub open spec fn side_remeasured(
    before: TermTree,
    after: TermTree,
    cfg: Config,
    metrics: Seq<NodeMetrics>,
) -> bool {
    &&& after.ranks() == before.ranks()
    &&& same_shape(before@, after@)
    &&& same_outside(before@, after@, before.ranks(), 0)
    &&& measured_below(after@, after.ranks(), cfg, metrics, 0)
}

/// Whether every side has been measured.
pub fn sides_ready(trees: &Vec<TermTree>) -> (r: bool)
    requires
        trees_wf(trees@),
    ensures
        r == sides_measured(trees@),
{
    let mut k: usize = 0;
    while k < trees.len()
        invariant
            0 <= k <= trees.len(),
            trees_wf(trees@),
            forall|j: int| 0 <= j < k ==> #[trigger] side_measured(trees@, j),
        decreases trees.len() - k,
    {
        assert(trees@[k as int].wf());
        if !trees[k].is_paintable(0) {
            assert(!side_measured(trees@, k as int));
            return false;
        }
        assert(side_measured(trees@, k as int));
        k += 1;
    }
    true
}

/// Whether `metrics` holds, for each of the sides `trees`, one entry for
/// each node.
pub fn metrics_fit_sides(trees: &Vec<TermTree>, metrics: &Vec<Vec<NodeMetrics>>) -> (r: bool)
    ensures
        r == metrics_fit(trees@, metrics@),
{
    if metrics.len() != trees.len() {
        return false;
    }
    let mut k: usize = 0;
    while k < trees.len()
        invariant
            0 <= k <= trees@.len(),
            metrics@.len() == trees@.len(),
            forall|j: int| 0 <= j < k ==> (#[trigger] metrics@[j])@.len() == trees@[j]@.len(),
        decreases trees@.len() - k,
    {
        if metrics[k].len() != trees[k].len() {
            return false;
        }
        k += 1;
    }
    true
}

/// The commands that draw the sides `trees` from left to right, with an
/// equals sign of the size `equals` between two sides, all on one midline.
/// Every side must have been measured. It fails, and draws nothing, unless
/// `metrics` holds, for each side, one entry for each node.
pub fn paint_sides(
    trees: &Vec<TermTree>,
    cfg: &Config,
    metrics: &Vec<Vec<NodeMetrics>>,
    equals: RenderData,
    caret_visible: bool,
    x: i64,
    y: i64,
) -> (r: Result<Vec<SidePaint>, LayoutError>)
    requires
        trees_wf(trees@),
        sides_measured(trees@),
    ensures
        match r {
            Ok(sides) => metrics_fit(trees@, metrics@) && sides_drawn(
                sides@,
                trees@,
                *cfg,
                metrics@,
                equals,
                caret_visible,
                x,
                y,
            ),
            Err(e) => e == LayoutError::MetricsMismatch && !metrics_fit(trees@, metrics@),
        },
{
    if !metrics_fit_sides(trees, metrics) {
        return Err(LayoutError::MetricsMismatch);
    }
    let mut mid: i64 = 0;
    let mut k: usize = 0;
    while k < trees.len()
        invariant
            0 <= k <= trees.len(),
            trees_wf(trees@),
            sides_measured(trees@),
            metrics_fit(trees@, metrics@),
            mid == sides_midline(trees@, metrics@, k as nat),
        decreases trees.len() - k,
    {
        assert(trees@[k as int].wf());
        assert(side_measured(trees@, k as int));
        assert(metrics@[k as int]@.len() == trees@[k as int]@.len());
        proof {
            lemma_paintable_midline_ready(trees@[k as int]@, trees@[k as int].ranks(), 0);
        }
        mid = max_of(mid, trees[k].mid_line(&metrics[k], 0));
        k += 1;
    }
    let mut sides: Vec<SidePaint> = Vec::new();
    let mut left: i64 = 0;
    let mut end: i64 = 0;
    let mut k: usize = 0;
    while k < trees.len()
        invariant
            0 <= k <= trees.len(),
            trees_wf(trees@),
            sides_measured(trees@),
            metrics_fit(trees@, metrics@),
            mid == sides_midline(trees@, metrics@, trees@.len()),
            sides@.len() == k,
            left == side_left(trees@, equals.width, k as nat),
            k > 0 ==> end == side_right(trees@, equals.width, (k - 1) as nat),
            forall|j: int|
                0 <= j < k ==> (#[trigger] sides@[j])@ == side_painted(
                    trees@,
                    *cfg,
                    metrics@,
                    equals,
                    caret_visible,
                    x,
                    y,
                    j as nat,
                ),
        decreases trees.len() - k,
    {
        assert(trees@[k as int].wf());
        assert(side_measured(trees@, k as int));
        assert(metrics@[k as int]@.len() == trees@[k as int]@.len());
        proof {
            lemma_paintable_midline_ready(trees@[k as int]@, trees@[k as int].ranks(), 0);
        }
        let mark = if k == 0 {
            None
        } else {
            Some(
                (
                    sat_plus(x, end),
                    sat_minus(sat_plus(y, mid), half_of(equals.height)),
                ),
            )
        };
        let top = sat_minus(sat_plus(y, mid), trees[k].mid_line(&metrics[k], 0));
        let mut commands: Vec<PaintCommand> = Vec::new();
        trees[k].paint_node(cfg, &metrics[k], caret_visible, 0, sat_plus(x, left), top, &mut commands);
        end = sat_plus(left, trees[k].cached(0).width);
        proof {
            assert(view_all(commands@) =~= painted(
                trees@[k as int]@,
                trees@[k as int].ranks(),
                *cfg,
                metrics@[k as int]@,
                caret_visible,
                0,
                plus(x, left),
                top,
            ));
        }
        let ghost before = sides@;
        sides.push(SidePaint { equals: mark, commands });
        proof {
            assert forall|j: int| 0 <= j < k + 1 implies (#[trigger] sides@[j])@ == side_painted(
                trees@,
                *cfg,
                metrics@,
                equals,
                caret_visible,
                x,
                y,
                j as nat,
            ) by {
                if j < k {
                    assert(sides@[j] == before[j]);
                }
            }
        }
        left = sat_plus(end, equals.width);
        k += 1;
    }
    Ok(sides)
}

/// An equation being edited or shown.
pub struct Equation {
    pub(crate) text: Vec<char>,
    pub(crate) sides: Vec<TermTree>,
}

impl Equation {
    /// The text of the equation.
    pub open(crate) spec fn text_view(&self) -> Seq<char> {
        self.text@
    }

    /// The arenas of the sides that are shown.
    pub open(crate) spec fn sides_view(&self) -> Seq<Seq<NodeModel>> {
        trees_view(self.sides@)
    }

    /// Every side that is shown is a valid tree.
    pub open(crate) spec fn wf(&self) -> bool {
        trees_wf(self.sides@)
    }

    /// The trees of the sides that are shown.
    pub open(crate) spec fn trees(&self) -> Seq<TermTree> {
        self.sides@
    }

    /// An equation without text, which shows nothing.
    pub fn new() -> (e: Equation)
        ensures
            e.wf(),
            e.text_view() == Seq::<char>::empty(),
            e.sides_view() == Seq::<Seq<NodeModel>>::empty(),
    {
        let e = Equation { text: Vec::new(), sides: Vec::new() };
        assert(e.sides_view() =~= Seq::<Seq<NodeModel>>::empty());
        e
    }

    /// Whether the equation has no text.
    pub fn is_empty(&self) -> (r: bool)
        ensures
            r == (self.text_view().len() == 0),
    {
        self.text.len() == 0
    }

    /// The text of the equation.
    pub fn text(&self) -> (s: String)
        ensures
            s@ == self.text_view(),
    {
        string_of(&self.text)
    }

    /// How many sides are shown.
    pub fn side_count(&self) -> (n: usize)
        ensures
            n == self.sides_view().len(),
    {
        self.sides.len()
    }

    /// A copy of node `idx` of side `k`.
    pub fn node(&self, k: usize, idx: usize) -> (n: crate::term::TermNode)
        requires
            k < self.trees().len(),
            idx < self.trees()[k as int]@.len(),
        ensures
            n@ == self.trees()[k as int]@[idx as int],
    {
        self.sides[k].get(idx)
    }

    /// What the host has to measure before the sides can be laid out: for
    /// each side, one request for every node under its root.
    pub fn metric_requests(&self) -> (r: Vec<Vec<MetricRequest>>)
        requires
            self.wf(),
        ensures
            r@.len() == self.trees().len(),
            forall|k: int|
                0 <= k < r@.len() ==> requests_view((#[trigger] r@[k])@) == requested(
                    self.trees()[k]@,
                    self.trees()[k].ranks(),
                    0,
                    Scale { exponent_depth: 0, division_depth: 0 },
                ),
    {
        let mut out: Vec<Vec<MetricRequest>> = Vec::new();
        let mut k: usize = 0;
        while k < self.sides.len()
            invariant
                0 <= k <= self.sides@.len(),
                self.wf(),
                out@.len() == k,
                forall|j: int|
                    0 <= j < k ==> requests_view((#[trigger] out@[j])@) == requested(
                        self.trees()[j]@,
                        self.trees()[j].ranks(),
                        0,
                        Scale { exponent_depth: 0, division_depth: 0 },
                    ),
            decreases self.sides@.len() - k,
        {
            assert(self.sides@[k as int].wf());
            let ghost before = out@;
            let requests = self.sides[k].metric_requests();
            out.push(requests);
            proof {
                assert forall|j: int| 0 <= j < k + 1 implies requests_view((#[trigger] out@[j])@)
                    == requested(
                    self.trees()[j]@,
                    self.trees()[j].ranks(),
                    0,
                    Scale { exponent_depth: 0, division_depth: 0 },
                ) by {
                    if j < k {
                        assert(out@[j] == before[j]);
                    }
                }
            }
            k += 1;
        }
        out
    }

    /// Whether `metrics` holds, for each side, one entry for each node.
    pub fn metrics_fit(&self, metrics: &Vec<Vec<NodeMetrics>>) -> (r: bool)
        ensures
            r == metrics_fit(self.trees(), metrics@),
    {
        metrics_fit_sides(&self.sides, metrics)
    }

    /// Whether every side that is shown has been measured.
    pub fn is_measured(&self) -> (r: bool)
        requires
            self.wf(),
        ensures
            r == sides_measured(self.trees()),
    {
        sides_ready(&self.sides)
    }

    /// How many nodes the arena of side `k` holds.
    pub fn side_len(&self, k: usize) -> (n: usize)
        requires
            k < self.trees().len(),
        ensures
            n == self.trees()[k as int]@.len(),
    {
        self.sides[k].len()
    }

    /// The first phase of the layout, for every side: gives the root of the
    /// side and every node below it its size, from the metrics that the
    /// host measured for it. Unless `metrics` holds, for each side, one
    /// entry for each node, nothing is measured.
    pub fn measure(&mut self, cfg: &Config, metrics: &Vec<Vec<NodeMetrics>>) -> (r: Result<
        (),
        LayoutError,
    >)
        requires
            old(self).wf(),
        ensures
            final(self).wf(),
            final(self).text_view() == old(self).text_view(),
            final(self).trees().len() == old(self).trees().len(),
            match r {
                Ok(_) => metrics_fit(old(self).trees(), metrics@) && sides_measured(
                    final(self).trees(),
                ) && forall|k: int|
                    0 <= k < final(self).trees().len() ==> side_remeasured(
                        old(self).trees()[k],
                        #[trigger] final(self).trees()[k],
                        *cfg,
                        metrics@[k]@,
                    ),
                Err(e) => e == LayoutError::MetricsMismatch && !metrics_fit(
                    old(self).trees(),
                    metrics@,
                ) && final(self).sides_view() == old(self).sides_view(),
            },
    {
        if !self.metrics_fit(metrics) {
            return Err(LayoutError::MetricsMismatch);
        }
        let mut k: usize = 0;
        while k < self.sides.len()
            invariant
                0 <= k <= self.sides@.len(),
                self.wf(),
                self.text@ == old(self).text@,
                self.sides@.len() == old(self).sides@.len(),
                metrics_fit(old(self).trees(), metrics@),
                forall|j: int|
                    0 <= j < k ==> side_remeasured(
                        old(self).sides@[j],
                        #[trigger] self.sides@[j],
                        *cfg,
                        metrics@[j]@,
                    ) && side_measured(self.sides@, j),
                forall|j: int| k <= j < self.sides@.len() ==> self.sides@[j] == old(self).sides@[j],
            decreases self.sides@.len() - k,
        {
            assert(self.sides@[k as int].wf());
            let ghost before = self.sides@;
            let done = self.sides[k].measure(cfg, &metrics[k]);
            proof {
                assert(metrics@[k as int]@.len() == before[k as int]@.len());
                assert(done is Ok);
                let tree = self.sides@[k as int];
                assert(below(terms(tree@), tree.ranks(), 0, 0));
                lemma_measured_paintable(tree@, tree.ranks(), *cfg, metrics@[k as int]@, 0, 0);
                assert forall|j: int| 0 <= j < self.sides@.len() && j != k implies self.sides@[j]
                    == before[j] by {}
                assert forall|j: int| 0 <= j < k + 1 implies side_remeasured(
                    old(self).sides@[j],
                    #[trigger] self.sides@[j],
                    *cfg,
                    metrics@[j]@,
                ) && side_measured(self.sides@, j) by {
                    if j < k {
                        assert(self.sides@[j] == before[j]);
                        assert(side_measured(before, j));
                    }
                }
            }
            k += 1;
        }
        Ok(())
    }

    /// The second phase of the layout: the commands that draw the sides
    /// from left to right with the equation's top left corner at `(x, y)`,
    /// an equals sign of the size `equals` between two sides, all on one
    /// midline. Every side must have been measured. It fails, and draws
    /// nothing, unless `metrics` holds, for each side, one entry for each
    /// node.
    pub fn draw(
        &self,
        cfg: &Config,
        metrics: &Vec<Vec<NodeMetrics>>,
        equals: RenderData,
        caret_visible: bool,
        x: i64,
        y: i64,
    ) -> (r: Result<Vec<SidePaint>, LayoutError>)
        requires
            self.wf(),
            sides_measured(self.trees()),
        ensures
            match r {
                Ok(sides) => metrics_fit(self.trees(), metrics@) && sides_drawn(
                    sides@,
                    self.trees(),
                    *cfg,
                    metrics@,
                    equals,
                    caret_visible,
                    x,
                    y,
                ),
                Err(e) => e == LayoutError::MetricsMismatch && !metrics_fit(self.trees(), metrics@),
            },
    {
        paint_sides(&self.sides, cfg, metrics, equals, caret_visible, x, y)
    }

    /// Ends the editing and says whether the equation stays on the canvas.
    /// An equation without text is abandoned, and so is one whose text
    /// does not parse and which has nothing to show from before; any other
    /// stays, showing the trees of its text if it parses and what it showed
    /// before if not.
    pub fn commit(&mut self) -> (keep: bool)
        requires
            old(self).wf(),
        ensures
            final(self).wf(),
            final(self).text_view() == old(self).text_view(),
            keep == (old(self).text_view().len() > 0 && (parse_sides(
                split_sides(old(self).text_view()),
            ) is Some || old(self).sides_view().len() > 0)),
            match parse_sides(split_sides(old(self).text_view())) {
                Some(sides) => old(self).text_view().len() > 0 ==> final(self).sides_view()
                    == sides,
                None => final(self).sides_view() == old(self).sides_view(),
            },
            old(self).text_view().len() == 0 ==> final(self).sides_view() == old(
                self,
            ).sides_view(),
    {
        if self.is_empty() {
            return false;
        }
        let parsed = self.handle_insertion();
        parsed || self.sides.len() > 0
    }

    /// The second phase of the layout at the present time: as `draw`, with
    /// the caret shown or hidden as the clock has it.
    pub fn render(
        &self,
        cfg: &Config,
        metrics: &Vec<Vec<NodeMetrics>>,
        equals: RenderData,
        x: i64,
        y: i64,
    ) -> (r: Result<Vec<SidePaint>, LayoutError>)
        requires
            self.wf(),
            sides_measured(self.trees()),
        ensures
            match r {
                Ok(sides) => metrics_fit(self.trees(), metrics@) && (sides_drawn(
                    sides@,
                    self.trees(),
                    *cfg,
                    metrics@,
                    equals,
                    true,
                    x,
                    y,
                ) || sides_drawn(sides@, self.trees(), *cfg, metrics@, equals, false, x, y)),
                Err(e) => e == LayoutError::MetricsMismatch && !metrics_fit(self.trees(), metrics@),
            },
    {
        let caret_visible = caret_shown();
        self.draw(cfg, metrics, equals, caret_visible, x, y)
    }

    /// Types the character `input` at the offset `cursor` and moves the
    /// cursor behind it. A character that cannot be typed changes nothing.
    pub fn edit_text(&mut self, cursor: &mut usize, input: char)
        requires
            *old(cursor) <= old(self).text_view().len(),
        ensures
            final(self).sides_view() == old(self).sides_view(),
            final(self).wf() == old(self).wf(),
            is_typeable(input) ==> final(self).text_view() == old(self).text_view().insert(
                *old(cursor) as int,
                input,
            ) && *final(cursor) == *old(cursor) + 1,
            !is_typeable(input) ==> final(self).text_view() == old(self).text_view()
                && *final(cursor) == *old(cursor),
    {
        if char_is_typeable(input) {
            self.text.insert(*cursor, input);
            let grown = self.text.len();
            assert(*cursor < grown);
            *cursor = *cursor + 1;
        }
    }

    /// Deletes the character in front of the offset `cursor`.
    pub fn backspace(&mut self, cursor: usize)
        requires
            0 < cursor <= old(self).text_view().len(),
        ensures
            final(self).sides_view() == old(self).sides_view(),
            final(self).wf() == old(self).wf(),
            final(self).text_view() == old(self).text_view().remove(cursor - 1),
    {
        self.text.remove(cursor - 1);
    }

    /// The text as it is parsed while it is edited: with the caret symbol
    /// at the offset `cursor`.
    pub fn live_text(&self, cursor: usize) -> (r: Vec<char>)
        requires
            cursor <= self.text_view().len(),
        ensures
            r@ == self.text_view().insert(cursor as int, CURSOR_SYMBOL),
    {
        let mut r = self.text.clone();
        r.insert(cursor, CURSOR_SYMBOL);
        r
    }

    /// Parses every side of the text as it is shown while it is edited,
    /// with the caret symbol at the offset `cursor`.
    pub fn parse_live(&self, cursor: usize) -> (r: Result<Vec<TermTree>, ParseError>)
        requires
            cursor <= self.text_view().len(),
        ensures
            match r {
                Ok(trees) => trees_wf(trees@) && parse_sides(
                    split_sides(self.text_view().insert(cursor as int, CURSOR_SYMBOL)),
                ) == Some(trees_view(trees@)),
                Err(_) => parse_sides(
                    split_sides(self.text_view().insert(cursor as int, CURSOR_SYMBOL)),
                ) is None,
            },
    {
        let live = self.live_text(cursor);
        parse_equation(&live)
    }

    /// Parses every side of the text as it stands.
    pub fn parse_text(&self) -> (r: Result<Vec<TermTree>, ParseError>)
        ensures
            match r {
                Ok(trees) => trees_wf(trees@) && parse_sides(split_sides(self.text_view()))
                    == Some(trees_view(trees@)),
                Err(_) => parse_sides(split_sides(self.text_view())) is None,
            },
    {
        parse_equation(&self.text)
    }

    /// Ends the editing: if the text parses, the equation shows its trees
    /// from now on; if not, it goes on showing what it showed before.
    /// Returns whether the text parsed.
    pub fn handle_insertion(&mut self) -> (parsed: bool)
        requires
            old(self).wf(),
        ensures
            final(self).wf(),
            final(self).text_view() == old(self).text_view(),
            parsed == (parse_sides(split_sides(old(self).text_view())) is Some),
            parsed ==> Some(final(self).sides_view()) == parse_sides(
                split_sides(old(self).text_view()),
            ),
            !parsed ==> final(self).sides_view() == old(self).sides_view(),
    {
        match parse_equation(&self.text) {
            Ok(trees) => {
                self.sides = trees;
                true
            },
            Err(_) => false,
        }
    }
}

} // verus!
