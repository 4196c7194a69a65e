//! What the host has to measure before a tree can be laid out: for every
//! node under the root, the texts that it draws and the scale that it is
//! drawn at.

use vstd::prelude::*;
use crate::arena::{child_ok, TermTree};
use crate::layout::{LayoutError, NodeMetrics};
use crate::paint::{base_chars, in_tree, minus_chars, placeholder_chars, plus_chars, spaced};
use crate::term::{NodeId, NodeModel, RenderData, Term, TermModel};
use crate::text::{
    char_string, head_string, numeral_chars, numeral_text, string_of, tail_string,
};

verus! {

/// How much smaller than the whole tree a node is drawn: once the factor of
/// exponents for each exponent it sits in, once the factor of fractions for
/// each fraction.
#[derive(Clone, Copy, Debug, PartialEq, Eq, Structural)]
pub struct Scale {
    pub exponent_depth: u32,
    pub division_depth: u32,
}

/// A request to measure the glyphs of one node. The host answers it with a
/// `NodeMetrics`: the height of a line and the size of `glyph` at the scale
/// `scale`, and the width of `extra` at that scale, or at the scale of a
/// subscript of it if `subscript` is set.
#[derive(Debug, PartialEq, Eq)]
pub struct MetricRequest {
    pub node: NodeId,
    pub scale: Scale,
    pub glyph: String,
    pub extra: String,
    pub subscript: bool,
}

/// What a `MetricRequest` is, as a mathematical value.
pub struct RequestModel {
    pub node: NodeId,
    pub scale: Scale,
    pub glyph: Seq<char>,
    pub extra: Seq<char>,
    pub subscript: bool,
}

impl View for MetricRequest {
    type V = RequestModel;

    open spec fn view(&self) -> RequestModel {
        RequestModel {
            node: self.node,
            scale: self.scale,
            glyph: self.glyph@,
            extra: self.extra@,
            subscript: self.subscript,
        }
    }
}

/// The models of a list of requests.
pub open spec fn requests_view(requests: Seq<MetricRequest>) -> Seq<RequestModel> {
    Seq::new(requests.len(), |k: int| requests[k]@)
}

/// One more, as far as the counter goes.
pub open spec fn deeper(depth: u32) -> u32 {
    if depth == u32::MAX {
        depth
    } else {
        (depth + 1) as u32
    }
}

/// The scale of child number `k` of a node with the term `term` at the scale
/// `scale`: smaller in an exponent, and in both parts of a fraction.
pub open spec fn child_scale(term: TermModel, k: int, scale: Scale) -> Scale {
    match term {
        TermModel::Exponentiation(_, _) => if k == 1 {
            Scale { exponent_depth: deeper(scale.exponent_depth), ..scale }
        } else {
            scale
        },
        TermModel::Division(_, _) => Scale { division_depth: deeper(scale.division_depth), ..scale },
        _ => scale,
    }
}

/// What has to be measured first for a node with the term `term`.
pub open spec fn glyph_chars(term: TermModel) -> Seq<char> {
    match term {
        TermModel::Empty => placeholder_chars(),
        TermModel::Cursor => seq!['|'],
        TermModel::Numeral(value, fraction) => numeral_chars(
            value as nat,
            match fraction {
                Some(p) => p as nat,
                None => 0,
            },
        ),
        TermModel::Variable(name) => base_chars(name),
        TermModel::Negative(_) => seq!['-'],
        TermModel::Parentheses(_) => seq!['(', ')'],
        TermModel::Addition(_) => plus_chars(),
        _ => Seq::empty(),
    }
}

/// What has to be measured besides for a node with the term `term`.
pub open spec fn extra_chars(term: TermModel) -> Seq<char> {
    match term {
        TermModel::Variable(name) => if name.len() > 2 {
            name.subrange(2, name.len() as int)
        } else {
            Seq::empty()
        },
        TermModel::Parentheses(_) => seq!['('],
        TermModel::Addition(_) => minus_chars(),
        _ => Seq::empty(),
    }
}

/// The request for node `i` at the scale `scale`.
pub open spec fn request_for(nodes: Seq<NodeModel>, i: NodeId, scale: Scale) -> RequestModel {
    RequestModel {
        node: i,
        scale,
        glyph: glyph_chars(nodes[i as int].term),
        extra: extra_chars(nodes[i as int].term),
        subscript: nodes[i as int].term is Variable,
    }
}

/// The requests for node `i`, drawn at the scale `scale`, and for every
/// node below it: first its own, then those of its children in order.
pub open spec fn requested(nodes: Seq<NodeModel>, rank: Seq<nat>, i: NodeId, scale: Scale) -> Seq<
    RequestModel,
>
    decreases rank[i as int], nodes[i as int].term.children().len() + 1,
{
    if !in_tree(nodes, rank, i) {
        Seq::empty()
    } else {
        seq![request_for(nodes, i, scale)] + requested_below(
            nodes,
            rank,
            i,
            scale,
            nodes[i as int].term.children().len(),
        )
    }
}

/// The requests for the first `n` children of node `i` and for every node
/// below them.
pub open spec fn requested_below(
    nodes: Seq<NodeModel>,
    rank: Seq<nat>,
    i: NodeId,
    scale: Scale,
    n: nat,
) -> Seq<RequestModel>
    decreases rank[i as int], n,
{
    if !in_tree(nodes, rank, i) || n == 0 || n > nodes[i as int].term.children().len() {
        Seq::empty()
    } else {
        requested_below(nodes, rank, i, scale, (n - 1) as nat) + requested(
            nodes,
            rank,
            nodes[i as int].term.children()[n - 1],
            child_scale(nodes[i as int].term, n - 1, scale),
        )
    }
}

/// The metrics of a node that nothing was measured for.
pub open spec fn no_metrics() -> NodeMetrics {
    NodeMetrics { line_height: 0, glyph: RenderData { width: 0, height: 0 }, extra_width: 0 }
}

/// The metrics of an arena of `len` nodes after the first `n` answers have
/// been put in their places: answer `k` is the entry of the node that
/// request `k` names, the later answer if two requests name one node, and a
/// node that no request names has the metrics of nothing.
pub open spec fn placed(
    len: nat,
    requests: Seq<RequestModel>,
    answers: Seq<NodeMetrics>,
    n: nat,
) -> Seq<NodeMetrics>
    decreases n,
{
    if n == 0 || n > requests.len() || n > answers.len() {
        Seq::new(len, |i: int| no_metrics())
    } else {
        let before = placed(len, requests, answers, (n - 1) as nat);
        let node = requests[n - 1].node;
        if node < before.len() {
            before.update(node as int, answers[n - 1])
        } else {
            before
        }
    }
}

/// The metrics of an arena of `len` nodes, as `measure` and `paint` take
/// them, from the requests and the host's answers to them, one for each
/// request and in their order. It fails if the answers are not as many as
/// the requests.
pub fn place_metrics(len: usize, requests: &Vec<MetricRequest>, answers: &Vec<NodeMetrics>) -> (r:
    Result<Vec<NodeMetrics>, LayoutError>)
    ensures
        match r {
            Ok(metrics) => answers@.len() == requests@.len() && metrics@.len() == len
                && metrics@ == placed(
                len as nat,
                requests_view(requests@),
                answers@,
                requests@.len(),
            ),
            Err(e) => e == LayoutError::MetricsMismatch && answers@.len() != requests@.len(),
        },
{
    if answers.len() != requests.len() {
        return Err(LayoutError::MetricsMismatch);
    }
    let mut metrics: Vec<NodeMetrics> = Vec::new();
    let mut i: usize = 0;
    while i < len
        invariant
            0 <= i <= len,
            metrics@ =~= Seq::new(i as nat, |j: int| no_metrics()),
        decreases len - i,
    {
        metrics.push(
            NodeMetrics {
                line_height: 0,
                glyph: RenderData { width: 0, height: 0 },
                extra_width: 0,
            },
        );
        i += 1;
    }
    let mut k: usize = 0;
    while k < requests.len()
        invariant
            0 <= k <= requests@.len(),
            answers@.len() == requests@.len(),
            metrics@.len() == len,
            metrics@ == placed(len as nat, requests_view(requests@), answers@, k as nat),
        decreases requests@.len() - k,
    {
        let node = requests[k].node;
        if node < len {
            metrics.set(node, answers[k]);
        }
        k += 1;
    }
    Ok(metrics)
}

/// One more, as far as the counter goes.
pub fn deeper_of(depth: u32) -> (r: u32)
    ensures
        r == deeper(depth),
{
    if depth == u32::MAX {
        depth
    } else {
        depth + 1
    }
}

impl TermTree {
    /// The request for node `idx` at the scale `scale`.
    pub fn request_for(&self, idx: NodeId, scale: Scale) -> (r: MetricRequest)
        requires
            idx < self@.len(),
        ensures
            r@ == request_for(self@, idx, scale),
    {
        let (glyph, extra, subscript) = match &self.nodes[idx].term {
            Term::Empty => (spaced('|'), String::new(), false),
            Term::Cursor => (char_string('|'), String::new(), false),
            Term::Numeral(value, fraction) => (numeral_text(*value, *fraction), String::new(), false),
            Term::Variable(name) => {
                let extra = if name.as_str().unicode_len() > 2 {
                    let t = tail_string(name.as_str(), 2, ' ', false);
                    assert(t@ =~= name@.subrange(2, name@.len() as int));
                    t
                } else {
                    String::new()
                };
                (head_string(name.as_str()), extra, true)
            },
            Term::Negative(_) => (char_string('-'), String::new(), false),
            Term::Parentheses(_) => {
                let v = vec!['(', ')'];
                assert(v@ =~= seq!['(', ')']);
                (string_of(&v), char_string('('), false)
            },
            Term::Addition(_) => (spaced('+'), spaced('-'), false),
            _ => (String::new(), String::new(), false),
        };
        MetricRequest { node: idx, scale, glyph, extra, subscript }
    }

    /// Adds to `out` the requests for node `idx`, drawn at the scale
    /// `scale`, and for every node below it.
    pub fn collect_requests(&self, idx: NodeId, scale: Scale, out: &mut Vec<MetricRequest>)
        requires
            self.wf(),
            idx < self@.len(),
        ensures
            requests_view(final(out)@) == requests_view(old(out)@) + requested(
                self@,
                self.ranks(),
                idx,
                scale,
            ),
        decreases self.ranks()[idx as int],
    {
        let ghost start = requests_view(out@);
        let own = self.request_for(idx, scale);
        out.push(own);
        assert(requests_view(out@) =~= start + seq![request_for(self@, idx, scale)]);
        let cs = self.nodes[idx].term.children();
        let mut k: usize = 0;
        while k < cs.len()
            invariant
                0 <= k <= cs.len(),
                self.wf(),
                idx < self@.len(),
                cs@ == self@[idx as int].term.children(),
                requests_view(out@) == start + seq![request_for(self@, idx, scale)]
                    + requested_below(self@, self.ranks(), idx, scale, k as nat),
            decreases cs.len() - k,
        {
            proof {
                assert(child_ok(self@, idx as int, self@[idx as int].term.children()[k as int]));
                assert(self.ranks()[self@[idx as int].term.children()[k as int] as int]
                    < self.ranks()[idx as int]);
            }
            let inner = match &self.nodes[idx].term {
                Term::Exponentiation(..) => {
                    if k == 1 {
                        Scale { exponent_depth: deeper_of(scale.exponent_depth), ..scale }
                    } else {
                        scale
                    }
                },
                Term::Division(..) => Scale {
                    division_depth: deeper_of(scale.division_depth),
                    ..scale
                },
                _ => scale,
            };
            let ghost before = requests_view(out@);
            let ghost prefix = requested_below(self@, self.ranks(), idx, scale, k as nat);
            self.collect_requests(cs[k], inner, out);
            proof {
                let step = requested(self@, self.ranks(), cs@[k as int], inner);
                assert(requests_view(out@) =~= start + seq![request_for(self@, idx, scale)] + (
                prefix + step));
            }
            k += 1;
        }
        assert(requests_view(out@) =~= start + requested(self@, self.ranks(), idx, scale));
    }

    /// What the host has to measure before the tree can be laid out: one
    /// request for every node under the root, the root first.
    pub fn metric_requests(&self) -> (r: Vec<MetricRequest>)
        requires
            self.wf(),
        ensures
            requests_view(r@) == requested(
                self@,
                self.ranks(),
                0,
                Scale { exponent_depth: 0, division_depth: 0 },
            ),
    {
        let mut out: Vec<MetricRequest> = Vec::new();
        self.collect_requests(0, Scale { exponent_depth: 0, division_depth: 0 }, &mut out);
        assert(requests_view(out@) =~= requested(
            self@,
            self.ranks(),
            0,
            Scale { exponent_depth: 0, division_depth: 0 },
        ));
        out
    }
}

} // verus!
