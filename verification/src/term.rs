//! Terms, nodes and their mathematical models.

use vstd::prelude::*;

verus! {

/// Index of a node in its arena.
pub type NodeId = usize;

/// Cached size of a typeset node, in layout units.
#[derive(Clone, Copy, Debug, PartialEq, Eq, Structural)]
pub struct RenderData {
    pub width: i64,
    pub height: i64,
}

/// One term of an expression. Children are referred to by arena index.
#[derive(Debug, PartialEq, Eq)]
pub enum Term {
    /// A placeholder that awaits its first character.
    Empty,
    /// The caret.
    Cursor,
    /// Digits read as one integer, and how many of them follow the decimal
    /// point, if one was typed. The number is `value / 10^fraction`.
    Numeral(u128, Option<u32>),
    /// A symbol. Its first character is the base; what follows the second
    /// character is typeset as a subscript.
    Variable(String),
    Negative(NodeId),
    Parentheses(NodeId),
    Multiplication(Vec<NodeId>),
    Addition(Vec<NodeId>),
    /// Numerator, then denominator.
    Division(NodeId, NodeId),
    /// Base, then exponent.
    Exponentiation(NodeId, NodeId),
}

/// The list `cs` with every `from` replaced by `to`.
pub open spec fn substitute(cs: Seq<NodeId>, from: NodeId, to: NodeId) -> Seq<NodeId> {
    Seq::new(
        cs.len(),
        |k: int|
            if cs[k] == from {
                to
            } else {
                cs[k]
            },
    )
}

/// What a `Term` is, as a mathematical value.
pub enum TermModel {
    Empty,
    Cursor,
    Numeral(u128, Option<u32>),
    Variable(Seq<char>),
    Negative(NodeId),
    Parentheses(NodeId),
    Multiplication(Seq<NodeId>),
    Addition(Seq<NodeId>),
    Division(NodeId, NodeId),
    Exponentiation(NodeId, NodeId),
}

impl TermModel {
    /// The children of a term, in order.
    pub open spec fn children(self) -> Seq<NodeId> {
        match self {
            TermModel::Negative(c) | TermModel::Parentheses(c) => seq![c],
            TermModel::Multiplication(cs) | TermModel::Addition(cs) => cs,
            TermModel::Division(a, b) | TermModel::Exponentiation(a, b) => seq![a, b],
            _ => Seq::empty(),
        }
    }

    /// The same kind of term over other children.
    pub open spec fn with_children(self, cs: Seq<NodeId>) -> TermModel {
        match self {
            TermModel::Negative(_) => TermModel::Negative(cs[0]),
            TermModel::Parentheses(_) => TermModel::Parentheses(cs[0]),
            TermModel::Multiplication(_) => TermModel::Multiplication(cs),
            TermModel::Addition(_) => TermModel::Addition(cs),
            TermModel::Division(_, _) => TermModel::Division(cs[0], cs[1]),
            TermModel::Exponentiation(_, _) => TermModel::Exponentiation(cs[0], cs[1]),
            other => other,
        }
    }

    /// Addition, negation, multiplication, division and exponentiation.
    pub open spec fn is_operator(self) -> bool {
        self is Addition || self is Negative || self is Multiplication || self is Division
            || self is Exponentiation
    }
}

impl View for Term {
    type V = TermModel;

    open spec fn view(&self) -> TermModel {
        match *self {
            Term::Empty => TermModel::Empty,
            Term::Cursor => TermModel::Cursor,
            Term::Numeral(v, f) => TermModel::Numeral(v, f),
            Term::Variable(name) => TermModel::Variable(name@),
            Term::Negative(c) => TermModel::Negative(c),
            Term::Parentheses(c) => TermModel::Parentheses(c),
            Term::Multiplication(cs) => TermModel::Multiplication(cs@),
            Term::Addition(cs) => TermModel::Addition(cs@),
            Term::Division(a, b) => TermModel::Division(a, b),
            Term::Exponentiation(a, b) => TermModel::Exponentiation(a, b),
        }
    }
}

impl Term {
    /// Whether the term is an arithmetic operator.
    pub fn is_operator(&self) -> (r: bool)
        ensures
            r == self@.is_operator(),
    {
        match self {
            Term::Addition(..)
            | Term::Negative(..)
            | Term::Multiplication(..)
            | Term::Division(..)
            | Term::Exponentiation(..) => true,
            _ => false,
        }
    }

    /// The children of the term, in order.
    pub fn children(&self) -> (r: Vec<NodeId>)
        ensures
            r@ == self@.children(),
    {
        let r = match self {
            Term::Negative(c) | Term::Parentheses(c) => vec![*c],
            Term::Multiplication(cs) | Term::Addition(cs) => cs.clone(),
            Term::Division(a, b) | Term::Exponentiation(a, b) => vec![*a, *b],
            _ => Vec::new(),
        };
        assert(r@ =~= self@.children());
        r
    }

    /// The same term with the child `from` replaced by `to`.
    pub fn redirected(&self, from: NodeId, to: NodeId) -> (r: Term)
        ensures
            r@ == self@.with_children(substitute(self@.children(), from, to)),
    {
        match self {
            Term::Negative(c) => {
                assert(substitute(self@.children(), from, to)[0] == if *c == from {
                    to
                } else {
                    *c
                });
                Term::Negative(if *c == from { to } else { *c })
            },
            Term::Parentheses(c) => {
                assert(substitute(self@.children(), from, to)[0] == if *c == from {
                    to
                } else {
                    *c
                });
                Term::Parentheses(if *c == from { to } else { *c })
            },
            Term::Multiplication(cs) => Term::Multiplication(redirect_all(cs, from, to)),
            Term::Addition(cs) => Term::Addition(redirect_all(cs, from, to)),
            Term::Division(a, b) => {
                assert(substitute(self@.children(), from, to)[0] == if *a == from {
                    to
                } else {
                    *a
                });
                assert(substitute(self@.children(), from, to)[1] == if *b == from {
                    to
                } else {
                    *b
                });
                Term::Division(if *a == from { to } else { *a }, if *b == from { to } else { *b })
            },
            Term::Exponentiation(a, b) => {
                assert(substitute(self@.children(), from, to)[0] == if *a == from {
                    to
                } else {
                    *a
                });
                assert(substitute(self@.children(), from, to)[1] == if *b == from {
                    to
                } else {
                    *b
                });
                Term::Exponentiation(
                    if *a == from { to } else { *a },
                    if *b == from { to } else { *b },
                )
            },
            _ => self.duplicate(),
        }
    }

    /// A copy of the term.
    pub fn duplicate(&self) -> (r: Term)
        ensures
            r@ == self@,
    {
        match self {
            Term::Empty => Term::Empty,
            Term::Cursor => Term::Cursor,
            Term::Numeral(v, f) => Term::Numeral(*v, *f),
            Term::Variable(name) => Term::Variable(name.clone()),
            Term::Negative(c) => Term::Negative(*c),
            Term::Parentheses(c) => Term::Parentheses(*c),
            Term::Multiplication(cs) => Term::Multiplication(cs.clone()),
            Term::Addition(cs) => Term::Addition(cs.clone()),
            Term::Division(a, b) => Term::Division(*a, *b),
            Term::Exponentiation(a, b) => Term::Exponentiation(*a, *b),
        }
    }
}

/// A copy of `cs` with every `from` replaced by `to`.
pub fn redirect_all(cs: &Vec<NodeId>, from: NodeId, to: NodeId) -> (r: Vec<NodeId>)
    ensures
        r@ == substitute(cs@, from, to),
{
    let mut r: Vec<NodeId> = Vec::new();
    let mut k: usize = 0;
    while k < cs.len()
        invariant
            0 <= k <= cs.len(),
            r@ =~= substitute(cs@, from, to).take(k as int),
        decreases cs.len() - k,
    {
        let c = cs[k];
        r.push(if c == from { to } else { c });
        k += 1;
    }
    assert(r@ =~= substitute(cs@, from, to));
    r
}

/// One slot of the arena.
#[derive(Debug, PartialEq, Eq)]
pub struct TermNode {
    pub id: NodeId,
    pub term: Term,
    pub parent: Option<NodeId>,
    pub layout: Option<RenderData>,
}

/// What a `TermNode` is, as a mathematical value.
pub struct NodeModel {
    pub id: NodeId,
    pub term: TermModel,
    pub parent: Option<NodeId>,
    pub layout: Option<RenderData>,
}

impl View for TermNode {
    type V = NodeModel;

    open spec fn view(&self) -> NodeModel {
        NodeModel { id: self.id, term: self.term@, parent: self.parent, layout: self.layout }
    }
}

impl TermNode {
    /// A copy of the node.
    pub fn duplicate(&self) -> (r: TermNode)
        ensures
            r@ == self@,
    {
        TermNode {
            id: self.id,
            term: self.term.duplicate(),
            parent: self.parent,
            layout: self.layout,
        }
    }
}

} // verus!
