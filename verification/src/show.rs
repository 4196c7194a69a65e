//! A tree written out as text, for logs and tests.

use vstd::prelude::*;
use vstd::string::StringExecFns;
use crate::arena::{child_ok, TermTree};
use crate::paint::in_tree;
use crate::term::{NodeId, NodeModel, Term, TermModel};
use crate::text::{numeral_chars, numeral_text};

verus! {

/// Node `i` and what is below it, written out: every term by its kind, with
/// its children between brackets.
pub open spec fn shown(nodes: Seq<NodeModel>, rank: Seq<nat>, i: NodeId) -> Seq<char>
    decreases rank[i as int], nodes[i as int].term.children().len() + 1,
{
    if !in_tree(nodes, rank, i) {
        Seq::empty()
    } else {
        match nodes[i as int].term {
            TermModel::Empty => "(Empty)"@,
            TermModel::Cursor => "(Cursor)"@,
            TermModel::Numeral(value, fraction) => "Num["@ + numeral_chars(
                value as nat,
                match fraction {
                    Some(p) => p as nat,
                    None => 0,
                },
            ) + "]"@,
            TermModel::Variable(name) => "Var["@ + name + "]"@,
            TermModel::Parentheses(_) => "("@ + shown(
                nodes,
                rank,
                nodes[i as int].term.children()[0],
            ) + ")"@,
            TermModel::Negative(_) => "Negative("@ + shown(
                nodes,
                rank,
                nodes[i as int].term.children()[0],
            ) + ")"@,
            TermModel::Multiplication(cs) => "Multiplication("@ + shown_children(
                nodes,
                rank,
                i,
                cs.len(),
            ) + ")"@,
            TermModel::Addition(cs) => "Addition("@ + shown_children(nodes, rank, i, cs.len())
                + ")"@,
            TermModel::Division(_, _) => "Division("@ + shown(
                nodes,
                rank,
                nodes[i as int].term.children()[0],
            ) + "/"@ + shown(nodes, rank, nodes[i as int].term.children()[1]) + ")"@,
            TermModel::Exponentiation(_, _) => "Exponentiation("@ + shown(
                nodes,
                rank,
                nodes[i as int].term.children()[0],
            ) + "^"@ + shown(nodes, rank, nodes[i as int].term.children()[1]) + ")"@,
        }
    }
}

/// The first `n` children of node `i` written out, a comma behind each.
pub open spec fn shown_children(nodes: Seq<NodeModel>, rank: Seq<nat>, i: NodeId, n: nat) -> Seq<
    char,
>
    decreases rank[i as int], n,
{
    if !in_tree(nodes, rank, i) || n == 0 || n > nodes[i as int].term.children().len() {
        Seq::empty()
    } else {
        shown_children(nodes, rank, i, (n - 1) as nat) + shown(
            nodes,
            rank,
            nodes[i as int].term.children()[n - 1],
        ) + ","@
    }
}

impl TermTree {
    /// Writes node `idx` and what is below it to the end of `out`.
    pub fn show_node(&self, idx: NodeId, out: &mut String)
        requires
            self.wf(),
            idx < self@.len(),
        ensures
            final(out)@ == old(out)@ + shown(self@, self.ranks(), idx),
        decreases self.ranks()[idx as int], 2nat,
    {
        match &self.nodes[idx].term {
            Term::Empty | Term::Cursor => {
                self.show_mark(idx, out);
            },
            Term::Numeral(..) | Term::Variable(..) => {
                self.show_atom(idx, out);
            },
            Term::Parentheses(_) | Term::Negative(_) => {
                self.show_enclosed(idx, out);
            },
            Term::Multiplication(_) | Term::Addition(_) => {
                self.show_list(idx, out);
            },
            Term::Division(..) => {
                self.show_fraction(idx, out);
            },
            Term::Exponentiation(..) => {
                self.show_power(idx, out);
            },
        }
    }

    /// Writes an empty node or the caret.
    pub fn show_mark(&self, idx: NodeId, out: &mut String)
        requires
            self.wf(),
            idx < self@.len(),
            self@[idx as int].term is Empty || self@[idx as int].term is Cursor,
        ensures
            final(out)@ == old(out)@ + shown(self@, self.ranks(), idx),
        decreases self.ranks()[idx as int], 0nat,
    {
        let ghost start = out@;
        let ghost goal = shown(self@, self.ranks(), idx);
        match &self.nodes[idx].term {
            Term::Empty => {
                out.append("(Empty)");
            },
            Term::Cursor => {
                out.append("(Cursor)");
            },
            _ => {},
        }
    }

    /// Writes a numeral or a variable.
    pub fn show_atom(&self, idx: NodeId, out: &mut String)
        requires
            self.wf(),
            idx < self@.len(),
            self@[idx as int].term is Numeral || self@[idx as int].term is Variable,
        ensures
            final(out)@ == old(out)@ + shown(self@, self.ranks(), idx),
        decreases self.ranks()[idx as int], 0nat,
    {
        let ghost start = out@;
        let ghost goal = shown(self@, self.ranks(), idx);
        match &self.nodes[idx].term {
            Term::Numeral(value, fraction) => {
                out.append("Num[");
                let digits = numeral_text(*value, *fraction);
                out.append(digits.as_str());
                out.append("]");
                assert(out@ =~= start + goal);
            },
            Term::Variable(name) => {
                out.append("Var[");
                out.append(name.as_str());
                out.append("]");
                assert(out@ =~= start + goal);
            },
            _ => {},
        }
    }

    /// Writes a pair of parentheses or a negation.
    pub fn show_enclosed(&self, idx: NodeId, out: &mut String)
        requires
            self.wf(),
            idx < self@.len(),
            self@[idx as int].term is Parentheses || self@[idx as int].term is Negative,
        ensures
            final(out)@ == old(out)@ + shown(self@, self.ranks(), idx),
        decreases self.ranks()[idx as int], 0nat,
    {
        let ghost start = out@;
        let ghost goal = shown(self@, self.ranks(), idx);
        match &self.nodes[idx].term {
            Term::Parentheses(c) => {
                proof {
                    assert(child_ok(self@, idx as int, self@[idx as int].term.children()[0]));
                    assert(self.ranks()[self@[idx as int].term.children()[0] as int]
                        < self.ranks()[idx as int]);
                }
                out.append("(");
                self.show_node(*c, out);
                out.append(")");
                assert(out@ =~= start + goal);
            },
            Term::Negative(c) => {
                proof {
                    assert(child_ok(self@, idx as int, self@[idx as int].term.children()[0]));
                    assert(self.ranks()[self@[idx as int].term.children()[0] as int]
                        < self.ranks()[idx as int]);
                }
                out.append("Negative(");
                self.show_node(*c, out);
                out.append(")");
                assert(out@ =~= start + goal);
            },
            _ => {},
        }
    }

    /// Writes a product or a sum.
    pub fn show_list(&self, idx: NodeId, out: &mut String)
        requires
            self.wf(),
            idx < self@.len(),
            self@[idx as int].term is Multiplication || self@[idx as int].term is Addition,
        ensures
            final(out)@ == old(out)@ + shown(self@, self.ranks(), idx),
        decreases self.ranks()[idx as int], 1nat,
    {
        let ghost start = out@;
        let ghost goal = shown(self@, self.ranks(), idx);
        match &self.nodes[idx].term {
            Term::Multiplication(_) => {
                out.append("Multiplication(");
                self.show_children(idx, out);
                out.append(")");
                assert(out@ =~= start + goal);
            },
            Term::Addition(_) => {
                out.append("Addition(");
                self.show_children(idx, out);
                out.append(")");
                assert(out@ =~= start + goal);
            },
            _ => {},
        }
    }

    /// Writes a fraction.
    pub fn show_fraction(&self, idx: NodeId, out: &mut String)
        requires
            self.wf(),
            idx < self@.len(),
            self@[idx as int].term is Division,
        ensures
            final(out)@ == old(out)@ + shown(self@, self.ranks(), idx),
        decreases self.ranks()[idx as int], 0nat,
    {
        let ghost start = out@;
        let ghost goal = shown(self@, self.ranks(), idx);
        match &self.nodes[idx].term {
            Term::Division(a, b) => {
                proof {
                    assert(child_ok(self@, idx as int, self@[idx as int].term.children()[0]));
                    assert(child_ok(self@, idx as int, self@[idx as int].term.children()[1]));
                    assert(self.ranks()[self@[idx as int].term.children()[0] as int]
                        < self.ranks()[idx as int]);
                    assert(self.ranks()[self@[idx as int].term.children()[1] as int]
                        < self.ranks()[idx as int]);
                }
                out.append("Division(");
                self.show_node(*a, out);
                out.append("/");
                self.show_node(*b, out);
                out.append(")");
                assert(out@ =~= start + goal);
            },
            _ => {},
        }
    }

    /// Writes a power.
    pub fn show_power(&self, idx: NodeId, out: &mut String)
        requires
            self.wf(),
            idx < self@.len(),
            self@[idx as int].term is Exponentiation,
        ensures
            final(out)@ == old(out)@ + shown(self@, self.ranks(), idx),
        decreases self.ranks()[idx as int], 0nat,
    {
        let ghost start = out@;
        let ghost goal = shown(self@, self.ranks(), idx);
        match &self.nodes[idx].term {
            Term::Exponentiation(a, b) => {
                proof {
                    assert(child_ok(self@, idx as int, self@[idx as int].term.children()[0]));
                    assert(child_ok(self@, idx as int, self@[idx as int].term.children()[1]));
                    assert(self.ranks()[self@[idx as int].term.children()[0] as int]
                        < self.ranks()[idx as int]);
                    assert(self.ranks()[self@[idx as int].term.children()[1] as int]
                        < self.ranks()[idx as int]);
                }
                out.append("Exponentiation(");
                self.show_node(*a, out);
                out.append("^");
                self.show_node(*b, out);
                out.append(")");
                assert(out@ =~= start + goal);
            },
            _ => {},
        }
    }

    /// Writes the children of node `idx` to the end of `out`, a comma
    /// behind each.
    pub fn show_children(&self, idx: NodeId, out: &mut String)
        requires
            self.wf(),
            idx < self@.len(),
        ensures
            final(out)@ == old(out)@ + shown_children(
                self@,
                self.ranks(),
                idx,
                self@[idx as int].term.children().len(),
            ),
        decreases self.ranks()[idx as int], 0nat,
    {
        let ghost start = out@;
        let cs = self.nodes[idx].term.children();
        let mut k: usize = 0;
        assert(out@ =~= start + shown_children(self@, self.ranks(), idx, 0));
        while k < cs.len()
            invariant
                0 <= k <= cs.len(),
                self.wf(),
                idx < self@.len(),
                cs@ == self@[idx as int].term.children(),
                out@ == start + shown_children(self@, self.ranks(), idx, k as nat),
            decreases cs.len() - k,
        {
            proof {
                assert(child_ok(self@, idx as int, self@[idx as int].term.children()[k as int]));
                assert(self.ranks()[self@[idx as int].term.children()[k as int] as int]
                    < self.ranks()[idx as int]);
            }
            let ghost prefix = shown_children(self@, self.ranks(), idx, k as nat);
            self.show_node(cs[k], out);
            out.append(",");
            proof {
                assert(out@ =~= start + (prefix + shown(self@, self.ranks(), cs@[k as int])
                    + ","@));
            }
            k += 1;
        }
    }

    /// The whole tree written out.
    pub fn to_string(&self) -> (s: String)
        requires
            self.wf(),
        ensures
            s@ == shown(self@, self.ranks(), 0),
    {
        let mut out = String::new();
        self.show_node(0, &mut out);
        assert(out@ =~= shown(self@, self.ranks(), 0));
        out
    }
}

} // verus!
