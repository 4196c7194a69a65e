//! The parser: one scan of the text from left to right, one character at a
//! time. Operator precedence is not looked up in a table: each operator
//! climbs the parent links from the node being typed and rebuilds the tree
//! where it stops.

use vstd::prelude::*;
use crate::arena::{
    append_child, append_mult, enclose, fresh, no_empty, only_empty, parent_ok, pristine,
    set_term, wrap, TermTree, WrapKind,
};
use crate::term::{NodeId, NodeModel, Term, TermModel};
use crate::text::{
    char_digit_value, char_is_digit, char_is_letter, char_string, digit_value, is_digit,
    is_letter, push_char, CURSOR_SYMBOL,
};

verus! {

/// The one error of the parser: a character that the state it arrives in
/// cannot take, a climb through the tree that went on too long, or a text
/// that ends where an operand is still missing.
#[derive(Debug, PartialEq, Eq)]
pub struct ParseError;

/// How many parent links one character may climb.
pub const MAX_ASCENT: usize = 20;

/// The character that stands for the caret inside a subscript.
pub const SUBSCRIPT_CURSOR: char = '|';

/// Where the next character goes.
#[derive(Clone, Copy, Debug, PartialEq, Eq, Structural)]
pub enum Slot {
    /// An empty node that the next character will define.
    Empty(NodeId),
    /// The node typed last, which the next character may extend, wrap or
    /// leave.
    Extend(NodeId),
}

/// The state of the parser between two characters.
pub struct ParseState {
    pub nodes: Seq<NodeModel>,
    pub slot: Slot,
}

/// Where an additive operator puts its new summand.
#[derive(Clone, Copy, Debug, PartialEq, Eq, Structural)]
pub enum SumTarget {
    /// As the last child of this addition.
    Append(NodeId),
    /// In a new addition that wraps this node.
    Wrap(NodeId),
}

/// The arena has room for the nodes that one character can add.
pub open spec fn has_room(nodes: Seq<NodeModel>) -> bool {
    nodes.len() + 3 <= usize::MAX
}

/// Where a space leaves the caret: at the nearest division or exponentiation
/// above node `i`, or at the root if there is none. `None` if that takes
/// more than `fuel` links.
pub open spec fn escape(nodes: Seq<NodeModel>, i: NodeId, fuel: nat) -> Option<NodeId>
    decreases fuel,
{
    if fuel == 0 {
        None
    } else {
        match nodes[i as int].parent {
            None => Some(0),
            Some(p) => if nodes[p as int].term is Division || nodes[p as int].term
                is Exponentiation {
                Some(p)
            } else {
                escape(nodes, p, (fuel - 1) as nat)
            },
        }
    }
}

/// Where a closing parenthesis leaves the caret: at the nearest pair of
/// parentheses above node `i`, or at the top of its tree if there is none.
pub open spec fn close(nodes: Seq<NodeModel>, i: NodeId, fuel: nat) -> Option<NodeId>
    decreases fuel,
{
    if fuel == 0 {
        None
    } else {
        match nodes[i as int].parent {
            None => Some(i),
            Some(p) => if nodes[p as int].term is Parentheses {
                Some(p)
            } else {
                close(nodes, p, (fuel - 1) as nat)
            },
        }
    }
}

/// What a division sign takes as its numerator: node `i`, or the outermost
/// of the products that it is directly nested in.
pub open spec fn numerator(nodes: Seq<NodeModel>, i: NodeId, fuel: nat) -> Option<NodeId>
    decreases fuel,
{
    if fuel == 0 {
        None
    } else {
        match nodes[i as int].parent {
            None => Some(i),
            Some(p) => if nodes[p as int].term is Multiplication {
                numerator(nodes, p, (fuel - 1) as nat)
            } else {
                Some(i)
            },
        }
    }
}

/// Where an additive operator puts its summand: it climbs from node `i`
/// past negations and products, and stops below an addition, which takes
/// the summand, or below anything else, where the node reached is wrapped.
pub open spec fn summand(nodes: Seq<NodeModel>, i: NodeId, fuel: nat) -> Option<SumTarget>
    decreases fuel,
{
    if fuel == 0 {
        None
    } else {
        match nodes[i as int].parent {
            None => Some(SumTarget::Wrap(i)),
            Some(p) => if nodes[p as int].term is Addition {
                Some(SumTarget::Append(p))
            } else if nodes[p as int].term is Negative || nodes[p as int].term
                is Multiplication {
                summand(nodes, p, (fuel - 1) as nat)
            } else {
                Some(SumTarget::Wrap(i))
            },
        }
    }
}

/// The last node of an arena.
pub open spec fn last_id(nodes: Seq<NodeModel>) -> NodeId {
    (nodes.len() - 1) as usize
}

/// What character `c` makes of the empty node `i`: a digit a numeral, a
/// letter a variable, the caret symbol a caret; an opening parenthesis or a
/// minus sign wraps a new empty node, which is the next to be defined.
pub open spec fn define(nodes: Seq<NodeModel>, i: NodeId, c: char) -> Option<ParseState> {
    if is_digit(c) {
        Some(
            ParseState {
                nodes: set_term(nodes, i as int, TermModel::Numeral(digit_value(c) as u128, None)),
                slot: Slot::Extend(i),
            },
        )
    } else if is_letter(c) {
        Some(
            ParseState {
                nodes: set_term(nodes, i as int, TermModel::Variable(seq![c])),
                slot: Slot::Extend(i),
            },
        )
    } else if c == CURSOR_SYMBOL {
        Some(
            ParseState {
                nodes: set_term(nodes, i as int, TermModel::Cursor),
                slot: Slot::Extend(i),
            },
        )
    } else if c == '(' || c == '-' {
        Some(
            ParseState {
                nodes: enclose(nodes, i as int, c == '-'),
                slot: Slot::Empty(nodes.len() as usize),
            },
        )
    } else {
        None
    }
}

/// Implicit multiplication: a new factor is opened beside node `i` and
/// defined by `c`.
pub open spec fn multiply(nodes: Seq<NodeModel>, i: NodeId, c: char) -> Option<ParseState> {
    let opened = append_mult(nodes, i as int);
    define(opened, last_id(opened), c)
}

/// What an additive operator makes of the arena: the summand found by
/// `summand` is opened, and a minus sign negates it.
pub open spec fn add_term(nodes: Seq<NodeModel>, i: NodeId, c: char) -> Option<ParseState> {
    match summand(nodes, i, MAX_ASCENT as nat) {
        None => None,
        Some(target) => {
            let opened = match target {
                SumTarget::Append(p) => append_child(nodes, p as int),
                SumTarget::Wrap(m) => wrap(nodes, m as int, WrapKind::Sum),
            };
            if c == '-' {
                define(opened, last_id(opened), '-')
            } else {
                Some(ParseState { nodes: opened, slot: Slot::Empty(last_id(opened)) })
            }
        },
    }
}

/// What character `c` makes of the numeral `value`, `fraction` at node `i`.
pub open spec fn extend_numeral(
    nodes: Seq<NodeModel>,
    i: NodeId,
    value: u128,
    fraction: Option<u32>,
    c: char,
) -> Option<ParseState> {
    if is_digit(c) {
        let grown = value * 10 + digit_value(c);
        if grown > u128::MAX || (fraction is Some && fraction->0 == u32::MAX) {
            None
        } else {
            let places = match fraction {
                None => None,
                Some(f) => Some((f + 1) as u32),
            };
            Some(
                ParseState {
                    nodes: set_term(nodes, i as int, TermModel::Numeral(grown as u128, places)),
                    slot: Slot::Extend(i),
                },
            )
        }
    } else if c == '.' {
        if fraction is None {
            Some(
                ParseState {
                    nodes: set_term(nodes, i as int, TermModel::Numeral(value, Some(0))),
                    slot: Slot::Extend(i),
                },
            )
        } else {
            None
        }
    } else {
        extend_any(nodes, i, c)
    }
}

/// What character `c` makes of the variable `name` at node `i`.
pub open spec fn extend_variable(nodes: Seq<NodeModel>, i: NodeId, name: Seq<char>, c: char) -> Option<
    ParseState,
> {
    if (c == '_' || is_letter(c)) && (c == '_' || name.len() > 1) {
        Some(
            ParseState {
                nodes: set_term(nodes, i as int, TermModel::Variable(name.push(c))),
                slot: Slot::Extend(i),
            },
        )
    } else if c == CURSOR_SYMBOL && name.len() > 1 {
        Some(
            ParseState {
                nodes: set_term(nodes, i as int, TermModel::Variable(name.push(SUBSCRIPT_CURSOR))),
                slot: Slot::Extend(i),
            },
        )
    } else {
        extend_any(nodes, i, c)
    }
}

/// What character `c` makes of node `i` whatever its term: navigation, an
/// operator, or an implicit multiplication.
pub open spec fn extend_any(nodes: Seq<NodeModel>, i: NodeId, c: char) -> Option<ParseState> {
    if c == ' ' {
        match escape(nodes, i, MAX_ASCENT as nat) {
            None => None,
            Some(j) => Some(ParseState { nodes, slot: Slot::Extend(j) }),
        }
    } else if c == ')' {
        match close(nodes, i, MAX_ASCENT as nat) {
            None => None,
            Some(j) => Some(ParseState { nodes, slot: Slot::Extend(j) }),
        }
    } else if c == '/' {
        match numerator(nodes, i, MAX_ASCENT as nat) {
            None => None,
            Some(m) => Some(
                ParseState {
                    nodes: wrap(nodes, m as int, WrapKind::Quotient),
                    slot: Slot::Empty((nodes.len() + 1) as usize),
                },
            ),
        }
    } else if c == '+' || c == '-' {
        add_term(nodes, i, c)
    } else if c == '^' {
        let term = nodes[i as int].term;
        if term is Numeral || term is Variable || term is Parentheses || term is Cursor {
            Some(
                ParseState {
                    nodes: wrap(nodes, i as int, WrapKind::Power),
                    slot: Slot::Empty((nodes.len() + 1) as usize),
                },
            )
        } else {
            None
        }
    } else if is_digit(c) || is_letter(c) || c == CURSOR_SYMBOL || c == '(' {
        multiply(nodes, i, c)
    } else {
        None
    }
}

/// What character `c` makes of the node `i` typed last.
pub open spec fn extend(nodes: Seq<NodeModel>, i: NodeId, c: char) -> Option<ParseState> {
    match nodes[i as int].term {
        TermModel::Numeral(value, fraction) => extend_numeral(nodes, i, value, fraction, c),
        TermModel::Variable(name) => extend_variable(nodes, i, name, c),
        _ => extend_any(nodes, i, c),
    }
}

/// One step of the parser. `None` is a parse error.
pub open spec fn step(state: ParseState, c: char) -> Option<ParseState> {
    if !has_room(state.nodes) {
        None
    } else {
        match state.slot {
            Slot::Empty(i) => define(state.nodes, i, c),
            Slot::Extend(i) => extend(state.nodes, i, c),
        }
    }
}

/// The state before the first character: one empty root, about to be
/// defined.
pub open spec fn initial() -> ParseState {
    ParseState { nodes: seq![fresh(0, TermModel::Empty, None)], slot: Slot::Empty(0) }
}

/// The state after all of `text`, or `None` if one of its characters could
/// not be taken.
pub open spec fn run(text: Seq<char>) -> Option<ParseState>
    decreases text.len(),
{
    if text.len() == 0 {
        Some(initial())
    } else {
        match run(text.drop_last()) {
            None => None,
            Some(state) => step(state, text.last()),
        }
    }
}

/// The arena that `text` parses to, or `None` if it does not parse: if one
/// of its characters could not be taken, or if it ends while an empty node
/// still waits to be defined. The empty text is such a text: its root is
/// the node that waits.
pub open spec fn parse_spec(text: Seq<char>) -> Option<Seq<NodeModel>> {
    match run(text) {
        None => None,
        Some(state) => match state.slot {
            Slot::Empty(_) => None,
            Slot::Extend(_) => Some(state.nodes),
        },
    }
}

/// The slot names a node of the arena, and the node that waits to be
/// defined is the one empty node: there is no other, and none at all
/// while a node is being extended.
pub open spec fn slot_ok(nodes: Seq<NodeModel>, slot: Slot) -> bool {
    match slot {
        Slot::Empty(i) => i < nodes.len() && only_empty(nodes, i as int),
        Slot::Extend(i) => i < nodes.len() && no_empty(nodes),
    }
}

/// The step led from the arena `before` to the tree `after` and the slot
/// `r`, as expected, or failed if `r` is `None`. It leaves one unmeasured
/// tree one unmeasured tree.
pub open spec fn stepped(
    before: Seq<NodeModel>,
    expected: Option<ParseState>,
    after: &TermTree,
    r: Option<Slot>,
) -> bool {
    match r {
        Some(slot) => expected == Some(ParseState { nodes: after@, slot }) && after.wf()
            && slot_ok(after@, slot) && (pristine(before) ==> pristine(after@)),
        None => expected is None,
    }
}

/// Climbs from node `i` as a space does.
pub fn escape_from(tree: &TermTree, i: NodeId) -> (r: Option<NodeId>)
    requires
        tree.wf(),
        i < tree@.len(),
    ensures
        r == escape(tree@, i, MAX_ASCENT as nat),
        r is Some ==> r->0 < tree@.len(),
{
    let mut cur = i;
    let mut fuel: usize = MAX_ASCENT;
    while fuel > 0
        invariant
            tree.wf(),
            cur < tree@.len(),
            escape(tree@, i, MAX_ASCENT as nat) == escape(tree@, cur, fuel as nat),
        decreases fuel,
    {
        proof {
            assert(parent_ok(tree@, cur as int));
        }
        match tree.nodes[cur].parent {
            None => {
                return Some(0);
            },
            Some(p) => {
                match &tree.nodes[p].term {
                    Term::Division(..) | Term::Exponentiation(..) => {
                        return Some(p);
                    },
                    _ => {
                        cur = p;
                        fuel -= 1;
                    },
                }
            },
        }
    }
    None
}

/// Climbs from node `i` as a closing parenthesis does.
pub fn close_from(tree: &TermTree, i: NodeId) -> (r: Option<NodeId>)
    requires
        tree.wf(),
        i < tree@.len(),
    ensures
        r == close(tree@, i, MAX_ASCENT as nat),
        r is Some ==> r->0 < tree@.len(),
{
    let mut cur = i;
    let mut fuel: usize = MAX_ASCENT;
    while fuel > 0
        invariant
            tree.wf(),
            cur < tree@.len(),
            close(tree@, i, MAX_ASCENT as nat) == close(tree@, cur, fuel as nat),
        decreases fuel,
    {
        proof {
            assert(parent_ok(tree@, cur as int));
        }
        match tree.nodes[cur].parent {
            None => {
                return Some(cur);
            },
            Some(p) => {
                match &tree.nodes[p].term {
                    Term::Parentheses(..) => {
                        return Some(p);
                    },
                    _ => {
                        cur = p;
                        fuel -= 1;
                    },
                }
            },
        }
    }
    None
}

/// Climbs from node `i` as a division sign does.
pub fn numerator_from(tree: &TermTree, i: NodeId) -> (r: Option<NodeId>)
    requires
        tree.wf(),
        i < tree@.len(),
    ensures
        r == numerator(tree@, i, MAX_ASCENT as nat),
        r is Some ==> r->0 < tree@.len(),
{
    let mut cur = i;
    let mut fuel: usize = MAX_ASCENT;
    while fuel > 0
        invariant
            tree.wf(),
            cur < tree@.len(),
            numerator(tree@, i, MAX_ASCENT as nat) == numerator(tree@, cur, fuel as nat),
        decreases fuel,
    {
        proof {
            assert(parent_ok(tree@, cur as int));
        }
        match tree.nodes[cur].parent {
            None => {
                return Some(cur);
            },
            Some(p) => {
                match &tree.nodes[p].term {
                    Term::Multiplication(..) => {
                        cur = p;
                        fuel -= 1;
                    },
                    _ => {
                        return Some(cur);
                    },
                }
            },
        }
    }
    None
}

/// Climbs from node `i` as an additive operator does.
pub fn summand_from(tree: &TermTree, i: NodeId) -> (r: Option<SumTarget>)
    requires
        tree.wf(),
        i < tree@.len(),
    ensures
        r == summand(tree@, i, MAX_ASCENT as nat),
        match r {
            Some(SumTarget::Append(p)) => p < tree@.len() && tree@[p as int].term is Addition,
            Some(SumTarget::Wrap(m)) => m < tree@.len(),
            None => true,
        },
{
    let mut cur = i;
    let mut fuel: usize = MAX_ASCENT;
    while fuel > 0
        invariant
            tree.wf(),
            cur < tree@.len(),
            summand(tree@, i, MAX_ASCENT as nat) == summand(tree@, cur, fuel as nat),
        decreases fuel,
    {
        proof {
            assert(parent_ok(tree@, cur as int));
        }
        match tree.nodes[cur].parent {
            None => {
                return Some(SumTarget::Wrap(cur));
            },
            Some(p) => {
                match &tree.nodes[p].term {
                    Term::Addition(..) => {
                        return Some(SumTarget::Append(p));
                    },
                    Term::Negative(..) | Term::Multiplication(..) => {
                        cur = p;
                        fuel -= 1;
                    },
                    _ => {
                        return Some(SumTarget::Wrap(cur));
                    },
                }
            },
        }
    }
    None
}

/// Defines the empty node `i` by the character `c`.
pub fn define_at(tree: &mut TermTree, i: NodeId, c: char) -> (r: Option<Slot>)
    requires
        old(tree).wf(),
        i < old(tree)@.len() < usize::MAX,
        only_empty(old(tree)@, i as int),
    ensures
        stepped(old(tree)@, define(old(tree)@, i, c), final(tree), r),
        final(tree)@.len() <= old(tree)@.len() + 1,
{
    if char_is_digit(c) {
        tree.fill(i, Term::Numeral(char_digit_value(c) as u128, None));
        Some(Slot::Extend(i))
    } else if char_is_letter(c) {
        tree.fill(i, Term::Variable(char_string(c)));
        Some(Slot::Extend(i))
    } else if c == CURSOR_SYMBOL {
        tree.fill(i, Term::Cursor);
        Some(Slot::Extend(i))
    } else if c == '(' || c == '-' {
        let e = tree.enclose(i, c == '-');
        Some(Slot::Empty(e))
    } else {
        None
    }
}

/// Opens a new factor beside node `i` and defines it by `c`.
pub fn multiply_at(tree: &mut TermTree, i: NodeId, c: char) -> (r: Option<Slot>)
    requires
        old(tree).wf(),
        i < old(tree)@.len(),
        has_room(old(tree)@),
        no_empty(old(tree)@),
    ensures
        stepped(old(tree)@, multiply(old(tree)@, i, c), final(tree), r),
{
    let e = tree.append_mult(i);
    define_at(tree, e, c)
}

/// Opens a new summand above node `i`, negated if `c` is a minus sign.
pub fn add_term_at(tree: &mut TermTree, i: NodeId, c: char) -> (r: Option<Slot>)
    requires
        old(tree).wf(),
        i < old(tree)@.len(),
        has_room(old(tree)@),
        no_empty(old(tree)@),
        c == '+' || c == '-',
    ensures
        stepped(old(tree)@, add_term(old(tree)@, i, c), final(tree), r),
{
    match summand_from(tree, i) {
        None => None,
        Some(target) => {
            let e = match target {
                SumTarget::Append(p) => tree.append_child(p),
                SumTarget::Wrap(m) => tree.wrap(m, WrapKind::Sum),
            };
            if c == '-' {
                define_at(tree, e, '-')
            } else {
                Some(Slot::Empty(e))
            }
        },
    }
}

/// Takes the character `c` at node `i`, whatever its term.
pub fn extend_any_at(tree: &mut TermTree, i: NodeId, c: char) -> (r: Option<Slot>)
    requires
        old(tree).wf(),
        i < old(tree)@.len(),
        has_room(old(tree)@),
        no_empty(old(tree)@),
    ensures
        stepped(old(tree)@, extend_any(old(tree)@, i, c), final(tree), r),
{
    if c == ' ' {
        match escape_from(tree, i) {
            None => None,
            Some(j) => Some(Slot::Extend(j)),
        }
    } else if c == ')' {
        match close_from(tree, i) {
            None => None,
            Some(j) => Some(Slot::Extend(j)),
        }
    } else if c == '/' {
        match numerator_from(tree, i) {
            None => None,
            Some(m) => {
                let e = tree.wrap(m, WrapKind::Quotient);
                Some(Slot::Empty(e))
            },
        }
    } else if c == '+' || c == '-' {
        add_term_at(tree, i, c)
    } else if c == '^' {
        let base = match &tree.nodes[i].term {
            Term::Numeral(..) | Term::Variable(..) | Term::Parentheses(..) | Term::Cursor => true,
            _ => false,
        };
        if base {
            let e = tree.wrap(i, WrapKind::Power);
            Some(Slot::Empty(e))
        } else {
            None
        }
    } else if char_is_digit(c) || char_is_letter(c) || c == CURSOR_SYMBOL || c == '(' {
        multiply_at(tree, i, c)
    } else {
        None
    }
}

/// Takes the character `c` at the node `i` typed last.
pub fn extend_at(tree: &mut TermTree, i: NodeId, c: char) -> (r: Option<Slot>)
    requires
        old(tree).wf(),
        i < old(tree)@.len(),
        has_room(old(tree)@),
        no_empty(old(tree)@),
    ensures
        stepped(old(tree)@, extend(old(tree)@, i, c), final(tree), r),
{
    let node = tree.get(i);
    match node.term {
        Term::Numeral(value, fraction) => {
            if char_is_digit(c) {
                let d = char_digit_value(c) as u128;
                if value > (u128::MAX - d) / 10 {
                    return None;
                }
                let places = match fraction {
                    None => None,
                    Some(f) => {
                        if f == u32::MAX {
                            return None;
                        }
                        Some(f + 1)
                    },
                };
                tree.fill(i, Term::Numeral(value * 10 + d, places));
                Some(Slot::Extend(i))
            } else if c == '.' {
                if fraction.is_none() {
                    tree.fill(i, Term::Numeral(value, Some(0)));
                    Some(Slot::Extend(i))
                } else {
                    None
                }
            } else {
                extend_any_at(tree, i, c)
            }
        },
        Term::Variable(name) => {
            let long = name.as_str().unicode_len() > 1;
            if (c == '_' || char_is_letter(c)) && (c == '_' || long) {
                let mut name = name;
                push_char(&mut name, c);
                tree.fill(i, Term::Variable(name));
                Some(Slot::Extend(i))
            } else if c == CURSOR_SYMBOL && long {
                let mut name = name;
                push_char(&mut name, SUBSCRIPT_CURSOR);
                tree.fill(i, Term::Variable(name));
                Some(Slot::Extend(i))
            } else {
                extend_any_at(tree, i, c)
            }
        },
        _ => extend_any_at(tree, i, c),
    }
}

/// Takes one character.
pub fn step_at(tree: &mut TermTree, slot: Slot, c: char) -> (r: Option<Slot>)
    requires
        old(tree).wf(),
        slot_ok(old(tree)@, slot),
    ensures
        stepped(old(tree)@, step(ParseState { nodes: old(tree)@, slot }, c), final(tree), r),
{
    if tree.len() > usize::MAX - 3 {
        return None;
    }
    match slot {
        Slot::Empty(i) => define_at(tree, i, c),
        Slot::Extend(i) => extend_at(tree, i, c),
    }
}

/// Parses `text` into a tree. Every character must be one that the state
/// it arrives in can take; the first that is not fails the whole parse. So
/// does the end of the text, if it comes while an operand is still missing:
/// behind an operator or an opening parenthesis, or in the empty text. The
/// tree of a text that parses is unmeasured and holds no empty node.
pub fn parse(text: &str) -> (r: Result<TermTree, ParseError>)
    ensures
        match r {
            Ok(tree) => tree.wf() && pristine(tree@) && no_empty(tree@) && parse_spec(text@)
                == Some(tree@),
            Err(_) => parse_spec(text@) is None,
        },
{
    let mut tree = TermTree::new();
    let mut slot = Slot::Empty(0);
    let n = text.unicode_len();
    let mut k: usize = 0;
    while k < n
        invariant
            0 <= k <= n,
            n == text@.len(),
            tree.wf(),
            pristine(tree@),
            slot_ok(tree@, slot),
            run(text@.take(k as int)) == Some(ParseState { nodes: tree@, slot }),
        decreases n - k,
    {
        let c = text.get_char(k);
        proof {
            assert(text@.take(k as int + 1).drop_last() =~= text@.take(k as int));
            assert(text@.take(k as int + 1).last() == c);
        }
        match step_at(&mut tree, slot, c) {
            Some(next) => {
                slot = next;
            },
            None => {
                proof {
                    lemma_run_fails(text@, k as int + 1);
                }
                return Err(ParseError);
            },
        }
        k += 1;
    }
    proof {
        assert(text@.take(k as int) =~= text@);
    }
    match slot {
        Slot::Empty(_) => Err(ParseError),
        Slot::Extend(_) => Ok(tree),
    }
}

/// Once a prefix of the text has failed, the whole text fails.
pub proof fn lemma_run_fails(text: Seq<char>, k: int)
    requires
        0 <= k <= text.len(),
        run(text.take(k)) is None,
    ensures
        run(text) is None,
    decreases text.len() - k,
{
    if k < text.len() {
        assert(text.take(k + 1).drop_last() =~= text.take(k));
        lemma_run_fails(text, k + 1);
    } else {
        assert(text.take(k) =~= text);
    }
}

/// Every character of `s` is a decimal digit.
pub open spec fn all_digits(s: Seq<char>) -> bool {
    forall|k: int| 0 <= k < s.len() ==> is_digit(#[trigger] s[k])
}

/// The number that a string of decimal digits denotes.
pub open spec fn decimal(s: Seq<char>) -> nat
    decreases s.len(),
{
    if s.len() == 0 {
        0
    } else {
        decimal(s.drop_last()) * 10 + digit_value(s.last())
    }
}

/// The state in which the root is the numeral `value`, `fraction`, and is
/// the node typed last.
pub open spec fn lone_numeral(value: nat, fraction: Option<u32>) -> ParseState {
    ParseState {
        nodes: seq![fresh(0, TermModel::Numeral(value as u128, fraction), None)],
        slot: Slot::Extend(0),
    }
}

/// A string of digits, if the number it denotes fits the numeral, runs to
/// that number alone.
pub proof fn lemma_run_digits(s: Seq<char>)
    requires
        s.len() > 0,
        all_digits(s),
        decimal(s) <= u128::MAX,
    ensures
        run(s) == Some(lone_numeral(decimal(s), None)),
    decreases s.len(),
{
    let c = s.last();
    let rest = s.drop_last();
    assert(is_digit(s[s.len() - 1]));
    if s.len() == 1 {
        assert(rest.len() == 0);
        assert(run(rest) == Some(initial()));
        assert(set_term(
            initial().nodes,
            0,
            TermModel::Numeral(digit_value(c) as u128, None),
        ) =~= lone_numeral(decimal(s), None).nodes);
    } else {
        assert forall|k: int| 0 <= k < rest.len() implies is_digit(#[trigger] rest[k]) by {
            assert(rest[k] == s[k]);
        }
        lemma_run_digits(rest);
        let before = lone_numeral(decimal(rest), None);
        assert(set_term(
            before.nodes,
            0,
            TermModel::Numeral(decimal(s) as u128, None),
        ) =~= lone_numeral(decimal(s), None).nodes);
    }
}

/// Digits, a decimal point and more digits run to one numeral: the digits
/// read as one number, and the count of those behind the point.
pub proof fn lemma_run_decimal(whole: Seq<char>, behind: Seq<char>)
    requires
        whole.len() > 0,
        all_digits(whole),
        all_digits(behind),
        decimal(whole + behind) <= u128::MAX,
        behind.len() <= u32::MAX,
    ensures
        run(whole + seq!['.'] + behind) == Some(
            lone_numeral(decimal(whole + behind), Some(behind.len() as u32)),
        ),
    decreases behind.len(),
{
    let text = whole + seq!['.'] + behind;
    if behind.len() == 0 {
        assert(text.drop_last() =~= whole);
        assert(whole + behind =~= whole);
        lemma_run_digits(whole);
        let before = lone_numeral(decimal(whole), None);
        assert(set_term(
            before.nodes,
            0,
            TermModel::Numeral(decimal(whole) as u128, Some(0)),
        ) =~= lone_numeral(decimal(whole), Some(0)).nodes);
    } else {
        let rest = behind.drop_last();
        let c = behind.last();
        assert(is_digit(behind[behind.len() - 1]));
        assert(text.drop_last() =~= whole + seq!['.'] + rest);
        assert(text.last() == c);
        assert((whole + behind).drop_last() =~= whole + rest);
        assert((whole + behind).last() == c);
        assert forall|k: int| 0 <= k < rest.len() implies is_digit(#[trigger] rest[k]) by {
            assert(rest[k] == behind[k]);
        }
        lemma_run_decimal(whole, rest);
        let before = lone_numeral(decimal(whole + rest), Some(rest.len() as u32));
        assert(set_term(
            before.nodes,
            0,
            TermModel::Numeral(decimal(whole + behind) as u128, Some(behind.len() as u32)),
        ) =~= lone_numeral(decimal(whole + behind), Some(behind.len() as u32)).nodes);
    }
}

/// A digit followed by a letter parses to their product: the root is the
/// multiplication, the numeral its first factor and the variable its second.
pub proof fn lemma_parse_digit_letter(digit: char, letter: char)
    requires
        is_digit(digit),
        is_letter(letter),
    ensures
        parse_spec(seq![digit, letter]) == Some(
            seq![
                fresh(0, TermModel::Multiplication(seq![1usize, 2usize]), None),
                fresh(1, TermModel::Numeral(digit_value(digit) as u128, None), Some(0usize)),
                fresh(2, TermModel::Variable(seq![letter]), Some(0usize)),
            ],
        ),
{
    let text = seq![digit, letter];
    assert(text.drop_last() =~= seq![digit]);
    assert(seq![digit].drop_last() =~= Seq::<char>::empty());
    assert(run(Seq::<char>::empty()) == Some(initial()));
    let first = set_term(initial().nodes, 0, TermModel::Numeral(digit_value(digit) as u128, None));
    assert(run(seq![digit]) == Some(ParseState { nodes: first, slot: Slot::Extend(0) })) by {
        assert(seq![digit].last() == digit);
        reveal_with_fuel(run, 3);
    }
    assert(text.last() == letter);
    assert(run(text) == multiply(first, 0, letter));
    let opened = wrap(first, 0, WrapKind::Product);
    assert(append_mult(first, 0) == opened);
    assert(opened.len() == 3);
    let last = set_term(opened, 2, TermModel::Variable(seq![letter]));
    assert(run(text) == Some(ParseState { nodes: last, slot: Slot::Extend(2) }));
    assert(first[0].term.children() =~= Seq::<NodeId>::empty());
    assert(last =~= seq![
        fresh(0, TermModel::Multiplication(seq![1usize, 2usize]), None),
        fresh(1, TermModel::Numeral(digit_value(digit) as u128, None), Some(0usize)),
        fresh(2, TermModel::Variable(seq![letter]), Some(0usize)),
    ]);
}

/// Two letters with a division sign between them parse to a fraction: the
/// root is the division, the first variable its numerator and the second
/// its denominator.
pub proof fn lemma_parse_fraction(above: char, below: char)
    requires
        is_letter(above),
        is_letter(below),
    ensures
        parse_spec(seq![above, '/', below]) == Some(
            seq![
                fresh(0, TermModel::Division(1, 2), None),
                fresh(1, TermModel::Variable(seq![above]), Some(0usize)),
                fresh(2, TermModel::Variable(seq![below]), Some(0usize)),
            ],
        ),
{
    let text = seq![above, '/', below];
    let two = seq![above, '/'];
    let one = seq![above];
    assert(text.drop_last() =~= two);
    assert(two.drop_last() =~= one);
    assert(one.drop_last() =~= Seq::<char>::empty());
    assert(run(Seq::<char>::empty()) == Some(initial()));
    let first = set_term(initial().nodes, 0, TermModel::Variable(seq![above]));
    assert(run(one) == Some(ParseState { nodes: first, slot: Slot::Extend(0) })) by {
        assert(one.last() == above);
        reveal_with_fuel(run, 3);
    }
    assert(two.last() == '/');
    assert(first[0].term.children() =~= Seq::<NodeId>::empty());
    assert(numerator(first, 0, MAX_ASCENT as nat) == Some(0usize));
    let divided = wrap(first, 0, WrapKind::Quotient);
    assert(run(two) == Some(ParseState { nodes: divided, slot: Slot::Empty(2) }));
    assert(divided.len() == 3);
    assert(text.last() == below);
    let last = set_term(divided, 2, TermModel::Variable(seq![below]));
    assert(run(text) == Some(ParseState { nodes: last, slot: Slot::Extend(2) }));
    assert(last =~= seq![
        fresh(0, TermModel::Division(1, 2), None),
        fresh(1, TermModel::Variable(seq![above]), Some(0usize)),
        fresh(2, TermModel::Variable(seq![below]), Some(0usize)),
    ]);
}

/// A string of decimal digits parses to a single numeral whose value is the
/// number that the digits denote, provided that number fits the numeral.
pub proof fn lemma_parse_digits(s: Seq<char>)
    requires
        s.len() > 0,
        all_digits(s),
        decimal(s) <= u128::MAX,
    ensures
        parse_spec(s) == Some(
            seq![fresh(0, TermModel::Numeral(decimal(s) as u128, None), None)],
        ),
{
    lemma_run_digits(s);
}

/// Digits, a decimal point and more digits parse to a single numeral that
/// holds all the digits read as one number and the count of digits behind
/// the point, so that it denotes the decimal number written.
pub proof fn lemma_parse_decimal(whole: Seq<char>, behind: Seq<char>)
    requires
        whole.len() > 0,
        all_digits(whole),
        all_digits(behind),
        decimal(whole + behind) <= u128::MAX,
        behind.len() <= u32::MAX,
    ensures
        parse_spec(whole + seq!['.'] + behind) == Some(
            seq![
                fresh(
                    0,
                    TermModel::Numeral(decimal(whole + behind) as u128, Some(behind.len() as u32)),
                    None,
                ),
            ],
        ),
{
    lemma_run_decimal(whole, behind);
}

} // verus!
