use math_canvas::arena::{TermTree, WrapKind};
use math_canvas::term::{redirect_all, Term, TermNode};

#[test]
fn new_tree_is_one_empty_root() {
    let tree = TermTree::new();
    assert_eq!(tree.len(), 1);
    assert_eq!(tree.get(0), TermNode { id: 0, term: Term::Empty, parent: None, layout: None });
}

#[test]
fn fill_sets_a_leaf() {
    let mut tree = TermTree::new();
    tree.fill(0, Term::Numeral(42, Some(1)));
    assert_eq!(tree.len(), 1);
    assert_eq!(tree.get(0).term, Term::Numeral(42, Some(1)));
    assert_eq!(tree.to_string(), "Num[4.2]");
}

#[test]
fn enclose_wraps_a_new_empty_node() {
    let mut tree = TermTree::new();
    let e = tree.enclose(0, false);
    assert_eq!(e, 1);
    assert_eq!(tree.get(0).term, Term::Parentheses(1));
    assert_eq!(tree.get(1), TermNode { id: 1, term: Term::Empty, parent: Some(0), layout: None });
    let e = tree.enclose(1, true);
    assert_eq!(e, 2);
    assert_eq!(tree.get(1).term, Term::Negative(2));
    assert_eq!(tree.to_string(), "(Negative((Empty)))");
}

#[test]
fn wrap_moves_the_term_and_its_children() {
    let mut tree = TermTree::new();
    let inner = tree.enclose(0, false);
    tree.fill(inner, Term::Variable("a".to_string()));
    let e = tree.wrap(0, WrapKind::Quotient);
    assert_eq!(e, 3);
    assert_eq!(tree.get(0).term, Term::Division(2, 3));
    assert_eq!(tree.get(0).parent, None);
    assert_eq!(tree.get(2).term, Term::Parentheses(1));
    assert_eq!(tree.get(2).parent, Some(0));
    assert_eq!(tree.get(1).parent, Some(2));
    assert_eq!(tree.get(3), TermNode { id: 3, term: Term::Empty, parent: Some(0), layout: None });
    assert_eq!(tree.to_string(), "Division((Var[a])/(Empty))");
}

#[test]
fn wrap_kinds() {
    for (kind, expected) in [
        (WrapKind::Product, Term::Multiplication(vec![1, 2])),
        (WrapKind::Sum, Term::Addition(vec![1, 2])),
        (WrapKind::Quotient, Term::Division(1, 2)),
        (WrapKind::Power, Term::Exponentiation(1, 2)),
    ] {
        let mut tree = TermTree::new();
        tree.fill(0, Term::Cursor);
        assert_eq!(tree.wrap(0, kind), 2);
        assert_eq!(tree.get(0).term, expected);
        assert_eq!(tree.get(1).term, Term::Cursor);
        assert_eq!(tree.get(2).term, Term::Empty);
    }
}

#[test]
fn append_child_extends_a_sum() {
    let mut tree = TermTree::new();
    tree.fill(0, Term::Numeral(1, None));
    tree.wrap(0, WrapKind::Sum);
    let e = tree.append_child(0);
    assert_eq!(e, 3);
    assert_eq!(tree.get(0).term, Term::Addition(vec![1, 2, 3]));
    assert_eq!(tree.get(3).parent, Some(0));
}

#[test]
fn append_mult_finds_or_makes_the_product() {
    let mut tree = TermTree::new();
    tree.fill(0, Term::Numeral(2, None));
    let e = tree.append_mult(0);
    assert_eq!(e, 2);
    assert_eq!(tree.get(0).term, Term::Multiplication(vec![1, 2]));
    tree.fill(e, Term::Variable("x".to_string()));
    let e = tree.append_mult(2);
    assert_eq!(e, 3);
    assert_eq!(tree.get(0).term, Term::Multiplication(vec![1, 2, 3]));
    let e = tree.append_mult(0);
    assert_eq!(e, 4);
    assert_eq!(tree.get(0).term, Term::Multiplication(vec![1, 2, 3, 4]));
    assert_eq!(tree.len(), 5);
}

#[test]
fn replace_child_redirects_the_parent() {
    let mut tree = TermTree::new();
    tree.fill(0, Term::Variable("a".to_string()));
    let e = tree.wrap(0, WrapKind::Quotient);
    tree.fill(e, Term::Variable("b".to_string()));
    let n = tree.replace_child(1, Term::Numeral(7, None));
    assert_eq!(n, 3);
    assert_eq!(tree.get(0).term, Term::Division(3, 2));
    assert_eq!(tree.get(3), TermNode {
        id: 3,
        term: Term::Numeral(7, None),
        parent: Some(0),
        layout: None,
    });
    assert_eq!(tree.get(1).parent, None);
    assert_eq!(tree.get(1).term, Term::Variable("a".to_string()));
    assert_eq!(tree.to_string(), "Division(Num[7]/Var[b])");
    let mut tree = TermTree::new();
    tree.fill(0, Term::Numeral(1, None));
    tree.wrap(0, WrapKind::Sum);
    tree.append_child(0);
    let n = tree.replace_child(2, Term::Cursor);
    assert_eq!(tree.get(0).term, Term::Addition(vec![1, n, 3]));
}

#[test]
fn terms_know_their_children() {
    assert_eq!(Term::Empty.children(), Vec::<usize>::new());
    assert_eq!(Term::Negative(3).children(), vec![3]);
    assert_eq!(Term::Division(3, 5).children(), vec![3, 5]);
    assert_eq!(Term::Addition(vec![4, 2, 9]).children(), vec![4, 2, 9]);
    assert_eq!(Term::Division(3, 5).redirected(5, 8), Term::Division(3, 8));
    assert_eq!(Term::Multiplication(vec![4, 2, 9]).redirected(2, 7), Term::Multiplication(vec![4, 7, 9]));
    assert_eq!(Term::Parentheses(1).redirected(2, 7), Term::Parentheses(1));
    assert_eq!(redirect_all(&vec![1, 2, 1], 1, 5), vec![5, 2, 5]);
    assert_eq!(Term::Variable("q".to_string()).duplicate(), Term::Variable("q".to_string()));
}

#[test]
fn operators_are_told_from_the_rest() {
    assert!(Term::Addition(vec![1, 2]).is_operator());
    assert!(Term::Negative(1).is_operator());
    assert!(Term::Multiplication(vec![1, 2]).is_operator());
    assert!(Term::Division(1, 2).is_operator());
    assert!(Term::Exponentiation(1, 2).is_operator());
    assert!(!Term::Parentheses(1).is_operator());
    assert!(!Term::Empty.is_operator());
    assert!(!Term::Cursor.is_operator());
    assert!(!Term::Numeral(1, None).is_operator());
    assert!(!Term::Variable("x".to_string()).is_operator());
}
