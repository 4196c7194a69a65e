use math_canvas::arena::TermTree;
use math_canvas::parser::{parse, ParseError};
use math_canvas::term::Term;
use math_canvas::text::{CURSOR_SYMBOL, PI_SYMBOL, THETA_SYMBOL};

fn term(tree: &TermTree, idx: usize) -> Term {
    tree.get(idx).term
}

fn shape(text: &str) -> String {
    parse(text).unwrap().to_string()
}

/// Every child names its parent, and the root has none.
fn links_agree(tree: &TermTree) {
    assert_eq!(tree.get(0).parent, None);
    for i in 0..tree.len() {
        let node = tree.get(i);
        assert_eq!(node.id, i);
        assert_eq!(node.layout, None);
        for c in node.term.children() {
            assert_eq!(tree.get(c).parent, Some(i));
        }
        if i > 0 {
            let p = node.parent.unwrap();
            assert!(tree.get(p).term.children().contains(&i));
        }
    }
}

#[test]
fn text_that_ends_with_an_operand_missing_is_an_error() {
    assert_eq!(parse("").err(), Some(ParseError));
    assert_eq!(parse("2^").err(), Some(ParseError));
    assert_eq!(parse("2+").err(), Some(ParseError));
    assert_eq!(parse("2-").err(), Some(ParseError));
    assert_eq!(parse("2/").err(), Some(ParseError));
    assert_eq!(parse("-").err(), Some(ParseError));
    assert_eq!(parse("(").err(), Some(ParseError));
    assert_eq!(parse("2(").err(), Some(ParseError));
    assert_eq!(parse("2^3+").err(), Some(ParseError));
    assert!(parse("2^3").is_ok());
    assert!(parse("2+3").is_ok());
    assert!(parse("(2").is_ok());
}

#[test]
fn parsed_tree_holds_no_empty_node() {
    let tree = parse("(2x+1)/y^2 -3a_b").unwrap();
    for i in 0..tree.len() {
        assert_ne!(term(&tree, i), Term::Empty);
    }
}

#[test]
fn digits_are_one_numeral() {
    let tree = parse("12").unwrap();
    assert_eq!(tree.len(), 1);
    assert_eq!(term(&tree, 0), Term::Numeral(12, None));
    let tree = parse("12.5").unwrap();
    assert_eq!(tree.len(), 1);
    assert_eq!(term(&tree, 0), Term::Numeral(125, Some(1)));
    assert_eq!(tree.to_string(), "Num[12.5]");
    let tree = parse("0.05").unwrap();
    assert_eq!(term(&tree, 0), Term::Numeral(5, Some(2)));
    let tree = parse("7.").unwrap();
    assert_eq!(term(&tree, 0), Term::Numeral(7, Some(0)));
}

#[test]
fn largest_numeral_parses_and_one_more_digit_fails() {
    let tree = parse("340282366920938463463374607431768211455").unwrap();
    assert_eq!(term(&tree, 0), Term::Numeral(u128::MAX, None));
    assert_eq!(parse("340282366920938463463374607431768211456").err(), Some(ParseError));
    assert_eq!(parse("3402823669209384634633746074317682114550").err(), Some(ParseError));
}

#[test]
fn numeral_followed_by_letter_multiplies() {
    let tree = parse("2x").unwrap();
    assert_eq!(tree.len(), 3);
    assert_eq!(term(&tree, 0), Term::Multiplication(vec![1, 2]));
    assert_eq!(term(&tree, 1), Term::Numeral(2, None));
    assert_eq!(term(&tree, 2), Term::Variable("x".to_string()));
    assert_eq!(tree.get(1).parent, Some(0));
    assert_eq!(tree.get(2).parent, Some(0));
    assert_eq!(tree.get(0).parent, None);
    assert_eq!(tree.to_string(), "Multiplication(Num[2],Var[x],)");
}

#[test]
fn factors_join_one_product() {
    assert_eq!(shape("2xy"), "Multiplication(Num[2],Var[x],Var[y],)");
    assert_eq!(shape("ab2"), "Multiplication(Var[a],Var[b],Num[2],)");
}

#[test]
fn product_binds_tighter_than_sum() {
    let tree = parse("2+3x").unwrap();
    assert_eq!(tree.to_string(), "Addition(Num[2],Multiplication(Num[3],Var[x],),)");
    links_agree(&tree);
    assert_eq!(shape("2x+3"), "Addition(Multiplication(Num[2],Var[x],),Num[3],)");
    assert_eq!(shape("1+2+3"), "Addition(Num[1],Num[2],Num[3],)");
}

#[test]
fn star_is_not_an_operator() {
    assert_eq!(parse("2+3*4").err(), Some(ParseError));
    assert_eq!(parse("(2+3)*4").err(), Some(ParseError));
}

#[test]
fn space_leaves_to_the_root_for_a_factor() {
    assert_eq!(shape("2+3 4"), "Multiplication(Addition(Num[2],Num[3],),Num[4],)");
}

#[test]
fn slash_divides() {
    let tree = parse("a/b").unwrap();
    assert_eq!(term(&tree, 0), Term::Division(1, 2));
    assert_eq!(term(&tree, 1), Term::Variable("a".to_string()));
    assert_eq!(term(&tree, 2), Term::Variable("b".to_string()));
    links_agree(&tree);
}

#[test]
fn slash_takes_the_whole_product() {
    let tree = parse("2xy/z").unwrap();
    assert_eq!(tree.to_string(), "Division(Multiplication(Num[2],Var[x],Var[y],)/Var[z])");
    links_agree(&tree);
    assert_eq!(shape("1+2x/3"), "Addition(Num[1],Division(Multiplication(Num[2],Var[x],)/Num[3]),)");
}

#[test]
fn caret_raises_the_last_term() {
    let tree = parse("x^2").unwrap();
    assert_eq!(term(&tree, 0), Term::Exponentiation(1, 2));
    assert_eq!(term(&tree, 1), Term::Variable("x".to_string()));
    assert_eq!(term(&tree, 2), Term::Numeral(2, None));
    assert_eq!(shape("2x^3"), "Multiplication(Num[2],Exponentiation(Var[x]^Num[3]),)");
}

#[test]
fn sum_behind_an_exponent_needs_a_space() {
    assert_eq!(shape("x^2 +1"), "Addition(Exponentiation(Var[x]^Num[2]),Num[1],)");
    assert_eq!(shape("x^2+1"), "Exponentiation(Var[x]^Addition(Num[2],Num[1],))");
}

#[test]
fn space_leaves_a_fraction() {
    assert_eq!(shape("a/b +c"), "Addition(Division(Var[a]/Var[b]),Var[c],)");
    assert_eq!(shape("a/b+c"), "Division(Var[a]/Addition(Var[b],Var[c],))");
    assert_eq!(shape("a/b c"), "Multiplication(Division(Var[a]/Var[b]),Var[c],)");
}

#[test]
fn power_of_parentheses_keeps_the_links() {
    let tree = parse("(a)^2").unwrap();
    assert_eq!(tree.to_string(), "Exponentiation((Var[a])^Num[2])");
    links_agree(&tree);
}

#[test]
fn caret_behind_an_operator_fails() {
    assert_eq!(parse("a/b ^2").err(), Some(ParseError));
    assert_eq!(parse("2^").err(), Some(ParseError));
    assert_eq!(parse("^").err(), Some(ParseError));
}

#[test]
fn minus_negates() {
    assert_eq!(shape("-x"), "Negative(Var[x])");
    let tree = parse("1-2").unwrap();
    assert_eq!(tree.to_string(), "Addition(Num[1],Negative(Num[2]),)");
    assert_eq!(term(&tree, 0), Term::Addition(vec![1, 2]));
    assert_eq!(term(&tree, 2), Term::Negative(3));
    links_agree(&tree);
    assert_eq!(shape("-2+3"), "Addition(Negative(Num[2]),Num[3],)");
    assert_eq!(shape("1-2x-3"), "Addition(Num[1],Negative(Multiplication(Num[2],Var[x],)),Negative(Num[3]),)");
}

#[test]
fn parentheses_group() {
    let tree = parse("(2+3)x").unwrap();
    assert_eq!(tree.to_string(), "Multiplication((Addition(Num[2],Num[3],)),Var[x],)");
    links_agree(&tree);
    assert_eq!(shape("2(x+1)"), "Multiplication(Num[2],(Addition(Var[x],Num[1],)),)");
    assert_eq!(shape("(a"), "(Var[a])");
    assert_eq!(shape("a)b"), "Multiplication(Var[a],Var[b],)");
    assert_eq!(shape("(a)+b"), "Addition((Var[a]),Var[b],)");
}

#[test]
fn underscore_opens_a_subscript() {
    let tree = parse("x_ab").unwrap();
    assert_eq!(tree.len(), 1);
    assert_eq!(term(&tree, 0), Term::Variable("x_ab".to_string()));
    assert_eq!(shape("x_a1"), "Multiplication(Var[x_a],Num[1],)");
    assert_eq!(parse("2_").err(), Some(ParseError));
}

#[test]
fn greek_letters_are_variables() {
    let text: String = [PI_SYMBOL, THETA_SYMBOL].iter().collect();
    let tree = parse(&text).unwrap();
    assert_eq!(term(&tree, 0), Term::Multiplication(vec![1, 2]));
    assert_eq!(term(&tree, 1), Term::Variable(PI_SYMBOL.to_string()));
    assert_eq!(term(&tree, 2), Term::Variable(THETA_SYMBOL.to_string()));
}

#[test]
fn caret_symbol_is_a_term_of_its_own() {
    let text = format!("2+{}", CURSOR_SYMBOL);
    assert_eq!(shape(&text), "Addition(Num[2],(Cursor),)");
    let text = format!("2{}", CURSOR_SYMBOL);
    assert_eq!(shape(&text), "Multiplication(Num[2],(Cursor),)");
    let text = format!("{}", CURSOR_SYMBOL);
    assert_eq!(shape(&text), "(Cursor)");
    let text = format!("x_a{}", CURSOR_SYMBOL);
    assert_eq!(shape(&text), "Var[x_a|]");
    let text = format!("{}^2", CURSOR_SYMBOL);
    assert_eq!(shape(&text), "Exponentiation((Cursor)^Num[2])");
}

#[test]
fn malformed_input_is_an_error() {
    assert_eq!(parse("+").err(), Some(ParseError));
    assert_eq!(parse("2//3").err(), Some(ParseError));
    assert_eq!(parse("1.2.3").err(), Some(ParseError));
    assert_eq!(parse("a.").err(), Some(ParseError));
    assert_eq!(parse("2=3").err(), Some(ParseError));
    assert_eq!(parse("2+)").err(), Some(ParseError));
    assert_eq!(parse(" ").err(), Some(ParseError));
    assert_eq!(parse("2#").err(), Some(ParseError));
}

#[test]
fn climb_of_twenty_links_is_too_long() {
    let ok = format!("{}x+1", "-".repeat(19));
    let tree = parse(&ok).unwrap();
    assert_eq!(term(&tree, 0), Term::Addition(vec![20, 21]));
    links_agree(&tree);
    let too_deep = format!("{}x+1", "-".repeat(20));
    assert_eq!(parse(&too_deep).err(), Some(ParseError));
    let escape = format!("{}x y", "(".repeat(19));
    assert!(parse(&escape).is_ok());
    let escape = format!("{}x y", "(".repeat(20));
    assert_eq!(parse(&escape).err(), Some(ParseError));
    let close = format!("{}x)", "-".repeat(20));
    assert_eq!(parse(&close).err(), Some(ParseError));
    let divide = format!("{}x/2", "-".repeat(30));
    assert!(parse(&divide).is_ok());
}

#[test]
fn long_input_does_not_loop() {
    let text = "1+2x-3/4 ".repeat(200);
    let tree = parse(&text).unwrap();
    links_agree(&tree);
}
