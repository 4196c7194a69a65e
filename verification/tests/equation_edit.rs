use math_canvas::equation::{parse_equation, split_text, Equation, SidePaint};
use math_canvas::layout::{Config, LayoutError, NodeMetrics};
use math_canvas::paint::PaintCommand;
use math_canvas::request::place_metrics;
use math_canvas::parser::ParseError;
use math_canvas::term::{RenderData, Term};
use math_canvas::text::CURSOR_SYMBOL;

const CFG: Config = Config {
    division_padding_x: 5,
    division_padding_y: 5,
    exponent_overlap: 1,
    subscript_permille: 600,
};

const EQUALS: RenderData = RenderData { width: 30, height: 20 };

fn typed(text: &str) -> (Equation, usize) {
    let mut equation = Equation::new();
    let mut cursor = 0;
    for c in text.chars() {
        equation.edit_text(&mut cursor, c);
    }
    (equation, cursor)
}

fn metrics_for(equation: &Equation) -> Vec<Vec<NodeMetrics>> {
    equation
        .metric_requests()
        .iter()
        .enumerate()
        .map(|(k, side)| {
            let answers: Vec<NodeMetrics> = side
                .iter()
                .map(|r| NodeMetrics {
                    line_height: 20,
                    glyph: RenderData { width: 10 * r.glyph.chars().count() as i64, height: 20 },
                    extra_width: 10 * r.extra.chars().count() as i64,
                })
                .collect();
            place_metrics(equation.side_len(k), side, &answers).unwrap()
        })
        .collect()
}

fn text(node: usize, text: &str, x: i64, y: i64) -> PaintCommand {
    PaintCommand::Text { node, text: text.to_string(), x, y, subscript: false }
}

#[test]
fn typing_inserts_at_the_cursor() {
    let (mut equation, mut cursor) = typed("ac");
    assert_eq!(cursor, 2);
    assert_eq!(equation.text(), "ac");
    cursor = 1;
    equation.edit_text(&mut cursor, 'b');
    assert_eq!(cursor, 2);
    assert_eq!(equation.text(), "abc");
    equation.edit_text(&mut cursor, '\u{3c0}');
    assert_eq!(cursor, 2);
    assert_eq!(equation.text(), "abc");
    assert!(!equation.is_empty());
    assert!(Equation::new().is_empty());
}

#[test]
fn backspace_deletes_in_front_of_the_cursor() {
    let (mut equation, _) = typed("abc");
    equation.backspace(2);
    assert_eq!(equation.text(), "ac");
    equation.backspace(1);
    assert_eq!(equation.text(), "c");
    equation.backspace(1);
    assert!(equation.is_empty());
}

#[test]
fn live_text_holds_the_caret() {
    let (equation, _) = typed("2+3");
    assert_eq!(equation.live_text(1), vec!['2', CURSOR_SYMBOL, '+', '3']);
    assert_eq!(equation.live_text(3), vec!['2', '+', '3', CURSOR_SYMBOL]);
    let trees = equation.parse_live(3).unwrap();
    assert_eq!(trees.len(), 1);
    assert_eq!(trees[0].to_string(), "Addition(Num[2],Multiplication(Num[3],(Cursor),),)");
    let (equation, _) = typed("2+");
    let trees = equation.parse_live(2).unwrap();
    assert_eq!(trees[0].to_string(), "Addition(Num[2],(Cursor),)");
}

#[test]
fn text_is_split_at_equals_signs() {
    let chars = |s: &str| s.chars().collect::<Vec<char>>();
    assert_eq!(split_text(&chars("")), vec![""]);
    assert_eq!(split_text(&chars("a")), vec!["a"]);
    assert_eq!(split_text(&chars("a=b")), vec!["a", "b"]);
    assert_eq!(split_text(&chars("a=")), vec!["a", ""]);
    assert_eq!(split_text(&chars("=")), vec!["", ""]);
    assert_eq!(split_text(&chars("x+1=2y=z")), vec!["x+1", "2y", "z"]);
}

#[test]
fn every_side_is_parsed() {
    let chars = |s: &str| s.chars().collect::<Vec<char>>();
    let trees = parse_equation(&chars("x+1=2y")).unwrap();
    assert_eq!(trees.len(), 2);
    assert_eq!(trees[0].to_string(), "Addition(Var[x],Num[1],)");
    assert_eq!(trees[1].to_string(), "Multiplication(Num[2],Var[y],)");
    assert_eq!(parse_equation(&chars("a=")).err(), Some(ParseError));
    assert_eq!(parse_equation(&chars("=a")).err(), Some(ParseError));
    assert_eq!(parse_equation(&chars("")).err(), Some(ParseError));
    assert_eq!(parse_equation(&chars("a=+")).err(), Some(ParseError));
    assert_eq!(parse_equation(&chars("+=a")).err(), Some(ParseError));
    let (equation, _) = typed("a=b");
    assert_eq!(equation.parse_text().unwrap().len(), 2);
}

#[test]
fn failed_parse_keeps_what_was_shown() {
    let (mut equation, mut cursor) = typed("a=b");
    assert_eq!(equation.side_count(), 0);
    assert!(equation.handle_insertion());
    assert_eq!(equation.side_count(), 2);
    assert_eq!(equation.node(1, 0).term, Term::Variable("b".to_string()));
    equation.edit_text(&mut cursor, '/');
    equation.edit_text(&mut cursor, '/');
    assert!(!equation.handle_insertion());
    assert_eq!(equation.text(), "a=b//");
    assert_eq!(equation.side_count(), 2);
    assert_eq!(equation.node(1, 0).term, Term::Variable("b".to_string()));
}

#[test]
fn sides_are_drawn_on_one_midline() {
    let (mut equation, _) = typed("a=b/c");
    assert!(equation.handle_insertion());
    let metrics = metrics_for(&equation);
    assert!(!equation.is_measured());
    assert_eq!(equation.measure(&CFG, &metrics), Ok(()));
    assert!(equation.is_measured());
    assert_eq!(equation.side_len(0), 1);
    assert_eq!(equation.side_len(1), 3);
    let sides = equation.draw(&CFG, &metrics, EQUALS, true, 0, 0).unwrap();
    assert_eq!(
        sides,
        vec![
            SidePaint { equals: None, commands: vec![text(0, "a", 0, 35)] },
            SidePaint {
                equals: Some((10, 15)),
                commands: vec![
                    text(1, "b", 45, 20),
                    PaintCommand::Line { node: 0, x1: 40, y1: 22, x2: 60, y2: 22 },
                    text(2, "c", 45, 45),
                ],
            },
        ]
    );
}

#[test]
fn equation_metrics_must_fit() {
    let (mut equation, _) = typed("a=b");
    assert!(equation.handle_insertion());
    let good = metrics_for(&equation);
    let mut metrics = metrics_for(&equation);
    assert!(equation.metrics_fit(&metrics));
    metrics[1].pop();
    assert!(!equation.metrics_fit(&metrics));
    assert_eq!(equation.measure(&CFG, &metrics), Err(LayoutError::MetricsMismatch));
    assert_eq!(equation.node(0, 0).layout, None);
    assert_eq!(equation.measure(&CFG, &good), Ok(()));
    assert_eq!(equation.draw(&CFG, &metrics, EQUALS, true, 0, 0), Err(LayoutError::MetricsMismatch));
    metrics.pop();
    assert_eq!(equation.measure(&CFG, &metrics), Err(LayoutError::MetricsMismatch));
    assert_eq!(equation.draw(&CFG, &metrics, EQUALS, true, 0, 0), Err(LayoutError::MetricsMismatch));
    assert_eq!(equation.render(&CFG, &metrics, EQUALS, 0, 0), Err(LayoutError::MetricsMismatch));
}

#[test]
fn empty_equation_draws_nothing() {
    let equation = Equation::new();
    assert_eq!(equation.draw(&CFG, &vec![], EQUALS, true, 0, 0), Ok(vec![]));
    assert_eq!(equation.metric_requests().len(), 0);
}

#[test]
fn equation_renders_with_the_caret_shown_or_hidden() {
    let (mut equation, _) = typed("a=b");
    assert!(equation.handle_insertion());
    let metrics = metrics_for(&equation);
    assert_eq!(equation.measure(&CFG, &metrics), Ok(()));
    let shown = equation.draw(&CFG, &metrics, EQUALS, true, 7, 9).unwrap();
    let hidden = equation.draw(&CFG, &metrics, EQUALS, false, 7, 9).unwrap();
    let now = equation.render(&CFG, &metrics, EQUALS, 7, 9).unwrap();
    assert!(now == shown || now == hidden);
    assert_eq!(now.len(), 2);
}

#[test]
fn commit_keeps_what_can_be_shown() {
    let mut empty = Equation::new();
    assert!(!empty.commit());
    assert_eq!(empty.side_count(), 0);
    let (mut invalid, _) = typed("2//");
    assert!(!invalid.commit());
    assert_eq!(invalid.side_count(), 0);
    let (mut valid, mut cursor) = typed("2/3");
    assert!(valid.commit());
    assert_eq!(valid.side_count(), 1);
    valid.edit_text(&mut cursor, '/');
    valid.edit_text(&mut cursor, '/');
    assert!(valid.commit());
    assert_eq!(valid.side_count(), 1);
    assert_eq!(valid.node(0, 0).term, Term::Division(1, 2));
    valid.backspace(5);
    valid.backspace(4);
    valid.backspace(3);
    valid.backspace(2);
    valid.backspace(1);
    assert!(!valid.commit());
}
