use math_canvas::arena::TermTree;
use math_canvas::layout::{Config, LayoutError, NodeMetrics};
use math_canvas::paint::PaintCommand;
use math_canvas::parser::parse;
use math_canvas::request::{place_metrics, MetricRequest, Scale};
use math_canvas::term::Term;
use math_canvas::term::RenderData;
use math_canvas::text::CURSOR_SYMBOL;

const CFG: Config = Config {
    division_padding_x: 5,
    division_padding_y: 5,
    exponent_overlap: 1,
    subscript_permille: 600,
};

/// A font whose characters are 10 units wide, 6 in a subscript, on lines of
/// 20 units.
fn metrics_for(tree: &TermTree) -> Vec<NodeMetrics> {
    let requests = tree.metric_requests();
    let answers: Vec<NodeMetrics> = requests
        .iter()
        .map(|r| {
            let per = if r.subscript { 6 } else { 10 };
            NodeMetrics {
                line_height: 20,
                glyph: RenderData { width: 10 * r.glyph.chars().count() as i64, height: 20 },
                extra_width: per * r.extra.chars().count() as i64,
            }
        })
        .collect();
    place_metrics(tree.len(), &requests, &answers).unwrap()
}

fn measured_tree(mut tree: TermTree) -> (TermTree, Vec<NodeMetrics>) {
    let metrics = metrics_for(&tree);
    assert_eq!(tree.measure(&CFG, &metrics), Ok(()));
    assert!(tree.is_paintable(0));
    (tree, metrics)
}

fn measured(text: &str) -> (TermTree, Vec<NodeMetrics>) {
    measured_tree(parse(text).unwrap())
}

fn size(tree: &TermTree, idx: usize) -> (i64, i64) {
    let d = tree.get(idx).layout.unwrap();
    (d.width, d.height)
}

fn text(node: usize, text: &str, x: i64, y: i64) -> PaintCommand {
    PaintCommand::Text { node, text: text.to_string(), x, y, subscript: false }
}

#[test]
fn product_is_laid_side_by_side() {
    let (tree, metrics) = measured("2x");
    assert_eq!(size(&tree, 1), (10, 20));
    assert_eq!(size(&tree, 2), (10, 20));
    assert_eq!(size(&tree, 0), (20, 20));
    assert_eq!(tree.mid_line(&metrics, 0), 10);
    let commands = tree.paint(&CFG, &metrics, true, 100, 200).unwrap();
    assert_eq!(commands, vec![text(1, "2", 100, 220), text(2, "x", 110, 220)]);
}

#[test]
fn fraction_is_stacked_around_its_bar() {
    let (tree, metrics) = measured("a/b");
    assert_eq!(size(&tree, 0), (20, 45));
    assert_eq!(tree.mid_line(&metrics, 0), 25);
    let commands = tree.paint(&CFG, &metrics, true, 0, 0).unwrap();
    assert_eq!(
        commands,
        vec![
            text(1, "a", 5, 20),
            PaintCommand::Line { node: 0, x1: 0, y1: 22, x2: 20, y2: 22 },
            text(2, "b", 5, 45),
        ]
    );
}

#[test]
fn narrow_part_of_a_fraction_is_centred() {
    let (tree, metrics) = measured("abc/d");
    assert_eq!(size(&tree, 0), (40, 45));
    let commands = tree.paint(&CFG, &metrics, true, 0, 0).unwrap();
    assert_eq!(
        commands,
        vec![
            text(1, "a", 5, 20),
            text(2, "b", 15, 20),
            text(3, "c", 25, 20),
            PaintCommand::Line { node: 0, x1: 0, y1: 22, x2: 40, y2: 22 },
            text(5, "d", 15, 45),
        ]
    );
}

#[test]
fn exponent_is_raised() {
    let (tree, metrics) = measured("x^2");
    assert_eq!(size(&tree, 0), (20, 29));
    assert_eq!(tree.mid_line(&metrics, 0), 20);
    let commands = tree.paint(&CFG, &metrics, true, 0, 0).unwrap();
    assert_eq!(commands, vec![text(1, "x", 0, 29), text(2, "2", 10, 20)]);
}

#[test]
fn sum_draws_separators() {
    let (tree, metrics) = measured("1+2");
    assert_eq!(size(&tree, 0), (50, 20));
    let commands = tree.paint(&CFG, &metrics, true, 0, 0).unwrap();
    assert_eq!(commands, vec![text(1, "1", 0, 20), text(0, " + ", 10, 20), text(2, "2", 40, 20)]);
}

#[test]
fn negated_summand_gives_its_sign_to_the_separator() {
    let (tree, metrics) = measured("1-2");
    assert_eq!(size(&tree, 3), (10, 20));
    assert_eq!(size(&tree, 2), (20, 20));
    assert_eq!(size(&tree, 0), (50, 20));
    let commands = tree.paint(&CFG, &metrics, true, 0, 0).unwrap();
    assert_eq!(commands, vec![text(1, "1", 0, 20), text(0, " - ", 10, 20), text(3, "2", 40, 20)]);
}

#[test]
fn leading_negation_keeps_its_sign() {
    let (tree, metrics) = measured("-2+3");
    let commands = tree.paint(&CFG, &metrics, true, 0, 0).unwrap();
    assert_eq!(
        commands,
        vec![text(2, "-", 0, 20), text(1, "2", 10, 20), text(0, " + ", 20, 20), text(3, "3", 50, 20)]
    );
    assert_eq!(size(&tree, 0), (60, 20));
}

#[test]
fn parentheses_bracket_their_child() {
    let (tree, metrics) = measured("(a)");
    assert_eq!(size(&tree, 0), (30, 20));
    let commands = tree.paint(&CFG, &metrics, true, 0, 0).unwrap();
    assert_eq!(commands, vec![text(0, "(", 0, 20), text(1, "a", 10, 20), text(0, ")", 20, 20)]);
}

#[test]
fn negation_prefixes_its_child() {
    let (tree, metrics) = measured("-a");
    assert_eq!(size(&tree, 0), (20, 20));
    let commands = tree.paint(&CFG, &metrics, true, 3, 4).unwrap();
    assert_eq!(commands, vec![text(0, "-", 3, 24), text(1, "a", 13, 24)]);
}

#[test]
fn subscript_hangs_below_the_line() {
    let (tree, metrics) = measured("x_ab");
    assert_eq!(size(&tree, 0), (22, 26));
    assert_eq!(tree.mid_line(&metrics, 0), 10);
    let commands = tree.paint(&CFG, &metrics, true, 0, 0).unwrap();
    assert_eq!(
        commands,
        vec![
            text(0, "x", 0, 20),
            PaintCommand::Text { node: 0, text: "ab".to_string(), x: 10, y: 26, subscript: true },
        ]
    );
}

#[test]
fn short_name_has_no_subscript() {
    let (tree, metrics) = measured("x_");
    assert_eq!(size(&tree, 0), (10, 20));
    let commands = tree.paint(&CFG, &metrics, true, 0, 0).unwrap();
    assert_eq!(commands, vec![text(0, "x", 0, 20)]);
}

#[test]
fn caret_in_a_subscript_blinks() {
    let source = format!("x_a{}", CURSOR_SYMBOL);
    let (tree, metrics) = measured(&source);
    let shown = tree.paint(&CFG, &metrics, true, 0, 0).unwrap();
    assert_eq!(
        shown[1],
        PaintCommand::Text { node: 0, text: "a ".to_string(), x: 10, y: 26, subscript: true }
    );
    let hidden = tree.paint(&CFG, &metrics, false, 0, 0).unwrap();
    assert_eq!(
        hidden[1],
        PaintCommand::Text { node: 0, text: "a|".to_string(), x: 10, y: 26, subscript: true }
    );
}

#[test]
fn empty_node_draws_a_placeholder() {
    let (tree, metrics) = measured_tree(TermTree::new());
    assert_eq!(size(&tree, 0), (30, 20));
    assert_eq!(tree.paint(&CFG, &metrics, true, 0, 0).unwrap(), vec![text(0, " | ", 0, 20)]);
}

#[test]
fn caret_is_drawn_while_visible() {
    let source = format!("{}", CURSOR_SYMBOL);
    let (tree, metrics) = measured(&source);
    assert_eq!(size(&tree, 0), (10, 20));
    assert_eq!(tree.paint(&CFG, &metrics, true, 0, 0).unwrap(), vec![text(0, "|", 0, 20)]);
    assert_eq!(tree.paint(&CFG, &metrics, false, 0, 0).unwrap(), vec![]);
}

#[test]
fn numeral_is_drawn_without_trailing_zeros() {
    let (tree, metrics) = measured("12.50");
    assert_eq!(size(&tree, 0), (40, 20));
    assert_eq!(tree.paint(&CFG, &metrics, true, 0, 0).unwrap(), vec![text(0, "12.5", 0, 20)]);
}

#[test]
fn factors_share_the_highest_midline() {
    let (tree, metrics) = measured("a/b c");
    assert_eq!(tree.to_string(), "Multiplication(Division(Var[a]/Var[b]),Var[c],)");
    assert_eq!(size(&tree, 3), (20, 45));
    assert_eq!(size(&tree, 0), (30, 45));
    assert_eq!(tree.mid_line(&metrics, 3), 25);
    assert_eq!(tree.mid_line(&metrics, 4), 10);
    assert_eq!(tree.mid_line(&metrics, 0), 25);
    let commands = tree.paint(&CFG, &metrics, true, 0, 0).unwrap();
    assert_eq!(
        commands,
        vec![
            text(1, "a", 5, 20),
            PaintCommand::Line { node: 3, x1: 0, y1: 22, x2: 20, y2: 22 },
            text(2, "b", 5, 45),
            text(4, "c", 20, 35),
        ]
    );
}

#[test]
fn requests_carry_text_and_scale() {
    let tree = parse("x^2").unwrap();
    let top = Scale { exponent_depth: 0, division_depth: 0 };
    assert_eq!(
        tree.metric_requests(),
        vec![
            MetricRequest { node: 0, scale: top, glyph: "".to_string(), extra: "".to_string(), subscript: false },
            MetricRequest { node: 1, scale: top, glyph: "x".to_string(), extra: "".to_string(), subscript: true },
            MetricRequest {
                node: 2,
                scale: Scale { exponent_depth: 1, division_depth: 0 },
                glyph: "2".to_string(),
                extra: "".to_string(),
                subscript: false,
            },
        ]
    );
    let tree = parse("(a_bc/2^3)+1").unwrap();
    let requests = tree.metric_requests();
    assert_eq!(requests.len(), tree.len());
    let by_glyph = |g: &str| requests.iter().find(|r| r.glyph == g).unwrap();
    assert_eq!(by_glyph(" + ").extra, " - ");
    assert_eq!(by_glyph("()").extra, "(");
    assert_eq!(by_glyph("a").extra, "bc");
    assert!(by_glyph("a").subscript);
    assert_eq!(by_glyph("a").scale, Scale { exponent_depth: 0, division_depth: 1 });
    assert_eq!(by_glyph("2").scale, Scale { exponent_depth: 0, division_depth: 1 });
    assert_eq!(by_glyph("3").scale, Scale { exponent_depth: 1, division_depth: 1 });
    assert_eq!(by_glyph("1").scale, top);
    let mut tree = TermTree::new();
    tree.enclose(0, true);
    let requests = tree.metric_requests();
    assert_eq!(requests[0].glyph, "-");
    assert_eq!(requests[1].glyph, " | ");
}

#[test]
fn measuring_twice_changes_nothing() {
    let mut tree = parse("(2x+1)/y^2 -3").unwrap();
    let metrics = metrics_for(&tree);
    assert_eq!(tree.measure(&CFG, &metrics), Ok(()));
    let first: Vec<_> = (0..tree.len()).map(|i| tree.get(i)).collect();
    assert_eq!(tree.measure(&CFG, &metrics), Ok(()));
    let second: Vec<_> = (0..tree.len()).map(|i| tree.get(i)).collect();
    assert_eq!(first, second);
    assert!(first.iter().all(|n| n.layout.is_some()));
}

#[test]
fn tree_can_be_painted_once_it_is_measured() {
    let mut tree = parse("2x/3").unwrap();
    let metrics = metrics_for(&tree);
    assert!(!tree.is_paintable(0));
    assert!(!tree.has_midline(0));
    assert_eq!(tree.measure(&CFG, &metrics), Ok(()));
    assert!(tree.is_paintable(0));
    for i in 0..tree.len() {
        assert!(tree.is_paintable(i));
        assert!(tree.has_midline(i));
    }
    let commands = tree.paint(&CFG, &metrics, true, 0, 0).unwrap();
    for command in &commands {
        let node = match command {
            PaintCommand::Text { node, .. } => *node,
            PaintCommand::Line { node, .. } => *node,
        };
        assert!(tree.get(node).layout.is_some());
    }
    tree.clear_layout();
    assert!(!tree.is_paintable(0));
}

#[test]
fn metrics_must_be_one_for_each_node() {
    let mut tree = parse("2x").unwrap();
    let mut short = metrics_for(&tree);
    short.pop();
    assert_eq!(tree.measure(&CFG, &short), Err(LayoutError::MetricsMismatch));
    assert_eq!(tree.get(0).layout, None);
    assert_eq!(tree.render_and_fill(&CFG, &short, true, 0, 0), Err(LayoutError::MetricsMismatch));
    assert_eq!(tree.get(0).layout, None);
    let (tree, _) = measured("2x");
    assert_eq!(tree.paint(&CFG, &short, true, 0, 0), Err(LayoutError::MetricsMismatch));
    assert_eq!(tree.render(&CFG, &short, 0, 0), Err(LayoutError::MetricsMismatch));
}

#[test]
fn node_that_is_not_below_the_root_is_not_measured() {
    let mut tree = parse("a/b").unwrap();
    let fresh = tree.replace_child(1, Term::Numeral(7, None));
    assert_eq!(tree.to_string(), "Division(Num[7]/Var[b])");
    let metrics = metrics_for(&tree);
    assert_eq!(metrics[1].line_height, 0);
    assert_eq!(tree.measure(&CFG, &metrics), Ok(()));
    assert_eq!(tree.get(1).layout, None);
    assert!(tree.get(0).layout.is_some());
    assert!(tree.get(2).layout.is_some());
    assert!(tree.get(fresh).layout.is_some());
    assert!(tree.is_paintable(0));
    assert!(!tree.is_paintable(1));
}

#[test]
fn answers_are_placed_by_node() {
    let tree = parse("x^2").unwrap();
    let requests = tree.metric_requests();
    let answer = |n: i64| NodeMetrics {
        line_height: n,
        glyph: RenderData { width: n, height: n },
        extra_width: n,
    };
    let answers = vec![answer(1), answer(2), answer(3)];
    let metrics = place_metrics(5, &requests, &answers).unwrap();
    assert_eq!(metrics, vec![answer(1), answer(2), answer(3), answer(0), answer(0)]);
    let reversed: Vec<MetricRequest> = requests.into_iter().rev().collect();
    let metrics = place_metrics(3, &reversed, &answers).unwrap();
    assert_eq!(metrics, vec![answer(3), answer(2), answer(1)]);
    let metrics = place_metrics(2, &reversed, &answers).unwrap();
    assert_eq!(metrics, vec![answer(3), answer(2)]);
    assert_eq!(place_metrics(3, &reversed, &answers[..2].to_vec()), Err(LayoutError::MetricsMismatch));
    assert_eq!(place_metrics(0, &vec![], &vec![]), Ok(vec![]));
}

#[test]
fn render_and_fill_measures_when_needed() {
    let mut tree = parse("2x").unwrap();
    let metrics = metrics_for(&tree);
    let commands = tree.render_and_fill(&CFG, &metrics, true, 100, 200).unwrap();
    assert_eq!(commands, vec![text(1, "2", 100, 220), text(2, "x", 110, 220)]);
    assert_eq!(size(&tree, 0), (20, 20));
    let again = tree.render_and_fill(&CFG, &metrics, true, 100, 200).unwrap();
    assert_eq!(again, commands);
}

#[test]
fn measure_replaces_old_sizes() {
    let mut tree = parse("2x").unwrap();
    let mut metrics = metrics_for(&tree);
    assert_eq!(tree.measure(&CFG, &metrics), Ok(()));
    metrics[1].glyph.width = 50;
    assert_eq!(tree.measure(&CFG, &metrics), Ok(()));
    assert_eq!(size(&tree, 0), (60, 20));
    tree.clear_layout();
    assert_eq!(tree.get(0).layout, None);
    assert_eq!(tree.get(1).layout, None);
}

#[test]
fn sizes_stop_at_the_end_of_the_range() {
    let mut tree = parse("ab").unwrap();
    let mut metrics = metrics_for(&tree);
    metrics[1].glyph.width = i64::MAX;
    assert_eq!(tree.measure(&CFG, &metrics), Ok(()));
    assert_eq!(size(&tree, 0), (i64::MAX, 20));
}

#[test]
fn render_paints_with_the_caret_shown_or_hidden() {
    let source = format!("2+{}", CURSOR_SYMBOL);
    let (tree, metrics) = measured(&source);
    let shown = tree.paint(&CFG, &metrics, true, 0, 0).unwrap();
    let hidden = tree.paint(&CFG, &metrics, false, 0, 0).unwrap();
    assert_ne!(shown, hidden);
    let now = tree.render(&CFG, &metrics, 0, 0).unwrap();
    assert!(now == shown || now == hidden);
}
