use math_canvas::clock::{caret_shown, cursor_visible};
use math_canvas::equation::char_is_typeable;
use math_canvas::text::{
    char_digit_value, char_is_digit, char_is_letter, char_of_digit, char_string, head_string,
    numeral_text, string_of, string_of_reversed, tail_string, PI_SYMBOL, THETA_SYMBOL,
};
use math_canvas::units::{half_of, max_of, portion_of, sat_minus, sat_plus};

#[test]
fn numeral_text_drops_trailing_zeros() {
    assert_eq!(numeral_text(0, None), "0");
    assert_eq!(numeral_text(42, None), "42");
    assert_eq!(numeral_text(125, Some(1)), "12.5");
    assert_eq!(numeral_text(150, Some(2)), "1.5");
    assert_eq!(numeral_text(100, Some(2)), "1");
    assert_eq!(numeral_text(5, Some(2)), "0.05");
    assert_eq!(numeral_text(5, Some(1)), "0.5");
    assert_eq!(numeral_text(7, Some(0)), "7");
    assert_eq!(numeral_text(0, Some(3)), "0");
    assert_eq!(numeral_text(1002003, Some(3)), "1002.003");
    assert_eq!(numeral_text(u128::MAX, None), "340282366920938463463374607431768211455");
    assert_eq!(numeral_text(1, Some(40)), format!("0.{}1", "0".repeat(39)));
}

#[test]
fn characters_are_classified() {
    assert!(char_is_digit('0') && char_is_digit('9') && !char_is_digit('a') && !char_is_digit('/'));
    assert_eq!(char_digit_value('0'), 0);
    assert_eq!(char_digit_value('7'), 7);
    assert_eq!(char_of_digit(0), '0');
    assert_eq!(char_of_digit(9), '9');
    assert!(char_is_letter('a') && char_is_letter('z') && char_is_letter('A') && char_is_letter('Z'));
    assert!(char_is_letter(PI_SYMBOL) && char_is_letter(THETA_SYMBOL));
    assert!(!char_is_letter('_') && !char_is_letter('1') && !char_is_letter('['));
    assert!(char_is_typeable('a') && char_is_typeable(' ') && char_is_typeable('~'));
    assert!(char_is_typeable('\n') && char_is_typeable('!'));
    assert!(!char_is_typeable(PI_SYMBOL) && !char_is_typeable('\u{7f}') && !char_is_typeable('\u{1}'));
}

#[test]
fn strings_are_built_from_characters() {
    assert_eq!(char_string('x'), "x");
    assert_eq!(string_of(&vec!['a', 'b', 'c']), "abc");
    assert_eq!(string_of_reversed(&vec!['a', 'b', 'c']), "cba");
    assert_eq!(string_of(&vec![]), "");
    assert_eq!(head_string("x_ab"), "x");
    assert_eq!(head_string(""), "");
    assert_eq!(head_string("\u{3c0}_1"), "\u{3c0}");
    assert_eq!(tail_string("x_ab", 2, '|', false), "ab");
    assert_eq!(tail_string("x_a|b", 2, '|', true), "a b");
    assert_eq!(tail_string("x_a|b", 2, '|', false), "a|b");
    assert_eq!(tail_string("ab", 2, '|', true), "");
}

#[test]
fn sums_stop_at_the_ends_of_the_range() {
    assert_eq!(sat_plus(2, 3), 5);
    assert_eq!(sat_plus(i64::MAX, 1), i64::MAX);
    assert_eq!(sat_plus(i64::MIN, -1), i64::MIN);
    assert_eq!(sat_plus(i64::MAX, i64::MIN), -1);
    assert_eq!(sat_minus(2, 3), -1);
    assert_eq!(sat_minus(i64::MIN, 1), i64::MIN);
    assert_eq!(sat_minus(i64::MAX, -1), i64::MAX);
    assert_eq!(sat_minus(0, i64::MIN), i64::MAX);
    assert_eq!(max_of(2, 3), 3);
    assert_eq!(max_of(-2, -3), -2);
}

#[test]
fn halves_and_portions_round_towards_zero() {
    assert_eq!(half_of(7), 3);
    assert_eq!(half_of(-7), -3);
    assert_eq!(half_of(0), 0);
    assert_eq!(half_of(i64::MIN), i64::MIN / 2);
    assert_eq!(half_of(i64::MAX), i64::MAX / 2);
    assert_eq!(portion_of(20, 600), 12);
    assert_eq!(portion_of(-20, 600), -12);
    assert_eq!(portion_of(7, 500), 3);
    assert_eq!(portion_of(-7, 500), -3);
    assert_eq!(portion_of(i64::MAX, 2000), i64::MAX);
    assert_eq!(portion_of(i64::MIN, 2000), i64::MIN);
    assert_eq!(portion_of(i64::MIN, 1000), i64::MIN);
    assert_eq!(portion_of(i64::MIN, 500), i64::MIN / 2);
    assert_eq!(portion_of(100, 0), 0);
}

#[test]
fn caret_blinks_every_half_second() {
    assert!(cursor_visible(0));
    assert!(cursor_visible(499));
    assert!(!cursor_visible(500));
    assert!(!cursor_visible(999));
    assert!(cursor_visible(1000));
    assert!(!cursor_visible(1500));
}

#[test]
fn clock_gives_an_answer() {
    let first = caret_shown();
    assert!(first || !first);
}
