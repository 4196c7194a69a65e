//! Characters and strings.

use vstd::prelude::*;

verus! {

/// The character that stands for the caret in edited text.
pub const CURSOR_SYMBOL: char = '\u{FF5C}';

/// The Greek letter pi, accepted as a variable name.
pub const PI_SYMBOL: char = '\u{03C0}';

/// The Greek letter theta, accepted as a variable name.
pub const THETA_SYMBOL: char = '\u{03B8}';

/// A decimal digit.
pub open spec fn is_digit(c: char) -> bool {
    '0' <= c <= '9'
}

/// The number that a decimal digit stands for.
pub open spec fn digit_value(c: char) -> nat {
    (c as u32 - '0' as u32) as nat
}

/// A letter that can start or continue a variable name.
pub open spec fn is_letter(c: char) -> bool {
    'a' <= c <= 'z' || 'A' <= c <= 'Z' || c == THETA_SYMBOL || c == PI_SYMBOL
}

/// Whether `c` is a decimal digit.
pub fn char_is_digit(c: char) -> (r: bool)
    ensures
        r == is_digit(c),
{
    '0' <= c && c <= '9'
}

/// The number that the decimal digit `c` stands for.
pub fn char_digit_value(c: char) -> (r: u8)
    requires
        is_digit(c),
    ensures
        r == digit_value(c),
        r <= 9,
{
    (c as u32 - '0' as u32) as u8
}

/// Whether `c` can start or continue a variable name.
pub fn char_is_letter(c: char) -> (r: bool)
    ensures
        r == is_letter(c),
{
    ('a' <= c && c <= 'z') || ('A' <= c && c <= 'Z') || c == THETA_SYMBOL || c == PI_SYMBOL
}

/// `String::push`: the string afterwards is the string before with `c`
/// appended as its last character.
#[verifier::external_body]
pub(crate) fn push_char(s: &mut String, c: char)
    ensures
        final(s)@ == old(s)@.push(c),
{
    s.push(c);
}

/// The string of the single character `c`.
pub fn char_string(c: char) -> (s: String)
    ensures
        s@ == seq![c],
{
    let mut s = String::new();
    push_char(&mut s, c);
    assert(s@ =~= seq![c]);
    s
}

/// The string that holds the characters of `chars`.
pub fn string_of(chars: &Vec<char>) -> (s: String)
    ensures
        s@ == chars@,
{
    let mut s = String::new();
    let mut k: usize = 0;
    while k < chars.len()
        invariant
            0 <= k <= chars.len(),
            s@ =~= chars@.take(k as int),
        decreases chars.len() - k,
    {
        push_char(&mut s, chars[k]);
        k += 1;
    }
    assert(chars@.take(k as int) =~= chars@);
    s
}

/// The characters of `s` from position `from` on, as a string. With
/// `blank` set, every `hidden` among them is replaced by a space.
pub fn tail_string(s: &str, from: usize, hidden: char, blank: bool) -> (r: String)
    requires
        from <= s@.len(),
    ensures
        r@ == Seq::new(
            (s@.len() - from) as nat,
            |k: int|
                if blank && s@[k + from] == hidden {
                    ' '
                } else {
                    s@[k + from]
                },
        ),
{
    let n = s.unicode_len();
    let mut r = String::new();
    let mut k: usize = from;
    let ghost target = Seq::new(
        (s@.len() - from) as nat,
        |k: int|
            if blank && s@[k + from] == hidden {
                ' '
            } else {
                s@[k + from]
            },
    );
    while k < n
        invariant
            from <= k <= n,
            n == s@.len(),
            r@ =~= target.take(k - from),
            target.len() == n - from,
            forall|j: int|
                0 <= j < n - from ==> target[j] == (if blank && s@[j + from] == hidden {
                    ' '
                } else {
                    s@[j + from]
                }),
        decreases n - k,
    {
        let c = s.get_char(k);
        push_char(
            &mut r,
            if blank && c == hidden {
                ' '
            } else {
                c
            },
        );
        k += 1;
    }
    assert(target.take(k - from) =~= target);
    r
}

/// The first character of `s` as a string, or the empty string.
pub fn head_string(s: &str) -> (r: String)
    ensures
        r@ == (if s@.len() == 0 {
            s@
        } else {
            s@.subrange(0, 1)
        }),
{
    let mut r = String::new();
    if s.unicode_len() > 0 {
        push_char(&mut r, s.get_char(0));
        assert(r@ =~= s@.subrange(0, 1));
    } else {
        assert(r@ =~= s@);
    }
    r
}

/// The string that holds the characters of `chars` from the last to the
/// first.
pub fn string_of_reversed(chars: &Vec<char>) -> (s: String)
    ensures
        s@ == chars@.reverse(),
{
    let mut s = String::new();
    let mut k: usize = chars.len();
    while k > 0
        invariant
            0 <= k <= chars.len(),
            s@ =~= chars@.reverse().take(chars.len() - k),
        decreases k,
    {
        k -= 1;
        push_char(&mut s, chars[k]);
    }
    assert(chars@.reverse().take(chars.len() as int) =~= chars@.reverse());
    s
}

/// The character of the digit `d`.
pub open spec fn digit_char(d: nat) -> char {
    if d == 0 {
        '0'
    } else if d == 1 {
        '1'
    } else if d == 2 {
        '2'
    } else if d == 3 {
        '3'
    } else if d == 4 {
        '4'
    } else if d == 5 {
        '5'
    } else if d == 6 {
        '6'
    } else if d == 7 {
        '7'
    } else if d == 8 {
        '8'
    } else {
        '9'
    }
}

/// The decimal digits of `n`, without leading zeros.
pub open spec fn digits(n: nat) -> Seq<char>
    decreases n,
{
    if n < 10 {
        seq![digit_char(n)]
    } else {
        digits(n / 10).push(digit_char(n % 10))
    }
}

/// `value / 10^places` written with a decimal point and exactly `places`
/// digits behind it.
pub open spec fn fixed(value: nat, places: nat) -> Seq<char>
    decreases places,
{
    if places == 0 {
        digits(value).push('.')
    } else {
        fixed(value / 10, (places - 1) as nat).push(digit_char(value % 10))
    }
}

/// The text of a numeral: `value / 10^places` in decimal, without zeros at
/// the end of the fraction, and without the point if no fraction is left.
pub open spec fn numeral_chars(value: nat, places: nat) -> Seq<char>
    decreases places,
{
    if places == 0 {
        digits(value)
    } else if value % 10 == 0 {
        numeral_chars(value / 10, (places - 1) as nat)
    } else {
        fixed(value, places)
    }
}

/// The character of the digit `d`.
pub fn char_of_digit(d: u8) -> (c: char)
    requires
        d <= 9,
    ensures
        c == digit_char(d as nat),
{
    if d == 0 {
        '0'
    } else if d == 1 {
        '1'
    } else if d == 2 {
        '2'
    } else if d == 3 {
        '3'
    } else if d == 4 {
        '4'
    } else if d == 5 {
        '5'
    } else if d == 6 {
        '6'
    } else if d == 7 {
        '7'
    } else if d == 8 {
        '8'
    } else {
        '9'
    }
}

/// Putting a character at the end before reversing puts it at the front.
pub proof fn lemma_reverse_push(s: Seq<char>, c: char)
    ensures
        s.push(c).reverse() == seq![c] + s.reverse(),
{
    assert(s.push(c).reverse() =~= seq![c] + s.reverse());
}

/// The text of the numeral `value`, `fraction`.
pub fn numeral_text(value: u128, fraction: Option<u32>) -> (s: String)
    ensures
        s@ == numeral_chars(
            value as nat,
            match fraction {
                Some(p) => p as nat,
                None => 0,
            },
        ),
{
    let mut v: u128 = value;
    let mut p: u32 = match fraction {
        Some(p) => p,
        None => 0,
    };
    let ghost target = numeral_chars(value as nat, p as nat);
    while p > 0 && v % 10 == 0
        invariant
            target == numeral_chars(v as nat, p as nat),
        decreases p,
    {
        v = v / 10;
        p = p - 1;
    }
    let mut rev: Vec<char> = Vec::new();
    if p > 0 {
        while p > 0
            invariant
                target == fixed(v as nat, p as nat) + rev@.reverse(),
            decreases p,
        {
            let c = char_of_digit((v % 10) as u8);
            proof {
                lemma_reverse_push(rev@, c);
                assert(fixed((v / 10) as nat, (p - 1) as nat).push(c) + rev@.reverse()
                    =~= fixed((v / 10) as nat, (p - 1) as nat) + (seq![c] + rev@.reverse()));
            }
            rev.push(c);
            v = v / 10;
            p = p - 1;
        }
        proof {
            lemma_reverse_push(rev@, '.');
            assert(digits(v as nat).push('.') + rev@.reverse() =~= digits(v as nat) + (seq!['.']
                + rev@.reverse()));
        }
        rev.push('.');
    } else {
        assert(digits(v as nat) + rev@.reverse() =~= digits(v as nat));
    }
    while v >= 10
        invariant
            target == digits(v as nat) + rev@.reverse(),
        decreases v,
    {
        let c = char_of_digit((v % 10) as u8);
        proof {
            lemma_reverse_push(rev@, c);
            assert(digits((v / 10) as nat).push(c) + rev@.reverse() =~= digits((v / 10) as nat)
                + (seq![c] + rev@.reverse()));
        }
        rev.push(c);
        v = v / 10;
    }
    let c = char_of_digit(v as u8);
    proof {
        lemma_reverse_push(rev@, c);
        assert(seq![c] + rev@.reverse() =~= digits(v as nat) + rev@.reverse());
    }
    rev.push(c);
    string_of_reversed(&rev)
}

} // verus!
