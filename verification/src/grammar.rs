//! The grammar, as spec functions over sequences of characters.
//!
//! A source text is read in three steps: every parenthesis is set off by
//! spaces ([`pad_parens`]), the padded text is cut into its maximal runs of
//! characters that are not whitespace ([`fragments`]), and each run is read by
//! itself ([`classify`]). [`lex`] is the three together.

use vstd::prelude::*;
use crate::text::{is_whitespace, is_paren};

verus! {

/// What a token stands for: a parenthesis, a number, or a name.
pub enum Lexeme {
    Integer(int),
    Symbol(Seq<char>),
    LParen,
    RParen,
}

/// `s` with a space put before and after each parenthesis.
pub open spec fn pad_parens(s: Seq<char>) -> Seq<char>
    decreases s.len(),
{
    if s.len() == 0 {
        Seq::empty()
    } else if is_paren(s.last()) {
        pad_parens(s.drop_last()).push(' ').push(s.last()).push(' ')
    } else {
        pad_parens(s.drop_last()).push(s.last())
    }
}

/// The number of characters at the start of `s` before its first whitespace
/// character: all of them, if it has none.
pub open spec fn run_len(s: Seq<char>) -> nat
    decreases s.len(),
{
    if s.len() == 0 || is_whitespace(s[0]) {
        0
    } else {
        1 + run_len(s.skip(1))
    }
}

/// The run at the start of `s` ends inside `s`, and is not empty unless `s`
/// is empty or starts with whitespace.
pub proof fn lemma_run_len_bounds(s: Seq<char>)
    ensures
        run_len(s) <= s.len(),
        s.len() > 0 && !is_whitespace(s[0]) ==> run_len(s) >= 1,
        forall|i: int| 0 <= i < run_len(s) ==> !is_whitespace(#[trigger] s[i]),
        run_len(s) < s.len() ==> is_whitespace(s[run_len(s) as int]),
    decreases s.len(),
{
    if s.len() > 0 && !is_whitespace(s[0]) {
        let rest = s.skip(1);
        lemma_run_len_bounds(rest);
        assert forall|i: int| 0 <= i < run_len(s) implies !is_whitespace(#[trigger] s[i]) by {
            if i > 0 {
                assert(s[i] == rest[i - 1]);
            }
        }
        if run_len(s) < s.len() {
            assert(s[run_len(s) as int] == rest[run_len(rest) as int]);
        }
    }
}

/// The maximal runs of characters of `s` that are not whitespace, from left
/// to right.
pub open spec fn fragments(s: Seq<char>) -> Seq<Seq<char>>
    decreases s.len(),
    via fragments_decreases
{
    if s.len() == 0 {
        Seq::empty()
    } else if is_whitespace(s[0]) {
        fragments(s.skip(1))
    } else {
        seq![s.take(run_len(s) as int)] + fragments(s.skip(run_len(s) as int))
    }
}

#[via_fn]
proof fn fragments_decreases(s: Seq<char>) {
    lemma_run_len_bounds(s);
}

/// One of the ten decimal digits.
pub open spec fn is_digit(c: char) -> bool {
    '0' <= c <= '9'
}

/// The digit `c` as a number.
pub open spec fn digit_value(c: char) -> int {
    c as u32 as int - '0' as u32 as int
}

/// Every character of `s` is a decimal digit.
pub open spec fn all_digits(s: Seq<char>) -> bool {
    forall|i: int| 0 <= i < s.len() ==> is_digit(#[trigger] s[i])
}

/// The number that the digits `s` write in base ten; 0 for no digits.
pub open spec fn decimal_value(s: Seq<char>) -> int
    decreases s.len(),
{
    if s.len() == 0 {
        0
    } else {
        10 * decimal_value(s.drop_last()) + digit_value(s.last())
    }
}

/// Digits write a number that is not negative, and no less than the number
/// that any of their prefixes writes.
pub proof fn lemma_decimal_value_grows(s: Seq<char>, k: int)
    requires
        all_digits(s),
        0 <= k <= s.len(),
    ensures
        0 <= decimal_value(s.take(k)) <= decimal_value(s),
    decreases s.len(),
{
    if k < s.len() {
        lemma_decimal_value_grows(s.drop_last(), k);
        assert(s.drop_last().take(k) == s.take(k));
        assert(is_digit(s.last()));
    } else {
        assert(s.take(k) == s);
        if s.len() > 0 {
            lemma_decimal_value_grows(s.drop_last(), k - 1);
            assert(is_digit(s.last()));
        }
    }
}

/// `s` starts with a sign.
pub open spec fn has_sign(s: Seq<char>) -> bool {
    s.len() > 0 && (s[0] == '+' || s[0] == '-')
}

/// `s` without its sign, if it has one.
pub open spec fn unsigned_part(s: Seq<char>) -> Seq<char> {
    if has_sign(s) {
        s.skip(1)
    } else {
        s
    }
}

/// The number that `s` writes, sign included.
pub open spec fn signed_value(s: Seq<char>) -> int {
    if s.len() > 0 && s[0] == '-' {
        -decimal_value(unsigned_part(s))
    } else {
        decimal_value(unsigned_part(s))
    }
}

/// `s` read as a signed 64-bit integer in base ten: at most one sign, `+` or
/// `-`, then one decimal digit or more and nothing else, the number within
/// the range of `i64`. `None` for any other text.
pub open spec fn parse_integer(s: Seq<char>) -> Option<int> {
    let digits = unsigned_part(s);
    if digits.len() > 0 && all_digits(digits) && i64::MIN <= signed_value(s) <= i64::MAX {
        Some(signed_value(s))
    } else {
        None
    }
}

/// What one fragment stands for, read by itself.
pub open spec fn classify(fragment: Seq<char>) -> Lexeme {
    if fragment == seq!['('] {
        Lexeme::LParen
    } else if fragment == seq![')'] {
        Lexeme::RParen
    } else {
        match parse_integer(fragment) {
            Some(n) => Lexeme::Integer(n),
            None => Lexeme::Symbol(fragment),
        }
    }
}

/// What each of the fragments `frags` stands for, in the same order.
pub open spec fn classify_all(frags: Seq<Seq<char>>) -> Seq<Lexeme> {
    frags.map_values(|f: Seq<char>| classify(f))
}

/// The lexemes of a source text, from left to right.
pub open spec fn lex(source: Seq<char>) -> Seq<Lexeme> {
    classify_all(fragments(pad_parens(source)))
}

/// The character that writes the digit `d`.
pub open spec fn digit_char(d: int) -> char {
    if d == 0 {
        '0'
    } else if d == 1 {
        '1'
    } else if d == 2 {
        '2'
    } else if d == 3 {
        '3'
    } else if d == 4 {
        '4'
    } else if d == 5 {
        '5'
    } else if d == 6 {
        '6'
    } else if d == 7 {
        '7'
    } else if d == 8 {
        '8'
    } else {
        '9'
    }
}

/// The digits of `n` in base ten, without leading zeros; one `0` for zero.
pub open spec fn digits_of(n: nat) -> Seq<char>
    decreases n,
{
    if n < 10 {
        seq![digit_char(n as int)]
    } else {
        digits_of(n / 10).push(digit_char(n as int % 10))
    }
}

/// `n` written in base ten, with `-` in front if it is negative.
pub open spec fn decimal_text(n: int) -> Seq<char> {
    if n < 0 {
        seq!['-'] + digits_of((-n) as nat)
    } else {
        digits_of(n as nat)
    }
}

/// A lexeme as text: a parenthesis, a symbol as it stands, an integer in base
/// ten.
pub open spec fn text_of(lexeme: Lexeme) -> Seq<char> {
    match lexeme {
        Lexeme::Integer(n) => decimal_text(n),
        Lexeme::Symbol(s) => s,
        Lexeme::LParen => seq!['('],
        Lexeme::RParen => seq![')'],
    }
}

/// The lexemes that a source text can have: an integer within the range of
/// `i64`; a symbol that is not empty, holds neither whitespace nor a
/// parenthesis, and does not write such an integer; the two parentheses.
pub open spec fn is_well_formed(lexeme: Lexeme) -> bool {
    match lexeme {
        Lexeme::Integer(n) => i64::MIN <= n <= i64::MAX,
        Lexeme::Symbol(s) => {
            &&& s.len() > 0
            &&& forall|i: int|
                0 <= i < s.len() ==> !is_whitespace(#[trigger] s[i]) && !is_paren(s[i])
            &&& parse_integer(s) is None
        },
        Lexeme::LParen => true,
        Lexeme::RParen => true,
    }
}

} // verus!
