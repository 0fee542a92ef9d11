//! Tokens, and the function that reads them off a source text.

use vstd::prelude::*;
use vstd::slice::slice_subrange;
use crate::grammar::{
    Lexeme, all_digits, classify, classify_all, decimal_text, decimal_value, digit_char,
    digits_of, fragments, is_digit, lemma_decimal_value_grows, lex, pad_parens, parse_integer,
    run_len, signed_value, text_of, unsigned_part,
};
use crate::text::{char_is_whitespace, chars_of, string_of};

verus! {

/// One lexical unit of a source text. A token owns what it holds: nothing in
/// it refers back to the text it was read from.
#[derive(Debug, Clone, PartialEq)]
pub enum Token {
    /// A number, already read.
    Integer(i64),
    /// Any other fragment, as it stood in the text.
    Symbol(String),
    /// `(`
    LParen,
    /// `)`
    RParen,
}

impl View for Token {
    type V = Lexeme;

    open spec fn view(&self) -> Lexeme {
        match self {
            Token::Integer(n) => Lexeme::Integer(*n as int),
            Token::Symbol(s) => Lexeme::Symbol(s@),
            Token::LParen => Lexeme::LParen,
            Token::RParen => Lexeme::RParen,
        }
    }
}

/// What the tokens `tokens` stand for, one lexeme for each.
pub open spec fn lexemes(tokens: Seq<Token>) -> Seq<Lexeme> {
    tokens.map_values(|t: Token| t@)
}

/// Copies `source`, setting off each parenthesis by a space on either side.
pub fn pad_parens_of(source: &[char]) -> (padded: Vec<char>)
    ensures
        padded@ == pad_parens(source@),
{
    let mut padded: Vec<char> = Vec::new();
    let mut i: usize = 0;
    while i < source.len()
        invariant
            i <= source.len(),
            padded@ == pad_parens(source@.take(i as int)),
        decreases source.len() - i,
    {
        let c = source[i];
        proof {
            let next = source@.take(i + 1);
            assert(next.drop_last() == source@.take(i as int));
            assert(next.last() == c);
        }
        if c == '(' || c == ')' {
            padded.push(' ');
            padded.push(c);
            padded.push(' ');
        } else {
            padded.push(c);
        }
        i += 1;
    }
    assert(source@.take(i as int) == source@);
    padded
}

/// Reads `fragment` as a signed 64-bit integer in base ten, if it is one.
pub fn read_integer(fragment: &[char]) -> (r: Option<i64>)
    ensures
        match r {
            Some(n) => parse_integer(fragment@) == Some(n as int),
            None => parse_integer(fragment@) is None,
        },
{
    let n = fragment.len();
    if n == 0 {
        return None;
    }
    let negative = fragment[0] == '-';
    let start: usize = if fragment[0] == '-' || fragment[0] == '+' {
        1
    } else {
        0
    };
    if start == n {
        return None;
    }
    let ghost digits = unsigned_part(fragment@);
    assert(digits == fragment@.skip(start as int));
    let limit: u64 = if negative {
        0x8000_0000_0000_0000
    } else {
        0x7fff_ffff_ffff_ffff
    };
    let mut magnitude: u64 = 0;
    let mut i: usize = start;
    while i < n
        invariant
            start <= i <= n,
            n == fragment.len(),
            digits == fragment@.skip(start as int),
            digits == unsigned_part(fragment@),
            all_digits(digits.take(i - start)),
            magnitude == decimal_value(digits.take(i - start)),
            magnitude <= limit,
            limit == if negative { -(i64::MIN as int) } else { i64::MAX as int },
            signed_value(fragment@) == if negative {
                -decimal_value(digits)
            } else {
                decimal_value(digits)
            },
        decreases n - i,
    {
        let c = fragment[i];
        let ghost seen = digits.take(i + 1 - start);
        assert(digits[i - start] == c);
        assert(seen.drop_last() == digits.take(i - start));
        assert(seen.last() == c);
        if c < '0' || c > '9' {
            assert(!is_digit(digits[i - start]));
            return None;
        }
        let d: u64 = (c as u32 - '0' as u32) as u64;
        let next: u128 = magnitude as u128 * 10 + d as u128;
        assert(next == decimal_value(seen));
        if next > limit as u128 {
            proof {
                if all_digits(digits) {
                    lemma_decimal_value_grows(digits, i + 1 - start);
                    assert(decimal_value(digits) > limit);
                }
            }
            return None;
        }
        magnitude = next as u64;
        i += 1;
    }
    assert(digits.take(i - start) == digits);
    if !negative {
        Some(magnitude as i64)
    } else if magnitude == 0x8000_0000_0000_0000 {
        Some(i64::MIN)
    } else {
        Some(-(magnitude as i64))
    }
}

/// Reads one fragment by itself: a parenthesis, an integer, or else a symbol
/// that holds the fragment as it stands.
pub fn read_fragment(fragment: &[char]) -> (token: Token)
    ensures
        token@ == classify(fragment@),
{
    if fragment.len() == 1 && fragment[0] == '(' {
        assert(fragment@ == seq!['(']);
        Token::LParen
    } else if fragment.len() == 1 && fragment[0] == ')' {
        assert(fragment@ == seq![')']);
        assert(seq!['('][0] == '(');
        Token::RParen
    } else {
        assert(seq!['('][0] == '(' && seq![')'][0] == ')');
        match read_integer(fragment) {
            Some(n) => Token::Integer(n),
            None => Token::Symbol(string_of(fragment)),
        }
    }
}

/// Reads the tokens of `source`, from left to right. Every text has its
/// tokens: nothing is rejected.
pub fn tokenize(source: &str) -> (tokens: Vec<Token>)
    ensures
        lexemes(tokens@) == lex(source@),
{
    let chars = chars_of(source);
    let padded = pad_parens_of(chars.as_slice());
    let n = padded.len();
    let ghost text = padded@;
    let ghost mut read: Seq<Seq<char>> = Seq::empty();
    let mut tokens: Vec<Token> = Vec::new();
    let mut i: usize = 0;
    assert(text.skip(0) == text);
    assert(read + fragments(text) == fragments(text));
    while i < n
        invariant
            i <= n,
            n == padded.len(),
            text == padded@,
            read + fragments(text.skip(i as int)) == fragments(text),
            lexemes(tokens@) == classify_all(read),
        decreases n - i,
    {
        let ghost rest = text.skip(i as int);
        if char_is_whitespace(padded[i]) {
            assert(rest.skip(1) == text.skip(i + 1));
            i += 1;
        } else {
            let mut j: usize = i + 1;
            assert(rest.skip(1) == text.skip(j as int));
            while j < n && !char_is_whitespace(padded[j])
                invariant
                    i < j <= n,
                    n == padded.len(),
                    text == padded@,
                    rest == text.skip(i as int),
                    run_len(rest) == (j - i) + run_len(text.skip(j as int)),
                decreases n - j,
            {
                assert(text.skip(j as int).skip(1) == text.skip(j + 1));
                j += 1;
            }
            assert(run_len(rest) == j - i);
            let fragment = slice_subrange(padded.as_slice(), i, j);
            assert(fragment@ == rest.take(run_len(rest) as int));
            assert(rest.skip(run_len(rest) as int) == text.skip(j as int));
            let token = read_fragment(fragment);
            proof {
                let ghost before = read;
                read = read.push(fragment@);
                assert(read + fragments(text.skip(j as int)) == before + fragments(rest));
                assert(lexemes(tokens@.push(token)) =~= lexemes(tokens@).push(token@));
                assert(classify_all(read) =~= classify_all(before).push(classify(fragment@)));
            }
            tokens.push(token);
            i = j;
        }
    }
    assert(fragments(text.skip(i as int)) == Seq::<Seq<char>>::empty());
    assert(read + Seq::<Seq<char>>::empty() == read);
    tokens
}

/// The character that writes the digit `d`.
fn digit_char_of(d: u64) -> (c: char)
    requires
        d < 10,
    ensures
        c == digit_char(d as int),
{
    if d == 0 {
        '0'
    } else if d == 1 {
        '1'
    } else if d == 2 {
        '2'
    } else if d == 3 {
        '3'
    } else if d == 4 {
        '4'
    } else if d == 5 {
        '5'
    } else if d == 6 {
        '6'
    } else if d == 7 {
        '7'
    } else if d == 8 {
        '8'
    } else {
        '9'
    }
}

/// Puts the digits of `n` in base ten at the end of `text`.
fn push_digits(text: &mut String, n: u64)
    ensures
        final(text)@ == old(text)@ + digits_of(n as nat),
    decreases n,
{
    if n >= 10 {
        push_digits(text, n / 10);
    }
    text.push(digit_char_of(n % 10));
}

/// `n` written in base ten, with `-` in front if it is negative.
pub fn integer_text(n: i64) -> (text: String)
    ensures
        text@ == decimal_text(n as int),
{
    let mut text = String::new();
    if n < 0 {
        text.push('-');
        let magnitude: u64 = if n == i64::MIN {
            0x8000_0000_0000_0000
        } else {
            (-n) as u64
        };
        push_digits(&mut text, magnitude);
    } else {
        push_digits(&mut text, n as u64);
    }
    text
}

impl Token {
    /// The token as text: a parenthesis, a symbol as it stands, an integer in
    /// base ten.
    pub fn to_string(&self) -> (text: String)
        ensures
            text@ == text_of(self@),
    {
        match self {
            Token::Integer(n) => integer_text(*n),
            Token::Symbol(s) => s.clone(),
            Token::LParen => {
                let mut text = String::new();
                text.push('(');
                text
            },
            Token::RParen => {
                let mut text = String::new();
                text.push(')');
                text
            },
        }
    }
}

} // verus!
