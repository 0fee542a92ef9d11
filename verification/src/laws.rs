//! What follows from the grammar: how padding, splitting and reading behave
//! when a source text is put together from parts.

use vstd::prelude::*;
use crate::grammar::{
    Lexeme, all_digits, classify, classify_all, decimal_text, decimal_value, digit_char,
    digits_of, fragments, is_digit, is_well_formed, lemma_run_len_bounds, lex, pad_parens,
    parse_integer, run_len, text_of,
};
use crate::text::{is_blank, is_paren, is_whitespace};

verus! {

/// The lexeme of a parenthesis.
pub open spec fn paren_lexeme(p: char) -> Lexeme {
    if p == '(' {
        Lexeme::LParen
    } else {
        Lexeme::RParen
    }
}

/// Padding works on each character by itself: the padding of two texts
/// joined is the two paddings joined.
pub proof fn lemma_pad_parens_concat(a: Seq<char>, b: Seq<char>)
    ensures
        pad_parens(a + b) == pad_parens(a) + pad_parens(b),
    decreases b.len(),
{
    if b.len() == 0 {
        assert(a + b == a);
        assert(pad_parens(a) + pad_parens(b) == pad_parens(a));
    } else {
        lemma_pad_parens_concat(a, b.drop_last());
        assert((a + b).drop_last() == a + b.drop_last());
        assert((a + b).last() == b.last());
        let head = pad_parens(a) + pad_parens(b.drop_last());
        if is_paren(b.last()) {
            assert(head.push(' ').push(b.last()).push(' ') == pad_parens(a) + pad_parens(
                b.drop_last(),
            ).push(' ').push(b.last()).push(' '));
        } else {
            assert(head.push(b.last()) == pad_parens(a) + pad_parens(b.drop_last()).push(
                b.last(),
            ));
        }
    }
}

/// Padding leaves a text without parentheses as it is.
pub proof fn lemma_pad_parens_without_parens(s: Seq<char>)
    requires
        forall|i: int| 0 <= i < s.len() ==> !is_paren(#[trigger] s[i]),
    ensures
        pad_parens(s) == s,
    decreases s.len(),
{
    if s.len() > 0 {
        lemma_pad_parens_without_parens(s.drop_last());
        assert(!is_paren(s[s.len() - 1]));
        assert(s.drop_last().push(s.last()) == s);
    }
}

/// A text of whitespace alone has no fragments.
pub proof fn lemma_fragments_of_blank(s: Seq<char>)
    requires
        is_blank(s),
    ensures
        fragments(s).len() == 0,
    decreases s.len(),
{
    if s.len() > 0 {
        assert(is_whitespace(s[0]));
        assert forall|i: int| 0 <= i < s.skip(1).len() implies is_whitespace(
            #[trigger] s.skip(1)[i],
        ) by {
            assert(s.skip(1)[i] == s[i + 1]);
        }
        lemma_fragments_of_blank(s.skip(1));
    }
}

/// Where the first run of `a` ends inside `a`, or `b` does not go on with it,
/// the first run of `a + b` is that of `a`.
pub proof fn lemma_run_len_concat(a: Seq<char>, b: Seq<char>)
    requires
        run_len(a) < a.len() || b.len() == 0 || is_whitespace(b[0]),
    ensures
        run_len(a + b) == run_len(a),
    decreases a.len(),
{
    if a.len() == 0 {
        assert(a + b == b);
    } else if !is_whitespace(a[0]) {
        assert((a + b).skip(1) == a.skip(1) + b);
        lemma_run_len_concat(a.skip(1), b);
    }
}

/// Where whitespace stands at the seam of `a` and `b`, on either side of it,
/// or one of the two is empty, the fragments of `a + b` are those of `a`
/// followed by those of `b`.
pub proof fn lemma_fragments_concat(a: Seq<char>, b: Seq<char>)
    requires
        a.len() == 0 || b.len() == 0 || is_whitespace(a.last()) || is_whitespace(b[0]),
    ensures
        fragments(a + b) == fragments(a) + fragments(b),
    decreases a.len(),
{
    if a.len() == 0 {
        assert(a + b == b);
        assert(fragments(a) + fragments(b) == fragments(b));
    } else if is_whitespace(a[0]) {
        assert((a + b).skip(1) == a.skip(1) + b);
        if a.len() > 1 {
            assert(a.skip(1).last() == a.last());
        }
        lemma_fragments_concat(a.skip(1), b);
    } else {
        let n = run_len(a) as int;
        lemma_run_len_bounds(a);
        if n == a.len() {
            assert(!is_whitespace(a[a.len() - 1]));
        }
        lemma_run_len_concat(a, b);
        assert((a + b).take(n) == a.take(n));
        assert((a + b).skip(n) == a.skip(n) + b);
        if n < a.len() {
            assert(a.skip(n).last() == a.last());
        }
        lemma_fragments_concat(a.skip(n), b);
        assert(seq![a.take(n)] + (fragments(a.skip(n)) + fragments(b)) == (seq![a.take(n)]
            + fragments(a.skip(n))) + fragments(b));
    }
}

/// Reading fragments one by one: the lexemes of two lists of fragments
/// joined are the lexemes of each, joined.
pub proof fn lemma_classify_all_concat(x: Seq<Seq<char>>, y: Seq<Seq<char>>)
    ensures
        classify_all(x + y) == classify_all(x) + classify_all(y),
{
    assert(classify_all(x + y) =~= classify_all(x) + classify_all(y));
}

/// A source text of whitespace alone, the empty text among them, has no
/// lexemes.
pub proof fn lemma_blank_source_has_no_lexemes(source: Seq<char>)
    requires
        is_blank(source),
    ensures
        lex(source) == Seq::<Lexeme>::empty(),
{
    assert forall|i: int| 0 <= i < source.len() implies !is_paren(#[trigger] source[i]) by {
        assert(is_whitespace(source[i]));
    }
    lemma_pad_parens_without_parens(source);
    lemma_fragments_of_blank(source);
    assert(lex(source) =~= Seq::<Lexeme>::empty());
}

/// A run of whitespace parts a source text in two: the lexemes of the whole
/// are those of what stands before the run, then those of what stands after,
/// in that order, whatever the two parts are.
pub proof fn lemma_whitespace_separates(a: Seq<char>, ws: Seq<char>, b: Seq<char>)
    requires
        ws.len() > 0,
        is_blank(ws),
    ensures
        lex(a + ws + b) == lex(a) + lex(b),
{
    assert forall|i: int| 0 <= i < ws.len() implies !is_paren(#[trigger] ws[i]) by {
        assert(is_whitespace(ws[i]));
    }
    lemma_pad_parens_without_parens(ws);
    lemma_pad_parens_concat(a, ws);
    lemma_pad_parens_concat(a + ws, b);
    let pa = pad_parens(a);
    let pb = pad_parens(b);
    assert(is_whitespace(ws[0]) && is_whitespace(ws[ws.len() - 1]));
    lemma_fragments_concat(pa, ws);
    lemma_fragments_concat(pa + ws, pb);
    lemma_fragments_of_blank(ws);
    assert(fragments(pa) + fragments(ws) == fragments(pa));
    lemma_classify_all_concat(fragments(pa), fragments(pb));
}

/// The lexemes of a source text do not depend on how much whitespace, or
/// which, stands between two of its parts, as long as there is some.
pub proof fn lemma_whitespace_insensitive(
    a: Seq<char>,
    ws1: Seq<char>,
    ws2: Seq<char>,
    b: Seq<char>,
)
    requires
        ws1.len() > 0,
        is_blank(ws1),
        ws2.len() > 0,
        is_blank(ws2),
    ensures
        lex(a + ws1 + b) == lex(a + ws2 + b),
{
    lemma_whitespace_separates(a, ws1, b);
    lemma_whitespace_separates(a, ws2, b);
}

/// Whitespace at either end of a source text changes nothing.
pub proof fn lemma_outer_whitespace_is_ignored(ws1: Seq<char>, source: Seq<char>, ws2: Seq<char>)
    requires
        is_blank(ws1),
        is_blank(ws2),
    ensures
        lex(ws1 + source + ws2) == lex(source),
{
    let empty = Seq::<char>::empty();
    lemma_blank_source_has_no_lexemes(empty);
    if ws1.len() > 0 {
        lemma_whitespace_separates(empty, ws1, source);
        assert(empty + ws1 + source == ws1 + source);
    } else {
        assert(ws1 + source == source);
    }
    assert(lex(ws1 + source) == lex(source)) by {
        assert(lex(empty) + lex(source) == lex(source));
    }
    if ws2.len() > 0 {
        lemma_whitespace_separates(ws1 + source, ws2, empty);
        assert(ws1 + source + ws2 + empty == ws1 + source + ws2);
        assert(lex(ws1 + source) + lex(empty) == lex(ws1 + source));
    } else {
        assert(ws1 + source + ws2 == ws1 + source);
    }
}

/// A parenthesis is a lexeme of its own wherever it stands: whatever is
/// written right before it or right behind it, with or without whitespace,
/// is read as if the parenthesis were not there.
pub proof fn lemma_paren_is_isolated(a: Seq<char>, p: char, b: Seq<char>)
    requires
        is_paren(p),
    ensures
        lex(a + seq![p] + b) == lex(a) + seq![paren_lexeme(p)] + lex(b),
{
    let one = seq![p];
    let padded = seq![' ', p, ' '];
    assert(pad_parens(one) == padded) by {
        assert(one.drop_last() == Seq::<char>::empty());
        assert(pad_parens(one.drop_last()) == Seq::<char>::empty());
        assert(one.last() == p);
        assert(Seq::<char>::empty().push(' ').push(p).push(' ') == padded);
    }
    assert(fragments(padded) == seq![one]) by {
        let tail = padded.skip(1);
        assert(tail == seq![p, ' ']);
        assert(is_whitespace(padded[0]));
        assert(!is_whitespace(tail[0]));
        assert(tail.skip(1) == seq![' ']);
        assert(run_len(tail.skip(1)) == 0);
        assert(run_len(tail) == 1);
        assert(tail.take(1) == one);
        assert(is_blank(tail.skip(1)));
        lemma_fragments_of_blank(tail.skip(1));
        assert(fragments(tail) == seq![tail.take(1)] + fragments(tail.skip(1)));
        assert(fragments(padded) == fragments(tail));
        assert(seq![one] + fragments(tail.skip(1)) == seq![one]);
    }
    lemma_pad_parens_concat(a, one);
    lemma_pad_parens_concat(a + one, b);
    let pa = pad_parens(a);
    let pb = pad_parens(b);
    assert(is_whitespace(padded[0]) && is_whitespace(padded[2]));
    lemma_fragments_concat(pa, padded);
    lemma_fragments_concat(pa + padded, pb);
    lemma_classify_all_concat(fragments(pa), seq![one]);
    lemma_classify_all_concat(fragments(pa) + seq![one], fragments(pb));
    assert(classify(one) == paren_lexeme(p)) by {
        assert(one == seq!['('] || one == seq![')']);
        assert(seq!['('][0] == '(' && seq![')'][0] == ')');
    }
    assert(classify_all(seq![one]) =~= seq![paren_lexeme(p)]);
}

/// A fragment that writes an integer within the range of `i64` is read as
/// that integer, and every other fragment but the two parentheses as a symbol
/// that holds the fragment itself.
pub proof fn lemma_classify_by_value(fragment: Seq<char>)
    ensures
        parse_integer(fragment) is Some ==> classify(fragment) == Lexeme::Integer(
            parse_integer(fragment).unwrap(),
        ),
        parse_integer(fragment) is None && fragment != seq!['('] && fragment != seq![')']
            ==> classify(fragment) == Lexeme::Symbol(fragment),
{
    assert(seq!['('][0] == '(' && seq![')'][0] == ')');
    if fragment == seq!['('] || fragment == seq![')'] {
        assert(fragment.len() == 1);
        assert(!is_digit(fragment[0]));
    }
}

/// The characters of `s` that are not whitespace, in their order.
pub open spec fn without_whitespace(s: Seq<char>) -> Seq<char>
    decreases s.len(),
{
    if s.len() == 0 {
        Seq::empty()
    } else if is_whitespace(s[0]) {
        without_whitespace(s.skip(1))
    } else {
        seq![s[0]] + without_whitespace(s.skip(1))
    }
}

/// The texts `parts` written one after the other.
pub open spec fn joined(parts: Seq<Seq<char>>) -> Seq<char>
    decreases parts.len(),
{
    if parts.len() == 0 {
        Seq::empty()
    } else {
        parts[0] + joined(parts.skip(1))
    }
}

/// What is left of `s` without its whitespace starts with the first run of
/// `s`, whole.
pub proof fn lemma_without_whitespace_run(s: Seq<char>)
    ensures
        run_len(s) <= s.len(),
        without_whitespace(s) == s.take(run_len(s) as int) + without_whitespace(
            s.skip(run_len(s) as int),
        ),
    decreases s.len(),
{
    let n = run_len(s) as int;
    if s.len() == 0 || is_whitespace(s[0]) {
        assert(s.skip(0) == s);
        assert(s.take(0) + without_whitespace(s) == without_whitespace(s));
    } else {
        let rest = s.skip(1);
        lemma_without_whitespace_run(rest);
        assert(rest.skip(n - 1) == s.skip(n));
        assert(seq![s[0]] + rest.take(n - 1) == s.take(n));
        assert(seq![s[0]] + (rest.take(n - 1) + without_whitespace(rest.skip(n - 1))) == (seq![
            s[0],
        ] + rest.take(n - 1)) + without_whitespace(rest.skip(n - 1)));
    }
}

/// Splitting loses and reorders nothing: the fragments of a text, written
/// one after the other, are the text without its whitespace.
pub proof fn lemma_fragments_keep_order(s: Seq<char>)
    ensures
        joined(fragments(s)) == without_whitespace(s),
    decreases s.len(),
{
    if s.len() == 0 {
    } else if is_whitespace(s[0]) {
        lemma_fragments_keep_order(s.skip(1));
    } else {
        let n = run_len(s) as int;
        lemma_run_len_bounds(s);
        lemma_without_whitespace_run(s);
        lemma_fragments_keep_order(s.skip(n));
        let parts = fragments(s);
        assert(parts[0] == s.take(n));
        assert(parts.skip(1) == fragments(s.skip(n)));
    }
}

/// Dropping whitespace works on each character by itself.
pub proof fn lemma_without_whitespace_concat(a: Seq<char>, b: Seq<char>)
    ensures
        without_whitespace(a + b) == without_whitespace(a) + without_whitespace(b),
    decreases a.len(),
{
    if a.len() == 0 {
        assert(a + b == b);
        assert(without_whitespace(a) + without_whitespace(b) == without_whitespace(b));
    } else {
        lemma_without_whitespace_concat(a.skip(1), b);
        assert((a + b).skip(1) == a.skip(1) + b);
        if !is_whitespace(a[0]) {
            assert(seq![a[0]] + (without_whitespace(a.skip(1)) + without_whitespace(b)) == (seq![
                a[0],
            ] + without_whitespace(a.skip(1))) + without_whitespace(b));
        }
    }
}

/// Padding adds whitespace and nothing else.
pub proof fn lemma_padding_adds_only_whitespace(s: Seq<char>)
    ensures
        without_whitespace(pad_parens(s)) == without_whitespace(s),
    decreases s.len(),
{
    if s.len() > 0 {
        let head = s.drop_last();
        let c = s.last();
        lemma_padding_adds_only_whitespace(head);
        assert(s == head + seq![c]);
        lemma_without_whitespace_concat(head, seq![c]);
        if is_paren(c) {
            let padded = seq![' ', c, ' '];
            assert(pad_parens(s) == pad_parens(head) + padded);
            lemma_without_whitespace_concat(pad_parens(head), padded);
            assert(without_whitespace(padded) == without_whitespace(seq![c])) by {
                assert(padded.skip(1) == seq![c, ' ']);
                assert(padded.skip(1).skip(1) == seq![' ']);
                assert(seq![c].skip(1) == Seq::<char>::empty());
                assert(seq![' '].skip(1) == Seq::<char>::empty());
                assert(is_whitespace(seq![' '][0]) && !is_whitespace(c));
                assert(without_whitespace(Seq::<char>::empty()) == Seq::<char>::empty());
                assert(without_whitespace(seq![' ']) == Seq::<char>::empty());
                assert(without_whitespace(seq![c, ' ']) == seq![c] + Seq::<char>::empty());
                assert(without_whitespace(seq![c]) == seq![c] + Seq::<char>::empty());
            }
        } else {
            assert(pad_parens(s) == pad_parens(head) + seq![c]);
            lemma_without_whitespace_concat(pad_parens(head), seq![c]);
        }
    }
}

/// The fragments that a source text is cut into, written one after the
/// other, are the characters of the text other than whitespace, in the order
/// of the text: the fragments come as they stand in the source, from left to
/// right, and nothing of it is lost.
pub proof fn lemma_source_order_is_kept(source: Seq<char>)
    ensures
        joined(fragments(pad_parens(source))) == without_whitespace(source),
        lex(source).len() == fragments(pad_parens(source)).len(),
        forall|k: int|
            0 <= k < lex(source).len() ==> #[trigger] lex(source)[k] == classify(
                fragments(pad_parens(source))[k],
            ),
{
    lemma_fragments_keep_order(pad_parens(source));
    lemma_padding_adds_only_whitespace(source);
}

/// Every parenthesis of `s` is followed by whitespace, and preceded by it
/// unless it stands first.
pub open spec fn parens_set_off(s: Seq<char>) -> bool {
    forall|j: int|
        0 <= j < s.len() && is_paren(#[trigger] s[j]) ==> j + 1 < s.len() && is_whitespace(
            s[j + 1],
        ) && (j > 0 ==> is_whitespace(s[j - 1]))
}

/// In a padded text every parenthesis is set off by whitespace.
pub proof fn lemma_padded_parens_set_off(s: Seq<char>)
    ensures
        parens_set_off(pad_parens(s)),
    decreases s.len(),
{
    if s.len() > 0 {
        lemma_padded_parens_set_off(s.drop_last());
        let p = pad_parens(s.drop_last());
        let q = pad_parens(s);
        assert forall|j: int| 0 <= j < q.len() && is_paren(#[trigger] q[j]) implies j + 1
            < q.len() && is_whitespace(q[j + 1]) && (j > 0 ==> is_whitespace(q[j - 1])) by {
            if j < p.len() {
                assert(is_paren(p[j]));
                assert(q[j + 1] == p[j + 1]);
                if j > 0 {
                    assert(q[j - 1] == p[j - 1]);
                }
            }
        }
    }
}

/// Where every parenthesis of `s` is set off by whitespace, a fragment of
/// `s` is not empty, holds no whitespace, and holds a parenthesis only if it
/// is that one character.
pub proof fn lemma_fragments_of_set_off(s: Seq<char>, k: int)
    requires
        parens_set_off(s),
        0 <= k < fragments(s).len(),
    ensures
        fragments(s)[k].len() > 0,
        forall|i: int|
            0 <= i < fragments(s)[k].len() ==> !is_whitespace(#[trigger] fragments(s)[k][i]),
        forall|i: int|
            0 <= i < fragments(s)[k].len() && is_paren(#[trigger] fragments(s)[k][i])
                ==> fragments(s)[k].len() == 1,
    decreases s.len(),
{
    if s.len() == 0 {
    } else if is_whitespace(s[0]) {
        let rest = s.skip(1);
        assert forall|j: int| 0 <= j < rest.len() && is_paren(#[trigger] rest[j]) implies j + 1
            < rest.len() && is_whitespace(rest[j + 1]) && (j > 0 ==> is_whitespace(
            rest[j - 1],
        )) by {
            assert(is_paren(s[j + 1]));
        }
        lemma_fragments_of_set_off(rest, k);
    } else {
        let n = run_len(s) as int;
        lemma_run_len_bounds(s);
        let first = s.take(n);
        let rest = s.skip(n);
        if k == 0 {
            assert(fragments(s)[0] == first);
            assert forall|i: int|
                0 <= i < first.len() && is_paren(#[trigger] first[i]) implies first.len() == 1 by {
                assert(is_paren(s[i]));
                if i > 0 {
                    assert(!is_whitespace(s[i - 1]));
                }
                if n > 1 {
                    assert(!is_whitespace(s[1]));
                }
            }
        } else {
            assert forall|j: int| 0 <= j < rest.len() && is_paren(#[trigger] rest[j]) implies j
                + 1 < rest.len() && is_whitespace(rest[j + 1]) && (j > 0 ==> is_whitespace(
                rest[j - 1],
            )) by {
                assert(is_paren(s[j + n]));
            }
            assert(fragments(s)[k] == fragments(rest)[k - 1]);
            lemma_fragments_of_set_off(rest, k - 1);
        }
    }
}

/// Every lexeme of a source text is well-formed. In particular no symbol
/// holds a parenthesis, whatever stood next to one in the text.
pub proof fn lemma_lexemes_are_well_formed(source: Seq<char>, k: int)
    requires
        0 <= k < lex(source).len(),
    ensures
        is_well_formed(lex(source)[k]),
{
    let padded = pad_parens(source);
    let f = fragments(padded)[k];
    lemma_padded_parens_set_off(source);
    lemma_fragments_of_set_off(padded, k);
    assert(lex(source)[k] == classify(f));
    if f != seq!['('] && f != seq![')'] && parse_integer(f) is None {
        assert forall|i: int| 0 <= i < f.len() implies !is_paren(#[trigger] f[i]) by {
            if is_paren(f[i]) {
                assert(f.len() == 1);
                assert(f =~= seq![f[0]]);
                assert(f =~= seq!['('] || f =~= seq![')']);
            }
        }
    }
}

/// The digits of a number write that number, and are digits.
pub proof fn lemma_digits_of_value(n: nat)
    ensures
        digits_of(n).len() > 0,
        all_digits(digits_of(n)),
        decimal_value(digits_of(n)) == n,
    decreases n,
{
    if n < 10 {
        let s = digits_of(n);
        assert(s.drop_last() == Seq::<char>::empty());
        assert(decimal_value(s.drop_last()) == 0);
        assert(s.last() == digit_char(n as int));
    } else {
        lemma_digits_of_value(n / 10);
        let head = digits_of(n / 10);
        let s = head.push(digit_char(n as int % 10));
        assert(s.drop_last() == head);
        assert(s.last() == digit_char(n as int % 10));
        assert forall|i: int| 0 <= i < s.len() implies is_digit(#[trigger] s[i]) by {
            if i < head.len() {
                assert(is_digit(head[i]));
            }
        }
    }
}

/// An integer within the range of `i64`, written in base ten, reads as
/// itself.
pub proof fn lemma_decimal_text_parses(n: int)
    requires
        i64::MIN <= n <= i64::MAX,
    ensures
        parse_integer(decimal_text(n)) == Some(n),
{
    if n < 0 {
        let digits = digits_of((-n) as nat);
        lemma_digits_of_value((-n) as nat);
        let text = seq!['-'] + digits;
        assert(text[0] == '-');
        assert(text.skip(1) == digits);
    } else {
        let digits = digits_of(n as nat);
        lemma_digits_of_value(n as nat);
        assert(is_digit(digits[0]));
    }
}

/// A text that is not empty and holds no whitespace is one fragment.
pub proof fn lemma_single_fragment(s: Seq<char>)
    requires
        s.len() > 0,
        forall|i: int| 0 <= i < s.len() ==> !is_whitespace(#[trigger] s[i]),
    ensures
        fragments(s) == seq![s],
{
    lemma_run_len_bounds(s);
    let n = run_len(s);
    if n < s.len() {
        assert(!is_whitespace(s[n as int]));
    }
    assert(!is_whitespace(s[0]));
    assert(s.take(n as int) == s);
    assert(s.skip(n as int) == Seq::<char>::empty());
    assert(fragments(s) == seq![s.take(n as int)] + fragments(s.skip(n as int)));
    assert(seq![s] + Seq::<Seq<char>>::empty() == seq![s]);
}

/// A well-formed lexeme, written as text, is read back as that lexeme and
/// nothing else.
pub proof fn lemma_text_lexes_back(lexeme: Lexeme)
    requires
        is_well_formed(lexeme),
    ensures
        lex(text_of(lexeme)) == seq![lexeme],
{
    let text = text_of(lexeme);
    let empty = Seq::<char>::empty();
    assert(seq!['('][0] == '(' && seq![')'][0] == ')');
    match lexeme {
        Lexeme::LParen => {
            lemma_paren_is_isolated(empty, '(', empty);
            lemma_blank_source_has_no_lexemes(empty);
            assert(empty + seq!['('] + empty == text);
            assert(lex(empty) + seq![Lexeme::LParen] + lex(empty) == seq![lexeme]);
        },
        Lexeme::RParen => {
            lemma_paren_is_isolated(empty, ')', empty);
            lemma_blank_source_has_no_lexemes(empty);
            assert(empty + seq![')'] + empty == text);
            assert(lex(empty) + seq![Lexeme::RParen] + lex(empty) == seq![lexeme]);
        },
        Lexeme::Symbol(s) => {
            lemma_pad_parens_without_parens(text);
            lemma_single_fragment(text);
            assert(!is_paren(text[0]));
            assert(classify_all(seq![text]) =~= seq![classify(text)]);
        },
        Lexeme::Integer(n) => {
            lemma_decimal_text_parses(n);
            let digits = digits_of((if n < 0 { -n } else { n }) as nat);
            lemma_digits_of_value((if n < 0 { -n } else { n }) as nat);
            assert forall|i: int| 0 <= i < text.len() implies !is_whitespace(#[trigger] text[i])
                && !is_paren(text[i]) by {
                if n < 0 {
                    if i > 0 {
                        assert(text[i] == digits[i - 1]);
                        assert(is_digit(digits[i - 1]));
                    }
                } else {
                    assert(is_digit(digits[i]));
                }
            }
            lemma_pad_parens_without_parens(text);
            lemma_single_fragment(text);
            assert(!is_paren(text[0]));
            assert(classify_all(seq![text]) =~= seq![classify(text)]);
        },
    }
}

} // verus!
