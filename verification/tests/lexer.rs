use sexpr_lexer::lexer::{tokenize, Token};

fn sym(s: &str) -> Token {
    Token::Symbol(s.to_owned())
}

#[test]
fn test_add() {
    let tokens = tokenize("(+ 4 8)");
    assert_eq!(
        tokens,
        vec![
            Token::LParen,
            Token::Symbol("+".to_owned()),
            Token::Integer(4),
            Token::Integer(8),
            Token::RParen,
        ]
    );
}

#[test]
fn test_circle_area() {
    let program = "
            (
                (define pi 314)
                (define r 10)
                (* pi (* r r))
            )
        ";
    let tokens = tokenize(program);
    assert_eq!(
        tokens,
        vec![
            Token::LParen,
            Token::LParen,
            Token::Symbol("define".to_owned()),
            Token::Symbol("pi".to_owned()),
            Token::Integer(314),
            Token::RParen,
            Token::LParen,
            Token::Symbol("define".to_owned()),
            Token::Symbol("r".to_owned()),
            Token::Integer(10),
            Token::RParen,
            Token::LParen,
            Token::Symbol("*".to_owned()),
            Token::Symbol("pi".to_owned()),
            Token::LParen,
            Token::Symbol("*".to_owned()),
            Token::Symbol("r".to_owned()),
            Token::Symbol("r".to_owned()),
            Token::RParen,
            Token::RParen,
            Token::RParen,
        ]
    );
}

#[test]
fn empty_pair_of_parens() {
    assert_eq!(tokenize("()"), vec![Token::LParen, Token::RParen]);
}

#[test]
fn define_with_integer() {
    assert_eq!(
        tokenize("(define pi 314)"),
        vec![Token::LParen, sym("define"), sym("pi"), Token::Integer(314), Token::RParen]
    );
}

#[test]
fn whitespace_runs_do_not_matter() {
    let expected =
        vec![Token::LParen, sym("+"), Token::Integer(4), Token::Integer(8), Token::RParen];
    assert_eq!(tokenize("(+ 4 8)"), expected);
    assert_eq!(tokenize("(  +   4    8  )"), expected);
    assert_eq!(tokenize("\t(\n+\r\n4 \u{a0}\u{3000} 8\u{2028})\u{85}"), expected);
}

#[test]
fn paren_is_split_from_its_neighbour() {
    assert_eq!(
        tokenize("(+4 8)"),
        vec![Token::LParen, Token::Integer(4), Token::Integer(8), Token::RParen]
    );
    assert_eq!(
        tokenize("(+1 2)"),
        vec![Token::LParen, Token::Integer(1), Token::Integer(2), Token::RParen]
    );
    assert_eq!(
        tokenize("ab(cd)ef"),
        vec![sym("ab"), Token::LParen, sym("cd"), Token::RParen, sym("ef")]
    );
    assert_eq!(
        tokenize("12(34"),
        vec![Token::Integer(12), Token::LParen, Token::Integer(34)]
    );
}

#[test]
fn unbalanced_parens_are_not_rejected() {
    assert_eq!(
        tokenize(")))(("),
        vec![Token::RParen, Token::RParen, Token::RParen, Token::LParen, Token::LParen]
    );
    assert_eq!(tokenize("(a"), vec![Token::LParen, sym("a")]);
}

#[test]
fn integers_keep_their_value() {
    assert_eq!(tokenize("314"), vec![Token::Integer(314)]);
    assert_eq!(tokenize("-5"), vec![Token::Integer(-5)]);
    assert_eq!(tokenize("+5"), vec![Token::Integer(5)]);
    assert_eq!(tokenize("0"), vec![Token::Integer(0)]);
    assert_eq!(tokenize("-0"), vec![Token::Integer(0)]);
    assert_eq!(tokenize("007"), vec![Token::Integer(7)]);
    assert_eq!(tokenize("9223372036854775807"), vec![Token::Integer(i64::MAX)]);
    assert_eq!(tokenize("-9223372036854775808"), vec![Token::Integer(i64::MIN)]);
    assert_eq!(
        tokenize("0000000000000000000000000000000000000042"),
        vec![Token::Integer(42)]
    );
}

#[test]
fn malformed_number_is_a_symbol() {
    assert_eq!(tokenize("12abc"), vec![sym("12abc")]);
    assert_eq!(tokenize("1_000"), vec![sym("1_000")]);
    assert_eq!(tokenize("--5"), vec![sym("--5")]);
    assert_eq!(tokenize("+-5"), vec![sym("+-5")]);
    assert_eq!(tokenize("5-"), vec![sym("5-")]);
    assert_eq!(tokenize("1.5"), vec![sym("1.5")]);
    assert_eq!(tokenize("0x10"), vec![sym("0x10")]);
    assert_eq!(tokenize("\u{661}\u{662}"), vec![sym("\u{661}\u{662}")]);
}

#[test]
fn lone_sign_is_a_symbol() {
    assert_eq!(tokenize("+"), vec![sym("+")]);
    assert_eq!(tokenize("-"), vec![sym("-")]);
    assert_eq!(tokenize("(- 3 1)"), vec![
        Token::LParen,
        sym("-"),
        Token::Integer(3),
        Token::Integer(1),
        Token::RParen,
    ]);
}

#[test]
fn integer_out_of_range_is_a_symbol() {
    assert_eq!(tokenize("9223372036854775808"), vec![sym("9223372036854775808")]);
    assert_eq!(tokenize("-9223372036854775809"), vec![sym("-9223372036854775809")]);
    assert_eq!(
        tokenize("100000000000000000000000000000"),
        vec![sym("100000000000000000000000000000")]
    );
    assert_eq!(tokenize("18446744073709551616"), vec![sym("18446744073709551616")]);
    assert_eq!(tokenize("18446744073709551620"), vec![sym("18446744073709551620")]);
}

#[test]
fn empty_and_blank_sources_have_no_tokens() {
    assert_eq!(tokenize(""), Vec::<Token>::new());
    assert_eq!(tokenize(" "), Vec::<Token>::new());
    assert_eq!(
        tokenize(" \t\r\n\u{b}\u{c}\u{85}\u{a0}\u{1680}\u{2003}\u{205f}\u{3000}"),
        Vec::<Token>::new()
    );
}

#[test]
fn tokens_come_in_source_order() {
    assert_eq!(
        tokenize("c b a 3 2 1"),
        vec![sym("c"), sym("b"), sym("a"), Token::Integer(3), Token::Integer(2), Token::Integer(1)]
    );
}

#[test]
fn tokens_of_two_parts_are_the_tokens_of_each() {
    let parts = ["", " ", "(", ")", "a", "12", "(+ 4 8)", "x(y", " -7 ", "define"];
    for a in parts {
        for b in parts {
            let mut expected = tokenize(a);
            expected.extend(tokenize(b));
            assert_eq!(tokenize(&format!("{} {}", a, b)), expected);
            assert_eq!(tokenize(&format!("{}\n\t {}", a, b)), expected);
        }
    }
}

#[test]
fn paren_between_two_parts_is_a_token_of_its_own() {
    let parts = ["", " ", "(", ")", "a", "12", "(+ 4 8)", "x(y", " -7 ", "define"];
    for a in parts {
        for b in parts {
            let mut expected = tokenize(a);
            expected.push(Token::LParen);
            expected.extend(tokenize(b));
            assert_eq!(tokenize(&format!("{}({}", a, b)), expected);
        }
    }
}

#[test]
fn symbols_keep_unusual_characters() {
    assert_eq!(tokenize("a\u{200b}b"), vec![sym("a\u{200b}b")]);
    assert_eq!(tokenize("\u{1f600} caf\u{e9}"), vec![sym("\u{1f600}"), sym("caf\u{e9}")]);
    assert_eq!(tokenize("a\u{180e}b"), vec![sym("a\u{180e}b")]);
}

fn by_std(source: &str) -> Vec<Token> {
    let padded = source.replace('(', " ( ").replace(')', " ) ");
    let mut tokens = Vec::new();
    for fragment in padded.split_whitespace() {
        tokens.push(if fragment == "(" {
            Token::LParen
        } else if fragment == ")" {
            Token::RParen
        } else if let Ok(n) = fragment.parse::<i64>() {
            Token::Integer(n)
        } else {
            Token::Symbol(fragment.to_owned())
        });
    }
    tokens
}

#[test]
fn agrees_with_std_splitting_and_parsing() {
    let alphabet = ['(', ')', ' ', '\n', '\u{a0}', '+', '-', '0', '9', 'a', '\u{2009}', '\u{e9}'];
    let mut state: u64 = 0x9e3779b97f4a7c15;
    for _ in 0..20000 {
        let mut source = String::new();
        state = state.wrapping_mul(6364136223846793005).wrapping_add(1442695040888963407);
        let len = (state >> 60) as usize;
        for _ in 0..len {
            state = state.wrapping_mul(6364136223846793005).wrapping_add(1442695040888963407);
            source.push(alphabet[((state >> 33) % alphabet.len() as u64) as usize]);
        }
        assert_eq!(tokenize(&source), by_std(&source), "source {:?}", source);
    }
}

#[test]
fn token_written_out_reads_back() {
    let tokens = tokenize("(define (f x) (+ x -12 9223372036854775808 12abc))");
    for token in &tokens {
        assert_eq!(tokenize(&token.to_string()), vec![token.clone()]);
    }
    for n in [0, 1, -1, 42, i64::MAX, i64::MIN] {
        assert_eq!(tokenize(&Token::Integer(n).to_string()), vec![Token::Integer(n)]);
    }
    let mut text = String::new();
    for token in &tokens {
        text.push_str(&token.to_string());
        text.push(' ');
    }
    assert_eq!(tokenize(&text), tokens);
}

#[test]
fn no_symbol_holds_whitespace_or_a_paren() {
    let alphabet = ['(', ')', ' ', '\t', '\u{3000}', '+', '-', '1', 'a', 'b'];
    let mut state: u64 = 7;
    for _ in 0..20000 {
        let mut source = String::new();
        state = state.wrapping_mul(6364136223846793005).wrapping_add(1442695040888963407);
        let len = (state >> 60) as usize;
        for _ in 0..len {
            state = state.wrapping_mul(6364136223846793005).wrapping_add(1442695040888963407);
            source.push(alphabet[((state >> 33) % alphabet.len() as u64) as usize]);
        }
        let parens = source.chars().filter(|c| *c == '(' || *c == ')').count();
        let mut seen = 0;
        for token in tokenize(&source) {
            match token {
                Token::Symbol(s) => {
                    assert!(!s.is_empty());
                    assert!(!s.chars().any(|c| c == '(' || c == ')' || c.is_whitespace()));
                    assert!(s.parse::<i64>().is_err());
                }
                Token::LParen | Token::RParen => seen += 1,
                Token::Integer(_) => {}
            }
        }
        assert_eq!(seen, parens, "source {:?}", source);
    }
}

#[test]
fn outer_whitespace_is_ignored() {
    for source in ["", "a", "(+ 4 8)", "12", "x y"] {
        assert_eq!(tokenize(&format!(" \n{}", source)), tokenize(source));
        assert_eq!(tokenize(&format!("{}\t ", source)), tokenize(source));
        assert_eq!(tokenize(&format!("\r\n {} \u{2003}", source)), tokenize(source));
    }
}

#[test]
fn tokens_keep_the_characters_in_order() {
    let sources =
        ["(define (sq x) (* x x))", "  a\tb\nc  ", ")x(y z", "", "(((", "caf\u{e9} \u{1f600}(x)"];
    for source in sources {
        let mut written = String::new();
        for token in tokenize(source) {
            written.push_str(&token.to_string());
        }
        let expected: String = source.chars().filter(|c| !c.is_whitespace()).collect();
        assert_eq!(written, expected);
    }
}

#[test]
fn each_token_is_one_of_four_kinds() {
    let tokens = tokenize("(f 1 -2 +3 x1 1x ( ) )");
    let kinds: Vec<u8> = tokens
        .iter()
        .map(|t| match t {
            Token::Integer(_) => 0,
            Token::Symbol(_) => 1,
            Token::LParen => 2,
            Token::RParen => 3,
        })
        .collect();
    assert_eq!(kinds, vec![2, 1, 0, 0, 0, 1, 1, 2, 3, 3]);
}

#[test]
fn tokens_outlive_the_source() {
    let tokens = {
        let source = String::from("(hello 42)");
        tokenize(&source)
    };
    assert_eq!(
        tokens,
        vec![Token::LParen, sym("hello"), Token::Integer(42), Token::RParen]
    );
}
