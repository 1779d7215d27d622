use formula_one::ast::{Expr, Span, Token, TokenKind};
use formula_one::lex::tokenise;
use formula_one::parse::{parse, ParseError};

fn tokens(source: &str) -> Vec<Token> {
    tokenise(source).unwrap()
}

#[test]
fn tokenise_number_literals() {
    assert_eq!(
        vec![Token::with_span(TokenKind::Number(0), Span::new(1, 2))],
        tokens("0")
    );
    assert_eq!(
        vec![Token::with_span(TokenKind::Number(1234), Span::new(1, 5))],
        tokens("1234")
    );
}

#[test]
fn tokenise_symbols() {
    assert_eq!(
        vec![Token::with_span(
            TokenKind::Symbol("hello/world".into()),
            Span::new(1, 12)
        )],
        tokens("hello/world")
    );
    assert_eq!(
        vec![
            Token::with_span(TokenKind::Symbol("hello".into()), Span::new(1, 6)),
            Token::with_span(TokenKind::Symbol("world".into()), Span::new(7, 12))
        ],
        tokens("hello world")
    );
    assert_eq!(
        vec![Token::with_span(
            TokenKind::Symbol("hello.world".into()),
            Span::new(1, 12)
        )],
        tokens("hello.world")
    );
    assert_eq!(
        vec![Token::with_span(TokenKind::Symbol("+".into()), Span::new(1, 2))],
        tokens("+")
    )
}

#[test]
fn tokenise_brackets() {
    assert_eq!(
        vec![Token::with_span(TokenKind::LeftBracket, Span::new(1, 2))],
        tokens("(")
    );
    assert_eq!(
        vec![Token::with_span(TokenKind::RightBracket, Span::new(1, 2))],
        tokens(")")
    );
    assert_eq!(
        vec![
            Token::with_span(TokenKind::LeftBracket, Span::new(1, 2)),
            Token::with_span(TokenKind::RightBracket, Span::new(2, 3))
        ],
        tokens("()")
    );
    assert_eq!(
        vec![
            Token::with_span(TokenKind::LeftBracket, Span::new(1, 2)),
            Token::with_span(TokenKind::LeftBracket, Span::new(2, 3)),
            Token::with_span(TokenKind::LeftBracket, Span::new(3, 4)),
            Token::with_span(TokenKind::RightBracket, Span::new(4, 5)),
            Token::with_span(TokenKind::RightBracket, Span::new(5, 6)),
            Token::with_span(TokenKind::RightBracket, Span::new(6, 7))
        ],
        tokens("((()))")
    );
}

#[test]
fn tokenise_comments() {
    assert_eq!(Vec::<Token>::new(), tokens("; hello world"));
    assert_eq!(
        Vec::<Token>::new(),
        tokens("; hello world\n; another comment\r\n; windows eol")
    );
}

#[test]
fn parse_atoms() {
    assert_eq!(
        Expr::Number(
            Token::with_span(TokenKind::Number(64), Span::new(1, 3)),
            64
        ),
        parse("64").unwrap()
    );
    assert_eq!(
        Expr::Number(
            Token::with_span(TokenKind::Number(12364), Span::new(1, 6)),
            12364
        ),
        parse("12364").unwrap()
    );
    assert_eq!(
        Expr::Number(
            Token::with_span(TokenKind::Number(9223372036854775807), Span::new(1, 20)),
            9223372036854775807
        ),
        parse("9223372036854775807").unwrap()
    );
}

#[test]
fn largest_literal_is_one_token() {
    assert_eq!(
        vec![Token::with_span(
            TokenKind::Number(i64::MAX),
            Span::new(1, 20)
        )],
        tokens("9223372036854775807")
    );
}

#[test]
fn literal_past_i64_is_refused() {
    assert_eq!(None, tokenise("9223372036854775808"));
    assert_eq!(Err(ParseError::NumberTooLarge), parse("(+ 1 99999999999999999999)"));
}

#[test]
fn words_have_a_gap_between_them() {
    let ts = tokens("hello world");
    assert_eq!(2, ts.len());
    assert!(ts[0].span.end < ts[1].span.start);
}

#[test]
fn comment_then_code_on_next_line() {
    assert_eq!(
        vec![Token::with_span(TokenKind::Number(7), Span::new(9, 10))],
        tokens("; note\r\n7")
    );
}

#[test]
fn unicode_whitespace_separates_tokens() {
    // U+2003 EM SPACE takes three bytes.
    assert_eq!(
        vec![
            Token::with_span(TokenKind::Symbol("a".into()), Span::new(1, 2)),
            Token::with_span(TokenKind::Symbol("b".into()), Span::new(5, 6))
        ],
        tokens("a\u{2003}b")
    );
}

#[test]
fn unknown_character_ends_tokenising() {
    assert_eq!(
        vec![Token::with_span(TokenKind::Symbol("a".into()), Span::new(1, 2))],
        tokens("a # b")
    );
}

#[test]
fn symbol_may_hold_digits_after_first_char() {
    assert_eq!(
        vec![
            Token::with_span(TokenKind::Number(12), Span::new(1, 3)),
            Token::with_span(TokenKind::Symbol("a12".into()), Span::new(4, 7))
        ],
        tokens("12 a12")
    );
}

#[test]
fn spans_give_back_the_token_text() {
    let source = "(print\u{2003}hello\t(+ 12 3))";
    let e = parse(source).unwrap();
    let mut texts = Vec::new();
    collect(&e, &mut texts, source);
    assert_eq!(
        vec!["(", "print", "hello", "(", "+", "12", "3", ")", ")"],
        texts
    );
}

fn collect(e: &Expr, out: &mut Vec<String>, source: &str) {
    let text = |t: &Token| source[(t.span.start - 1) as usize..(t.span.end - 1) as usize].to_string();
    match e {
        Expr::Symbol(t, _) | Expr::Number(t, _) => out.push(text(t)),
        Expr::If(o, k, c, t, f, cl) => {
            out.push(text(o));
            out.push(text(k));
            collect(c, out, source);
            collect(t, out, source);
            collect(f, out, source);
            out.push(text(cl));
        }
        Expr::Define(o, k, s, v, cl) => {
            out.push(text(o));
            out.push(text(k));
            out.push(text(s));
            collect(v, out, source);
            out.push(text(cl));
        }
        Expr::Call(o, h, args, cl) => {
            out.push(text(o));
            out.push(text(h));
            for a in args {
                collect(a, out, source);
            }
            out.push(text(cl));
        }
    }
}

#[test]
fn parse_forms() {
    match parse("(if 0 1 2)").unwrap() {
        Expr::If(_, k, _, _, _, _) => assert_eq!(TokenKind::Symbol("if".into()), k.kind),
        other => panic!("not an if: {:?}", other),
    }
    match parse("(define x 10)").unwrap() {
        Expr::Define(_, _, t, _, _) => assert_eq!(TokenKind::Symbol("x".into()), t.kind),
        other => panic!("not a define: {:?}", other),
    }
    match parse("(+ 1 2 3)").unwrap() {
        Expr::Call(_, h, args, _) => {
            assert_eq!(TokenKind::Symbol("+".into()), h.kind);
            assert_eq!(3, args.len());
        }
        other => panic!("not a call: {:?}", other),
    }
    match parse("if").unwrap() {
        Expr::Symbol(_, s) => assert_eq!("if", s),
        other => panic!("not a symbol: {:?}", other),
    }
}

#[test]
fn parse_rejects_malformed_input() {
    assert_eq!(Err(ParseError::Malformed), parse(""));
    assert_eq!(Err(ParseError::Malformed), parse(")"));
    assert_eq!(Err(ParseError::Malformed), parse("(+ 1 2"));
    assert_eq!(Err(ParseError::Malformed), parse("(1 2)"));
    assert_eq!(Err(ParseError::Malformed), parse("(if 1 2 3 4)"));
    assert_eq!(Err(ParseError::Malformed), parse("(define 1 2)"));
    assert_eq!(Err(ParseError::Malformed), parse("()"));
}

#[test]
fn next_line_character_is_whitespace() {
    assert_eq!(
        vec![
            Token::with_span(TokenKind::Symbol("a".into()), Span::new(1, 2)),
            Token::with_span(TokenKind::Symbol("b".into()), Span::new(4, 5))
        ],
        tokens("a\u{85}b")
    );
}
