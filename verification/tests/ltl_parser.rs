use checkr_core::ltl::expression::LTLExpression;
use checkr_core::ltl::lexer::{Lexer, Span, Token};
use checkr_core::ltl::parser::parse;

fn lex(s: &str) -> Vec<(Token, Span)> {
    let mut lexer = Lexer::new(s);
    let mut out = Vec::new();
    while let Some(t) = lexer.next() {
        out.push(t);
    }
    out
}

fn kinds(s: &str) -> Vec<Token> {
    lex(s).into_iter().map(|(t, _)| t).collect()
}

#[test]
fn lexer_splits_tokens_with_spans() {
    let toks = lex("a U b");
    assert_eq!(
        toks,
        vec![
            (Token::Ident("a".to_string()), Span { lo: 0, hi: 1 }),
            (Token::U, Span { lo: 2, hi: 3 }),
            (Token::Ident("b".to_string()), Span { lo: 4, hi: 5 }),
        ]
    );
}

#[test]
fn lexer_takes_longest_match_first_rule_on_ties() {
    // `F` is matched by the rule of `False` before the rule of `F`
    assert_eq!(kinds("F"), vec![Token::False]);
    assert_eq!(kinds("T"), vec![Token::True]);
    assert_eq!(kinds("true"), vec![Token::True]);
    assert_eq!(kinds("TRUE"), vec![Token::True]);
    assert_eq!(kinds("trueish"), vec![Token::Ident("trueish".to_string())]);
    assert_eq!(kinds("not"), vec![Token::Not]);
    assert_eq!(kinds("nota"), vec![Token::Ident("nota".to_string())]);
    assert_eq!(kinds("~p"), vec![Token::Not, Token::Ident("p".to_string())]);
    assert_eq!(
        kinds("p /\\ q \\/ r"),
        vec![
            Token::Ident("p".to_string()),
            Token::And,
            Token::Ident("q".to_string()),
            Token::Or,
            Token::Ident("r".to_string()),
        ]
    );
    assert_eq!(kinds(" \t\n "), vec![]);
    assert_eq!(kinds("G(x_1)"), vec![Token::G, Token::LParen, Token::Ident("x_1".to_string()), Token::RParen]);
}

#[test]
fn parser_builds_formulas() {
    assert_eq!(LTLExpression::parse("a U b").unwrap().to_text(), "(a U b)");
    assert_eq!(LTLExpression::parse("a U (b or c)").unwrap().to_text(), "(a U b ∨ c)");
    assert_eq!(LTLExpression::parse("(a U (b U c))").unwrap().to_text(), "(a U (b U c))");
    assert_eq!(LTLExpression::parse("G not p").unwrap().to_text(), "G (¬p)");
    assert_eq!(LTLExpression::parse("p and q").unwrap().to_text(), "p ∧ q");
    assert_eq!(LTLExpression::parse("true").unwrap().to_text(), "T");
}

#[test]
fn parser_reports_where_it_stopped() {
    assert_eq!(
        LTLExpression::parse("a b").err(),
        Some("expected `And`, `Or`, `R`, `RParen`, `U`, `V`, or end of file")
    );
    assert_eq!(
        LTLExpression::parse("G").err(),
        Some("expected `F`, `False`, `G`, `Ident`, `LParen`, `Not`, or `True`")
    );
    assert_eq!(LTLExpression::parse("(a").err(), Some("expected `RParen`"));
    assert_eq!(LTLExpression::parse("(a) b").err(), Some("expected `RParen` or end of file"));
    assert_eq!(LTLExpression::parse("a)").err(), Some("expected end of file"));
    assert_eq!(
        LTLExpression::parse("").err(),
        Some("expected `F`, `False`, `G`, `Ident`, `LParen`, `Not`, or `True`")
    );
    // the parser stops at `b` before the lexer reaches `$`
    assert!(LTLExpression::parse("a b $").is_err());
}

#[test]
fn parse_gives_span_and_error_token() {
    let r = parse(Lexer::new(" (p U q) "));
    let es = r.ok().unwrap();
    assert_eq!(es.span, Span { lo: 1, hi: 8 });
    assert_eq!(es.expr.to_text(), "(p U q)");

    let e = parse(Lexer::new("p q")).err().unwrap();
    assert_eq!(e.0, Some((Token::Ident("q".to_string()), Span { lo: 2, hi: 3 })));
    let e = parse(Lexer::new("p U")).err().unwrap();
    assert_eq!(e.0, None);
}
