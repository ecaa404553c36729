//! The grammar of LTL formulas:
//!
//! ```text
//! expr    := G expr | F expr | Not expr | ( expr ) | binexpr | atom
//! binexpr := atom U expr | atom R expr | atom V expr | atom Or expr | atom And expr
//! atom    := Ident | True | False
//! ```
//!
//! A formula is an `expr` followed by the end of the text. On an error the
//! parser reports the token where it stopped (none at the end of the text)
//! and the tokens it expected there, as an LALR(1) parser of this grammar
//! does.
use vstd::prelude::*;

use super::expression::{LTLExpression, Literal, LtlV};
use super::lexer::{lex_result, token_views, Lexer, Span, Token, TokenV};

verus! {

/// The outcome of parsing from a position: a formula and the position
/// after it, or the position of the error and its message.
pub enum ParsedV {
    Done(LtlV, nat),
    Failed(nat, Seq<char>),
}

pub open spec fn msg_expr() -> Seq<char> {
    "expected `F`, `False`, `G`, `Ident`, `LParen`, `Not`, or `True`"@
}

pub open spec fn msg_atom() -> Seq<char> {
    "expected `And`, `Or`, `R`, `RParen`, `U`, `V`, or end of file"@
}

pub open spec fn msg_rparen() -> Seq<char> {
    "expected `RParen`"@
}

pub open spec fn msg_close() -> Seq<char> {
    "expected `RParen` or end of file"@
}

pub open spec fn msg_eof() -> Seq<char> {
    "expected end of file"@
}

pub open spec fn is_atom(t: TokenV) -> bool {
    t is Ident || t is True || t is False
}

pub open spec fn atom_of(t: TokenV) -> LtlV {
    match t {
        TokenV::Ident(n) => LtlV::Lit(n),
        TokenV::False => LtlV::False,
        _ => LtlV::True,
    }
}

pub open spec fn is_binop(t: TokenV) -> bool {
    t is U || t is R || t is V || t is Or || t is And
}

pub open spec fn binop_of(t: TokenV, a: LtlV, b: LtlV) -> LtlV {
    match t {
        TokenV::U => LtlV::U(Box::new(a), Box::new(b)),
        TokenV::R => LtlV::R(Box::new(a), Box::new(b)),
        TokenV::V => LtlV::V(Box::new(a), Box::new(b)),
        TokenV::Or => LtlV::Or(Box::new(a), Box::new(b)),
        _ => LtlV::And(Box::new(a), Box::new(b)),
    }
}

pub open spec fn prefix_of(t: TokenV, e: LtlV) -> LtlV {
    match t {
        TokenV::G => LtlV::G(Box::new(e)),
        TokenV::F => LtlV::F(Box::new(e)),
        _ => LtlV::Not(Box::new(e)),
    }
}

/// Parses an `expr` from token `i`.
pub open spec fn parse_expr_spec(ts: Seq<TokenV>, i: nat) -> ParsedV
    decreases ts.len() - i,
{
    if i >= ts.len() {
        ParsedV::Failed(i, msg_expr())
    } else {
        let t = ts[i as int];
        if t is G || t is F || t is Not {
            match parse_expr_spec(ts, i + 1) {
                ParsedV::Done(e, j) => ParsedV::Done(prefix_of(t, e), j),
                f => f,
            }
        } else if t is LParen {
            match parse_expr_spec(ts, i + 1) {
                ParsedV::Done(e, j) => if j < ts.len() && ts[j as int] is RParen {
                    if j + 1 >= ts.len() || ts[j + 1 as int] is RParen {
                        ParsedV::Done(e, j + 1)
                    } else {
                        ParsedV::Failed(j + 1, msg_close())
                    }
                } else {
                    ParsedV::Failed(j, msg_rparen())
                },
                f => f,
            }
        } else if is_atom(t) {
            let a = atom_of(t);
            if i + 1 >= ts.len() || ts[i + 1 as int] is RParen {
                ParsedV::Done(a, i + 1)
            } else if is_binop(ts[i + 1 as int]) {
                match parse_expr_spec(ts, i + 2) {
                    ParsedV::Done(e, j) => ParsedV::Done(binop_of(ts[i + 1 as int], a, e), j),
                    f => f,
                }
            } else {
                ParsedV::Failed(i + 1, msg_atom())
            }
        } else {
            ParsedV::Failed(i, msg_expr())
        }
    }
}

/// An identifier followed by a binary operator and an `expr` parses to the
/// node of that operator over the literal and the `expr`: `U` to until, `R`
/// to release, `V` to the other release, `Or` to disjunction, `And` to
/// conjunction; `G`, `F` and `Not` in front of an `expr` give always,
/// eventually and negation.
pub proof fn lemma_parse_operators(ts: Seq<TokenV>, i: nat, name: Seq<char>, e: LtlV, j: nat)
    requires
        i + 1 < ts.len(),
        parse_expr_spec(ts, i + 2) == ParsedV::Done(e, j),
        ts[i as int] == TokenV::Ident(name),
    ensures
        ts[i + 1 as int] == TokenV::U ==> parse_expr_spec(ts, i) == ParsedV::Done(
            LtlV::U(Box::new(LtlV::Lit(name)), Box::new(e)),
            j,
        ),
        ts[i + 1 as int] == TokenV::R ==> parse_expr_spec(ts, i) == ParsedV::Done(
            LtlV::R(Box::new(LtlV::Lit(name)), Box::new(e)),
            j,
        ),
        ts[i + 1 as int] == TokenV::V ==> parse_expr_spec(ts, i) == ParsedV::Done(
            LtlV::V(Box::new(LtlV::Lit(name)), Box::new(e)),
            j,
        ),
        ts[i + 1 as int] == TokenV::Or ==> parse_expr_spec(ts, i) == ParsedV::Done(
            LtlV::Or(Box::new(LtlV::Lit(name)), Box::new(e)),
            j,
        ),
        ts[i + 1 as int] == TokenV::And ==> parse_expr_spec(ts, i) == ParsedV::Done(
            LtlV::And(Box::new(LtlV::Lit(name)), Box::new(e)),
            j,
        ),
{
}

/// An identifier, `True` or `False` alone (at the end or before a closing
/// parenthesis) parses to the literal of that name, true or false.
pub proof fn lemma_parse_atoms(ts: Seq<TokenV>, i: nat)
    requires
        i < ts.len(),
        i + 1 >= ts.len() || ts[i + 1 as int] == TokenV::RParen,
    ensures
        ts[i as int] == TokenV::True ==> parse_expr_spec(ts, i) == ParsedV::Done(LtlV::True, i + 1),
        ts[i as int] == TokenV::False ==> parse_expr_spec(ts, i) == ParsedV::Done(LtlV::False, i + 1),
        forall|n: Seq<char>|
            ts[i as int] == TokenV::Ident(n) ==> parse_expr_spec(ts, i) == ParsedV::Done(LtlV::Lit(n), i + 1),
{
}

/// `G`, `F` and `Not` in front of an `expr` parse to always, eventually and
/// negation of it.
pub proof fn lemma_parse_prefixes(ts: Seq<TokenV>, i: nat, e: LtlV, j: nat)
    requires
        i < ts.len(),
        parse_expr_spec(ts, i + 1) == ParsedV::Done(e, j),
    ensures
        ts[i as int] == TokenV::G ==> parse_expr_spec(ts, i) == ParsedV::Done(LtlV::G(Box::new(e)), j),
        ts[i as int] == TokenV::F ==> parse_expr_spec(ts, i) == ParsedV::Done(LtlV::F(Box::new(e)), j),
        ts[i as int] == TokenV::Not ==> parse_expr_spec(ts, i) == ParsedV::Done(LtlV::Not(Box::new(e)), j),
{
}

/// Parses a formula: an `expr` followed by the end of the tokens.
pub open spec fn parse_spec(ts: Seq<TokenV>) -> ParsedV {
    match parse_expr_spec(ts, 0) {
        ParsedV::Done(e, j) => if j >= ts.len() {
            ParsedV::Done(e, j)
        } else {
            ParsedV::Failed(j, msg_eof())
        },
        f => f,
    }
}

/// The last token position the parser reads: the end of the tokens, or
/// the position of the error.
pub open spec fn last_read(r: ParsedV) -> nat {
    match r {
        ParsedV::Done(_, j) => j,
        ParsedV::Failed(k, _) => k,
    }
}

/// The kinds of a list of tokens with spans.
pub open spec fn kind_views(ts: Seq<(TokenV, nat, nat)>) -> Seq<TokenV> {
    ts.map_values(|t: (TokenV, nat, nat)| t.0)
}

/// A formula and its span.
pub struct LTLExpressionSpan {
    pub span: Span,
    pub expr: LTLExpression,
}

/// Parses an `expr` from token `i`.
fn parse_expr(ts: &Vec<(Token, Span)>, i: usize) -> (r: Result<(LTLExpression, usize), (usize, &'static str)>)
    requires
        i <= ts@.len(),
    ensures
        match r {
            Ok((e, j)) => parse_expr_spec(kind_views(token_views(ts@)), i as nat) == ParsedV::Done(e@, j as nat),
            Err((k, m)) => parse_expr_spec(kind_views(token_views(ts@)), i as nat) == ParsedV::Failed(
                k as nat,
                m@,
            ),
        },
    decreases ts@.len() - i,
{
    let ghost kv = kind_views(token_views(ts@));
    proof {
        assert(kv.len() == ts@.len());
        assert(forall|t: int| 0 <= t < ts@.len() ==> kv[t] == (#[trigger] ts@[t]).0@);
    }
    if i >= ts.len() {
        return Err((i, "expected `F`, `False`, `G`, `Ident`, `LParen`, `Not`, or `True`"));
    }
    match &ts[i].0 {
        Token::G | Token::F | Token::Not => {
            match parse_expr(ts, i + 1) {
                Ok((e, j)) => {
                    let r = match &ts[i].0 {
                        Token::G => LTLExpression::G(Box::new(e)),
                        Token::F => LTLExpression::F(Box::new(e)),
                        _ => LTLExpression::Not(Box::new(e)),
                    };
                    assert(r@ == prefix_of(kv[i as int], e@));
                    Ok((r, j))
                },
                Err(x) => Err(x),
            }
        },
        Token::LParen => {
            match parse_expr(ts, i + 1) {
                Ok((e, j)) => {
                    if j < ts.len() && matches!(ts[j].0, Token::RParen) {
                        if j + 1 >= ts.len() || matches!(ts[j + 1].0, Token::RParen) {
                            Ok((e, j + 1))
                        } else {
                            Err((j + 1, "expected `RParen` or end of file"))
                        }
                    } else {
                        Err((j, "expected `RParen`"))
                    }
                },
                Err(x) => Err(x),
            }
        },
        Token::Ident(_) | Token::True | Token::False => {
            let a = match &ts[i].0 {
                Token::Ident(n) => LTLExpression::Literal(Literal(n.clone())),
                Token::False => LTLExpression::False,
                _ => LTLExpression::True,
            };
            assert(a@ == atom_of(kv[i as int]));
            if i + 1 >= ts.len() || matches!(ts[i + 1].0, Token::RParen) {
                Ok((a, i + 1))
            } else if matches!(ts[i + 1].0, Token::U) || matches!(ts[i + 1].0, Token::R) || matches!(
                ts[i + 1].0,
                Token::V,
            ) || matches!(ts[i + 1].0, Token::Or) || matches!(ts[i + 1].0, Token::And) {
                match parse_expr(ts, i + 2) {
                    Ok((e, j)) => {
                        let r = match &ts[i + 1].0 {
                            Token::U => LTLExpression::U(Box::new(a), Box::new(e)),
                            Token::R => LTLExpression::R(Box::new(a), Box::new(e)),
                            Token::V => LTLExpression::V(Box::new(a), Box::new(e)),
                            Token::Or => LTLExpression::Or(Box::new(a), Box::new(e)),
                            _ => LTLExpression::And(Box::new(a), Box::new(e)),
                        };
                        assert(r@ == binop_of(kv[i + 1], a@, e@));
                        Ok((r, j))
                    },
                    Err(x) => Err(x),
                }
            } else {
                Err((i + 1, "expected `And`, `Or`, `R`, `RParen`, `U`, `V`, or end of file"))
            }
        },
        _ => Err((i, "expected `F`, `False`, `G`, `Ident`, `LParen`, `Not`, or `True`")),
    }
}

/// A parsed `expr` spans at least one token, and ends within the tokens.
pub proof fn lemma_parse_bound(ts: Seq<TokenV>, i: nat)
    ensures
        parse_expr_spec(ts, i) matches ParsedV::Done(_, j) ==> i < j <= ts.len(),
    decreases ts.len() - i,
{
    if i < ts.len() {
        lemma_parse_bound(ts, i + 1);
        if i + 1 < ts.len() {
            lemma_parse_bound(ts, i + 2);
        }
    }
}

/// The parser reads only tokens that the lexer can produce: it stops
/// before the first character that no rule matches, if there is one.
pub open spec fn parse_lexable(text: Seq<char>, pos: nat) -> bool {
    let toks = lex_result(text, pos);
    toks.1 || last_read(parse_spec(kind_views(toks.0))) < toks.0.len()
}

/// Parses the formula of the lexer's tokens: the formula and its span, or
/// the token where the parser stopped (none at the end of the text) and
/// the tokens it expected there.
pub fn parse(lexer: Lexer) -> (r: Result<LTLExpressionSpan, (Option<(Token, Span)>, &'static str)>)
    requires
        lexer.wf(),
        parse_lexable(lexer.text(), lexer.pos()),
    ensures
        ({
            let toks = lex_result(lexer.text(), lexer.pos()).0;
            match r {
                Ok(es) => {
                    &&& parse_spec(kind_views(toks)) == ParsedV::Done(es.expr@, toks.len())
                    &&& es.span.lo == toks[0].1
                    &&& es.span.hi == toks.last().2
                },
                Err((t, m)) => match parse_spec(kind_views(toks)) {
                    ParsedV::Failed(k, msg) => {
                        &&& m@ == msg
                        &&& k < toks.len() ==> (t matches Some(ts) && (ts.0@, ts.1.lo as nat, ts.1.hi as nat)
                            == toks[k as int])
                        &&& k >= toks.len() ==> t is None
                    },
                    _ => false,
                },
            }
        }),
{
    let ghost text = lexer.text();
    let ghost p0 = lexer.pos();
    let (mut ts, _clean) = lexer.tokenize();
    let ghost tv = token_views(ts@);
    let ghost kv = kind_views(tv);
    proof {
        assert(kind_views(token_views(ts@)) == kv);
        lemma_parse_bound(kv, 0);
    }
    match parse_expr(&ts, 0) {
        Ok((e, j)) => {
            if j >= ts.len() {
                proof {
                    assert(j > 0);
                }
                let lo = ts[0].1.lo;
                let hi = ts[ts.len() - 1].1.hi;
                Ok(LTLExpressionSpan { span: Span { lo, hi }, expr: e })
            } else {
                let t = ts.remove(j);
                proof {
                    assert(tv[j as int] == (t.0@, t.1.lo as nat, t.1.hi as nat));
                }
                Err((Some(t), "expected end of file"))
            }
        },
        Err((k, m)) => {
            if k < ts.len() {
                let t = ts.remove(k);
                proof {
                    assert(tv[k as int] == (t.0@, t.1.lo as nat, t.1.hi as nat));
                }
                Err((Some(t), m))
            } else {
                Err((None, m))
            }
        },
    }
}

impl LTLExpression {
    /// Parses a formula, or gives the message of the parse error.
    pub fn parse(formula: &str) -> (r: Result<LTLExpression, &'static str>)
        requires
            parse_lexable(formula@, 0),
        ensures
            match r {
                Ok(e) => parse_spec(kind_views(lex_result(formula@, 0).0)) is Done && parse_spec(
                    kind_views(lex_result(formula@, 0).0),
                )->Done_0 == e@,
                Err(m) => parse_spec(kind_views(lex_result(formula@, 0).0)) is Failed && parse_spec(
                    kind_views(lex_result(formula@, 0).0),
                )->Failed_1 == m@,
            },
    {
        let lexer = Lexer::new(formula);
        match parse(lexer) {
            Ok(span) => Ok(span.expr),
            Err(e) => Err(e.1),
        }
    }
}

} // verus!
