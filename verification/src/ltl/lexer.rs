//! The tokens of LTL formulas. At each position the longest token that
//! matches is taken, the first rule winning among tokens of equal length;
//! whitespace is skipped.
use vstd::prelude::*;
use vstd::string::*;

use crate::text::chars_of;

verus! {

/// A token of an LTL formula.
#[derive(Debug, PartialEq, Eq)]
pub enum Token {
    Ident(String),
    Whitespace,
    LParen,
    RParen,
    True,
    False,
    Not,
    And,
    Or,
    G,
    F,
    U,
    V,
    R,
}

/// The abstract value of a token.
pub enum TokenV {
    Ident(Seq<char>),
    Whitespace,
    LParen,
    RParen,
    True,
    False,
    Not,
    And,
    Or,
    G,
    F,
    U,
    V,
    R,
}

impl View for Token {
    type V = TokenV;

    open spec fn view(&self) -> TokenV {
        match self {
            Token::Ident(s) => TokenV::Ident(s@),
            Token::Whitespace => TokenV::Whitespace,
            Token::LParen => TokenV::LParen,
            Token::RParen => TokenV::RParen,
            Token::True => TokenV::True,
            Token::False => TokenV::False,
            Token::Not => TokenV::Not,
            Token::And => TokenV::And,
            Token::Or => TokenV::Or,
            Token::G => TokenV::G,
            Token::F => TokenV::F,
            Token::U => TokenV::U,
            Token::V => TokenV::V,
            Token::R => TokenV::R,
        }
    }
}

/// The positions of a token in the text: from `lo` up to `hi`.
#[derive(Clone, Copy, Debug, PartialEq, Eq)]
pub struct Span {
    pub lo: usize,
    pub hi: usize,
}

pub open spec fn is_ws(c: char) -> bool {
    c == ' ' || c == '\t' || c == '\r' || c == '\n'
}

pub open spec fn ident_start(c: char) -> bool {
    ('a' <= c && c <= 'z') || c == '_'
}

pub open spec fn ident_char(c: char) -> bool {
    ident_start(c) || ('0' <= c && c <= '9')
}

/// The length of the run of whitespace that starts the text.
pub open spec fn ws_len(s: Seq<char>) -> nat
    decreases s.len(),
{
    if s.len() > 0 && is_ws(s[0]) {
        1 + ws_len(s.drop_first())
    } else {
        0
    }
}

/// The length of the run of identifier characters that starts the text.
pub open spec fn ident_tail(s: Seq<char>) -> nat
    decreases s.len(),
{
    if s.len() > 0 && ident_char(s[0]) {
        1 + ident_tail(s.drop_first())
    } else {
        0
    }
}

/// The length of the identifier that starts the text, or 0.
pub open spec fn ident_len(s: Seq<char>) -> nat {
    if s.len() > 0 && ident_start(s[0]) {
        1 + ident_tail(s.drop_first())
    } else {
        0
    }
}

/// The length of `w` where the text starts with it, or 0.
pub open spec fn word_len(s: Seq<char>, w: Seq<char>) -> nat {
    if w.len() <= s.len() && s.subrange(0, w.len() as int) == w {
        w.len()
    } else {
        0
    }
}

pub open spec fn max_nat(a: nat, b: nat) -> nat {
    if a >= b {
        a
    } else {
        b
    }
}

/// The length of the longest match of rule `k` at the start of the text:
/// whitespace, `(`, `)`, `true|True|T|TRUE`, `false|False|F|FALSE`,
/// `~|not`, `/\|and`, `\/|or`, `G`, `F`, `U`, `V`, `R`, identifier.
pub open spec fn rule_len(s: Seq<char>, k: int) -> nat {
    if k == 0 {
        ws_len(s)
    } else if k == 1 {
        word_len(s, "("@)
    } else if k == 2 {
        word_len(s, ")"@)
    } else if k == 3 {
        max_nat(
            max_nat(word_len(s, "true"@), word_len(s, "True"@)),
            max_nat(word_len(s, "T"@), word_len(s, "TRUE"@)),
        )
    } else if k == 4 {
        max_nat(
            max_nat(word_len(s, "false"@), word_len(s, "False"@)),
            max_nat(word_len(s, "F"@), word_len(s, "FALSE"@)),
        )
    } else if k == 5 {
        max_nat(word_len(s, "~"@), word_len(s, "not"@))
    } else if k == 6 {
        max_nat(word_len(s, "/\\"@), word_len(s, "and"@))
    } else if k == 7 {
        max_nat(word_len(s, "\\/"@), word_len(s, "or"@))
    } else if k == 8 {
        word_len(s, "G"@)
    } else if k == 9 {
        word_len(s, "F"@)
    } else if k == 10 {
        word_len(s, "U"@)
    } else if k == 11 {
        word_len(s, "V"@)
    } else if k == 12 {
        word_len(s, "R"@)
    } else {
        ident_len(s)
    }
}

/// The rule of the longest match among rules `0..=k`, the first on ties.
pub open spec fn best_rule_upto(s: Seq<char>, k: nat) -> nat
    decreases k,
{
    if k == 0 {
        0
    } else {
        let b = best_rule_upto(s, (k - 1) as nat);
        if rule_len(s, k as int) > rule_len(s, b as int) {
            k
        } else {
            b
        }
    }
}

/// The rule of the token that starts the text.
pub open spec fn best_rule(s: Seq<char>) -> nat {
    best_rule_upto(s, 13)
}

/// The length of the token that starts the text; 0 where no rule matches.
pub open spec fn best_len(s: Seq<char>) -> nat {
    rule_len(s, best_rule(s) as int)
}

/// The token of rule `k` with text `lexeme`.
pub open spec fn token_of(k: nat, lexeme: Seq<char>) -> TokenV {
    if k == 0 {
        TokenV::Whitespace
    } else if k == 1 {
        TokenV::LParen
    } else if k == 2 {
        TokenV::RParen
    } else if k == 3 {
        TokenV::True
    } else if k == 4 {
        TokenV::False
    } else if k == 5 {
        TokenV::Not
    } else if k == 6 {
        TokenV::And
    } else if k == 7 {
        TokenV::Or
    } else if k == 8 {
        TokenV::G
    } else if k == 9 {
        TokenV::F
    } else if k == 10 {
        TokenV::U
    } else if k == 11 {
        TokenV::V
    } else if k == 12 {
        TokenV::R
    } else {
        TokenV::Ident(lexeme)
    }
}

proof fn lemma_ws_len(s: Seq<char>)
    ensures
        ws_len(s) <= s.len(),
    decreases s.len(),
{
    if s.len() > 0 && is_ws(s[0]) {
        lemma_ws_len(s.drop_first());
    }
}

proof fn lemma_ident_tail(s: Seq<char>)
    ensures
        ident_tail(s) <= s.len(),
    decreases s.len(),
{
    if s.len() > 0 && ident_char(s[0]) {
        lemma_ident_tail(s.drop_first());
    }
}

/// No token is longer than the text.
pub proof fn lemma_best_len(s: Seq<char>)
    ensures
        best_len(s) <= s.len(),
{
    lemma_ws_len(s);
    if s.len() > 0 {
        lemma_ident_tail(s.drop_first());
    }
}

/// The next token from position `pos`, with its span, skipping
/// whitespace, and the position after it; none at the end of the text.
pub open spec fn next_spec(text: Seq<char>, pos: nat) -> (Option<(TokenV, nat, nat)>, nat)
    decreases text.len() - pos,
{
    if pos >= text.len() {
        (None, pos)
    } else {
        let s = text.skip(pos as int);
        let l = best_len(s);
        let k = best_rule(s);
        proof {
            lemma_best_len(s);
        }
        if l == 0 {
            (None, pos)
        } else if k == 0 {
            next_spec(text, pos + l)
        } else {
            (Some((token_of(k, s.take(l as int)), pos, pos + l)), pos + l)
        }
    }
}

/// From `pos`, the text has a token or ends, after whitespace: no
/// character that no rule matches comes first.
pub open spec fn lexable_from(text: Seq<char>, pos: nat) -> bool
    decreases text.len() - pos,
{
    if pos >= text.len() {
        true
    } else {
        let s = text.skip(pos as int);
        let l = best_len(s);
        proof {
            lemma_best_len(s);
        }
        l > 0 && (best_rule(s) == 0 ==> lexable_from(text, pos + l))
    }
}

/// The tokens of the text.
pub struct Lexer<'a> {
    source: &'a str,
    chars: Vec<char>,
    pos: usize,
}

impl<'a> Lexer<'a> {
    /// The text the lexer reads.
    pub closed spec fn text(&self) -> Seq<char> {
        self.chars@
    }

    /// The position the lexer has reached.
    pub closed spec fn pos(&self) -> nat {
        self.pos as nat
    }

    /// The lexer is consistent.
    pub closed spec fn wf(&self) -> bool {
        &&& self.chars@ == self.source@
        &&& self.pos <= self.chars@.len()
    }

    /// The lexer at the start of `s`.
    pub fn new(s: &'a str) -> (r: Lexer<'a>)
        ensures
            r.wf(),
            r.text() == s@,
            r.pos() == 0,
    {
        Lexer { source: s, chars: chars_of(s), pos: 0 }
    }

    /// The next token and its span, skipping whitespace; none at the end
    /// of the text, or where a character that no rule matches comes first.
    fn step(&mut self) -> (r: Option<(Token, Span)>)
        requires
            old(self).wf(),
        ensures
            final(self).wf(),
            final(self).text() == old(self).text(),
            (
                match r {
                    Some((t, sp)) => Some((t@, sp.lo as nat, sp.hi as nat)),
                    None => None,
                },
                final(self).pos(),
            ) == next_spec(old(self).text(), old(self).pos()),
    {
        let ghost text = self.chars@;
        let ghost goal = next_spec(text, self.pos as nat);
        loop
            invariant
                self.wf(),
                self.chars@ == text,
                text == old(self).text(),
                goal == next_spec(old(self).text(), old(self).pos()),
                next_spec(text, self.pos as nat) == goal,
            decreases text.len() - self.pos,
        {
            if self.pos >= self.chars.len() {
                return None;
            }
            let (k, l) = best_at(&self.chars, self.pos);
            proof {
                lemma_best_len(text.skip(self.pos as int));
            }
            if l == 0 {
                return None;
            }
            if k == 0 {
                self.pos = self.pos + l;
                continue;
            }
            let lo = self.pos;
            let hi = self.pos + l;
            let tok = make_token(k, self.source, lo, hi);
            proof {
                assert(text.skip(lo as int).take(l as int) =~= text.subrange(lo as int, hi as int));
            }
            self.pos = hi;
            return Some((tok, Span { lo, hi }));
        }
    }

    /// The next token and its span, skipping whitespace; none at the end
    /// of the text. A character that no rule matches is an error, which the
    /// precondition rules out.
    pub fn next(&mut self) -> (r: Option<(Token, Span)>)
        requires
            old(self).wf(),
            lexable_from(old(self).text(), old(self).pos()),
        ensures
            final(self).wf(),
            final(self).text() == old(self).text(),
            (
                match r {
                    Some((t, sp)) => Some((t@, sp.lo as nat, sp.hi as nat)),
                    None => None,
                },
                final(self).pos(),
            ) == next_spec(old(self).text(), old(self).pos()),
    {
        self.step()
    }

    /// The tokens from the lexer's position, up to the end of the text or
    /// to a character that no rule matches, and whether the end was
    /// reached.
    pub fn tokenize(self) -> (r: (Vec<(Token, Span)>, bool))
        requires
            self.wf(),
        ensures
            token_views(r.0@) == lex_result(self.text(), self.pos()).0,
            r.1 == lex_result(self.text(), self.pos()).1,
    {
        let mut lexer = self;
        let ghost text = lexer.text();
        let ghost p0 = lexer.pos();
        let mut toks: Vec<(Token, Span)> = Vec::new();
        proof {
            assert(token_views(toks@) =~= Seq::<(TokenV, nat, nat)>::empty());
            assert(lex_result(text, p0).0 =~= Seq::<(TokenV, nat, nat)>::empty() + lex_result(text, p0).0);
        }
        loop
            invariant
                lexer.wf(),
                lexer.text() == text,
                text == self.text(),
                p0 == self.pos(),
                lex_result(text, p0).0 == token_views(toks@) + lex_result(text, lexer.pos()).0,
                lex_result(text, p0).1 == lex_result(text, lexer.pos()).1,
            decreases text.len() - lexer.pos(),
        {
            let ghost before = lexer.pos();
            proof {
                lemma_next_spec_advances(text, before);
            }
            match lexer.step() {
                Some(t) => {
                    let ghost tv = (t.0@, t.1.lo as nat, t.1.hi as nat);
                    let ghost old_toks = token_views(toks@);
                    toks.push(t);
                    proof {
                        assert(token_views(toks@) =~= old_toks.push(tv));
                        assert(lex_result(text, before).0 =~= seq![tv] + lex_result(text, lexer.pos()).0);
                        assert(old_toks + lex_result(text, before).0 =~= token_views(toks@) + lex_result(text, lexer.pos()).0);
                    }
                },
                None => {
                    proof {
                        assert(lex_result(text, before).0 =~= Seq::<(TokenV, nat, nat)>::empty());
                        assert(token_views(toks@) + Seq::<(TokenV, nat, nat)>::empty() =~= token_views(toks@));
                    }
                    return (toks, next_end(&lexer));
                },
            }
        }
    }
}

/// Whether the lexer stopped at the end of the text.
fn next_end(lexer: &Lexer) -> (r: bool)
    requires
        lexer.wf(),
    ensures
        r == (lexer.pos() >= lexer.text().len()),
{
    lexer.pos >= lexer.chars.len()
}

/// The abstract values of tokens with their spans.
pub open spec fn token_views(v: Seq<(Token, Span)>) -> Seq<(TokenV, nat, nat)> {
    v.map_values(|t: (Token, Span)| (t.0@, t.1.lo as nat, t.1.hi as nat))
}

/// The token that `next_spec` yields lies after `pos`, and so does the
/// position it moves to.
pub proof fn lemma_next_spec_advances(text: Seq<char>, pos: nat)
    ensures
        next_spec(text, pos).1 >= pos,
        pos <= text.len() ==> next_spec(text, pos).1 <= text.len(),
        next_spec(text, pos).0 is Some ==> next_spec(text, pos).1 > pos && pos < text.len(),
        next_spec(text, pos).0 is None ==> (next_spec(text, pos).1 >= text.len() || best_len(
            text.skip(next_spec(text, pos).1 as int),
        ) == 0),
    decreases text.len() - pos,
{
    if pos < text.len() {
        let s = text.skip(pos as int);
        lemma_best_len(s);
        if best_len(s) > 0 && best_rule(s) == 0 {
            lemma_next_spec_advances(text, pos + best_len(s));
        }
    }
}

/// The tokens of the text from `pos`, up to its end or to a character that
/// no rule matches, and whether the end was reached.
pub open spec fn lex_result(text: Seq<char>, pos: nat) -> (Seq<(TokenV, nat, nat)>, bool)
    decreases text.len() - pos,
{
    let (t, p2) = next_spec(text, pos);
    proof {
        lemma_next_spec_advances(text, pos);
    }
    match t {
        None => (Seq::empty(), p2 >= text.len()),
        Some(x) => {
            let rest = lex_result(text, p2);
            (seq![x] + rest.0, rest.1)
        },
    }
}

pub fn is_ws_char(c: char) -> (r: bool)
    ensures
        r == is_ws(c),
{
    c == ' ' || c == '\t' || c == '\r' || c == '\n'
}

pub fn is_ident_start(c: char) -> (r: bool)
    ensures
        r == ident_start(c),
{
    ('a' <= c && c <= 'z') || c == '_'
}

pub fn is_ident_char(c: char) -> (r: bool)
    ensures
        r == ident_char(c),
{
    is_ident_start(c) || ('0' <= c && c <= '9')
}

/// The length of the run of whitespace at `pos`.
fn ws_at(t: &Vec<char>, pos: usize) -> (r: usize)
    requires
        pos <= t@.len(),
    ensures
        r == ws_len(t@.skip(pos as int)),
{
    let mut k: usize = 0;
    while k < t.len() - pos && is_ws_char(t[pos + k])
        invariant
            pos + k <= t@.len(),
            ws_len(t@.skip(pos as int)) == k + ws_len(t@.skip(pos + k)),
        decreases t@.len() - pos - k,
    {
        proof {
            assert(t@.skip(pos + k).drop_first() =~= t@.skip(pos + k + 1));
        }
        k = k + 1;
    }
    k
}

/// The length of the run of identifier characters at `pos`.
fn ident_tail_at(t: &Vec<char>, pos: usize) -> (r: usize)
    requires
        pos <= t@.len(),
    ensures
        r == ident_tail(t@.skip(pos as int)),
{
    let mut k: usize = 0;
    while k < t.len() - pos && is_ident_char(t[pos + k])
        invariant
            pos + k <= t@.len(),
            ident_tail(t@.skip(pos as int)) == k + ident_tail(t@.skip(pos + k)),
        decreases t@.len() - pos - k,
    {
        proof {
            assert(t@.skip(pos + k).drop_first() =~= t@.skip(pos + k + 1));
        }
        k = k + 1;
    }
    k
}

/// The length of the identifier at `pos`, or 0.
fn ident_at(t: &Vec<char>, pos: usize) -> (r: usize)
    requires
        pos <= t@.len(),
    ensures
        r == ident_len(t@.skip(pos as int)),
{
    if pos < t.len() && is_ident_start(t[pos]) {
        proof {
            assert(t@.skip(pos as int).drop_first() =~= t@.skip(pos + 1));
            lemma_ident_tail(t@.skip(pos + 1));
        }
        1 + ident_tail_at(t, pos + 1)
    } else {
        0
    }
}

/// The length of `w` where the text at `pos` starts with it, or 0.
fn word_at(t: &Vec<char>, pos: usize, w: &str) -> (r: usize)
    requires
        pos <= t@.len(),
    ensures
        r == word_len(t@.skip(pos as int), w@),
{
    let n = w.unicode_len();
    let lim = t.len() - pos;
    if n > lim {
        return 0;
    }
    let mut i: usize = 0;
    while i < n
        invariant
            i <= n,
            n == w@.len(),
            pos <= t@.len(),
            lim + pos == t.len(),
            n <= lim,
            forall|j: int| 0 <= j < i ==> t@[pos + j] == w@[j],
        decreases n - i,
    {
        assert(i < lim);
        if t[pos + i] != w.get_char(i) {
            proof {
                assert(t@.skip(pos as int).subrange(0, w@.len() as int)[i as int] != w@[i as int]);
            }
            return 0;
        }
        i = i + 1;
    }
    proof {
        assert(t@.skip(pos as int).subrange(0, w@.len() as int) =~= w@);
    }
    n
}

fn max_usize(a: usize, b: usize) -> (r: usize)
    ensures
        r == max_nat(a as nat, b as nat),
{
    if a >= b {
        a
    } else {
        b
    }
}

/// The length of the longest match of rule `k` at `pos`.
fn rule_at(t: &Vec<char>, pos: usize, k: usize) -> (r: usize)
    requires
        pos <= t@.len(),
        k <= 13,
    ensures
        r == rule_len(t@.skip(pos as int), k as int),
{
    if k == 0 {
        ws_at(t, pos)
    } else if k == 1 {
        word_at(t, pos, "(")
    } else if k == 2 {
        word_at(t, pos, ")")
    } else if k == 3 {
        max_usize(
            max_usize(word_at(t, pos, "true"), word_at(t, pos, "True")),
            max_usize(word_at(t, pos, "T"), word_at(t, pos, "TRUE")),
        )
    } else if k == 4 {
        max_usize(
            max_usize(word_at(t, pos, "false"), word_at(t, pos, "False")),
            max_usize(word_at(t, pos, "F"), word_at(t, pos, "FALSE")),
        )
    } else if k == 5 {
        max_usize(word_at(t, pos, "~"), word_at(t, pos, "not"))
    } else if k == 6 {
        max_usize(word_at(t, pos, "/\\"), word_at(t, pos, "and"))
    } else if k == 7 {
        max_usize(word_at(t, pos, "\\/"), word_at(t, pos, "or"))
    } else if k == 8 {
        word_at(t, pos, "G")
    } else if k == 9 {
        word_at(t, pos, "F")
    } else if k == 10 {
        word_at(t, pos, "U")
    } else if k == 11 {
        word_at(t, pos, "V")
    } else if k == 12 {
        word_at(t, pos, "R")
    } else {
        ident_at(t, pos)
    }
}

/// The rule and the length of the token at `pos`.
fn best_at(t: &Vec<char>, pos: usize) -> (r: (usize, usize))
    requires
        pos <= t@.len(),
    ensures
        r.0 == best_rule(t@.skip(pos as int)),
        r.1 == best_len(t@.skip(pos as int)),
{
    let ghost s = t@.skip(pos as int);
    let mut b: usize = 0;
    let mut bl = rule_at(t, pos, 0);
    let mut k: usize = 1;
    while k <= 13
        invariant
            1 <= k <= 14,
            pos <= t@.len(),
            s == t@.skip(pos as int),
            b == best_rule_upto(s, (k - 1) as nat),
            bl == rule_len(s, b as int),
        decreases 14 - k,
    {
        let l = rule_at(t, pos, k);
        if l > bl {
            b = k;
            bl = l;
        }
        k = k + 1;
    }
    (b, bl)
}

/// The token of rule `k` whose text is `text` from `lo` up to `hi`.
fn make_token(k: usize, text: &str, lo: usize, hi: usize) -> (r: Token)
    requires
        lo <= hi <= text@.len(),
    ensures
        r@ == token_of(k as nat, text@.subrange(lo as int, hi as int)),
{
    if k == 0 {
        Token::Whitespace
    } else if k == 1 {
        Token::LParen
    } else if k == 2 {
        Token::RParen
    } else if k == 3 {
        Token::True
    } else if k == 4 {
        Token::False
    } else if k == 5 {
        Token::Not
    } else if k == 6 {
        Token::And
    } else if k == 7 {
        Token::Or
    } else if k == 8 {
        Token::G
    } else if k == 9 {
        Token::F
    } else if k == 10 {
        Token::U
    } else if k == 11 {
        Token::V
    } else if k == 12 {
        Token::R
    } else {
        Token::Ident(String::from_str(text.substring_char(lo, hi)))
    }
}

} // verus!
