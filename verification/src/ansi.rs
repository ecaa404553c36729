//! Splitting terminal output that holds ANSI escape sequences into spans:
//! pieces of text, each with the colours in force, and the codes between
//! them.
use vstd::prelude::*;
use vstd::string::*;

use crate::text::chars_of;

verus! {

/// Whether a colour applies to the text or to its background.
#[derive(Clone, Copy, PartialEq, Eq, Structural, Debug)]
pub enum ColorType {
    Foreground,
    Background,
}

/// The colours of a terminal.
#[derive(Clone, Copy, PartialEq, Eq, Structural, Debug)]
pub enum Color {
    Black,
    Red,
    Green,
    Yellow,
    Blue,
    Magenta,
    Cyan,
    White,
    Default,
    BrightBlack,
    BrightRed,
    BrightGreen,
    BrightYellow,
    BrightBlue,
    BrightMagenta,
    BrightCyan,
    BrightWhite,
}

/// A code of a select-graphic-rendition escape sequence.
#[derive(Clone, Copy, PartialEq, Eq, Structural, Debug)]
pub enum Code {
    Reset,
    Bright,
    Dim,
    Inverse,
    NoBrightness,
    NoItalic,
    NoUnderline,
    NoInverse,
    SetColor(ColorType),
    NoColor(ColorType),
    Color(Color, ColorType),
    Unknown(u8),
}

/// A piece of the output: text with its colours, or a code (with no text).
#[derive(Clone, Copy)]
pub struct Span<'a> {
    pub text: &'a str,
    pub code: Option<Code>,
    pub fg: Option<Color>,
    pub bg: Option<Color>,
}

/// The abstract value of a span.
pub struct SpanV {
    pub text: Seq<char>,
    pub code: Option<Code>,
    pub fg: Option<Color>,
    pub bg: Option<Color>,
}

impl<'a> View for Span<'a> {
    type V = SpanV;

    open spec fn view(&self) -> SpanV {
        SpanV { text: self.text@, code: self.code, fg: self.fg, bg: self.bg }
    }
}

/// The values of a sequence of spans.
pub open spec fn spans_view<'a>(v: Seq<Span<'a>>) -> Seq<SpanV> {
    v.map_values(|s: Span<'a>| s@)
}

/// The escape character.
pub open spec fn is_esc(c: char) -> bool {
    c == '\u{1b}'
}

/// A character that may stand between `ESC[` and the end of its sequence.
pub open spec fn is_param_char(c: char) -> bool {
    ('0' <= c && c <= '9') || c == '[' || c == ';'
}

/// What is searched for: the escape character (`kind` 0), a character that
/// ends the parameters of a sequence (1), or a semicolon (2).
pub open spec fn hit(kind: u8, c: char) -> bool {
    if kind == 0 {
        is_esc(c)
    } else if kind == 1 {
        !is_param_char(c)
    } else {
        c == ';'
    }
}

/// `i` is the first position in `s` of what `kind` searches for.
pub open spec fn is_first_hit(s: Seq<char>, kind: u8, i: int) -> bool {
    &&& 0 <= i < s.len()
    &&& hit(kind, s[i])
    &&& forall|j: int| 0 <= j < i ==> !hit(kind, #[trigger] s[j])
}

/// The first position in `s` of what `kind` searches for, or -1.
pub open spec fn first_hit(s: Seq<char>, kind: u8) -> int {
    if exists|i: int| is_first_hit(s, kind, i) {
        choose|i: int| is_first_hit(s, kind, i)
    } else {
        -1
    }
}

proof fn lemma_first_hit(s: Seq<char>, kind: u8, i: int)
    requires
        is_first_hit(s, kind, i),
    ensures
        first_hit(s, kind) == i,
{
    let j = choose|j: int| is_first_hit(s, kind, j);
    assert(is_first_hit(s, kind, j));
    if j < i {
        assert(!hit(kind, s[j]));
    }
    if i < j {
        assert(!hit(kind, s[i]));
    }
}

/// A text span.
pub open spec fn text_span(t: Seq<char>) -> SpanV {
    SpanV { text: t, code: None, fg: None, bg: None }
}

/// A code span.
pub open spec fn code_span(c: Code) -> SpanV {
    SpanV { text: Seq::empty(), code: Some(c), fg: None, bg: None }
}

/// The pieces of `t` between semicolons.
pub open spec fn split_semis(t: Seq<char>) -> Seq<Seq<char>>
    decreases t.len(),
{
    let i = first_hit(t, 2);
    if 0 <= i < t.len() {
        seq![t.take(i)] + split_semis(t.skip(i + 1))
    } else {
        seq![t]
    }
}

/// The value of a decimal digit.
pub open spec fn digit_value(c: char) -> int {
    (c as int) - ('0' as int)
}

/// The value of a string of decimal digits.
pub open spec fn digits_value(v: Seq<char>) -> int
    decreases v.len(),
{
    if v.len() == 0 {
        0
    } else {
        digits_value(v.drop_last()) * 10 + digit_value(v.last())
    }
}

/// Every character is a decimal digit.
pub open spec fn all_digits(v: Seq<char>) -> bool {
    forall|i: int| 0 <= i < v.len() ==> '0' <= #[trigger] v[i] && v[i] <= '9'
}

/// The piece is a number that fits in a `u8`.
pub open spec fn parses(v: Seq<char>) -> bool {
    v.len() > 0 && all_digits(v) && digits_value(v) <= 255
}

/// The piece has no leading zero.
pub open spec fn canonical(v: Seq<char>) -> bool {
    v.len() == 1 || v[0] != '0'
}

/// The number of each colour in the 256-colour palette of codes `38;5;n`,
/// shifted by one.
pub open spec fn palette(i: int) -> Option<Color> {
    if i == 0 {
        Some(Color::Black)
    } else if i == 1 {
        Some(Color::Red)
    } else if i == 2 {
        Some(Color::Green)
    } else if i == 3 {
        Some(Color::Yellow)
    } else if i == 4 {
        Some(Color::Blue)
    } else if i == 5 {
        Some(Color::Magenta)
    } else if i == 6 {
        Some(Color::Cyan)
    } else if i == 7 {
        Some(Color::White)
    } else if i == 8 {
        Some(Color::Default)
    } else if i == 9 {
        Some(Color::BrightBlack)
    } else if i == 10 {
        Some(Color::BrightRed)
    } else if i == 11 {
        Some(Color::BrightGreen)
    } else if i == 12 {
        Some(Color::BrightYellow)
    } else if i == 13 {
        Some(Color::BrightBlue)
    } else if i == 14 {
        Some(Color::BrightMagenta)
    } else if i == 15 {
        Some(Color::BrightCyan)
    } else if i == 16 {
        Some(Color::BrightWhite)
    } else {
        None
    }
}

/// The code number of a foreground colour; the background's is ten more.
pub open spec fn color_number(c: Color) -> u8 {
    match c {
        Color::Black => 30,
        Color::Red => 31,
        Color::Green => 32,
        Color::Yellow => 33,
        Color::Blue => 34,
        Color::Magenta => 35,
        Color::Cyan => 36,
        Color::White => 37,
        Color::Default => 39,
        Color::BrightBlack => 90,
        Color::BrightRed => 91,
        Color::BrightGreen => 92,
        Color::BrightYellow => 93,
        Color::BrightBlue => 94,
        Color::BrightMagenta => 95,
        Color::BrightCyan => 96,
        Color::BrightWhite => 97,
    }
}

/// The number of a code.
pub open spec fn code_value(c: Code) -> u8 {
    match c {
        Code::Reset => 0,
        Code::Bright => 1,
        Code::Dim => 2,
        Code::Inverse => 7,
        Code::NoBrightness => 22,
        Code::NoItalic => 23,
        Code::NoUnderline => 24,
        Code::NoInverse => 27,
        Code::SetColor(ColorType::Foreground) => 38,
        Code::NoColor(ColorType::Foreground) => 39,
        Code::SetColor(ColorType::Background) => 48,
        Code::NoColor(ColorType::Background) => 49,
        Code::Color(col, ColorType::Foreground) => color_number(col),
        Code::Color(col, ColorType::Background) => (color_number(col) + 10) as u8,
        Code::Unknown(v) => v,
    }
}

/// The code that a number stands for, where it stands for one.
pub open spec fn code_of_number(n: u8) -> Option<Code> {
    if n == 0 {
        Some(Code::Reset)
    } else if n == 1 {
        Some(Code::Bright)
    } else if n == 2 {
        Some(Code::Dim)
    } else if n == 7 {
        Some(Code::Inverse)
    } else if n == 22 {
        Some(Code::NoBrightness)
    } else if n == 23 {
        Some(Code::NoItalic)
    } else if n == 24 {
        Some(Code::NoUnderline)
    } else if n == 27 {
        Some(Code::NoInverse)
    } else if n == 38 {
        Some(Code::SetColor(ColorType::Foreground))
    } else if n == 39 {
        Some(Code::NoColor(ColorType::Foreground))
    } else if n == 48 {
        Some(Code::SetColor(ColorType::Background))
    } else if n == 49 {
        Some(Code::NoColor(ColorType::Background))
    } else if 30 <= n <= 37 {
        Some(Code::Color(palette(n - 30)->0, ColorType::Foreground))
    } else if 40 <= n <= 47 {
        Some(Code::Color(palette(n - 40)->0, ColorType::Background))
    } else if 90 <= n <= 97 {
        Some(Code::Color(palette(n - 81)->0, ColorType::Foreground))
    } else if 100 <= n <= 107 {
        Some(Code::Color(palette(n - 91)->0, ColorType::Background))
    } else {
        None
    }
}

/// The code that a parameter stands for: the code of its number where it is
/// written without leading zeros, and otherwise an unknown code.
pub open spec fn code_of(v: Seq<char>) -> Code {
    let n = digits_value(v) as u8;
    if canonical(v) && code_of_number(n) is Some {
        code_of_number(n)->0
    } else {
        Code::Unknown(n)
    }
}

/// The spans of `s` before colours are given to the text: the text up to each
/// escape character, and then the codes of a sequence `ESC[...`; an escape
/// character that does not start such a sequence makes the search start over
/// one character later.
pub open spec fn tokenize(s: Seq<char>) -> Seq<SpanV>
    decreases s.len(),
{
    if s.len() == 0 {
        Seq::empty()
    } else {
        let e = first_hit(s, 0);
        if !(0 <= e < s.len()) {
            seq![text_span(s)]
        } else {
            let left = s.take(e);
            let right = s.skip(e + 1);
            if right.len() == 0 || right[0] != '[' {
                seq![text_span(left)] + tokenize(s.drop_first())
            } else {
                let rest = right.skip(1);
                let k = first_hit(rest, 1);
                if !(0 <= k < rest.len()) {
                    seq![text_span(left)]
                } else {
                    seq![text_span(left)] + split_semis(rest.take(k)).map_values(
                        |v: Seq<char>| code_span(code_of(v)),
                    ) + tokenize(rest.skip(k + 1))
                }
            }
        }
    }
}

/// A character that is one byte long in UTF-8.
pub open spec fn one_byte(c: char) -> bool {
    (c as int) < 128
}

/// Splitting `s` does not panic: an escape character that does not start
/// `ESC[` comes where the text starts with a one-byte character; every `ESC[`
/// has its parameters ended by a one-byte character, and each of them is a
/// number that fits in a `u8`.
pub open spec fn tokenize_ok(s: Seq<char>) -> bool
    decreases s.len(),
{
    if s.len() == 0 {
        true
    } else {
        let e = first_hit(s, 0);
        if !(0 <= e < s.len()) {
            true
        } else {
            let right = s.skip(e + 1);
            if right.len() == 0 || right[0] != '[' {
                one_byte(s[0]) && tokenize_ok(s.drop_first())
            } else {
                let rest = right.skip(1);
                let k = first_hit(rest, 1);
                if !(0 <= k < rest.len()) {
                    false
                } else {
                    &&& one_byte(rest[k])
                    &&& forall|j: int|
                        0 <= j < split_semis(rest.take(k)).len() ==> parses(
                            #[trigger] split_semis(rest.take(k))[j],
                        )
                    &&& tokenize_ok(rest.skip(k + 1))
                }
            }
        }
    }
}

/// What the colouring pass remembers of `38`/`48` and `5`.
#[derive(Clone, Copy, PartialEq, Eq, Structural, Debug)]
pub enum SetState {
    Idle,
    SawSet(ColorType, bool),
}

/// The colours in force and the state of the colouring pass.
pub struct ColorState {
    pub fg: Option<Color>,
    pub bg: Option<Color>,
    pub state: SetState,
}

/// The colouring state after a code: colour codes set a colour, reset clears
/// both, `38`/`48` followed by `5` and a palette number sets the foreground
/// colour (for `48` as well).
pub open spec fn color_step(st: ColorState, code: Code) -> ColorState {
    match code {
        Code::Color(c, ColorType::Foreground) => ColorState { fg: Some(c), bg: st.bg, state: SetState::Idle },
        Code::Color(c, ColorType::Background) => ColorState { fg: st.fg, bg: Some(c), state: SetState::Idle },
        Code::Reset => ColorState { fg: None, bg: None, state: SetState::Idle },
        Code::SetColor(ty) => ColorState { fg: st.fg, bg: st.bg, state: SetState::SawSet(ty, false) },
        _ => match st.state {
            SetState::SawSet(ty, false) => if code == Code::Unknown(5) {
                ColorState { fg: st.fg, bg: st.bg, state: SetState::SawSet(ty, true) }
            } else {
                ColorState { fg: st.fg, bg: st.bg, state: SetState::Idle }
            },
            SetState::SawSet(_, true) => match palette(code_value(code) + 1) {
                Some(c) => ColorState { fg: Some(c), bg: st.bg, state: SetState::Idle },
                None => ColorState { fg: st.fg, bg: st.bg, state: SetState::Idle },
            },
            SetState::Idle => ColorState { fg: st.fg, bg: st.bg, state: SetState::Idle },
        },
    }
}

/// The colouring state after the first `n` spans.
pub open spec fn color_state(spans: Seq<SpanV>, n: int) -> ColorState
    decreases n,
{
    if n <= 0 {
        ColorState { fg: None, bg: None, state: SetState::Idle }
    } else {
        let prev = color_state(spans, n - 1);
        match spans[n - 1].code {
            Some(c) => color_step(prev, c),
            None => prev,
        }
    }
}

/// The spans with each text given the colours in force before it.
pub open spec fn colorize(spans: Seq<SpanV>) -> Seq<SpanV> {
    Seq::new(
        spans.len(),
        |i: int|
            if spans[i].code is None {
                SpanV {
                    text: spans[i].text,
                    code: None,
                    fg: color_state(spans, i).fg,
                    bg: color_state(spans, i).bg,
                }
            } else {
                spans[i]
            },
    )
}

/// The spans of `s`.
pub open spec fn ansi_spans(s: Seq<char>) -> Seq<SpanV> {
    colorize(tokenize(s))
}

fn palette_color(i: u8) -> (r: Option<Color>)
    ensures
        r == palette(i as int),
{
    match i {
        0 => Some(Color::Black),
        1 => Some(Color::Red),
        2 => Some(Color::Green),
        3 => Some(Color::Yellow),
        4 => Some(Color::Blue),
        5 => Some(Color::Magenta),
        6 => Some(Color::Cyan),
        7 => Some(Color::White),
        8 => Some(Color::Default),
        9 => Some(Color::BrightBlack),
        10 => Some(Color::BrightRed),
        11 => Some(Color::BrightGreen),
        12 => Some(Color::BrightYellow),
        13 => Some(Color::BrightBlue),
        14 => Some(Color::BrightMagenta),
        15 => Some(Color::BrightCyan),
        16 => Some(Color::BrightWhite),
        _ => None,
    }
}

fn color_code_number(c: Color) -> (r: u8)
    ensures
        r == color_number(c),
{
    match c {
        Color::Black => 30,
        Color::Red => 31,
        Color::Green => 32,
        Color::Yellow => 33,
        Color::Blue => 34,
        Color::Magenta => 35,
        Color::Cyan => 36,
        Color::White => 37,
        Color::Default => 39,
        Color::BrightBlack => 90,
        Color::BrightRed => 91,
        Color::BrightGreen => 92,
        Color::BrightYellow => 93,
        Color::BrightBlue => 94,
        Color::BrightMagenta => 95,
        Color::BrightCyan => 96,
        Color::BrightWhite => 97,
    }
}

impl Code {
    /// The number of the code.
    pub fn value(self) -> (r: u8)
        ensures
            r == code_value(self),
    {
        match self {
            Code::Reset => 0,
            Code::Bright => 1,
            Code::Dim => 2,
            Code::Inverse => 7,
            Code::NoBrightness => 22,
            Code::NoItalic => 23,
            Code::NoUnderline => 24,
            Code::NoInverse => 27,
            Code::SetColor(ColorType::Foreground) => 38,
            Code::NoColor(ColorType::Foreground) => 39,
            Code::SetColor(ColorType::Background) => 48,
            Code::NoColor(ColorType::Background) => 49,
            Code::Color(c, ColorType::Foreground) => color_code_number(c),
            Code::Color(c, ColorType::Background) => color_code_number(c) + 10,
            Code::Unknown(v) => v,
        }
    }
}

fn code_of_u8(n: u8) -> (r: Option<Code>)
    ensures
        r == code_of_number(n),
{
    if n == 0 {
        Some(Code::Reset)
    } else if n == 1 {
        Some(Code::Bright)
    } else if n == 2 {
        Some(Code::Dim)
    } else if n == 7 {
        Some(Code::Inverse)
    } else if n == 22 {
        Some(Code::NoBrightness)
    } else if n == 23 {
        Some(Code::NoItalic)
    } else if n == 24 {
        Some(Code::NoUnderline)
    } else if n == 27 {
        Some(Code::NoInverse)
    } else if n == 38 {
        Some(Code::SetColor(ColorType::Foreground))
    } else if n == 39 {
        Some(Code::NoColor(ColorType::Foreground))
    } else if n == 48 {
        Some(Code::SetColor(ColorType::Background))
    } else if n == 49 {
        Some(Code::NoColor(ColorType::Background))
    } else if 30 <= n && n <= 37 {
        Some(Code::Color(palette_color(n - 30).unwrap(), ColorType::Foreground))
    } else if 40 <= n && n <= 47 {
        Some(Code::Color(palette_color(n - 40).unwrap(), ColorType::Background))
    } else if 90 <= n && n <= 97 {
        Some(Code::Color(palette_color(n - 81).unwrap(), ColorType::Foreground))
    } else if 100 <= n && n <= 107 {
        Some(Code::Color(palette_color(n - 91).unwrap(), ColorType::Background))
    } else {
        None
    }
}

proof fn lemma_digits_prefix(v: Seq<char>, i: int)
    requires
        all_digits(v),
        0 <= i <= v.len(),
    ensures
        0 <= digits_value(v.take(i)) <= digits_value(v),
    decreases v.len(),
{
    if i < v.len() {
        assert(all_digits(v.drop_last()));
        lemma_digits_prefix(v.drop_last(), i);
        assert(v.drop_last().take(i) =~= v.take(i));
        assert('0' <= v[v.len() - 1] && v[v.len() - 1] <= '9');
    } else {
        assert(v.take(i) =~= v);
        if v.len() > 0 {
            assert(all_digits(v.drop_last()));
            lemma_digits_prefix(v.drop_last(), v.len() - 1);
            assert(v.drop_last().take(v.len() - 1) =~= v.drop_last());
            assert('0' <= v[v.len() - 1] && v[v.len() - 1] <= '9');
        }
    }
}

/// The code of the parameter `v[from..to]`.
fn code_from(v: &Vec<char>, from: usize, to: usize) -> (r: Code)
    requires
        from <= to <= v@.len(),
        parses(v@.subrange(from as int, to as int)),
    ensures
        r == code_of(v@.subrange(from as int, to as int)),
{
    let ghost p = v@.subrange(from as int, to as int);
    let mut acc: u32 = 0;
    let mut i: usize = from;
    while i < to
        invariant
            from <= i <= to,
            to <= v@.len(),
            p == v@.subrange(from as int, to as int),
            parses(p),
            acc as int == digits_value(p.take(i - from)),
            acc <= 255,
        decreases to - i,
    {
        let c = v[i];
        proof {
            assert(p[i - from] == c);
            assert('0' <= c && c <= '9');
            assert(p.take(i - from + 1).drop_last() =~= p.take(i - from));
            lemma_digits_prefix(p, i - from + 1);
        }
        acc = acc * 10 + ((c as u32) - ('0' as u32));
        i = i + 1;
    }
    proof {
        assert(p.take(to - from) =~= p);
    }
    let n = acc as u8;
    let canon = to - from == 1 || v[from] != '0';
    proof {
        assert(canon == canonical(p)) by {
            if to - from > 1 {
                assert(p[0] == v@[from as int]);
            }
        }
    }
    if canon {
        match code_of_u8(n) {
            Some(c) => c,
            None => Code::Unknown(n),
        }
    } else {
        Code::Unknown(n)
    }
}

fn is_hit(kind: u8, c: char) -> (r: bool)
    ensures
        r == hit(kind, c),
{
    if kind == 0 {
        c == '\u{1b}'
    } else if kind == 1 {
        !(('0' <= c && c <= '9') || c == '[' || c == ';')
    } else {
        c == ';'
    }
}

/// The first position in `v[from..to]` of what `kind` searches for.
fn find_hit(v: &Vec<char>, from: usize, to: usize, kind: u8) -> (r: Option<usize>)
    requires
        from <= to <= v@.len(),
    ensures
        match r {
            Some(i) => from <= i < to && first_hit(v@.subrange(from as int, to as int), kind) == i
                - from,
            None => first_hit(v@.subrange(from as int, to as int), kind) == -1,
        },
{
    let ghost s = v@.subrange(from as int, to as int);
    let mut i: usize = from;
    while i < to
        invariant
            from <= i <= to,
            to <= v@.len(),
            s == v@.subrange(from as int, to as int),
            forall|j: int| 0 <= j < i - from ==> !hit(kind, #[trigger] s[j]),
        decreases to - i,
    {
        if is_hit(kind, v[i]) {
            proof {
                assert(s[i - from] == v@[i as int]);
                lemma_first_hit(s, kind, i - from);
            }
            return Some(i);
        }
        proof {
            assert(s[i - from] == v@[i as int]);
        }
        i = i + 1;
    }
    proof {
        if exists|j: int| is_first_hit(s, kind, j) {
            let j = choose|j: int| is_first_hit(s, kind, j);
            assert(!hit(kind, s[j]));
        }
    }
    None
}

/// The code span of each piece of `v[from..to]` between semicolons, after
/// `spans`.
fn push_codes<'a>(v: &Vec<char>, from: usize, to: usize, spans: &mut Vec<Span<'a>>)
    requires
        from <= to <= v@.len(),
        forall|j: int|
            0 <= j < split_semis(v@.subrange(from as int, to as int)).len() ==> parses(
                #[trigger] split_semis(v@.subrange(from as int, to as int))[j],
            ),
    ensures
        spans_view(final(spans)@) == spans_view(old(spans)@) + split_semis(
            v@.subrange(from as int, to as int),
        ).map_values(|p: Seq<char>| code_span(code_of(p))),
{
    let ghost whole = split_semis(v@.subrange(from as int, to as int));
    let ghost start = spans_view(spans@);
    let ghost mut done: Seq<Seq<char>> = Seq::empty();
    let mut j: usize = from;
    let mut finished = false;
    proof {
        reveal_strlit("");
        assert(done + split_semis(v@.subrange(j as int, to as int)) =~= whole);
        assert(spans_view(spans@) =~= start + done.map_values(|p: Seq<char>| code_span(code_of(p))));
    }
    while !finished
        invariant
            from <= j <= to,
            to <= v@.len(),
            whole == split_semis(v@.subrange(from as int, to as int)),
            forall|k: int| 0 <= k < whole.len() ==> parses(#[trigger] whole[k]),
            !finished ==> done + split_semis(v@.subrange(j as int, to as int)) == whole,
            finished ==> done == whole,
            spans_view(spans@) == start + done.map_values(|p: Seq<char>| code_span(code_of(p))),
            ""@ == Seq::<char>::empty(),
        decreases to - j + (if finished { 0int } else { 1int }),
    {
        let ghost sub = v@.subrange(j as int, to as int);
        match find_hit(v, j, to, 2) {
            Some(i) => {
                proof {
                    assert(sub.take(i - j) =~= v@.subrange(j as int, i as int));
                    assert(sub.skip(i - j + 1) =~= v@.subrange(i + 1, to as int));
                    assert(split_semis(sub) == seq![sub.take(i - j)] + split_semis(sub.skip(i - j + 1)));
                    assert(whole[done.len() as int] == v@.subrange(j as int, i as int));
                }
                let c = code_from(v, j, i);
                let ghost before = spans@;
                spans.push(Span { text: "", code: Some(c), fg: None, bg: None });
                proof {
                    let piece = v@.subrange(j as int, i as int);
                    assert(spans_view(spans@) =~= spans_view(before).push(code_span(code_of(piece))));
                    assert(done.push(piece).map_values(|p: Seq<char>| code_span(code_of(p))) =~= done.map_values(
                        |p: Seq<char>| code_span(code_of(p)),
                    ).push(code_span(code_of(piece))));
                    assert(done.push(piece) + split_semis(v@.subrange(i + 1, to as int)) =~= done
                        + split_semis(sub));
                    done = done.push(piece);
                }
                j = i + 1;
            },
            None => {
                proof {
                    assert(split_semis(sub) == seq![sub]);
                    assert(whole[done.len() as int] == sub);
                }
                let c = code_from(v, j, to);
                let ghost before = spans@;
                spans.push(Span { text: "", code: Some(c), fg: None, bg: None });
                proof {
                    assert(spans_view(spans@) =~= spans_view(before).push(code_span(code_of(sub))));
                    assert(done.push(sub).map_values(|p: Seq<char>| code_span(code_of(p))) =~= done.map_values(
                        |p: Seq<char>| code_span(code_of(p)),
                    ).push(code_span(code_of(sub))));
                    assert(done.push(sub) =~= done + seq![sub]);
                    done = done.push(sub);
                }
                finished = true;
            },
        }
    }
}

/// The spans of `t` before colours are given to the text.
fn tokenize_spans<'a>(t: &'a str) -> (r: Vec<Span<'a>>)
    requires
        tokenize_ok(t@),
    ensures
        spans_view(r@) == tokenize(t@),
{
    let v = chars_of(t);
    let n = v.len();
    let mut spans: Vec<Span<'a>> = Vec::new();
    let mut pos: usize = 0;
    proof {
        assert(t@.skip(0) =~= t@);
        assert(spans_view(spans@) + tokenize(t@) =~= tokenize(t@));
    }
    while pos < n
        invariant
            v@ == t@,
            n == v@.len(),
            pos <= n,
            tokenize_ok(t@.skip(pos as int)),
            spans_view(spans@) + tokenize(t@.skip(pos as int)) == tokenize(t@),
        decreases n - pos,
    {
        let ghost s = t@.skip(pos as int);
        let ghost before = spans_view(spans@);
        proof {
            assert(v@.subrange(pos as int, n as int) =~= s);
        }
        match find_hit(&v, pos, n, 0) {
            None => {
                let text = t.substring_char(pos, n);
                spans.push(Span { text, code: None, fg: None, bg: None });
                proof {
                    assert(tokenize(s) == seq![text_span(s)]);
                    assert(t@.skip(n as int) =~= Seq::<char>::empty());
                    assert(spans_view(spans@) =~= before.push(text_span(s)));
                    assert(spans_view(spans@) + tokenize(t@.skip(n as int)) =~= before + tokenize(s));
                }
                pos = n;
            },
            Some(e) => {
                let text = t.substring_char(pos, e);
                spans.push(Span { text, code: None, fg: None, bg: None });
                let ghost left = s.take(e - pos);
                proof {
                    assert(left =~= t@.subrange(pos as int, e as int));
                    assert(spans_view(spans@) =~= before.push(text_span(left)));
                    assert(s.skip(e - pos + 1) =~= t@.skip(e + 1));
                }
                if e + 1 >= n || v[e + 1] != '[' {
                    proof {
                        assert(s.drop_first() =~= t@.skip(pos + 1));
                        assert(tokenize(s) == seq![text_span(left)] + tokenize(s.drop_first()));
                        assert(spans_view(spans@) + tokenize(t@.skip(pos + 1)) =~= before + tokenize(
                            s,
                        ));
                    }
                    pos = pos + 1;
                } else {
                    proof {
                        assert(t@.skip(e + 1)[0] == v@[e + 1]);
                        assert(s.skip(e - pos + 1).skip(1) =~= v@.subrange(e + 2, n as int));
                    }
                    match find_hit(&v, e + 2, n, 1) {
                        None => {
                            proof {
                                assert(!tokenize_ok(s));
                            }
                            pos = n;
                        },
                        Some(k) => {
                            let ghost rest = v@.subrange(e + 2, n as int);
                            proof {
                                assert(rest.take(k - (e + 2)) =~= v@.subrange(e + 2, k as int));
                                assert(rest.skip(k - (e + 2) + 1) =~= t@.skip(k + 1));
                            }
                            let ghost mid = spans_view(spans@);
                            push_codes(&v, e + 2, k, &mut spans);
                            proof {
                                let codes = split_semis(v@.subrange(e + 2, k as int)).map_values(
                                    |p: Seq<char>| code_span(code_of(p)),
                                );
                                assert(tokenize(s) == seq![text_span(left)] + codes + tokenize(
                                    t@.skip(k + 1),
                                ));
                                assert(spans_view(spans@) + tokenize(t@.skip(k + 1)) =~= before
                                    + tokenize(s));
                            }
                            pos = k + 1;
                        },
                    }
                }
            },
        }
    }
    proof {
        assert(t@.skip(pos as int) =~= Seq::<char>::empty());
        assert(spans_view(spans@) =~= tokenize(t@));
    }
    spans
}

/// Gives each text span the colours in force before it.
fn colorize_spans<'a>(spans: &mut Vec<Span<'a>>)
    ensures
        spans_view(final(spans)@) == colorize(spans_view(old(spans)@)),
{
    let ghost orig = spans_view(spans@);
    let mut fg: Option<Color> = None;
    let mut bg: Option<Color> = None;
    let mut state = SetState::Idle;
    let mut i: usize = 0;
    let n = spans.len();
    while i < n
        invariant
            n == spans@.len(),
            orig.len() == n,
            i <= n,
            (ColorState { fg, bg, state }) == color_state(orig, i as int),
            forall|k: int| 0 <= k < i ==> (#[trigger] spans@[k])@ == colorize(orig)[k],
            forall|k: int| i <= k < n ==> (#[trigger] spans@[k])@ == orig[k],
        decreases n - i,
    {
        let span = spans[i];
        proof {
            assert(span@ == orig[i as int]);
        }
        match span.code {
            Some(code) => {
                let prev = state;
                state = SetState::Idle;
                match code {
                    Code::Color(c, ColorType::Foreground) => {
                        fg = Some(c);
                    },
                    Code::Color(c, ColorType::Background) => {
                        bg = Some(c);
                    },
                    Code::Reset => {
                        fg = None;
                        bg = None;
                    },
                    Code::SetColor(ty) => {
                        state = SetState::SawSet(ty, false);
                    },
                    _ => match prev {
                        SetState::SawSet(ty, false) => {
                            if code == Code::Unknown(5) {
                                state = SetState::SawSet(ty, true);
                            }
                        },
                        SetState::SawSet(_, true) => {
                            let v = code.value();
                            if v < 16 {
                                match palette_color(v + 1) {
                                    Some(c) => {
                                        fg = Some(c);
                                    },
                                    None => {},
                                }
                            }
                        },
                        SetState::Idle => {},
                    },
                }
            },
            None => {
                spans.set(i, Span { text: span.text, code: None, fg, bg });
            },
        }
        i = i + 1;
    }
    proof {
        assert(spans_view(spans@) =~= colorize(orig));
    }
}

/// Splits `s` into spans of text and codes, giving each piece of text the
/// colours in force before it.
pub fn parse_ansi(s: &str) -> (r: Vec<Span>)
    requires
        tokenize_ok(s@),
    ensures
        spans_view(r@) == ansi_spans(s@),
{
    let mut spans = tokenize_spans(s);
    colorize_spans(&mut spans);
    spans
}

} // verus!
