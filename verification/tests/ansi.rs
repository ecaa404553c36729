use checkr_core::ansi::{parse_ansi, Code, Color, ColorType};

#[test]
fn colours_apply_to_the_text_that_follows() {
    let spans = parse_ansi("ab\u{1b}[31mred\u{1b}[0m end");
    let texts: Vec<&str> = spans.iter().map(|s| s.text).collect();
    assert_eq!(texts, vec!["ab", "", "red", "", " end"]);
    assert_eq!(spans[0].code, None);
    assert_eq!(spans[0].fg, None);
    assert_eq!(spans[1].code, Some(Code::Color(Color::Red, ColorType::Foreground)));
    assert_eq!(spans[2].fg, Some(Color::Red));
    assert_eq!(spans[2].bg, None);
    assert_eq!(spans[3].code, Some(Code::Reset));
    assert_eq!(spans[4].fg, None);
}

#[test]
fn several_codes_in_one_sequence() {
    let spans = parse_ansi("\u{1b}[1;42mx");
    let codes: Vec<Option<Code>> = spans.iter().map(|s| s.code).collect();
    assert_eq!(
        codes,
        vec![None, Some(Code::Bright), Some(Code::Color(Color::Green, ColorType::Background)), None]
    );
    assert_eq!(spans[3].text, "x");
    assert_eq!(spans[3].bg, Some(Color::Green));
}

#[test]
fn plain_text_is_one_span() {
    let spans = parse_ansi("hello");
    assert_eq!(spans.len(), 1);
    assert_eq!(spans[0].text, "hello");
    assert!(parse_ansi("").is_empty());
}
