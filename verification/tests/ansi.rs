use factory_tui::ansi::{apply_sgr, to_text, Color, Style, BOLD, REVERSED};

fn plain() -> Style {
    Style { fg: None, bg: None, add_modifier: 0, sub_modifier: 0 }
}

#[test]
fn keeps_green_span() {
    let text = to_text("\u{1b}[32mhello\u{1b}[0m world");
    assert_eq!(text.lines.len(), 1);
    assert_eq!(text.lines[0].spans.len(), 2);
    assert_eq!(text.lines[0].spans[0].content, "hello");
    assert_eq!(text.lines[0].spans[0].style.fg, Some(Color::Green));
    assert_eq!(text.lines[0].spans[1].content, " world");
}

#[test]
fn indexed_and_rgb() {
    let text = to_text("\u{1b}[38;5;81mcyan\u{1b}[38;2;255;80;0morange");
    assert_eq!(text.lines[0].spans[0].style.fg, Some(Color::Indexed(81)));
    assert_eq!(text.lines[0].spans[1].style.fg, Some(Color::Rgb(255, 80, 0)));
}

#[test]
fn lines_split_on_newlines_and_empty_input_is_one_empty_line() {
    let text = to_text("a\nb\n");
    assert_eq!(text.lines.len(), 2);
    assert_eq!(text.lines[0].spans[0].content, "a");
    assert_eq!(text.lines[1].spans[0].content, "b");
    let empty = to_text("");
    assert_eq!(empty.lines.len(), 1);
    assert!(empty.lines[0].spans.is_empty());
}

#[test]
fn carriage_returns_backspaces_and_osc_are_dropped() {
    let text = to_text("x\r\u{8}y\u{1b}]0;title\u{7}z");
    assert_eq!(text.lines.len(), 1);
    assert_eq!(text.lines[0].spans.len(), 1);
    assert_eq!(text.lines[0].spans[0].content, "xyz");
}

#[test]
fn sgr_attributes_and_resets() {
    let chars = |s: &str| s.chars().collect::<Vec<char>>();
    let bold = apply_sgr(plain(), &chars("1"));
    assert_eq!(bold.add_modifier, BOLD);
    let reversed_red = apply_sgr(plain(), &chars("7;31"));
    assert_eq!(reversed_red.add_modifier, REVERSED);
    assert_eq!(reversed_red.fg, Some(Color::Red));
    assert_eq!(apply_sgr(reversed_red, &chars("")), plain());
    assert_eq!(apply_sgr(plain(), &chars("92;44")).fg, Some(Color::LightGreen));
    assert_eq!(apply_sgr(plain(), &chars("92;44")).bg, Some(Color::Blue));
}
