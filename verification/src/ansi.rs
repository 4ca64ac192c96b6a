//! SGR (colour and attribute) sequences from `tmux capture-pane -e`, read into
//! styled lines of text. The styles carry exactly what a terminal widget
//! needs: a foreground, a background, and the attributes added and removed.

use vstd::prelude::*;

use crate::text::{
    chars_of, digits_within, is_control, is_control_exec, split_exec, split_on, string_of,
    strip_char, strip_plus, views, all_digits, digits_value,
};
use crate::tmux::is_ascii_alpha;

verus! {

/// A terminal colour.
#[derive(Clone, Copy, Debug, PartialEq, Eq, Structural)]
pub enum Color {
    Reset,
    Black,
    Red,
    Green,
    Yellow,
    Blue,
    Magenta,
    Cyan,
    Gray,
    DarkGray,
    LightRed,
    LightGreen,
    LightYellow,
    LightBlue,
    LightMagenta,
    LightCyan,
    White,
    Indexed(u8),
    Rgb(u8, u8, u8),
}

/// Bold text.
pub const BOLD: u16 = 0x1;

/// Dimmed text.
pub const DIM: u16 = 0x2;

/// Italic text.
pub const ITALIC: u16 = 0x4;

/// Underlined text.
pub const UNDERLINED: u16 = 0x8;

/// Reversed video.
pub const REVERSED: u16 = 0x40;

/// A text style: colours when set, attributes explicitly added, attributes
/// explicitly removed. The attribute bits are those of a terminal widget's
/// modifier set.
#[derive(Clone, Copy, Debug, PartialEq, Eq, Structural)]
pub struct Style {
    pub fg: Option<Color>,
    pub bg: Option<Color>,
    pub add_modifier: u16,
    pub sub_modifier: u16,
}

/// The style that sets nothing.
pub open spec fn plain() -> Style {
    Style { fg: None, bg: None, add_modifier: 0, sub_modifier: 0 }
}

/// `style` with attributes `m` added.
pub open spec fn with_added(style: Style, m: u16) -> Style {
    Style { add_modifier: style.add_modifier | m, sub_modifier: style.sub_modifier & !m, ..style }
}

/// `style` with attributes `m` removed.
pub open spec fn with_removed(style: Style, m: u16) -> Style {
    Style { add_modifier: style.add_modifier & !m, sub_modifier: style.sub_modifier | m, ..style }
}

/// One of the eight basic colours, or its bright variant.
pub open spec fn basic_color(n: int, bright: bool) -> Color {
    if !bright {
        if n == 0 { Color::Black } else if n == 1 { Color::Red } else if n == 2 { Color::Green }
        else if n == 3 { Color::Yellow } else if n == 4 { Color::Blue } else if n == 5 { Color::Magenta }
        else if n == 6 { Color::Cyan } else if n == 7 { Color::White } else { Color::Reset }
    } else {
        if n == 0 { Color::DarkGray } else if n == 1 { Color::LightRed } else if n == 2 { Color::LightGreen }
        else if n == 3 { Color::LightYellow } else if n == 4 { Color::LightBlue } else if n == 5 { Color::LightMagenta }
        else if n == 6 { Color::LightCyan } else if n == 7 { Color::Gray } else { Color::Reset }
    }
}

/// The colour a 256-colour (`5;n`) or true-colour (`2;r;g;b`) tail names, and
/// how many parameters it used.
pub open spec fn ext_color(rest: Seq<u8>) -> Option<(Color, int)> {
    if rest.len() >= 2 && rest[0] == 5 {
        Some((Color::Indexed(rest[1]), 2))
    } else if rest.len() >= 4 && rest[0] == 2 {
        Some((Color::Rgb(rest[1], rest[2], rest[3]), 4))
    } else {
        None
    }
}

/// The effect of one SGR parameter other than 38 and 48.
pub open spec fn sgr_one(style: Style, p: u8) -> Style {
    if p == 0 {
        plain()
    } else if p == 1 {
        with_added(style, BOLD)
    } else if p == 2 {
        with_added(style, DIM)
    } else if p == 3 {
        with_added(style, ITALIC)
    } else if p == 4 {
        with_added(style, UNDERLINED)
    } else if p == 7 {
        with_added(style, REVERSED)
    } else if p == 22 {
        with_removed(style, BOLD | DIM)
    } else if p == 23 {
        with_removed(style, ITALIC)
    } else if p == 24 {
        with_removed(style, UNDERLINED)
    } else if p == 27 {
        with_removed(style, REVERSED)
    } else if p == 39 {
        Style { fg: Some(Color::Reset), ..style }
    } else if p == 49 {
        Style { bg: Some(Color::Reset), ..style }
    } else if 30 <= p <= 37 {
        Style { fg: Some(basic_color(p - 30, false)), ..style }
    } else if 90 <= p <= 97 {
        Style { fg: Some(basic_color(p - 90, true)), ..style }
    } else if 40 <= p <= 47 {
        Style { bg: Some(basic_color(p - 40, false)), ..style }
    } else if 100 <= p <= 107 {
        Style { bg: Some(basic_color(p - 100, true)), ..style }
    } else {
        style
    }
}

/// The parameters from `i` on applied to `style`, left to right; 38 and 48
/// consume the colour tail that follows them when it is well formed.
pub open spec fn sgr_from(style: Style, params: Seq<u8>, i: int) -> Style
    decreases params.len() - i,
{
    if i < 0 || i >= params.len() {
        style
    } else {
        let p = params[i];
        if p == 38 || p == 48 {
            match ext_color(params.skip(i + 1)) {
                Some((c, used)) => {
                    let next = if p == 38 {
                        Style { fg: Some(c), ..style }
                    } else {
                        Style { bg: Some(c), ..style }
                    };
                    if used > 0 {
                        sgr_from(next, params, i + used + 1)
                    } else {
                        next
                    }
                },
                None => sgr_from(style, params, i + 1),
            }
        } else {
            sgr_from(sgr_one(style, p), params, i + 1)
        }
    }
}

/// `u8::from_str`, with an empty or malformed parameter read as 0.
pub open spec fn param_value(p: Seq<char>) -> u8 {
    let d = strip_char(p, '+');
    if p.len() == 0 {
        0
    } else if all_digits(d) && digits_value(d) <= 255 {
        digits_value(d) as u8
    } else {
        0
    }
}

/// The numeric parameters of an SGR body.
pub open spec fn sgr_params(body: Seq<char>) -> Seq<u8> {
    split_on(body, ';').map_values(|p: Seq<char>| param_value(p))
}

/// `style` after the SGR sequence with parameter text `body`; an empty body resets.
pub open spec fn apply_sgr_model(style: Style, body: Seq<char>) -> Style {
    if body.len() == 0 {
        plain()
    } else {
        sgr_from(style, sgr_params(body), 0)
    }
}

fn param_value_exec(p: &Vec<char>) -> (r: u8)
    ensures
        r == param_value(p@),
{
    if p.len() == 0 {
        return 0;
    }
    match digits_within(&strip_plus(p), 255) {
        Some(v) => v as u8,
        None => 0,
    }
}

fn basic(n: u8, bright: bool) -> (r: Color)
    ensures
        r == basic_color(n as int, bright),
{
    if !bright {
        match n {
            0 => Color::Black,
            1 => Color::Red,
            2 => Color::Green,
            3 => Color::Yellow,
            4 => Color::Blue,
            5 => Color::Magenta,
            6 => Color::Cyan,
            7 => Color::White,
            _ => Color::Reset,
        }
    } else {
        match n {
            0 => Color::DarkGray,
            1 => Color::LightRed,
            2 => Color::LightGreen,
            3 => Color::LightYellow,
            4 => Color::LightBlue,
            5 => Color::LightMagenta,
            6 => Color::LightCyan,
            7 => Color::Gray,
            _ => Color::Reset,
        }
    }
}

pub(crate) fn add_attrs(style: Style, m: u16) -> (r: Style)
    ensures
        r == with_added(style, m),
{
    Style { add_modifier: style.add_modifier | m, sub_modifier: style.sub_modifier & !m, ..style }
}

fn remove_attrs(style: Style, m: u16) -> (r: Style)
    ensures
        r == with_removed(style, m),
{
    Style { add_modifier: style.add_modifier & !m, sub_modifier: style.sub_modifier | m, ..style }
}

fn sgr_one_exec(style: Style, p: u8) -> (r: Style)
    ensures
        r == sgr_one(style, p),
{
    if p == 0 {
        Style { fg: None, bg: None, add_modifier: 0, sub_modifier: 0 }
    } else if p == 1 {
        add_attrs(style, BOLD)
    } else if p == 2 {
        add_attrs(style, DIM)
    } else if p == 3 {
        add_attrs(style, ITALIC)
    } else if p == 4 {
        add_attrs(style, UNDERLINED)
    } else if p == 7 {
        add_attrs(style, REVERSED)
    } else if p == 22 {
        remove_attrs(style, BOLD | DIM)
    } else if p == 23 {
        remove_attrs(style, ITALIC)
    } else if p == 24 {
        remove_attrs(style, UNDERLINED)
    } else if p == 27 {
        remove_attrs(style, REVERSED)
    } else if p == 39 {
        Style { fg: Some(Color::Reset), ..style }
    } else if p == 49 {
        Style { bg: Some(Color::Reset), ..style }
    } else if 30 <= p && p <= 37 {
        Style { fg: Some(basic(p - 30, false)), ..style }
    } else if 90 <= p && p <= 97 {
        Style { fg: Some(basic(p - 90, true)), ..style }
    } else if 40 <= p && p <= 47 {
        Style { bg: Some(basic(p - 40, false)), ..style }
    } else if 100 <= p && p <= 107 {
        Style { bg: Some(basic(p - 100, true)), ..style }
    } else {
        style
    }
}

/// `style` after one SGR sequence with parameter text `body`.
pub fn apply_sgr(style: Style, body: &Vec<char>) -> (r: Style)
    ensures
        r == apply_sgr_model(style, body@),
{
    if body.len() == 0 {
        return Style { fg: None, bg: None, add_modifier: 0, sub_modifier: 0 };
    }
    let pieces = split_exec(body, ';');
    let mut params: Vec<u8> = Vec::new();
    for k in 0..pieces.len()
        invariant
            params@ == views(pieces@).take(k as int).map_values(|p: Seq<char>| param_value(p)),
    {
        params.push(param_value_exec(&pieces[k]));
        assert(views(pieces@).take(k + 1) =~= views(pieces@).take(k as int).push(pieces@[k as int]@));
        assert(params@ =~= views(pieces@).take(k + 1).map_values(|p: Seq<char>| param_value(p)));
    }
    assert(views(pieces@).take(pieces@.len() as int) =~= views(pieces@));
    let ghost ps = params@;
    assert(ps == sgr_params(body@));
    let mut st = style;
    let mut i: usize = 0;
    while i < params.len()
        invariant
            ps == params@,
            i <= params@.len(),
            sgr_from(st, ps, i as int) == sgr_from(style, ps, 0),
        decreases params@.len() - i,
    {
        let p = params[i];
        if p == 38 || p == 48 {
            let n = params.len();
            if n - i > 2 && params[i + 1] == 5 {
                assert(ps.skip(i + 1)[0] == ps[i + 1]);
                assert(ps.skip(i + 1)[1] == ps[i + 2]);
                let c = Color::Indexed(params[i + 2]);
                st = if p == 38 { Style { fg: Some(c), ..st } } else { Style { bg: Some(c), ..st } };
                i = i + 3;
            } else if n - i > 4 && params[i + 1] == 2 {
                assert(ps.skip(i + 1)[0] == ps[i + 1]);
                assert(ps.skip(i + 1)[1] == ps[i + 2]);
                assert(ps.skip(i + 1)[2] == ps[i + 3]);
                assert(ps.skip(i + 1)[3] == ps[i + 4]);
                let c = Color::Rgb(params[i + 2], params[i + 3], params[i + 4]);
                st = if p == 38 { Style { fg: Some(c), ..st } } else { Style { bg: Some(c), ..st } };
                i = i + 5;
            } else {
                proof {
                    if ps.skip(i + 1).len() >= 2 {
                        assert(ps.skip(i + 1)[0] == ps[i + 1]);
                    }
                }
                i = i + 1;
            }
        } else {
            st = sgr_one_exec(st, p);
            i = i + 1;
        }
    }
    st
}


/// A run of text in one style.
#[derive(Debug)]
pub struct Span {
    pub content: String,
    pub style: Style,
}

/// One line of spans.
#[derive(Debug)]
pub struct Line {
    pub spans: Vec<Span>,
}

/// Styled lines.
#[derive(Debug)]
pub struct Text {
    pub lines: Vec<Line>,
}

/// `Span` as the contracts see it.
pub struct SpanModel {
    pub content: Seq<char>,
    pub style: Style,
}

impl View for Span {
    type V = SpanModel;

    open spec fn view(&self) -> SpanModel {
        SpanModel { content: self.content@, style: self.style }
    }
}

pub open spec fn spans_model(s: Seq<Span>) -> Seq<SpanModel> {
    s.map_values(|x: Span| x@)
}

impl View for Line {
    type V = Seq<SpanModel>;

    open spec fn view(&self) -> Seq<SpanModel> {
        spans_model(self.spans@)
    }
}

impl View for Text {
    type V = Seq<Seq<SpanModel>>;

    open spec fn view(&self) -> Seq<Seq<SpanModel>> {
        self.lines@.map_values(|l: Line| l@)
    }
}

/// Where a reading of the capture stands: finished lines, spans of the
/// current line, text not yet given a span, and the style in force.
pub struct ReadState {
    pub lines: Seq<Seq<SpanModel>>,
    pub spans: Seq<SpanModel>,
    pub buf: Seq<char>,
    pub style: Style,
}

/// Pending text closed into a span in the current style.
pub open spec fn flush(st: ReadState) -> ReadState {
    if st.buf.len() == 0 {
        st
    } else {
        ReadState {
            spans: st.spans.push(SpanModel { content: st.buf, style: st.style }),
            buf: Seq::empty(),
            ..st
        }
    }
}

/// Index of the first ASCII letter or `~` at or after `j`, the final byte of
/// a CSI sequence.
pub open spec fn csi_final(s: Seq<char>, j: int) -> Option<int>
    decreases s.len() - j,
{
    if j < 0 || j >= s.len() {
        None
    } else if is_ascii_alpha(s[j]) || s[j] == '~' {
        Some(j)
    } else {
        csi_final(s, j + 1)
    }
}

/// Index of the first BEL at or after `j`.
pub open spec fn bel_at(s: Seq<char>, j: int) -> Option<int>
    decreases s.len() - j,
{
    if j < 0 || j >= s.len() {
        None
    } else if s[j] == '\u{7}' {
        Some(j)
    } else {
        bel_at(s, j + 1)
    }
}

pub proof fn lemma_csi_final_bounds(s: Seq<char>, j: int)
    requires
        0 <= j,
    ensures
        match csi_final(s, j) {
            Some(k) => j <= k < s.len(),
            None => true,
        },
    decreases s.len() - j,
{
    if j < s.len() && !(is_ascii_alpha(s[j]) || s[j] == '~') {
        lemma_csi_final_bounds(s, j + 1);
    }
}

pub proof fn lemma_bel_at_bounds(s: Seq<char>, j: int)
    requires
        0 <= j,
    ensures
        match bel_at(s, j) {
            Some(k) => j <= k < s.len(),
            None => true,
        },
    decreases s.len() - j,
{
    if j < s.len() && s[j] != '\u{7}' {
        lemma_bel_at_bounds(s, j + 1);
    }
}

/// The reading of `s` from index `i` on, starting in state `st`.
pub open spec fn read_from(s: Seq<char>, i: int, st: ReadState) -> ReadState
    decreases s.len() - i,
{
    if i < 0 || i >= s.len() {
        st
    } else {
        let c = s[i];
        if c == '\u{1b}' {
            if i + 1 >= s.len() {
                st
            } else if s[i + 1] == '[' {
                proof {
                    lemma_csi_final_bounds(s, i + 2);
                }
                match csi_final(s, i + 2) {
                    Some(k) => if s[k] == 'm' {
                        let f = flush(st);
                        read_from(s, k + 1, ReadState { style: apply_sgr_model(f.style, s.subrange(i + 2, k)), ..f })
                    } else {
                        read_from(s, k + 1, st)
                    },
                    None => {
                        let f = flush(st);
                        ReadState { style: apply_sgr_model(f.style, s.subrange(i + 2, s.len() as int)), ..f }
                    },
                }
            } else if s[i + 1] == ']' {
                proof {
                    lemma_bel_at_bounds(s, i + 2);
                }
                match bel_at(s, i + 2) {
                    Some(k) => read_from(s, k + 1, st),
                    None => st,
                }
            } else {
                read_from(s, i + 2, st)
            }
        } else if c == '\n' {
            let f = flush(st);
            read_from(s, i + 1, ReadState { lines: f.lines.push(f.spans), spans: Seq::empty(), ..f })
        } else if c == '\r' || c == '\u{8}' {
            read_from(s, i + 1, st)
        } else if c == '\t' || !is_control(c) {
            read_from(s, i + 1, ReadState { buf: st.buf.push(c), ..st })
        } else {
            read_from(s, i + 1, st)
        }
    }
}

/// The styled lines a capture reads as: every line a newline ended, then the
/// last line when it holds anything or when nothing else was read.
pub open spec fn to_text_model(s: Seq<char>) -> Seq<Seq<SpanModel>> {
    let start = ReadState { lines: Seq::empty(), spans: Seq::empty(), buf: Seq::empty(), style: plain() };
    let f = flush(read_from(s, 0, start));
    if f.spans.len() > 0 || f.lines.len() == 0 {
        f.lines.push(f.spans)
    } else {
        f.lines
    }
}

/// The reading state an executable reader is in.
pub open spec fn state_of(lines: Seq<Line>, spans: Seq<Span>, buf: Seq<char>, style: Style) -> ReadState {
    ReadState {
        lines: lines.map_values(|l: Line| l@),
        spans: spans_model(spans),
        buf,
        style,
    }
}

fn flush_exec(spans: &mut Vec<Span>, buf: &mut Vec<char>, style: Style, lines: Ghost<Seq<Line>>)
    ensures
        state_of(lines@, final(spans)@, final(buf)@, style) == flush(
            state_of(lines@, old(spans)@, old(buf)@, style),
        ),
{
    if buf.len() == 0 {
        return;
    }
    let ghost before = spans_model(spans@);
    let content = string_of(buf);
    spans.push(Span { content, style });
    *buf = Vec::new();
    assert(spans_model(spans@) =~= before.push(SpanModel { content: old(buf)@, style }));
}

/// Convert a capture that still contains escape sequences into styled lines.
pub fn to_text(input: &str) -> (r: Text)
    ensures
        r@ == to_text_model(input@),
{
    let s = chars_of(input);
    let mut lines: Vec<Line> = Vec::new();
    let mut spans: Vec<Span> = Vec::new();
    let mut buf: Vec<char> = Vec::new();
    let mut style = Style { fg: None, bg: None, add_modifier: 0, sub_modifier: 0 };
    let ghost start = state_of(lines@, spans@, buf@, style);
    assert(start == ReadState { lines: Seq::empty(), spans: Seq::empty(), buf: Seq::empty(), style: plain() }) by {
        assert(lines@.map_values(|l: Line| l@) =~= Seq::<Seq<SpanModel>>::empty());
        assert(spans_model(spans@) =~= Seq::<SpanModel>::empty());
    }
    let mut i: usize = 0;
    let mut done = false;
    while i < s.len() && !done
        invariant
            i <= s.len(),
            done ==> read_from(s@, i as int, state_of(lines@, spans@, buf@, style)) == state_of(lines@, spans@, buf@, style),
            read_from(s@, i as int, state_of(lines@, spans@, buf@, style)) == read_from(s@, 0, start),
        decreases s.len() - i + (if done { 0int } else { 1int }),
    {
        let c = s[i];
        if c == '\u{1b}' {
            if i + 1 >= s.len() {
                i = s.len();
            } else if s[i + 1] == '[' {
                let mut k = i + 2;
                while k < s.len() && !(('a' <= s[k] && s[k] <= 'z') || ('A' <= s[k] && s[k] <= 'Z') || s[k] == '~')
                    invariant
                        i + 2 <= k <= s.len(),
                        csi_final(s@, k as int) == csi_final(s@, i + 2),
                    decreases s.len() - k,
                {
                    k = k + 1;
                }
                if k < s.len() {
                    if s[k] == 'm' {
                        flush_exec(&mut spans, &mut buf, style, Ghost(lines@));
                        style = apply_sgr(style, &crate::text::slice_of(&s, i + 2, k));
                    }
                    i = k + 1;
                } else {
                    flush_exec(&mut spans, &mut buf, style, Ghost(lines@));
                    style = apply_sgr(style, &crate::text::slice_of(&s, i + 2, s.len()));
                    i = s.len();
                    done = true;
                }
            } else if s[i + 1] == ']' {
                let mut k = i + 2;
                while k < s.len() && s[k] != '\u{7}'
                    invariant
                        i + 2 <= k <= s.len(),
                        bel_at(s@, k as int) == bel_at(s@, i + 2),
                    decreases s.len() - k,
                {
                    k = k + 1;
                }
                if k < s.len() {
                    i = k + 1;
                } else {
                    i = s.len();
                }
            } else {
                i = i + 2;
            }
        } else if c == '\n' {
            flush_exec(&mut spans, &mut buf, style, Ghost(lines@));
            let ghost before = lines@;
            let line = Line { spans };
            lines.push(line);
            spans = Vec::new();
            assert(lines@.map_values(|l: Line| l@) =~= before.map_values(|l: Line| l@).push(line@));
            assert(spans_model(spans@) =~= Seq::<SpanModel>::empty());
            i = i + 1;
        } else if c == '\r' || c == '\u{8}' {
            i = i + 1;
        } else if c == '\t' || !is_control_exec(c) {
            buf.push(c);
            i = i + 1;
        } else {
            i = i + 1;
        }
    }
    flush_exec(&mut spans, &mut buf, style, Ghost(lines@));
    if spans.len() > 0 || lines.len() == 0 {
        let ghost before = lines@;
        let line = Line { spans };
        lines.push(line);
        assert(lines@.map_values(|l: Line| l@) =~= before.map_values(|l: Line| l@).push(line@));
    }
    Text { lines }
}


/// The eight standard terminal colours, in SGR order.
pub open spec fn standard_colors() -> Seq<Color> {
    seq![Color::Black, Color::Red, Color::Green, Color::Yellow, Color::Blue, Color::Magenta, Color::Cyan, Color::White]
}

/// Their bright variants, in the same order.
pub open spec fn bright_colors() -> Seq<Color> {
    seq![
        Color::DarkGray,
        Color::LightRed,
        Color::LightGreen,
        Color::LightYellow,
        Color::LightBlue,
        Color::LightMagenta,
        Color::LightCyan,
        Color::Gray,
    ]
}

/// A two-character SGR body `<lead><c>` is the one parameter `10 * lead + c`.
proof fn lemma_two_digit_body(lead: char, c: char)
    requires
        '0' <= lead <= '9',
        '0' <= c <= '9',
    ensures
        sgr_params(seq![lead, c]) == seq![((lead as int - '0' as int) * 10 + (c as int - '0' as int)) as u8],
{
    let body = seq![lead, c];
    assert(!crate::text::contains(body, seq![';'])) by {
        if crate::text::contains(body, seq![';']) {
            let i = choose|i: int| crate::text::occurs_at(body, seq![';'], i);
            crate::text::lemma_occurs_at_chars(body, seq![';'], i);
            assert(body[i + 0] == ';');
        }
    }
    assert(split_on(body, ';') == seq![body]);
    assert(strip_char(body, '+') == body);
    assert(all_digits(body));
    assert(body.drop_last() =~= seq![lead]);
    assert(seq![lead].drop_last() =~= Seq::<char>::empty());
    assert(seq![lead].last() == lead);
    assert(digits_value(Seq::<char>::empty()) == 0);
    assert(digits_value(seq![lead]) == digits_value(seq![lead].drop_last()) * 10 + ((lead as int) - ('0' as int)) as nat);
    assert(digits_value(seq![lead]) == (lead as int - '0' as int));
    assert(digits_value(body) == (lead as int - '0' as int) * 10 + (c as int - '0' as int));
    assert(split_on(body, ';').map_values(|p: Seq<char>| param_value(p)) =~= seq![param_value(body)]);
}

/// `ESC [ 3<n> m` sets the foreground to the `n`-th standard colour (black,
/// red, green, yellow, blue, magenta, cyan, white), `ESC [ 4<n> m` the
/// background, and `ESC [ 9<n> m` the foreground to its bright variant, for
/// every `n` in `0..=7`; nothing else of the style changes. So the eight
/// codes of each group name eight different colours.
pub proof fn law_sgr_colour_codes(style: Style, c: char)
    requires
        '0' <= c <= '7',
    ensures
        apply_sgr_model(style, seq!['3', c]) == (Style { fg: Some(standard_colors()[c as int - '0' as int]), ..style }),
        apply_sgr_model(style, seq!['4', c]) == (Style { bg: Some(standard_colors()[c as int - '0' as int]), ..style }),
        apply_sgr_model(style, seq!['9', c]) == (Style { fg: Some(bright_colors()[c as int - '0' as int]), ..style }),
        forall|i: int, j: int| 0 <= i < j < 8 ==> standard_colors()[i] != standard_colors()[j] && bright_colors()[i]
            != bright_colors()[j],
{
    let k = c as int - '0' as int;
    lemma_two_digit_body('3', c);
    lemma_two_digit_body('4', c);
    lemma_two_digit_body('9', c);
    assert(sgr_from(sgr_one(style, (30 + k) as u8), seq![(30 + k) as u8], 1) == sgr_one(style, (30 + k) as u8));
    assert(sgr_from(sgr_one(style, (40 + k) as u8), seq![(40 + k) as u8], 1) == sgr_one(style, (40 + k) as u8));
    assert(sgr_from(sgr_one(style, (90 + k) as u8), seq![(90 + k) as u8], 1) == sgr_one(style, (90 + k) as u8));
    assert(basic_color(k, false) == standard_colors()[k]);
    assert(basic_color(k, true) == bright_colors()[k]);
}

} // verus!
