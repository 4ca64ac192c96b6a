//! What the screen shows, short of drawing it: the text of a tree row, the
//! styles rows and statuses are drawn in, the preview's visible tail, and the
//! sizes the seat panel is split into.

use vstd::prelude::*;

use crate::ansi::{
    add_attrs, plain, to_text, to_text_model, with_added, Color, Line, Span, SpanModel, Style, Text, BOLD, DIM,
    REVERSED,
};
use crate::app::{Row, RowModel};
use crate::geometry::Rect;
use crate::text::{chars_of, push_char, push_str, same};
use crate::tmux::{Pane, PaneModel, Win, WinModel};
use crate::tree::{Kind, Status};

verus! {

/// A digit's character.
pub open spec fn digit_char(d: nat) -> char {
    if d == 0 { '0' } else if d == 1 { '1' } else if d == 2 { '2' } else if d == 3 { '3' }
    else if d == 4 { '4' } else if d == 5 { '5' } else if d == 6 { '6' } else if d == 7 { '7' }
    else if d == 8 { '8' } else { '9' }
}

/// `n` in decimal, without leading zeros.
pub open spec fn decimal_model(n: nat) -> Seq<char>
    decreases n,
{
    if n < 10 {
        seq![digit_char(n)]
    } else {
        decimal_model(n / 10).push(digit_char(n % 10))
    }
}

fn digit(d: usize) -> (c: char)
    requires
        d < 10,
    ensures
        c == digit_char(d as nat),
{
    match d {
        0 => '0',
        1 => '1',
        2 => '2',
        3 => '3',
        4 => '4',
        5 => '5',
        6 => '6',
        7 => '7',
        8 => '8',
        _ => '9',
    }
}

/// `n` in decimal.
pub fn decimal(n: usize) -> (r: String)
    ensures
        r@ == decimal_model(n as nat),
    decreases n,
{
    if n < 10 {
        let mut s = String::new();
        push_char(&mut s, digit(n));
        s
    } else {
        let mut s = decimal(n / 10);
        push_char(&mut s, digit(n % 10));
        s
    }
}

/// `s` written `n` times.
pub open spec fn repeat_model(s: Seq<char>, n: nat) -> Seq<char>
    decreases n,
{
    if n == 0 {
        Seq::empty()
    } else {
        repeat_model(s, (n - 1) as nat) + s
    }
}

/// The marker in front of a row's title: blank for a leaf, an open or a
/// closed triangle otherwise.
pub open spec fn marker_model(row: RowModel) -> Seq<char> {
    if !row.has_children {
        " "@
    } else if row.expanded {
        "▾"@
    } else {
        "▸"@
    }
}

/// The text of a tree row: two spaces per level, the marker, the title, and
/// for a closed row with children how many windows it hides.
pub open spec fn row_line_model(row: RowModel) -> Seq<char> {
    let count = if row.has_children && !row.expanded {
        " ("@ + decimal_model(row.window_count) + ")"@
    } else {
        Seq::empty()
    };
    repeat_model("  "@, row.depth as nat) + marker_model(row) + " "@ + row.title + count
}

/// The text of a tree row.
pub fn row_line(row: &Row) -> (r: String)
    ensures
        r@ == row_line_model(row@),
{
    let mut out = String::new();
    for i in 0..row.depth
        invariant
            out@ == repeat_model("  "@, i as nat),
    {
        push_str(&mut out, "  ");
    }
    let marker = if !row.has_children {
        " "
    } else if row.expanded {
        "▾"
    } else {
        "▸"
    };
    push_str(&mut out, marker);
    push_str(&mut out, " ");
    push_str(&mut out, row.title.as_str());
    if row.has_children && !row.expanded {
        push_str(&mut out, " (");
        let n = decimal(row.window_count);
        push_str(&mut out, n.as_str());
        push_str(&mut out, ")");
    }
    out
}

/// The style a row is drawn in: sessions bold blue, parked rows red, the
/// selected row reversed and bold.
pub open spec fn row_style_model(kind: Kind, status: Status, selected: bool) -> Style {
    let base = if kind == Kind::SessionGroup {
        with_added(Style { fg: Some(Color::Blue), ..plain() }, BOLD)
    } else {
        plain()
    };
    let tinted = if status == Status::Parked {
        Style { fg: Some(Color::Red), ..base }
    } else {
        base
    };
    if selected {
        with_added(tinted, REVERSED | BOLD)
    } else {
        tinted
    }
}

/// The style a row is drawn in. Dark accents only: light ones vanish on a
/// light terminal background.
pub fn row_style(kind: Kind, status: Status, selected: bool) -> (r: Style)
    ensures
        r == row_style_model(kind, status, selected),
{
    let plain_style = Style { fg: None, bg: None, add_modifier: 0, sub_modifier: 0 };
    let mut s = if kind == Kind::SessionGroup {
        add_attrs(Style { fg: Some(Color::Blue), ..plain_style }, BOLD)
    } else {
        plain_style
    };
    if status == Status::Parked {
        s = Style { fg: Some(Color::Red), ..s };
    }
    if selected {
        s = add_attrs(s, REVERSED | BOLD);
    }
    s
}

/// The style a status word is drawn in.
pub open spec fn status_style_model(status: Status) -> Style {
    match status {
        Status::Running => Style { fg: Some(Color::Blue), ..plain() },
        Status::Parked => Style { fg: Some(Color::Red), ..plain() },
        Status::Idle | Status::Unknown => with_added(plain(), DIM),
    }
}

/// The style a status word is drawn in.
pub fn status_style(status: Status) -> (r: Style)
    ensures
        r == status_style_model(status),
{
    let plain_style = Style { fg: None, bg: None, add_modifier: 0, sub_modifier: 0 };
    match status {
        Status::Running => Style { fg: Some(Color::Blue), ..plain_style },
        Status::Parked => Style { fg: Some(Color::Red), ..plain_style },
        Status::Idle | Status::Unknown => add_attrs(plain_style, DIM),
    }
}

/// A block's inside: one cell in from every edge.
pub fn inner(area: Rect) -> (r: Rect)
    requires
        area.x < u16::MAX,
        area.y < u16::MAX,
    ensures
        r == (Rect {
            x: (area.x + 1) as u16,
            y: (area.y + 1) as u16,
            width: if area.width >= 2 { (area.width - 2) as u16 } else { 0 },
            height: if area.height >= 2 { (area.height - 2) as u16 } else { 0 },
        }),
{
    Rect {
        x: area.x + 1,
        y: area.y + 1,
        width: if area.width >= 2 { area.width - 2 } else { 0 },
        height: if area.height >= 2 { area.height - 2 } else { 0 },
    }
}

/// The lines of a snapshot that fit in `height` rows, scrolled back
/// `from_bottom` lines from the end (never past the first line). A snapshot
/// with nothing in it says so.
pub open spec fn tail_model(raw: Seq<char>, height: int, from_bottom: int) -> Seq<Seq<SpanModel>> {
    if height == 0 {
        Seq::empty()
    } else {
        let lines = to_text_model(raw);
        if lines.len() == 0 || (lines.len() == 1 && lines[0].len() == 0) {
            seq![seq![SpanModel { content: "(empty pane)"@, style: plain() }]]
        } else {
            let back = if lines.len() > from_bottom { lines.len() - from_bottom } else { 0 };
            let end = if back >= 1 { back } else { 1 };
            let start = if end > height { end - height } else { 0 };
            lines.subrange(start, end)
        }
    }
}

fn copy_line(l: &Line) -> (r: Line)
    ensures
        r@ == l@,
{
    let mut spans: Vec<Span> = Vec::new();
    for i in 0..l.spans.len()
        invariant
            crate::ansi::spans_model(spans@) == crate::ansi::spans_model(l.spans@).take(i as int),
    {
        let ghost before = spans@;
        let s = Span { content: l.spans[i].content.clone(), style: l.spans[i].style };
        spans.push(s);
        assert(crate::ansi::spans_model(spans@) =~= crate::ansi::spans_model(before).push(s@));
        assert(crate::ansi::spans_model(l.spans@).take(i + 1) =~= crate::ansi::spans_model(l.spans@).take(
            i as int,
        ).push(l.spans@[i as int]@));
    }
    assert(crate::ansi::spans_model(l.spans@).take(l.spans@.len() as int) =~= crate::ansi::spans_model(l.spans@));
    Line { spans }
}

/// The lines of a snapshot that fit in `height` rows, scrolled back
/// `from_bottom` lines from the end.
pub fn tail_text(raw: &str, height: usize, from_bottom: usize) -> (r: Text)
    ensures
        r@ == tail_model(raw@, height as int, from_bottom as int),
{
    if height == 0 {
        let r = Text { lines: Vec::new() };
        assert(r@ =~= Seq::<Seq<SpanModel>>::empty());
        return r;
    }
    let text = to_text(raw);
    let n = text.lines.len();
    if n == 0 || (n == 1 && text.lines[0].spans.len() == 0) {
        let mut content = String::new();
        push_str(&mut content, "(empty pane)");
        let span = Span { content, style: Style { fg: None, bg: None, add_modifier: 0, sub_modifier: 0 } };
        let mut spans: Vec<Span> = Vec::new();
        spans.push(span);
        let line = Line { spans };
        let mut lines: Vec<Line> = Vec::new();
        lines.push(line);
        let r = Text { lines };
        assert(line@ =~= seq![SpanModel { content: "(empty pane)"@, style: plain() }]);
        assert(r@ =~= seq![line@]);
        return r;
    }
    let back = if n > from_bottom { n - from_bottom } else { 0 };
    let end = if back >= 1 { back } else { 1 };
    let start = if end > height { end - height } else { 0 };
    let ghost all = text@;
    let mut lines: Vec<Line> = Vec::new();
    for k in start..end
        invariant
            start <= end <= n,
            n == text.lines@.len(),
            all == text@,
            lines@.map_values(|l: Line| l@) == all.subrange(start as int, k as int),
    {
        let ghost before = lines@;
        let l = copy_line(&text.lines[k]);
        lines.push(l);
        assert(lines@.map_values(|l: Line| l@) =~= before.map_values(|l: Line| l@).push(l@));
        assert(all.subrange(start as int, k + 1) =~= all.subrange(start as int, k as int).push(all[k as int]));
    }
    Text { lines }
}

/// How tall the seat panel's info block and pane schematic are, inside a
/// panel `height` rows tall: the info block holds the heading and the peek
/// lines (their count taken as a 16-bit row count, wrapping as such), leaves
/// six rows, and is never less than one; the schematic, only for a window of
/// several panes, takes up to five of what is left after four more.
pub open spec fn seat_heights_model(peek_lines: nat, height: u16, multi: bool) -> (u16, u16) {
    let wanted = ((1 + peek_lines) % 0x10000) as u16;
    let room = if height >= 6 { height - 6 } else { 0 };
    let capped = if wanted < room { wanted as int } else { room };
    let info = if capped >= 1 { capped } else { 1 };
    let spare = if height >= info + 4 { height - (info + 4) } else { 0 };
    let schema = if multi {
        if spare < 5 { spare } else { 5 }
    } else {
        0
    };
    (info as u16, schema as u16)
}

/// How tall the seat panel's info block and pane schematic are.
pub fn seat_heights(peek_lines: usize, height: u16, multi: bool) -> (r: (u16, u16))
    ensures
        r == seat_heights_model(peek_lines as nat, height, multi),
{
    let wanted: u16 = ((1 + (peek_lines as u128)) % 0x10000) as u16;
    let room: u16 = if height >= 6 { height - 6 } else { 0 };
    let capped: u16 = if wanted < room { wanted } else { room };
    let info: u16 = if capped >= 1 { capped } else { 1 };
    let spare: u16 = if height >= info + 4 { height - (info + 4) } else { 0 };
    let schema: u16 = if multi {
        if spare < 5 { spare } else { 5 }
    } else {
        0
    };
    (info, schema)
}

/// The heading: the product, and the selected row's title when there is one.
pub open spec fn top_title_model(row: Option<RowModel>) -> Seq<char> {
    match row {
        Some(r) => " factory  ·  "@ + r.title,
        None => " factory"@,
    }
}

/// The heading.
pub fn top_title(row: Option<&Row>) -> (r: String)
    ensures
        r@ == top_title_model(
            match row {
                Some(x) => Some(x@),
                None => None,
            },
        ),
{
    let mut out = String::new();
    match row {
        Some(x) => {
            push_str(&mut out, " factory  ·  ");
            push_str(&mut out, x.title.as_str());
        },
        None => {
            push_str(&mut out, " factory");
        },
    }
    out
}

/// The seat panel's title: the selected window as `session:name`.
pub open spec fn seat_title_model(win: Option<WinModel>) -> Seq<char> {
    match win {
        Some(w) => " "@ + w.session + ":"@ + w.name + " "@,
        None => " seat "@,
    }
}

/// The seat panel's title.
pub fn seat_title(win: Option<&Win>) -> (r: String)
    ensures
        r@ == seat_title_model(
            match win {
                Some(w) => Some(w@),
                None => None,
            },
        ),
{
    let mut out = String::new();
    match win {
        Some(w) => {
            push_str(&mut out, " ");
            push_str(&mut out, w.session.as_str());
            push_str(&mut out, ":");
            push_str(&mut out, w.name.as_str());
            push_str(&mut out, " ");
        },
        None => {
            push_str(&mut out, " seat ");
        },
    }
    out
}

/// How the previewed pane is named: `index:command`, or `?` when there is
/// none.
pub open spec fn pane_tag_model(pane: Option<PaneModel>) -> Seq<char> {
    match pane {
        Some(p) => p.index + ":"@ + p.cmd,
        None => "?"@,
    }
}

/// How the previewed pane is named.
pub fn pane_tag(pane: Option<&Pane>) -> (r: String)
    ensures
        r@ == pane_tag_model(
            match pane {
                Some(p) => Some(p@),
                None => None,
            },
        ),
{
    let mut out = String::new();
    match pane {
        Some(p) => {
            push_str(&mut out, p.index.as_str());
            push_str(&mut out, ":");
            push_str(&mut out, p.cmd.as_str());
        },
        None => {
            push_str(&mut out, "?");
        },
    }
    out
}

/// The seat panel's first line: which pane is previewed, how many the
/// window has, and that the preview is a snapshot.
pub open spec fn info_line_model(tag: Seq<char>, panes: nat) -> Seq<char> {
    "preview "@ + tag + "  ·  "@ + decimal_model(panes) + " pane(s)  ·  snapshot, not a live embed"@
}

/// The seat panel's first line.
pub fn info_line(tag: &str, panes: usize) -> (r: String)
    ensures
        r@ == info_line_model(tag@, panes as nat),
{
    let mut out = String::new();
    push_str(&mut out, "preview ");
    push_str(&mut out, tag);
    push_str(&mut out, "  ·  ");
    push_str(&mut out, decimal(panes).as_str());
    push_str(&mut out, " pane(s)  ·  snapshot, not a live embed");
    out
}


/// The rows the tree panel shows: from the scroll position (clamped to the
/// rows there are) for as many rows as the panel is tall, or to the end.
pub fn visible_rows(scroll: usize, len: usize, height: usize) -> (r: (usize, usize))
    ensures
        r.0 == (if scroll <= len { scroll } else { len }),
        r.1 == (if r.0 + height <= len { r.0 + height } else { len as int }),
{
    let start = if scroll <= len { scroll } else { len };
    let end = if height <= len - start { start + height } else { len };
    (start, end)
}

/// Whether the `vis`-th visible row, counted from `start`, is the selected one.
pub fn is_selected_row(start: usize, vis: usize, selected: usize) -> (r: bool)
    ensures
        r == (start + vis == selected),
{
    selected >= start && selected - start == vis
}

/// Whether the pane `pane_id` is the one being previewed.
pub fn watches(preview: Option<&str>, pane_id: &str) -> (r: bool)
    ensures
        r == (match preview {
            Some(p) => p@ == pane_id@,
            None => false,
        }),
{
    match preview {
        Some(p) => same(&chars_of(p), &chars_of(pane_id)),
        None => false,
    }
}

/// The border a pane is drawn with in the schema: bold green for the
/// previewed pane, dark grey for the others.
pub open spec fn pane_border_model(watching: bool) -> Style {
    if watching {
        with_added(Style { fg: Some(Color::Green), ..plain() }, BOLD)
    } else {
        Style { fg: Some(Color::DarkGray), ..plain() }
    }
}

/// The border a pane is drawn with in the schema.
pub fn pane_border(watching: bool) -> (r: Style)
    ensures
        r == pane_border_model(watching),
{
    let plain_style = Style { fg: None, bg: None, add_modifier: 0, sub_modifier: 0 };
    if watching {
        add_attrs(Style { fg: Some(Color::Green), ..plain_style }, BOLD)
    } else {
        Style { fg: Some(Color::DarkGray), ..plain_style }
    }
}

} // verus!
