use factory_tui::ansi::{Color, BOLD, DIM, REVERSED};
use factory_tui::app::Row;
use factory_tui::geometry::Rect;
use factory_tui::tree::{Kind, Status};
use factory_tui::tmux::{Pane, Win};
use factory_tui::view::{
    decimal, info_line, inner, pane_tag, row_line, row_style, seat_heights, seat_title, status_style,
    tail_text, top_title,
};

fn row(depth: usize, title: &str, has_children: bool, expanded: bool, window_count: usize) -> Row {
    Row {
        id: "x".to_string(),
        depth,
        title: title.to_string(),
        kind: Kind::Window,
        status: Status::Unknown,
        has_children,
        expanded,
        window_count,
    }
}

#[test]
fn decimals() {
    assert_eq!(decimal(0), "0");
    assert_eq!(decimal(7), "7");
    assert_eq!(decimal(10), "10");
    assert_eq!(decimal(4096), "4096");
    assert_eq!(decimal(usize::MAX), usize::MAX.to_string());
}

#[test]
fn row_lines_indent_mark_and_count() {
    assert_eq!(row_line(&row(0, "work", true, true, 3)), "▾ work");
    assert_eq!(row_line(&row(1, "split", true, false, 1)), "  ▸ split (1)");
    assert_eq!(row_line(&row(2, "2:bash", false, false, 0)), "      2:bash");
}

#[test]
fn row_and_status_styles() {
    let s = row_style(Kind::SessionGroup, Status::Running, false);
    assert_eq!(s.fg, Some(Color::Blue));
    assert_eq!(s.add_modifier, BOLD);
    let s = row_style(Kind::Window, Status::Parked, true);
    assert_eq!(s.fg, Some(Color::Red));
    assert_eq!(s.add_modifier, REVERSED | BOLD);
    let s = row_style(Kind::Pane, Status::Idle, false);
    assert_eq!(s.fg, None);
    assert_eq!(s.add_modifier, 0);
    assert_eq!(status_style(Status::Running).fg, Some(Color::Blue));
    assert_eq!(status_style(Status::Parked).fg, Some(Color::Red));
    assert_eq!(status_style(Status::Idle).add_modifier, DIM);
    assert_eq!(status_style(Status::Unknown).add_modifier, DIM);
}

#[test]
fn inner_steps_in_one_cell() {
    assert_eq!(inner(Rect { x: 0, y: 2, width: 10, height: 5 }), Rect { x: 1, y: 3, width: 8, height: 3 });
    assert_eq!(inner(Rect { x: 4, y: 4, width: 1, height: 0 }), Rect { x: 5, y: 5, width: 0, height: 0 });
}

#[test]
fn tail_text_shows_the_end_and_scrolls_back() {
    let raw = "a\nb\nc\nd\ne";
    let contents = |t: &factory_tui::ansi::Text| -> Vec<String> {
        t.lines.iter().map(|l| l.spans.iter().map(|s| s.content.clone()).collect::<String>()).collect()
    };
    assert_eq!(contents(&tail_text(raw, 2, 0)), vec!["d", "e"]);
    assert_eq!(contents(&tail_text(raw, 2, 1)), vec!["c", "d"]);
    assert_eq!(contents(&tail_text(raw, 2, 10)), vec!["a"]);
    assert_eq!(contents(&tail_text(raw, 10, 0)), vec!["a", "b", "c", "d", "e"]);
    assert!(tail_text(raw, 0, 0).lines.is_empty());
    assert_eq!(contents(&tail_text("", 5, 0)), vec!["(empty pane)"]);
}

#[test]
fn seat_panel_heights() {
    assert_eq!(seat_heights(2, 30, true), (3, 5));
    assert_eq!(seat_heights(0, 30, false), (1, 0));
    assert_eq!(seat_heights(2, 8, true), (2, 2));
    assert_eq!(seat_heights(2, 4, true), (1, 0));
}

#[test]
fn titles_and_the_info_line() {
    let r = row(1, "split", true, true, 1);
    assert_eq!(top_title(Some(&r)), " factory  ·  split");
    assert_eq!(top_title(None), " factory");
    let pane = Pane {
        id: "%2".to_string(),
        index: "2".to_string(),
        left: 0,
        top: 0,
        width: 1,
        height: 1,
        active: false,
        cmd: "bash".to_string(),
        path: "/".to_string(),
        title: String::new(),
    };
    let win = Win {
        session: "work".to_string(),
        id: "@1".to_string(),
        index: "1".to_string(),
        name: "notes".to_string(),
        w: 80,
        h: 24,
        panes: Vec::new(),
    };
    assert_eq!(seat_title(Some(&win)), " work:notes ");
    assert_eq!(seat_title(None), " seat ");
    assert_eq!(pane_tag(Some(&pane)), "2:bash");
    assert_eq!(pane_tag(None), "?");
    assert_eq!(info_line("2:bash", 3), "preview 2:bash  ·  3 pane(s)  ·  snapshot, not a live embed");
}
