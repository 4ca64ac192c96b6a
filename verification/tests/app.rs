use factory_tui::app::{preview_pane_for, App, ClickTarget, Key, MouseKind};
use factory_tui::config::Config;
use factory_tui::geometry::Rect;
use factory_tui::tmux::{Pane, Win};
use factory_tui::tree::{build, Kind};

fn pane(id: &str, index: &str) -> Pane {
    Pane {
        id: id.to_string(),
        index: index.to_string(),
        left: 0,
        top: 0,
        width: 80,
        height: 24,
        active: index == "1",
        cmd: "vim".to_string(),
        path: "/tmp".to_string(),
        title: String::new(),
    }
}

fn win(id: &str, name: &str, panes: Vec<Pane>) -> Win {
    Win {
        session: "work".to_string(),
        id: id.to_string(),
        index: id.trim_start_matches('@').to_string(),
        name: name.to_string(),
        w: 80,
        h: 24,
        panes,
    }
}

fn census() -> Vec<Win> {
    vec![
        win("@1", "solo", vec![pane("%10", "0")]),
        win("@2", "split", vec![pane("%20", "0"), pane("%21", "1"), pane("%22", "2")]),
    ]
}

fn rect(x: u16, y: u16, width: u16, height: u16) -> Rect {
    Rect { x, y, width, height }
}

fn ids(app: &App) -> Vec<String> {
    app.rows.iter().map(|r| r.id.clone()).collect()
}

#[test]
fn selecting_a_pane_node_targets_that_pane() {
    let root = build(census(), &Config::empty().sampler);
    let session = &root.children[0];
    let solo = &session.children[0];
    let split = &session.children[1];

    assert_eq!(preview_pane_for(solo, Some("%99")).as_deref(), Some("%10"));

    assert_eq!(split.children.len(), 3, "the split window has no pane rows");
    for (row, expected) in split.children.iter().zip(["%20", "%21", "%22"]) {
        assert_eq!(row.kind, Kind::Pane);
        assert_eq!(
            preview_pane_for(row, Some("%99")).as_deref(),
            Some(expected),
            "a pane row must override the pane already being watched"
        );
    }

    assert_eq!(preview_pane_for(split, Some("%22")).as_deref(), Some("%22"));
    assert_eq!(preview_pane_for(split, None).as_deref(), Some("%21"));
    assert_eq!(preview_pane_for(split, Some("%99")).as_deref(), Some("%21"));

    assert_eq!(preview_pane_for(session, Some("%20")), None);
}

#[test]
fn a_new_browser_opens_everything_and_selects_the_first_window() {
    let (app, fx) = App::new(Config::empty(), census());
    assert_eq!(
        ids(&app),
        vec![
            "session/work",
            "session/work/@1",
            "session/work/@2",
            "session/work/@2/%20",
            "session/work/@2/%21",
            "session/work/@2/%22",
        ]
    );
    assert_eq!(app.selected, 1);
    assert_eq!(app.rows[0].depth, 0);
    assert_eq!(app.rows[1].depth, 1);
    assert_eq!(app.rows[3].depth, 2);
    assert!(app.rows[0].expanded && app.rows[2].expanded);
    assert_eq!(app.rows[0].window_count, 2);
    assert_eq!(app.preview_pane.as_deref(), Some("%10"));
    assert_eq!(app.status, "snapshot preview · Enter jumps · q quits");
    assert!(fx.peek && fx.capture && !fx.refresh && fx.jump.is_none());
    assert!(!app.should_quit);
}

#[test]
fn an_empty_census_has_no_rows_and_asks_for_nothing() {
    let (mut app, fx) = App::new(Config::empty(), Vec::new());
    assert!(app.rows.is_empty());
    assert_eq!(app.selected, 0);
    assert!(!fx.peek && !fx.capture);
    let fx = app.on_key(Key::Down);
    assert!(!fx.peek && !fx.capture);
    assert_eq!(app.selected, 0);
    let fx = app.on_key(Key::Enter);
    assert!(fx.jump.is_none());
    assert_eq!(app.status, "no window on this node");
}

#[test]
fn moving_is_held_to_the_rows() {
    let (mut app, _) = App::new(Config::empty(), census());
    app.on_key(Key::Char('j'));
    assert_eq!(app.selected, 2);
    assert_eq!(app.preview_pane.as_deref(), Some("%21"), "a multi-pane window previews its active pane");
    app.on_key(Key::PageDown);
    assert_eq!(app.selected, 5);
    assert_eq!(app.preview_pane.as_deref(), Some("%22"));
    app.on_key(Key::PageUp);
    assert_eq!(app.selected, 0);
    app.on_key(Key::End);
    assert_eq!(app.selected, 5);
    app.on_key(Key::Home);
    assert_eq!(app.selected, 0);
    let fx = app.move_sel(-3);
    assert_eq!(app.selected, 0);
    assert!(!fx.peek, "a session row has no window to peek at");
    assert!(app.preview_pane.is_none());
    assert_eq!(app.preview, "");
}

#[test]
fn toggling_folds_and_unfolds_a_row() {
    let (mut app, _) = App::new(Config::empty(), census());
    app.on_key(Key::Down);
    assert_eq!(app.selected, 2);
    app.on_key(Key::Left);
    assert_eq!(ids(&app), vec!["session/work", "session/work/@1", "session/work/@2"]);
    assert!(!app.rows[2].expanded);
    assert_eq!(app.rows[2].window_count, 1);
    app.on_key(Key::Left);
    assert_eq!(app.rows.len(), 3, "a closed row does not close again");
    app.on_key(Key::Right);
    assert_eq!(app.rows.len(), 6);
    app.on_key(Key::Home);
    app.on_key(Key::Char(' '));
    assert_eq!(ids(&app), vec!["session/work"]);
    app.on_key(Key::Char('l'));
    assert_eq!(app.rows.len(), 6);
    app.on_key(Key::Char('j'));
    let before = app.rows.len();
    app.on_key(Key::Char(' '));
    assert_eq!(app.rows.len(), before, "a leaf does not toggle");
}

#[test]
fn panes_cycle_both_ways_and_wrap() {
    let (mut app, _) = App::new(Config::empty(), census());
    app.on_key(Key::Down);
    assert_eq!(app.preview_pane.as_deref(), Some("%21"));
    let fx = app.on_key(Key::Tab);
    assert!(fx.capture);
    assert_eq!(app.preview_pane.as_deref(), Some("%22"));
    app.on_key(Key::Char(']'));
    assert_eq!(app.preview_pane.as_deref(), Some("%20"));
    app.on_key(Key::BackTab);
    assert_eq!(app.preview_pane.as_deref(), Some("%22"));
    app.on_key(Key::Char('['));
    assert_eq!(app.preview_pane.as_deref(), Some("%21"));
}

#[test]
fn enter_jumps_to_the_previewed_pane_and_quit_keys_quit() {
    let (mut app, _) = App::new(Config::empty(), census());
    let fx = app.on_key(Key::Enter);
    let expected: Vec<Vec<String>> = vec![
        vec!["switch-client".into(), "-t".into(), "work".into()],
        vec!["select-window".into(), "-t".into(), "@1".into()],
        vec!["select-pane".into(), "-t".into(), "%10".into()],
    ];
    assert_eq!(fx.jump, Some(expected));
    assert!(!app.should_quit, "the jump has not run yet");
    app.jumped();
    assert!(app.should_quit);

    let (mut app, _) = App::new(Config::empty(), census());
    app.on_key(Key::Char('q'));
    assert!(app.should_quit);
    let (mut app, _) = App::new(Config::empty(), census());
    app.on_key(Key::Esc);
    assert!(app.should_quit);
    let (mut app, _) = App::new(Config::empty(), census());
    assert!(app.on_key(Key::Char('r')).refresh);
    assert!(!app.on_key(Key::Char('x')).refresh);
}

#[test]
fn reload_keeps_the_selected_row() {
    let (mut app, _) = App::new(Config::empty(), census());
    app.on_key(Key::Down);
    app.on_key(Key::Down);
    assert_eq!(app.rows[app.selected].id, "session/work/@2/%20");
    let mut fresh = census();
    fresh.insert(0, win("@0", "new", vec![pane("%1", "0")]));
    let fx = app.refresh(fresh);
    assert_eq!(app.rows[app.selected].id, "session/work/@2/%20");
    assert_eq!(app.selected, 4);
    assert_eq!(app.status, "refreshed");
    assert!(fx.peek && fx.capture);

    let fx = app.refresh(vec![win("@9", "other", vec![pane("%9", "0")])]);
    assert_eq!(app.rows.len(), 2);
    assert_eq!(app.selected, 1);
    assert_eq!(app.preview_pane.as_deref(), Some("%9"));
    assert!(fx.capture);
}

#[test]
fn clicks_select_rows_preview_panes_and_double_clicks_jump() {
    let (mut app, _) = App::new(Config::empty(), census());
    app.set_tree_area(rect(1, 1, 30, 10));
    app.set_seat_areas(rect(40, 2, 30, 5), rect(40, 8, 30, 10));
    let none: Vec<(usize, Rect)> = Vec::new();

    let fx = app.on_mouse(MouseKind::LeftDown, 5, 3, 1000, &none);
    assert_eq!(app.selected, 2);
    assert!(fx.peek && fx.jump.is_none());
    assert!(matches!(app.last_click, Some((1000, ClickTarget::Tree(2)))));

    let boxes = vec![(0, rect(40, 2, 10, 5)), (1, rect(50, 2, 10, 5)), (2, rect(60, 2, 10, 5))];
    let fx = app.on_mouse(MouseKind::LeftDown, 61, 3, 1100, &boxes);
    assert!(fx.capture);
    assert_eq!(app.preview_pane.as_deref(), Some("%22"));

    let fx = app.on_mouse(MouseKind::LeftDown, 62, 4, 1300, &boxes);
    let jump = fx.jump.expect("a double click jumps");
    assert_eq!(jump[2], vec!["select-pane".to_string(), "-t".to_string(), "%22".to_string()]);

    let fx = app.on_mouse(MouseKind::LeftDown, 62, 4, 2000, &boxes);
    assert!(fx.jump.is_none(), "too slow to be a double click");

    app.on_mouse(MouseKind::LeftDown, 200, 200, 2100, &boxes);
    assert!(app.last_click.is_none());
    assert_eq!(app.cursor, (200, 200));

    let fx = app.on_mouse(MouseKind::LeftDown, 5, 10, 3000, &none);
    assert!(fx.jump.is_none() && !fx.peek, "below the last row selects nothing");
    assert!(app.last_click.is_none());
}

#[test]
fn the_wheel_scrolls_the_preview_or_the_tree_and_drops_bursts() {
    let (mut app, _) = App::new(Config::empty(), census());
    app.set_tree_area(rect(1, 1, 30, 10));
    app.set_seat_areas(rect(40, 2, 30, 5), rect(40, 8, 30, 10));
    let none: Vec<(usize, Rect)> = Vec::new();

    app.on_mouse(MouseKind::ScrollDown, 5, 5, 100, &none);
    assert_eq!(app.selected, 2);
    app.on_mouse(MouseKind::ScrollDown, 5, 5, 120, &none);
    assert_eq!(app.selected, 2, "a notch within 50 ms is part of the same click");
    app.on_mouse(MouseKind::ScrollUp, 5, 5, 200, &none);
    assert_eq!(app.selected, 1);

    app.on_mouse(MouseKind::ScrollDown, 45, 9, 300, &none);
    assert_eq!(app.preview_from_bottom, 1);
    app.on_mouse(MouseKind::ScrollDown, 45, 9, 400, &none);
    assert_eq!(app.preview_from_bottom, 2);
    app.on_mouse(MouseKind::ScrollUp, 45, 9, 500, &none);
    assert_eq!(app.preview_from_bottom, 1);
    app.on_mouse(MouseKind::ScrollUp, 45, 9, 600, &none);
    app.on_mouse(MouseKind::ScrollUp, 45, 9, 700, &none);
    assert_eq!(app.preview_from_bottom, 0);
    assert_eq!(app.selected, 1);
}

#[test]
fn the_selection_stays_on_screen() {
    let (mut app, _) = App::new(Config::empty(), census());
    app.set_tree_area(rect(0, 0, 20, 2));
    app.on_key(Key::End);
    assert_eq!(app.scroll, 4);
    app.on_key(Key::Home);
    assert_eq!(app.scroll, 0);
}

#[test]
fn refresh_preview_asks_for_a_capture_only_with_a_pane() {
    let (mut app, _) = App::new(Config::empty(), census());
    app.set_preview("snapshot".to_string());
    assert!(app.refresh_preview().capture);
    assert_eq!(app.preview, "snapshot");
    app.on_key(Key::Home);
    app.set_preview("stale".to_string());
    assert!(!app.refresh_preview().capture);
    assert_eq!(app.preview, "");
    app.set_peek(vec!["STATUS ok".to_string()]);
    assert_eq!(app.peek, vec!["STATUS ok"]);
}

#[test]
fn the_previewed_pane_is_found_in_the_selected_window() {
    let (mut app, _) = App::new(Config::empty(), census());
    app.on_key(Key::Down);
    let meta = app.preview_pane_meta().expect("the active pane is previewed");
    assert_eq!(meta.id, "%21");
    assert_eq!(app.selected_win().map(|w| w.id.as_str()), Some("@2"));
    assert_eq!(app.selected_node().map(|n| n.id.as_str()), Some("session/work/@2"));
    assert_eq!(app.current().map(|r| r.title.as_str()), Some("split"));
}
