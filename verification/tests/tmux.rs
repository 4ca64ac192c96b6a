use factory_tui::tmux::{capture_pane, census_command, focus, query_all, strip_ansi, CENSUS_FORMAT};

#[test]
fn strip_csi_and_cr() {
    assert_eq!(strip_ansi("\u{1b}[32mhello\u{1b}[0m\r\nworld"), "hello\nworld");
}

#[test]
fn strip_osc_and_other_escapes() {
    assert_eq!(strip_ansi("a\u{1b}]0;title\u{7}b"), "ab");
    assert_eq!(strip_ansi("a\u{1b}(Bb"), "aBb");
    assert_eq!(strip_ansi("tab\there\u{8}\u{0}"), "tab\there");
    assert_eq!(strip_ansi("dangling\u{1b}"), "dangling");
    assert_eq!(strip_ansi("\u{1b}[31"), "");
}

fn line(session: &str, wid: &str, widx: &str, wname: &str, pid: &str, pidx: &str, active: &str, cmd: &str, title: &str) -> String {
    format!(
        "{session}\t1\t{wid}\t{widx}\t{wname}\t1\t100\t40\t{pid}\t{pidx}\t0\t0\t50\t40\t{active}\t{cmd}\t/tmp\t{title}"
    )
}

#[test]
fn census_groups_panes_by_window_and_sorts_by_session_then_index() {
    let raw = [
        line("beta", "@3", "10", "logs", "%5", "0", "1", "tail", "t5"),
        line("alpha", "@2", "2", "tests", "%3", "0", "1", "cargo", ""),
        line("alpha", "@1", "1", "editor", "%1", "0", "0", "vim", "one"),
        line("alpha", "@1", "1", "editor", "%2", "1", "1", "bash", "two"),
        "too\tfew\tfields".to_string(),
        line("beta", "@4", "9", "shell", "%6", "0", " 1 ", "zsh", ""),
    ]
    .join("\n")
        + "\n";
    let wins = query_all(&raw);
    let ids: Vec<&str> = wins.iter().map(|w| w.id.as_str()).collect();
    assert_eq!(ids, ["@1", "@2", "@4", "@3"]);
    assert_eq!(wins[0].panes.len(), 2);
    assert_eq!(wins[0].panes[0].id, "%1");
    assert!(!wins[0].panes[0].active);
    assert_eq!(wins[0].panes[1].title, "two");
    assert!(wins[0].panes[1].active);
    assert_eq!(wins[0].w, 100);
    assert_eq!(wins[0].h, 40);
    assert_eq!(wins[0].panes[0].width, 50);
    assert!(wins[2].panes[0].active, "a padded active flag still counts");
}

#[test]
fn census_defaults_unreadable_numbers() {
    let raw = "s\t1\t@1\tx\tn\t1\twide\t\t%1\t0\t-1\t+2\tbig\t70000\t0\tc\t/p\tt";
    let wins = query_all(raw);
    assert_eq!(wins.len(), 1);
    assert_eq!(wins[0].w, 80);
    assert_eq!(wins[0].h, 24);
    assert_eq!(wins[0].panes[0].left, 0);
    assert_eq!(wins[0].panes[0].top, 2);
    assert_eq!(wins[0].panes[0].width, 1);
    assert_eq!(wins[0].panes[0].height, 1);
    assert_eq!(wins[0].panes[0].path, "/p");
}

#[test]
fn census_of_nothing_is_empty() {
    assert!(query_all("").is_empty());
    assert!(query_all("\n\n").is_empty());
}

#[test]
fn preview_and_jump_tmux_commands_remain_non_resizing() {
    let census = census_command();
    assert_eq!(census[0], "list-panes");
    let capture = capture_pane("%7");
    assert_eq!(capture, ["capture-pane", "-ept", "%7", "-J", "-S", "-80"]);
    let jump = focus("work", "@3", Some("%7"));
    assert_eq!(jump[0], ["switch-client", "-t", "work"]);
    assert_eq!(jump[1], ["select-window", "-t", "@3"]);
    assert_eq!(jump[2], ["select-pane", "-t", "%7"]);
    assert_eq!(focus("work", "@3", None).len(), 2);
    for cmd in census.iter().chain(capture.iter()).chain(jump.iter().flatten()) {
        assert!(!cmd.contains("resize-pane"));
    }
}

#[test]
fn census_queries_every_sampler_field() {
    for field in ["pane_current_command", "pane_current_path", "pane_title", "window_name"] {
        assert!(CENSUS_FORMAT.contains(&format!("#{{{field}}}")), "tmux does not query {field}");
    }
}

#[test]
fn the_census_is_sorted_for_any_line_order() {
    let raw = [
        line("beta", "@7", "2", "b2", "%7", "0", "1", "zsh", ""),
        line("alpha", "@3", "10", "a10", "%3", "0", "1", "zsh", ""),
        line("alpha", "@1", "9", "a9", "%1", "0", "1", "zsh", ""),
        line("beta", "@5", "1", "b1", "%5", "0", "1", "zsh", ""),
    ]
    .join("\n");
    let wins = query_all(&raw);
    let keys: Vec<(String, String)> = wins.iter().map(|w| (w.session.clone(), w.index.clone())).collect();
    assert_eq!(
        keys,
        vec![
            ("alpha".to_string(), "9".to_string()),
            ("alpha".to_string(), "10".to_string()),
            ("beta".to_string(), "1".to_string()),
            ("beta".to_string(), "2".to_string()),
        ]
    );
}

#[test]
fn stripping_twice_is_stripping_once_and_plain_text_stays() {
    let raw = "\u{1b}[1;32mok\u{1b}[0m\r\n\u{1b}]2;t\u{7}done\u{8}\u{1b}x!";
    let once = strip_ansi(raw);
    assert_eq!(strip_ansi(&once), once);
    let mut rest = raw.chars();
    for c in once.chars() {
        assert!(rest.any(|r| r == c), "stripped text keeps the input's order");
    }
    assert_eq!(strip_ansi("plain\ttext\nlines"), "plain\ttext\nlines");
}
