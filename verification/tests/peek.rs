use factory_tui::peek::{brief_paths, fallback_status_paths, guess_ms, peek, status_paths};
use factory_tui::tmux::{Pane, Win};

fn pane(id: &str, path: &str) -> Pane {
    Pane {
        id: id.to_string(),
        index: "0".to_string(),
        left: 0,
        top: 0,
        width: 80,
        height: 24,
        active: true,
        cmd: "bash".to_string(),
        path: path.to_string(),
        title: String::new(),
    }
}

fn win(name: &str, paths: &[&str]) -> Win {
    Win {
        session: "work".to_string(),
        id: "@1".to_string(),
        index: "1".to_string(),
        name: name.to_string(),
        w: 80,
        h: 24,
        panes: paths.iter().enumerate().map(|(i, p)| pane(&format!("%{i}"), p)).collect(),
    }
}

fn some(s: &str) -> Option<String> {
    Some(s.to_string())
}

#[test]
fn milestones_come_from_the_window_name() {
    assert_eq!(guess_ms("keri-ms8-blaster"), "8");
    assert_eq!(guess_ms("ms12-routine"), "12");
    assert_eq!(guess_ms("ms-x"), "");
    assert_eq!(guess_ms("notes"), "");
    assert_eq!(guess_ms("a-msx"), "");
}

#[test]
fn candidate_files_sit_next_to_each_pane() {
    let w = win("keri-ms3-x", &["/w/a", "/w/b/", ""]);
    assert_eq!(
        brief_paths(&w),
        vec!["/w/a/.orch/window-brief.md", "/w/b/.orch/window-brief.md", ".orch/window-brief.md"]
    );
    assert_eq!(status_paths(&w), vec!["/w/a/STATUS.md", "/w/b/STATUS.md", "STATUS.md"]);
    assert_eq!(
        fallback_status_paths(&w),
        vec!["/tmp/machine/STATUS.md", "/tmp/orch/STATUS.md", "/tmp/ms-3/STATUS.md"]
    );
    assert_eq!(
        fallback_status_paths(&win("notes", &[])),
        vec!["/tmp/machine/STATUS.md", "/tmp/orch/STATUS.md"]
    );
}

#[test]
fn peek_takes_the_first_brief_head_and_status_tail() {
    let w = win("notes", &["/a", "/b"]);
    let briefs = vec![None, some("---\n\n  goal: ship  \nmore\n")];
    let statuses = vec![some("\n \n"), some("one\ntwo\n\n")];
    let lines = peek(&w, &briefs, &statuses, &vec![some("fallback")]);
    assert_eq!(lines, vec!["brief  goal: ship", "STATUS two"]);
}

#[test]
fn peek_falls_back_to_host_status_files() {
    let w = win("notes", &["/a"]);
    let lines = peek(&w, &vec![None], &vec![None], &vec![None, some("host\nlast line")]);
    assert_eq!(lines, vec!["STATUS last line"]);
    let nothing = peek(&w, &vec![None], &vec![None], &vec![None, None]);
    assert!(nothing.is_empty());
}
