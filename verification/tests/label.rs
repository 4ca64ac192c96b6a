use factory_tui::config::{Config, Reinterpreter, Scope, SessionsConfig};
use factory_tui::label::{
    cells, defang_reserved, fit_cells, node_label, pane_label, reinterpret, sanitize_label,
    INFRA_FIELD,
};
use factory_tui::tmux::Pane;
use factory_tui::tree::{Kind, Node, Status};

/// A title any process in a pane can set with one escape sequence.
const HOSTILE: &str = "\u{1b}[31m\u{1b}[2Jred\u{1b}]0;owned\u{7}\r\nsecond\tline\u{8}\u{9b}5m";

/// Text only the renderer may produce.
const RESERVED_DISPLAY: [&str; 6] =
    ["[window=@9]", "[pane=%9]", "[RUNNING]", "[PARKED]", "[idle]", "[infra]"];

/// What `HOSTILE` must look like once it is safe to draw.
const HOSTILE_SAFE: &str = "red second line5m";

fn rules(entries: &[(Scope, &str, &str)]) -> Config {
    Config {
        sessions: SessionsConfig { infra: Vec::new() },
        sampler: Vec::new(),
        reinterpreter: entries
            .iter()
            .map(|(scope, pattern, label)| Reinterpreter {
                scope: *scope,
                pattern: pattern.to_string(),
                label: label.to_string(),
            })
            .collect(),
        status: None,
    }
}

fn infra(patterns: &[&str]) -> Config {
    Config {
        sessions: SessionsConfig { infra: patterns.iter().map(|p| p.to_string()).collect() },
        sampler: Vec::new(),
        reinterpreter: Vec::new(),
        status: None,
    }
}

/// A node carrying one raw name and no status of its own, so that any
/// status word on its rendered row can only have been forged.
fn node(kind: Kind, id: &str, raw_name: &str) -> Node {
    Node {
        id: id.to_string(),
        kind,
        title: raw_name.to_string(),
        status: Status::Unknown,
        win: None,
        pane: None,
        children: Vec::new(),
    }
}

fn pane(index: &str, cmd: &str, title: &str) -> Pane {
    Pane {
        id: "%1".to_string(),
        index: index.to_string(),
        left: 0,
        top: 0,
        width: 80,
        height: 24,
        active: true,
        cmd: cmd.to_string(),
        path: "/tmp".to_string(),
        title: title.to_string(),
    }
}

#[test]
fn raw_name_is_retained_after_reinterpretation() {
    let config = rules(&[(
        Scope::Window,
        "^(?P<project>.+)-t(?P<ticket>[0-9]+)-(?P<goal>.+)$",
        "t$ticket $goal",
    )]);

    let raw = "factory-tui-t26-raw-tree";
    let shown = reinterpret(Scope::Window, raw, &config);
    assert_ne!(shown, raw, "the configured rule never applied");
    assert!(shown.contains("t26 raw-tree"), "replacement missing from {shown:?}");
    assert!(shown.contains(raw), "raw source {raw:?} is not reachable from {shown:?}");
    assert_eq!(shown.lines().count(), 1, "a label is one line: {shown:?}");

    assert_eq!(reinterpret(Scope::Window, "notes", &config), "notes");

    assert_eq!(reinterpret(Scope::Session, raw, &config), raw);
    assert_eq!(reinterpret(Scope::Pane, raw, &config), raw);

    let ordered =
        rules(&[(Scope::Window, "^notes$", "first"), (Scope::Window, "^notes$", "second")]);
    let shown = reinterpret(Scope::Window, "notes", &ordered);
    assert!(shown.starts_with("first"), "a later entry won: {shown:?}");

    let hostile_config = rules(&[(Scope::Pane, "^(?P<all>.+)$", "seat")]);
    let shown = reinterpret(Scope::Pane, HOSTILE, &hostile_config);
    assert!(shown.starts_with("seat"), "{shown:?}");
    assert!(shown.contains(HOSTILE_SAFE), "sanitized source missing from {shown:?}");
    assert!(!shown.contains('\u{1b}'), "{shown:?}");
    assert!(!shown.chars().any(char::is_control), "{shown:?}");
    assert_eq!(shown.lines().count(), 1, "{shown:?}");

    let blank = rules(&[(Scope::Window, "^(?P<kept>.+)$", "$absent")]);
    assert_eq!(reinterpret(Scope::Window, "notes", &blank), "notes");

    let kinds = [
        (Kind::SessionGroup, "session/x", Scope::Session),
        (Kind::Window, "session/x/@1", Scope::Window),
    ];
    for reserved in RESERVED_DISPLAY {
        for (kind, id, scope) in kinds {
            let shown =
                node_label(&node(kind, id, &format!("seat {reserved} tail")), &Config::empty());
            assert!(!shown.contains(reserved), "{kind:?} raw name painted {reserved:?}: {shown:?}");
            assert!(shown.contains("seat"), "{kind:?} lost its raw name: {shown:?}");

            let label = format!("{reserved} x");
            let config = rules(&[(scope, "^plain$", label.as_str())]);
            let shown = node_label(&node(kind, id, "plain"), &config);
            assert!(!shown.contains(reserved), "{kind:?} label painted {reserved:?}: {shown:?}");
            assert!(shown.contains("plain"), "{kind:?} lost its raw source: {shown:?}");
        }
    }

    let infra_config = infra(&["ops-*"]);
    let shown =
        node_label(&node(Kind::SessionGroup, "session/ops-cache", "ops-cache"), &infra_config);
    assert!(shown.ends_with(" [infra]"), "the genuine annotation was lost: {shown:?}");

    let liar = node(Kind::SessionGroup, "session/x", "ops-cache [infra]");
    assert!(!node_label(&liar, &Config::empty()).contains("[infra]"), "unlisted session claimed infra");
}

#[test]
fn sanitize_drops_escapes_controls_and_extra_whitespace() {
    assert_eq!(sanitize_label(HOSTILE), HOSTILE_SAFE);
    assert_eq!(sanitize_label("  a \t b  "), "a b");
    assert_eq!(sanitize_label(""), "");
    assert_eq!(sanitize_label("\u{1b}[1m\u{1b}[0m"), "");
}

#[test]
fn cells_measure_terminal_width() {
    assert_eq!(cells(""), 0);
    assert_eq!(cells("abc"), 3);
    assert_eq!(cells("日本"), 4);
    assert_eq!(cells("e\u{301}"), 1);
}

#[test]
fn fit_cells_cuts_and_marks() {
    assert_eq!(fit_cells("hello", 0), "");
    assert_eq!(fit_cells("hello", 5), "hello");
    assert_eq!(fit_cells("hello", 9), "hello");
    assert_eq!(fit_cells("hello", 4), "hel…");
    assert_eq!(fit_cells("hello", 1), "…");
    assert_eq!(fit_cells("日本語", 4), "日…");
}

#[test]
fn pane_label_prefers_the_title_then_index_and_command() {
    assert_eq!(pane_label(&pane("0", "bash", "owner-1"), 20), "owner-1");
    assert_eq!(pane_label(&pane("2", "bash", ""), 20), "2:bash");
    assert_eq!(pane_label(&pane("2", "bash", "\u{1b}[0m \u{200b}"), 20), "2:bash");
    assert_eq!(pane_label(&pane("0", "bash", "a long operator title"), 6), "a lon…");
    assert_eq!(pane_label(&pane("0", "bash", "x"), 0), "");
}

#[test]
fn defang_turns_renderer_fields_into_plain_text() {
    assert_eq!(defang_reserved("x [window=@1] y"), "x (window=@1] y");
    assert_eq!(defang_reserved("[pane=%3]"), "(pane=%3]");
    assert_eq!(defang_reserved("a [RUNNING] b [PARKED] [idle]"), "a (RUNNING] b (PARKED] (idle]");
    assert_eq!(defang_reserved("ops [infra]"), "ops (infra]");
    assert_eq!(defang_reserved("idle RUNNING window="), "idle RUNNING window=");
    assert_eq!(INFRA_FIELD, "[infra]");
}

#[test]
fn node_label_reinterprets_by_kind() {
    let config = rules(&[
        (Scope::Session, "^shop$", "acme"),
        (Scope::Window, "^w$", "win"),
        (Scope::Pane, "^p$", "pan"),
    ]);
    assert_eq!(node_label(&node(Kind::SessionGroup, "session/shop", "shop"), &config), "acme (shop)");
    assert_eq!(node_label(&node(Kind::Window, "session/shop/@1", "w"), &config), "win (w)");
    assert_eq!(node_label(&node(Kind::Pane, "session/shop/@1/%1", "p"), &config), "pan (p)");
    assert_eq!(node_label(&node(Kind::SessionGroup, "root", "shop"), &config), "shop");
}

#[test]
fn sanitizing_a_sanitized_label_changes_nothing() {
    for raw in [HOSTILE, "  a \t b  ", "\u{1b}[31mred\u{1b}[0m  \n text", "x\u{7}y", ""] {
        let once = sanitize_label(raw);
        assert_eq!(sanitize_label(&once), once);
    }
}

#[test]
fn defanging_keeps_length_and_is_idempotent() {
    for label in ["[window=@999] notes", "idle worker", "a [RUNNING] [[pane=%1]", "[infra][idle]"] {
        let once = defang_reserved(label);
        assert_eq!(once.chars().count(), label.chars().count());
        assert_eq!(defang_reserved(&once), once);
    }
    assert_eq!(defang_reserved("[window=@999] notes"), "(window=@999] notes");
    assert_eq!(defang_reserved("idle worker"), "idle worker");
    assert_eq!(defang_reserved("[[pane=%1]"), "[(pane=%1]");
}
