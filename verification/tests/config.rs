use factory_tui::config::{
    glob_matches, selected_path, validate, ConfigError, Config, ConfigFault, Reinterpreter, Sampler, SamplerStatus, Scope,
    SessionsConfig, StatusConfig, SUPPORTED_SAMPLER_FIELDS,
};
use factory_tui::tmux::{Pane, Win};

fn sampler(name: &str, field: &str, regex: &str, status: &str) -> Sampler {
    Sampler {
        name: name.to_string(),
        field: field.to_string(),
        regex: regex.to_string(),
        status: status.to_string(),
    }
}

fn rule(scope: Scope, pattern: &str, label: &str) -> Reinterpreter {
    Reinterpreter { scope, pattern: pattern.to_string(), label: label.to_string() }
}

fn config(samplers: Vec<Sampler>, rules: Vec<Reinterpreter>) -> Config {
    Config {
        sessions: SessionsConfig { infra: Vec::new() },
        sampler: samplers,
        reinterpreter: rules,
        status: None,
    }
}

fn pane(cmd: &str, path: &str, title: &str) -> Pane {
    Pane {
        id: "%1".to_string(),
        index: "0".to_string(),
        left: 0,
        top: 0,
        width: 80,
        height: 24,
        active: true,
        cmd: cmd.to_string(),
        path: path.to_string(),
        title: title.to_string(),
    }
}

fn win(name: &str, panes: Vec<Pane>) -> Win {
    Win {
        session: "work".to_string(),
        id: "@1".to_string(),
        index: "1".to_string(),
        name: name.to_string(),
        w: 80,
        h: 24,
        panes,
    }
}

#[test]
fn simple_globs_match_whole_session_names() {
    assert!(glob_matches("ops-*", "ops-cache"));
    assert!(glob_matches("node-?", "node-a"));
    assert!(glob_matches("literal", "literal"));
    assert!(!glob_matches("ops-*", "shop-ops-cache"));
    assert!(!glob_matches("node-?", "node-ab"));
}

#[test]
fn glob_edge_cases() {
    assert!(glob_matches("", ""));
    assert!(!glob_matches("", "a"));
    assert!(glob_matches("*", ""));
    assert!(glob_matches("*", "anything"));
    assert!(glob_matches("a*b*c", "axxbyyc"));
    assert!(!glob_matches("a*b*c", "axxbyy"));
    assert!(!glob_matches("?", ""));
    assert!(glob_matches("**", "x"));
}

#[test]
fn infra_sessions_follow_the_configured_globs() {
    let mut c = config(Vec::new(), Vec::new());
    assert!(!c.is_infra("ops-cache"));
    c.sessions.infra = vec!["ops-*".to_string(), "warden".to_string()];
    assert!(c.is_infra("ops-cache"));
    assert!(c.is_infra("warden"));
    assert!(!c.is_infra("work"));
}

#[test]
fn empty_config_is_empty() {
    let c = Config::empty();
    assert!(c.sessions.infra.is_empty());
    assert!(c.sampler.is_empty());
    assert!(c.reinterpreter.is_empty());
    assert!(c.status.is_none());
    assert!(validate(&c).is_ok());
}

#[test]
fn supported_fields_are_the_four_tmux_fields() {
    assert_eq!(
        SUPPORTED_SAMPLER_FIELDS,
        ["pane_current_command", "pane_current_path", "pane_title", "window_name"]
    );
}

#[test]
fn sampler_validation_rejects_every_invalid_shape_and_the_removed_table() {
    let bad_field = config(vec![sampler("bad-field", "pane_mood", ".*", "running")], vec![]);
    match validate(&bad_field) {
        Err(ConfigFault::UnsupportedField { name, field }) => {
            assert_eq!(name, "bad-field");
            assert_eq!(field, "pane_mood");
        }
        other => panic!("unsupported field accepted: {other:?}"),
    }

    let bad_status = config(vec![sampler("bad-status", "pane_title", ".*", "paused")], vec![]);
    match validate(&bad_status) {
        Err(ConfigFault::UnsupportedStatus { name, status }) => {
            assert_eq!(name, "bad-status");
            assert_eq!(status, "paused");
        }
        other => panic!("unsupported status accepted: {other:?}"),
    }

    let bad_regex = config(vec![sampler("bad-regex", "pane_title", "[", "idle")], vec![]);
    match validate(&bad_regex) {
        Err(ConfigFault::BadSamplerRegex { name, reason }) => {
            assert_eq!(name, "bad-regex");
            assert!(!reason.is_empty());
        }
        other => panic!("invalid regex accepted: {other:?}"),
    }

    let blank_name = config(vec![sampler(" ", "pane_title", ".*", "idle")], vec![]);
    assert!(matches!(validate(&blank_name), Err(ConfigFault::BlankSamplerName { index: 0 })));

    let duplicate = config(
        vec![
            sampler("same", "pane_title", "one", "idle"),
            sampler("same", "pane_title", "two", "running"),
        ],
        vec![],
    );
    match validate(&duplicate) {
        Err(ConfigFault::DuplicateSampler { name }) => assert_eq!(name, "same"),
        other => panic!("duplicate accepted: {other:?}"),
    }

    let mut removed = config(vec![], vec![]);
    removed.status = Some(StatusConfig {
        running: vec!["occupied".to_string()],
        idle: Vec::new(),
        parked_substring: String::new(),
    });
    assert!(matches!(validate(&removed), Err(ConfigFault::RemovedStatusTable)));

    let cases = [
        ("unsupported field", bad_field, "pane_mood"),
        ("unsupported status", bad_status, "bad-status"),
        ("invalid regex", bad_regex, "bad-regex"),
        ("empty name", blank_name, "name"),
        ("duplicate name", duplicate, "same"),
        ("removed status table", removed, "status"),
    ];
    for (case, config, diagnostic) in cases {
        let error = validate(&config)
            .err()
            .unwrap_or_else(|| panic!("{case}: invalid configuration was accepted"));
        assert!(
            error.message().contains(diagnostic),
            "{case}: {} does not name {diagnostic:?}",
            error.message()
        );
    }
}

#[test]
fn validation_rejects_bad_reinterpreters_in_order() {
    let empty = config(vec![], vec![rule(Scope::Window, "", "x")]);
    assert!(matches!(validate(&empty), Err(ConfigFault::EmptyPattern { index: 0 })));
    let blank = config(vec![], vec![rule(Scope::Window, "^a$", "x"), rule(Scope::Session, "^b$", "  ")]);
    assert!(matches!(validate(&blank), Err(ConfigFault::BlankLabel { index: 1 })));
    let bad = config(vec![], vec![rule(Scope::Pane, "^ops-(?P<rest>.+$", "ops $rest")]);
    match validate(&bad) {
        Err(ConfigFault::BadPattern { index, reason }) => {
            assert_eq!(index, 0);
            assert!(!reason.is_empty());
        }
        other => panic!("bad pattern accepted: {other:?}"),
    }
    let good = config(
        vec![sampler("busy", "pane_title", "^busy:", "running")],
        vec![rule(Scope::Session, "^ops-(?P<rest>.+)$", "operations $rest")],
    );
    assert!(validate(&good).is_ok());
}

#[test]
fn samplers_read_their_field_and_report_their_status() {
    let w = win("queue", vec![pane("occupied", "/tmp", "busy: working")]);
    let p = &w.panes[0];
    assert!(sampler("a", "pane_current_command", "^occupied$", "running").matches(&w, p));
    assert!(sampler("b", "pane_current_path", "^/tmp$", "running").matches(&w, p));
    assert!(sampler("c", "pane_title", "^busy:", "running").matches(&w, p));
    assert!(sampler("d", "window_name", "^queue$", "running").matches(&w, p));
    assert!(!sampler("e", "pane_mood", ".*", "running").matches(&w, p));
    assert!(!sampler("f", "pane_title", "[", "running").matches(&w, p));
    assert!(!sampler("g", "pane_title", "^idle", "running").matches(&w, p));
    assert_eq!(sampler("h", "pane_title", "x", "running").outcome(), Some(SamplerStatus::Running));
    assert_eq!(sampler("h", "pane_title", "x", "idle").outcome(), Some(SamplerStatus::Idle));
    assert_eq!(sampler("h", "pane_title", "x", "parked").outcome(), Some(SamplerStatus::Parked));
    assert_eq!(sampler("h", "pane_title", "x", "paused").outcome(), None);
}

#[test]
fn fault_messages_name_their_subject() {
    assert_eq!(ConfigFault::EmptyPattern { index: 3 }.message(), "reinterpreter 3 has an empty pattern");
    assert_eq!(
        ConfigFault::BlankLabel { index: 12 }.message(),
        "reinterpreter 12 has a label that displays nothing"
    );
    assert_eq!(
        ConfigFault::BadPattern { index: 0, reason: "oops".to_string() }.message(),
        "reinterpreter 0 pattern: oops"
    );
    assert_eq!(
        ConfigFault::UnsupportedField { name: "a".to_string(), field: "pane_mood".to_string() }.message(),
        "sampler a reads unsupported field pane_mood"
    );
    assert!(ConfigFault::RemovedStatusTable.message().contains("[status]"));
}

fn some(s: &str) -> Option<String> {
    Some(s.to_string())
}

#[test]
fn config_load_precedence_is_env_then_xdg_then_empty() {
    assert_eq!(
        selected_path(&some("/x/explicit.toml"), &some("/xdg"), &some("/home/u")),
        some("/x/explicit.toml")
    );
    assert_eq!(selected_path(&None, &some("/xdg"), &some("/home/u")), some("/xdg/factory-tui/config.toml"));
    assert_eq!(selected_path(&some(""), &some("/xdg/"), &None), some("/xdg/factory-tui/config.toml"));
    assert_eq!(selected_path(&None, &some(""), &some("/home/u")), some("/home/u/.config/factory-tui/config.toml"));
    assert_eq!(selected_path(&None, &None, &None), None);
    assert_eq!(selected_path(&some(""), &some(""), &some("")), None);
}

#[test]
fn literal_patterns_match_only_themselves_and_a_star_matches_all() {
    for name in ["", "ops", "ops-cache", "x y"] {
        assert!(glob_matches("*", name));
        assert_eq!(glob_matches("ops-cache", name), name == "ops-cache");
    }
}

#[test]
fn config_errors_read_like_diagnostics() {
    let io = ConfigError::Io { path: "/etc/x.toml".to_string(), reason: "permission denied".to_string() };
    assert_eq!(io.message(), "cannot read config /etc/x.toml: permission denied");
    let bare = ConfigError::Toml { path: None, span: None, message: "oops".to_string() };
    assert_eq!(bare.message(), "invalid config: oops");
    let full = ConfigError::Toml {
        path: Some("/c.toml".to_string()),
        span: Some((3, 17)),
        message: "expected a table".to_string(),
    };
    assert_eq!(full.message(), "invalid config /c.toml at bytes 3..17: expected a table");

    let fault = ConfigError::from_fault(&ConfigFault::DuplicateSampler { name: "same".to_string() });
    assert_eq!(fault.message(), "invalid config: sampler name same is used twice");
    let located = fault.at_path(&"/home/u/.config/factory-tui/config.toml".to_string());
    assert_eq!(
        located.message(),
        "invalid config /home/u/.config/factory-tui/config.toml: sampler name same is used twice"
    );
    let io_again = io.at_path(&"/other".to_string());
    assert_eq!(io_again.message(), "cannot read config /etc/x.toml: permission denied");
}
