use factory_tui::config::{Config, Reinterpreter, Sampler, Scope, SessionsConfig};
use factory_tui::label::node_label;
use factory_tui::tmux::{Pane, Win};
use factory_tui::tree::{
    build, dump, selected_pane_id, status_field, status_label, structural_fingerprint, Kind, Node,
    Status,
};

fn rule(scope: Scope, pattern: &str, label: &str) -> Reinterpreter {
    Reinterpreter { scope, pattern: pattern.to_string(), label: label.to_string() }
}

fn sampler(name: &str, field: &str, regex: &str, status: &str) -> Sampler {
    Sampler {
        name: name.to_string(),
        field: field.to_string(),
        regex: regex.to_string(),
        status: status.to_string(),
    }
}

fn config(infra: &[&str], rules: Vec<Reinterpreter>, samplers: Vec<Sampler>) -> Config {
    Config {
        sessions: SessionsConfig { infra: infra.iter().map(|s| s.to_string()).collect() },
        sampler: samplers,
        reinterpreter: rules,
        status: None,
    }
}

fn built(wins: Vec<Win>, config: &Config) -> Node {
    build(wins, &config.sampler)
}

fn copy(node: &Node) -> Node {
    Node {
        id: node.id.clone(),
        kind: node.kind,
        title: node.title.clone(),
        status: node.status,
        win: node.win.clone(),
        pane: node.pane.clone(),
        children: node.children.iter().map(copy).collect(),
    }
}

const D14_D15_WINDOWS: [&str; 6] = [
    "factory-tui-e8-t5-raw-tree",
    "factory-tui-ms3-no-bugs",
    "factory-tui-e15-t16-status-samplers",
    "factory-tui-no-epic-t19-m3-preview-tag",
    "factory-tui-no-epic-t22-pane-titles",
    "factory-tui-no-epic-t24-build-provenance",
];

fn d14_d15_config() -> Config {
    config(
        &[],
        vec![
            rule(Scope::Session, "^(?P<name>.+)$", "project $name"),
            rule(
                Scope::Window,
                "^(?P<project>.+)-(?:no-epic|e[0-9]+|ms[0-9]+)-(?P<rest>.+)$",
                "$rest",
            ),
        ],
        vec![],
    )
}

fn colliding_sibling_titles(node: &Node) -> Vec<String> {
    let mut found = Vec::new();
    for (index, child) in node.children.iter().enumerate() {
        if node.children[..index].iter().any(|earlier| earlier.title == child.title) {
            found.push(child.title.clone());
        }
        found.extend(colliding_sibling_titles(child));
    }
    found
}

const HOSTILE_TITLE: &str = "\u{1b}[31m\u{1b}[2Jred\u{1b}]0;owned\u{7}\r\nsecond\tline\u{8}\u{9b}5m";

fn fake_pane(id: &str, index: &str, command: &str, title: &str) -> Pane {
    Pane {
        id: id.to_string(),
        index: index.to_string(),
        left: 0,
        top: 0,
        width: 80,
        height: 24,
        active: index == "0",
        cmd: command.to_string(),
        path: "/tmp".to_string(),
        title: title.to_string(),
    }
}

fn fake_win_panes(session: &str, id: &str, name: &str, panes: Vec<Pane>) -> Win {
    Win {
        session: session.to_string(),
        id: id.to_string(),
        index: id.trim_start_matches('@').to_string(),
        name: name.to_string(),
        w: 80,
        h: 24,
        panes,
    }
}

fn fake_win(session: &str, id: &str, name: &str, command: &str) -> Win {
    let pane = fake_pane(&format!("%{}", id.trim_start_matches('@')), "0", command, "");
    fake_win_panes(session, id, name, vec![pane])
}

fn generated_states() -> Vec<(&'static str, Vec<Win>)> {
    vec![
        (
            "one session, one split window",
            vec![fake_win_panes(
                "ops-cache",
                "@1",
                "api-deploy-staging",
                vec![fake_pane("%10", "0", "bash", ""), fake_pane("%11", "1", "worker-a", "owner-1")],
            )],
        ),
        (
            "two sessions, solo and split windows",
            vec![
                fake_win("ops-cache", "@2", "api-deploy-staging", "bash"),
                fake_win_panes(
                    "work",
                    "@3",
                    "notes",
                    vec![
                        fake_pane("%30", "0", "worker-a", "owner-1"),
                        fake_pane("%31", "1", "worker-b", "auditor-1"),
                        fake_pane("%32", "2", "bash", ""),
                    ],
                ),
                fake_win("work", "@4", "web-deploy-prod", "zsh"),
            ],
        ),
        (
            "hostile pane title and two windows of the same name",
            vec![
                fake_win_panes(
                    "ops-edge",
                    "@5",
                    "api-deploy-staging",
                    vec![fake_pane("%50", "0", "bash", HOSTILE_TITLE), fake_pane("%51", "1", "bash", "")],
                ),
                fake_win("ops-edge", "@6", "api-deploy-staging", "bash"),
            ],
        ),
    ]
}

fn reinterpreter_configs() -> Vec<(&'static str, Config)> {
    let entry = |scope: Scope, name: &str| rule(scope, "^(?P<raw>.+)$", &format!("{name}!$raw"));
    vec![
        ("session-scoped rules", config(&[], vec![entry(Scope::Session, "session")], vec![])),
        ("window-scoped rules", config(&[], vec![entry(Scope::Window, "window")], vec![])),
        ("pane-scoped rules", config(&[], vec![entry(Scope::Pane, "pane")], vec![])),
        (
            "rules in all three scopes",
            config(
                &[],
                vec![
                    entry(Scope::Session, "session"),
                    entry(Scope::Window, "window"),
                    entry(Scope::Pane, "pane"),
                ],
                vec![],
            ),
        ),
    ]
}

fn node_count(node: &Node) -> usize {
    1 + node.children.iter().map(node_count).sum::<usize>()
}

fn display_strings(node: &Node, config: &Config) -> Vec<String> {
    let mut out = vec![node_label(node, config)];
    for child in &node.children {
        out.extend(display_strings(child, config));
    }
    out
}

fn pane_targets(node: &Node) -> Vec<String> {
    let mut out: Vec<String> = selected_pane_id(node).map(ToString::to_string).into_iter().collect();
    for child in &node.children {
        out.extend(pane_targets(child));
    }
    out
}

fn marker_ids(text: &str, key: &str) -> Vec<String> {
    let open = format!("[{key}=");
    text.lines()
        .filter_map(|line| {
            let id = line.split(&open).nth(1)?.split(']').next()?;
            (!id.is_empty()).then(|| id.to_string())
        })
        .collect()
}

#[test]
fn d14_d15_six_windows_are_one_raw_session() {
    let config = d14_d15_config();
    let wins: Vec<Win> = D14_D15_WINDOWS
        .iter()
        .enumerate()
        .map(|(index, name)| fake_win("factory-tui", &format!("@{}", 4455 + index), name, "worker"))
        .collect();

    let root = built(wins, &config);

    let sessions: Vec<&str> = root.children.iter().map(|node| node.title.as_str()).collect();
    assert_eq!(sessions, ["factory-tui"], "root children were {sessions:?}");
    let session = &root.children[0];
    assert_eq!(session.kind, Kind::SessionGroup);

    let windows: Vec<&str> = session.children.iter().map(|node| node.title.as_str()).collect();
    for name in D14_D15_WINDOWS {
        let seen = windows.iter().filter(|title| **title == name).count();
        assert_eq!(seen, 1, "window {name} appeared {seen} times in {windows:?}");
    }
    assert_eq!(windows.len(), D14_D15_WINDOWS.len(), "extra rows in {windows:?}");
    assert_eq!(root.window_count(), D14_D15_WINDOWS.len());

    assert_eq!(colliding_sibling_titles(&root), Vec::<String>::new());
    let shown: Vec<String> = session.children.iter().map(|node| node_label(node, &config)).collect();
    let mut distinct = shown.clone();
    distinct.sort();
    distinct.dedup();
    assert_eq!(distinct.len(), shown.len(), "two rows display the same text: {shown:?}");
    for (raw, label) in D14_D15_WINDOWS.iter().zip(&shown) {
        assert!(label.contains(raw), "{label:?} no longer reaches back to {raw:?}");
    }
}

#[test]
fn c8_reinterpreters_only_change_display_strings() {
    let plain = Config::empty();
    for (state, wins) in generated_states() {
        for (rules, config) in reinterpreter_configs() {
            let raw = built(wins.clone(), &plain);
            let relabelled = built(wins.clone(), &config);

            let fingerprint = structural_fingerprint(&raw);
            assert_eq!(fingerprint.len(), node_count(&raw), "{state}: the oracle skipped nodes");
            assert!(fingerprint.len() > 2, "{state}: nothing structural to compare");

            let before = display_strings(&raw, &plain);
            let after = display_strings(&relabelled, &config);
            assert_ne!(
                before, after,
                "{rules} changed no display string on {state}; the equality below proves nothing"
            );
            assert_eq!(
                structural_fingerprint(&relabelled),
                fingerprint,
                "{rules} changed the structure of {state}"
            );
            assert_eq!(after.len(), before.len(), "{rules} changed the row count of {state}");
        }
    }
}

#[test]
fn c8_oracle_rejects_structural_split_mutant() {
    let (state, wins) = generated_states().swap_remove(1);
    let root = built(wins, &Config::empty());
    let baseline = structural_fingerprint(&root);
    assert!(baseline.len() > 4, "{state}: the oracle must be reading a real tree");
    assert_eq!(structural_fingerprint(&copy(&root)), baseline, "two copies must agree");

    let mut split = copy(&root);
    let mut twin = copy(&split.children[0].children[0]);
    twin.id = format!("{}-split", twin.id);
    split.children[0].children.insert(1, twin);
    assert_eq!(node_count(&split), node_count(&root) + 1, "the split mutant did not apply");
    assert_ne!(structural_fingerprint(&split), baseline, "the oracle accepted a split row");

    let mut dropped = copy(&root);
    dropped.children[0].children.remove(0);
    assert!(node_count(&dropped) < node_count(&root), "the drop mutant did not apply");
    assert_ne!(structural_fingerprint(&dropped), baseline, "the oracle accepted a dropped row");

    let mut moved = copy(&root);
    let taken = moved.children[1].children.remove(0);
    moved.children[0].children.push(taken);
    assert_eq!(node_count(&moved), node_count(&root), "the reparent mutant changed the count");
    assert_ne!(structural_fingerprint(&moved), baseline, "the oracle accepted a reparented row");

    let mut reordered = copy(&root);
    reordered.children[1].children.swap(0, 1);
    assert_ne!(
        reordered.children[1].children[0].id, root.children[1].children[0].id,
        "the reorder mutant did not apply"
    );
    assert_ne!(structural_fingerprint(&reordered), baseline, "the oracle accepted a reorder");

    let mut retargeted = copy(&root);
    retargeted.children[1].children[0].pane = Some("%999".to_string());
    assert_ne!(
        retargeted.children[1].children[0].pane, root.children[1].children[0].pane,
        "the retarget mutant did not apply"
    );
    assert_ne!(structural_fingerprint(&retargeted), baseline, "the oracle accepted a retarget");

    fn rename(node: &mut Node) {
        node.title = format!("renamed-{}", node.title);
        for child in &mut node.children {
            rename(child);
        }
    }
    let mut renamed = copy(&root);
    rename(&mut renamed);
    assert_ne!(
        display_strings(&renamed, &Config::empty()),
        display_strings(&root, &Config::empty()),
        "the rename mutant did not apply"
    );
    assert_eq!(
        structural_fingerprint(&renamed),
        baseline,
        "the oracle is watching display strings, not structure"
    );
}

#[test]
fn pane_nodes_follow_single_multi_rule() {
    let root = built(
        vec![
            fake_win_panes("work", "@1", "solo", vec![fake_pane("%10", "0", "bash", "")]),
            fake_win_panes(
                "work",
                "@2",
                "split",
                vec![
                    fake_pane("%20", "0", "worker-a", "owner-1"),
                    fake_pane("%21", "1", "worker-b", "auditor-1"),
                    fake_pane("%22", "2", "bash", ""),
                ],
            ),
        ],
        &Config::empty(),
    );
    let session = &root.children[0];
    assert_eq!(session.children.len(), 2, "one row per window");

    let solo = &session.children[0];
    assert_eq!(solo.kind, Kind::Window);
    assert!(solo.children.is_empty(), "a one-pane window carries no redundant pane child");
    assert_eq!(selected_pane_id(solo), Some("%10"), "a one-pane window targets its own pane");

    let split = &session.children[1];
    assert_eq!(split.kind, Kind::Window);
    assert_eq!(split.children.len(), 3, "one row per pane of a multi-pane window");
    assert!(split.children.iter().all(|node| node.kind == Kind::Pane));
    assert_eq!(selected_pane_id(split), None, "a multi-pane window keeps the unchanged preview fallback");
    let targets: Vec<Option<&str>> = split.children.iter().map(selected_pane_id).collect();
    assert_eq!(
        targets,
        [Some("%20"), Some("%21"), Some("%22")],
        "each pane row must target exactly its own pane"
    );

    assert_eq!(pane_targets(&root), ["%10", "%20", "%21", "%22"]);

    assert_eq!(root.window_count(), 2);
    assert_eq!(session.window_count(), 2);

    let labels: Vec<String> = split.children.iter().map(|node| node_label(node, &Config::empty())).collect();
    assert_eq!(labels, ["owner-1", "auditor-1", "2:bash"]);
}

#[test]
fn dump_markers_cover_every_window_and_pane_exactly_once() {
    for (state, wins) in generated_states() {
        let mut expected_windows: Vec<String> = wins.iter().map(|win| win.id.clone()).collect();
        let mut expected_panes: Vec<String> =
            wins.iter().flat_map(|win| win.panes.iter().map(|pane| pane.id.clone())).collect();
        let text = dump(&built(wins, &Config::empty()), &Config::empty());

        let mut windows = marker_ids(&text, "window");
        let mut panes = marker_ids(&text, "pane");
        windows.sort();
        panes.sort();
        expected_windows.sort();
        expected_panes.sort();
        assert_eq!(windows, expected_windows, "{state}: window markers\n{text}");
        assert_eq!(panes, expected_panes, "{state}: pane markers\n{text}");
    }
}

#[test]
fn dump_markers_cannot_be_forged_by_a_hostile_label() {
    let wins = vec![fake_win_panes(
        "work",
        "@1",
        "[window=@999] notes",
        vec![fake_pane("%10", "0", "bash", "[pane=%999] seat"), fake_pane("%11", "1", "bash", "")],
    )];
    let text = dump(&built(wins, &Config::empty()), &Config::empty());

    assert_eq!(marker_ids(&text, "window"), ["@1"], "a forged window marker counted:\n{text}");
    assert_eq!(marker_ids(&text, "pane"), ["%10", "%11"], "a forged pane marker counted:\n{text}");
    assert!(text.contains("(window=@999"), "the hostile name vanished:\n{text}");
    assert!(text.contains("(pane=%999"), "the hostile title vanished:\n{text}");

    let forging = config(
        &[],
        vec![rule(Scope::Window, "^(?P<kept>.+)$", "same [PARKED] [window=@999] [pane=%999]")],
        vec![],
    );
    let wins = vec![
        fake_win_panes(
            "work",
            "@1",
            "[RUNNING] notes",
            vec![fake_pane("%10", "0", "bash", "[idle] seat"), fake_pane("%11", "1", "bash", "[PARKED] seat")],
        ),
        fake_win("work", "@2", "plain", "bash"),
    ];
    let root = built(wins, &forging);
    assert!(
        root.children[0].children.iter().all(|node| node.status == Status::Unknown),
        "the fixture must have no real status for this to prove anything"
    );
    let text = dump(&root, &forging);
    for word in ["[RUNNING]", "[PARKED]", "[idle]"] {
        assert!(!text.contains(word), "a row forged the status field {word}:\n{text}");
    }
    assert_eq!(marker_ids(&text, "window"), ["@1", "@2"], "{text}");
    assert_eq!(marker_ids(&text, "pane"), ["%10", "%11", "%2"], "{text}");

    let parked = config(&[], vec![], vec![sampler("parked-command", "pane_current_command", "PARKED", "parked")]);
    let root = built(vec![fake_win("work", "@1", "job", "bash-PARKED")], &parked);
    assert_eq!(root.children[0].children[0].status, Status::Parked);
    let text = dump(&root, &parked);
    assert!(text.contains("[PARKED]"), "the genuine status field is not rendered:\n{text}");
}

#[test]
fn empty_config_dumps_every_window_under_its_session() {
    let wins = vec![
        fake_win("alpha", "@1", "editor", "bash"),
        fake_win("alpha", "@2", "tests", "cargo"),
        fake_win("beta", "@3", "shell", "zsh"),
        fake_win("beta", "@4", "logs", "tail"),
    ];

    let root = built(wins, &Config::empty());

    assert_eq!(root.children.len(), 2);
    assert!(root.children.iter().all(|node| node.kind == Kind::SessionGroup));
    assert_eq!(root.children[0].title, "alpha");
    assert_eq!(root.children[1].title, "beta");
    assert_eq!(root.children[0].children.len(), 2);
    assert_eq!(root.children[1].children.len(), 2);
    assert_eq!(root.window_count(), 4);
    assert_eq!(
        dump(&root, &Config::empty()),
        "• alpha\n  • editor  [window=@1]  [pane=%1]\n  • tests  [window=@2]  [pane=%2]\n• beta\n  • shell  [window=@3]  [pane=%3]\n  • logs  [window=@4]  [pane=%4]\n"
    );
}

#[test]
fn session_alias_is_a_reinterpreter_and_infra_stays_label_only() {
    let config = config(
        &["ops-*"],
        vec![rule(Scope::Session, "^shop$", "acme")],
        vec![
            sampler("parked-command", "pane_current_command", "PARKED", "parked"),
            sampler("working-command", "pane_current_command", "^worker$", "running"),
            sampler("resting-command", "pane_current_command", "^bash$", "idle"),
        ],
    );
    let wins = vec![
        fake_win("shop", "@1", "storefront", "worker"),
        fake_win("ops-cache", "@2", "maintenance", "bash-PARKED"),
    ];

    let root = built(wins, &config);

    assert_eq!(root.children[0].id, "session/shop");
    assert_eq!(root.children[0].title, "shop");
    assert_eq!(node_label(&root.children[0], &config), "acme (shop)");
    assert_eq!(root.children[0].status, Status::Running);
    assert_eq!(node_label(&root.children[1], &config), "ops-cache [infra]");
    assert_eq!(root.children[1].status, Status::Parked);
    assert_eq!(
        dump(&root, &config),
        "• acme (shop)  [RUNNING]\n  • storefront  [RUNNING]  [window=@1]  [pane=%1]\n• ops-cache [infra]  [PARKED]\n  • maintenance  [PARKED]  [window=@2]  [pane=%2]\n"
    );
}

#[test]
fn every_configured_sampler_status_reaches_status_and_dump() {
    let cases = [
        ("running", sampler("working", "pane_current_command", "^worker$", "running"), "worker", Status::Running, "RUNNING"),
        ("idle", sampler("resting", "pane_current_command", "^bash$", "idle"), "bash", Status::Idle, "idle"),
        ("parked", sampler("parked", "pane_current_command", "PARKED", "parked"), "bash-PARKED", Status::Parked, "PARKED"),
    ];

    for (bucket, s, command, expected_status, expected_label) in cases {
        let config = config(&[], vec![], vec![s]);
        let root = built(vec![fake_win("alpha", "@1", "window", command)], &config);
        let window = &root.children[0].children[0];

        assert_eq!(window.status, expected_status, "status bucket {bucket}");
        assert_eq!(
            dump(&root, &config),
            format!("• alpha  [{expected_label}]\n  • window  [{expected_label}]  [window=@1]  [pane=%1]\n"),
            "dump label for status bucket {bucket}"
        );
    }
}

#[test]
fn c1_title_evidence_distinguishes_work_from_command_occupancy() {
    let config = config(&[], vec![], vec![sampler("busy-title", "pane_title", "^busy:", "running")]);
    let wins = vec![
        fake_win_panes("work", "@1", "waiting", vec![fake_pane("%1", "0", "occupied", "waiting")]),
        fake_win_panes("work", "@2", "active", vec![fake_pane("%2", "0", "occupied", "busy: compiling")]),
    ];

    let root = built(wins, &config);
    let waiting = &root.children[0].children[0];
    let active = &root.children[0].children[1];
    assert_eq!(waiting.status, Status::Unknown, "occupancy alone reported RUNNING");
    assert_eq!(active.status, Status::Running, "matching evidence was not RUNNING");
}

#[test]
fn c2_every_supported_field_is_queried_resolved_and_evaluated() {
    for (field, expected) in [
        ("pane_current_command", "occupied"),
        ("pane_current_path", "/tmp"),
        ("pane_title", "busy: working"),
        ("window_name", "queue"),
    ] {
        assert!(
            factory_tui::tmux::CENSUS_FORMAT.contains(&format!("#{{{field}}}")),
            "tmux does not query {field}"
        );
        let config = config(
            &[],
            vec![],
            vec![sampler(&format!("field-{field}"), field, &format!("^{}$", regex::escape(expected)), "running")],
        );
        let pane = fake_pane("%1", "0", "occupied", "busy: working");
        let root = built(vec![fake_win_panes("work", "@1", "queue", vec![pane])], &config);
        assert_eq!(
            root.children[0].children[0].status,
            Status::Running,
            "supported field {field} was not resolved and evaluated"
        );
    }
}

#[test]
fn c_rollup_keeps_per_pane_status_and_all_unknown_unmarked() {
    let config = config(
        &[],
        vec![],
        vec![sampler("busy", "pane_title", "^busy:", "running"), sampler("resting", "pane_title", "^rest:", "idle")],
    );
    let root = built(
        vec![
            fake_win_panes(
                "work",
                "@1",
                "mixed",
                vec![
                    fake_pane("%10", "0", "occupied", "busy: working"),
                    fake_pane("%11", "1", "occupied", "rest: waiting"),
                    fake_pane("%12", "2", "occupied", "unmarked"),
                ],
            ),
            fake_win_panes(
                "work",
                "@2",
                "unknown",
                vec![fake_pane("%20", "0", "occupied", "unmarked one"), fake_pane("%21", "1", "occupied", "unmarked two")],
            ),
        ],
        &config,
    );

    let mixed = &root.children[0].children[0];
    assert_eq!(
        mixed.children.iter().map(|node| node.status).collect::<Vec<_>>(),
        [Status::Running, Status::Idle, Status::Unknown]
    );
    assert_eq!(mixed.status, Status::Running, "Unknown lowered an established status");

    let unknown = &root.children[0].children[1];
    assert!(unknown.children.iter().all(|node| node.status == Status::Unknown));
    assert_eq!(unknown.status, Status::Unknown, "all-unmarked became a positive idle reading");
}

#[test]
fn ordered_samplers_use_the_first_match_per_pane() {
    let config = config(
        &[],
        vec![],
        vec![
            sampler("broad-idle", "pane_title", "working", "idle"),
            sampler("later-running", "pane_title", "^busy: working$", "running"),
        ],
    );
    let root = built(
        vec![fake_win_panes("work", "@1", "ordered", vec![fake_pane("%1", "0", "occupied", "busy: working")])],
        &config,
    );
    assert_eq!(root.children[0].children[0].status, Status::Idle);
}

#[test]
fn names_that_look_like_a_fold_path_stay_one_raw_window() {
    let wins = vec![fake_win("shop", "@1", "acme-ms1-ship", "bash")];
    let root = built(wins, &Config::empty());
    assert_eq!(root.children.len(), 1);
    assert_eq!(root.children[0].kind, Kind::SessionGroup);
    assert_eq!(root.children[0].title, "shop");
    assert_eq!(root.children[0].children.len(), 1);
    assert_eq!(root.children[0].children[0].kind, Kind::Window);
    assert_eq!(root.children[0].children[0].title, "acme-ms1-ship");
}

#[test]
fn parked_outranks_running_outranks_idle() {
    let config = config(
        &[],
        vec![],
        vec![
            sampler("p", "pane_title", "^p$", "parked"),
            sampler("r", "pane_title", "^r$", "running"),
            sampler("i", "pane_title", "^i$", "idle"),
        ],
    );
    let root = built(
        vec![
            fake_win_panes("a", "@1", "w1", vec![fake_pane("%1", "0", "c", "i"), fake_pane("%2", "1", "c", "r")]),
            fake_win_panes("a", "@2", "w2", vec![fake_pane("%3", "0", "c", "p"), fake_pane("%4", "1", "c", "r")]),
            fake_win_panes("b", "@3", "w3", vec![fake_pane("%5", "0", "c", "i")]),
        ],
        &config,
    );
    assert_eq!(root.children[0].children[0].status, Status::Running);
    assert_eq!(root.children[0].children[1].status, Status::Parked);
    assert_eq!(root.children[0].status, Status::Parked);
    assert_eq!(root.children[1].status, Status::Idle);
    assert_eq!(root.status, Status::Parked);
}

#[test]
fn window_rows_target_their_active_pane() {
    let mut panes = vec![fake_pane("%1", "1", "a", ""), fake_pane("%2", "2", "b", ""), fake_pane("%3", "3", "c", "")];
    panes[1].active = true;
    let root = built(vec![fake_win_panes("s", "@1", "w", panes)], &Config::empty());
    assert_eq!(root.children[0].children[0].pane.as_deref(), Some("%2"));
    let none_active = vec![fake_pane("%7", "1", "a", ""), fake_pane("%8", "2", "b", "")];
    let root = built(vec![fake_win_panes("s", "@1", "w", none_active)], &Config::empty());
    assert_eq!(root.children[0].children[0].pane.as_deref(), Some("%7"));
    let empty = built(vec![fake_win_panes("s", "@1", "w", vec![])], &Config::empty());
    assert_eq!(empty.children[0].children[0].pane, None);
}

#[test]
fn status_words_and_fields() {
    assert_eq!(status_label(Status::Running), "RUNNING");
    assert_eq!(status_label(Status::Parked), "PARKED");
    assert_eq!(status_label(Status::Idle), "idle");
    assert_eq!(status_label(Status::Unknown), "");
    assert_eq!(status_field(Status::Running), "[RUNNING]");
    assert_eq!(status_field(Status::Idle), "[idle]");
    assert_eq!(status_field(Status::Unknown), "");
}

#[test]
fn an_empty_census_is_a_bare_root() {
    let root = built(Vec::new(), &Config::empty());
    assert_eq!(root.id, "root");
    assert_eq!(root.title, "tmux");
    assert!(root.children.is_empty());
    assert_eq!(root.status, Status::Unknown);
    assert_eq!(dump(&root, &Config::empty()), "");
    assert_eq!(structural_fingerprint(&root).len(), 1);
}

#[test]
fn samplers_never_change_the_structure() {
    let quiet: Vec<Sampler> = Vec::new();
    let busy = vec![
        sampler("parked", "pane_current_command", "PARKED", "parked"),
        sampler("any", "pane_title", ".*", "running"),
    ];
    for (state, wins) in generated_states() {
        let a = build(wins.clone(), &quiet);
        let b = build(wins.clone(), &busy);
        assert_eq!(structural_fingerprint(&a), structural_fingerprint(&b), "{state}");
        assert_eq!(a.window_count(), wins.len(), "{state}: every census window is one window row");
    }
}

#[test]
fn dump_status_fields_appear_once_per_row_with_that_status() {
    let config = config(
        &[],
        vec![rule(Scope::Window, "^(?P<kept>.+)$", "$kept [idle] [RUNNING]")],
        vec![
            sampler("working", "pane_current_command", "^worker$", "running"),
            sampler("resting", "pane_current_command", "^bash$", "idle"),
        ],
    );
    let wins = vec![
        fake_win("work", "@1", "a", "worker"),
        fake_win("work", "@2", "b", "bash"),
        fake_win("rest", "@3", "c", "bash"),
    ];
    let root = built(wins, &config);
    let text = dump(&root, &config);
    // rows: work [RUNNING], a [RUNNING], b [idle], rest [idle], c [idle]
    assert_eq!(text.matches("[RUNNING]").count(), 2, "{text}");
    assert_eq!(text.matches("[idle]").count(), 3, "{text}");
    assert_eq!(text.matches("[PARKED]").count(), 0, "{text}");
    for line in text.lines() {
        let fields = ["[RUNNING]", "[PARKED]", "[idle]"].iter().filter(|f| line.contains(**f)).count();
        assert!(fields <= 1, "a row holds more than its own status: {line}");
    }
}

fn two_windows() -> Vec<Win> {
    vec![
        fake_win("work", "@1", "a", "bash"),
        fake_win_panes("work", "@2", "b", vec![fake_pane("%5", "0", "bash", ""), fake_pane("%6", "1", "bash", "")]),
    ]
}

#[test]
fn structural_changes_change_the_fingerprint() {
    let empty = Config::empty();
    let reference = structural_fingerprint(&built(two_windows(), &empty));

    let mut reordered = two_windows();
    reordered.reverse();
    assert_ne!(structural_fingerprint(&built(reordered, &empty)), reference);

    let mut dropped = two_windows();
    dropped[1].panes.pop();
    assert_ne!(structural_fingerprint(&built(dropped, &empty)), reference);

    let mut moved = two_windows();
    moved[1].session = "elsewhere".to_string();
    assert_ne!(structural_fingerprint(&built(moved, &empty)), reference);

    let mut retargeted = two_windows();
    retargeted[1].panes[1].active = true;
    retargeted[1].panes[0].active = false;
    assert_ne!(structural_fingerprint(&built(retargeted, &empty)), reference);

    let mut renamed = two_windows();
    renamed[0].name = "renamed".to_string();
    assert_eq!(structural_fingerprint(&built(renamed, &empty)), reference);
}
