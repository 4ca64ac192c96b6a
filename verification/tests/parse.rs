use factory_tui::parse::{is_infra_session, parse_window, Parsed, Role};

fn p(name: &str, session: &str) -> Parsed {
    parse_window(name, session)
}

#[test]
fn live_keri_names() {
    let d = p("cardano-keri-ms1-identity-core", "keri");
    assert_eq!(d.role, Role::Desk);
    assert_eq!(d.project.as_deref(), Some("cardano-keri"));
    assert_eq!(d.milestone.as_deref(), Some("1"));
    assert_eq!(d.goal, "identity-core");

    let e = p("cardano-keri-e274-onchain", "keri");
    assert_eq!(e.role, Role::Epic);
    assert_eq!(e.epic.as_deref(), Some("274"));

    let t = p("cardano-keri-e274-t271-payee-auth", "keri");
    assert_eq!(t.role, Role::Ticket);
    assert_eq!(t.epic.as_deref(), Some("274"));
    assert_eq!(t.ticket.as_deref(), Some("271"));

    let parked = p("cardano-keri-e156-t220-PARKED", "keri");
    assert!(parked.parked);
    assert_eq!(parked.ticket.as_deref(), Some("220"));
}

#[test]
fn live_ms8_and_standalone() {
    let d = p("cardano-keri-ms8-blaster", "keri-ms8-blaster");
    assert_eq!(d.role, Role::Desk);
    assert_eq!(d.milestone.as_deref(), Some("8"));

    let t = p("cardano-keri-ms8-t-blaster-aiken-skill", "keri-ms8-blaster");
    assert_eq!(t.role, Role::Ticket);
    assert_eq!(t.milestone.as_deref(), Some("8"));

    let s = p("cardano-swiss-knife-ms1-t129-release-pipeline", "csk");
    assert_eq!(s.role, Role::Ticket);
    assert_eq!(s.ticket.as_deref(), Some("129"));
    assert_eq!(s.milestone.as_deref(), Some("1"));
}

#[test]
fn live_oddities() {
    let a = p("ms2-amaru-routine", "amaru");
    assert_eq!(a.role, Role::Desk);
    assert_eq!(a.milestone.as_deref(), Some("2"));
    assert_eq!(a.project.as_deref(), Some("amaru"));

    let n = p("cip113-programmable-tokens-no-epic-t-unknown-pr101-review", "cip113");
    assert_eq!(n.role, Role::Ticket);
    assert_eq!(n.project.as_deref(), Some("cip113-programmable-tokens"));

    let rfq = p("amaru-treasury-tx-e-rfq-t-research-usdm-otc", "treasury-ms1");
    assert_eq!(rfq.role, Role::Ticket);
    assert_eq!(rfq.epic.as_deref(), Some("rfq"));

    let unk = p("trenitalia-maps-ms1-e-unknown-p2p-caching", "trenitalia");
    assert_eq!(unk.role, Role::Epic);
    assert_eq!(unk.milestone.as_deref(), Some("1"));
    assert_eq!(unk.epic.as_deref(), Some("unknown"));
}

#[test]
fn fixed_names_have_fixed_roles() {
    assert_eq!(p("machine", "0-machine").role, Role::Machine);
    assert_eq!(p("machine", "0-machine").goal, "machine");
    assert_eq!(p("machine", "0-machine").project, None);
    assert_eq!(p("machine-crew", "x").role, Role::Crew);
    assert_eq!(p("machine-orphans", "x").goal, "machine-orphans");
    assert_eq!(p("orch", "x").role, Role::Orch);
}

#[test]
fn unknown_names_stay_visible_with_their_session_project() {
    let u = p("notes", "work");
    assert_eq!(u.role, Role::Unknown);
    assert_eq!(u.goal, "notes");
    assert_eq!(u.project.as_deref(), Some("work"));
    assert_eq!(u.milestone, None);
    assert!(!u.parked);
}

#[test]
fn milestone_and_project_come_from_the_session_when_the_name_lacks_them() {
    let t = p("x-e12-t7-goal", "shop-ms4-extra");
    assert_eq!(t.role, Role::Ticket);
    assert_eq!(t.project.as_deref(), Some("x"));
    assert_eq!(t.epic.as_deref(), Some("12"));
    assert_eq!(t.ticket.as_deref(), Some("7"));
    assert_eq!(t.goal, "goal");
    assert_eq!(t.milestone.as_deref(), Some("4"));
    let none = p("notes", "0-probe");
    assert_eq!(none.project, None);
}

#[test]
fn project_spellings_are_canonicalized() {
    assert_eq!(p("cna-ms2-sync", "cna-214").project.as_deref(), Some("cardano-node-antithesis"));
    assert_eq!(p("csk-ms1-x", "csk").project.as_deref(), Some("cardano-swiss-knife"));
    assert_eq!(p("other-ms1-x", "csk").project.as_deref(), Some("other"));
}

#[test]
fn parked_is_case_insensitive() {
    assert!(p("job-parked", "s").parked);
    assert!(p("job-PaRkEd-x", "s").parked);
    assert!(!p("job-park", "s").parked);
}

#[test]
fn epic_with_ticket_digits_and_goal() {
    let t = p("proj-e5-t9", "s");
    assert_eq!(t.role, Role::Ticket);
    assert_eq!(t.ticket.as_deref(), Some("9"));
    assert_eq!(t.goal, "");
    let e = p("proj-ms3-e-rfq", "s");
    assert_eq!(e.role, Role::Epic);
    assert_eq!(e.epic.as_deref(), Some("rfq"));
    assert_eq!(e.goal, "rfq");
}

#[test]
fn infra_sessions() {
    assert!(is_infra_session("0-machine"));
    assert!(is_infra_session("0-anything"));
    assert!(is_infra_session("warden"));
    assert!(is_infra_session("grok-seat"));
    assert!(is_infra_session("project-role"));
    assert!(!is_infra_session("work"));
    assert!(!is_infra_session("x0-"));
}
