use factory_tui::build_info::{choose_revision, current, display, BuildIdentity, UNKNOWN_REVISION};

#[test]
fn current_revision_is_never_empty() {
    for supplied in [None, Some(""), Some("abc123")] {
        assert!(!current("0.1.0", supplied).revision.is_empty());
    }
}

#[test]
fn current_uses_the_supplied_version_and_revision() {
    let id = current("1.2.3", Some("d3adb33f"));
    assert_eq!(id, BuildIdentity { version: "1.2.3", revision: "d3adb33f" });
    assert_eq!(current("1.2.3", None).revision, UNKNOWN_REVISION);
}

#[test]
fn display_carries_both_identity_fields() {
    let text = display(BuildIdentity { version: "1.2.3", revision: "d3adb33f" });
    assert!(text.contains("1.2.3"), "version missing from {text}");
    assert!(text.contains("d3adb33f"), "revision missing from {text}");
}

#[test]
fn display_leads_with_the_product_and_version() {
    let text = display(BuildIdentity { version: "1.2.3", revision: "d3adb33f" });
    assert!(text.starts_with("factory-tui 1.2.3"), "unexpected shape: {text}");
}

#[test]
fn display_has_the_canonical_shape() {
    let text = display(BuildIdentity { version: "1.2.3", revision: "d3adb33f" });
    assert_eq!(text, "factory-tui 1.2.3 (revision d3adb33f)");
}

#[test]
fn supplied_revision_is_used_verbatim() {
    assert_eq!(choose_revision(Some("abc123")), "abc123");
}

#[test]
fn absent_or_empty_build_metadata_falls_back_to_the_label() {
    assert_eq!(choose_revision(None), UNKNOWN_REVISION);
    assert_eq!(choose_revision(Some("")), UNKNOWN_REVISION);
}

#[test]
fn the_fallback_can_never_be_read_as_a_commit() {
    let fallback = choose_revision(None);
    assert!(!fallback.is_empty(), "the fallback must still say something");
    assert!(
        !fallback.chars().all(|c| c.is_ascii_hexdigit()),
        "the fallback must not be hex-shaped: {fallback}"
    );
}
