use factory_tui::cli::is_version_request;

fn args(items: &[&str]) -> Vec<String> {
    items.iter().map(|s| (*s).to_string()).collect()
}

#[test]
fn the_standalone_version_flag_is_a_version_request() {
    assert!(is_version_request(&args(&["--version"])));
}

#[test]
fn no_arguments_is_not_a_version_request() {
    assert!(!is_version_request(&args(&[])));
}

#[test]
fn other_commands_are_not_version_requests() {
    assert!(!is_version_request(&args(&["--dump"])));
    assert!(!is_version_request(&args(&["-V"])));
    assert!(!is_version_request(&args(&["version"])));
    assert!(!is_version_request(&args(&["--versions"])));
}

#[test]
fn a_version_flag_among_other_arguments_is_not_the_supported_request() {
    assert!(!is_version_request(&args(&["--version", "--dump"])));
    assert!(!is_version_request(&args(&["--dump", "--version"])));
}
