use envtools::env_file::{get_system_env, set_system_env, EnvFileError};

#[test]
fn reads_quoted_and_plain_values() {
    let content = "PATH=\"/usr/bin:/bin\"\nLANG=C\n";
    assert_eq!(get_system_env(content, "PATH"), Ok("/usr/bin:/bin".to_string()));
    assert_eq!(get_system_env(content, "LANG"), Ok("C".to_string()));
}

#[test]
fn skips_comments_and_trims_around_equals() {
    let content = "# PATH=x\n\n  PATH = \"a b\"  \n";
    assert_eq!(get_system_env(content, "PATH"), Ok("a b".to_string()));
}

#[test]
fn missing_key_is_an_error() {
    assert_eq!(get_system_env("A=1", "B"), Err(EnvFileError::KeyNotFound));
    assert_eq!(get_system_env("PATH", "PATH"), Err(EnvFileError::KeyNotFound));
    assert_eq!(get_system_env("", "PATH"), Err(EnvFileError::KeyNotFound));
}

#[test]
fn lone_quote_is_kept() {
    assert_eq!(get_system_env("K=\"", "K"), Ok("\"".to_string()));
}

#[test]
fn carriage_returns_are_not_part_of_values() {
    assert_eq!(get_system_env("K=v\r\nL=w", "K"), Ok("v".to_string()));
    assert_eq!(get_system_env("K=v\r", "K"), Ok("v".to_string()));
}

#[test]
fn first_assignment_wins_and_value_may_hold_equals() {
    assert_eq!(get_system_env("K=1\nK=2", "K"), Ok("1".to_string()));
    assert_eq!(get_system_env("K=a=b", "K"), Ok("a=b".to_string()));
    assert_eq!(get_system_env("=x", ""), Ok("x".to_string()));
}

#[test]
fn replaces_existing_assignment() {
    let content = "A=1\nPATH=\"/bin\"\nB=2\n";
    assert_eq!(
        set_system_env(Some(content), "PATH", "/usr/bin"),
        "A=1\nPATH=\"/usr/bin\"\nB=2"
    );
}

#[test]
fn unreadable_or_empty_file_gets_single_line() {
    assert_eq!(set_system_env(None, "K", "v"), "K=\"v\"");
    assert_eq!(set_system_env(Some(""), "K", "v"), "K=\"v\"");
}

#[test]
fn appends_when_key_is_absent() {
    assert_eq!(set_system_env(Some("A=1"), "K", "v"), "A=1\nK=\"v\"");
}

#[test]
fn indented_assignments_are_replaced() {
    assert_eq!(set_system_env(Some("  K=old\n#c"), "K", "v"), "K=\"v\"\n#c");
}

#[test]
fn spaced_assignment_is_not_replaced_and_shadows() {
    let written = set_system_env(Some("K =x"), "K", "v");
    assert_eq!(written, "K =x\nK=\"v\"");
    assert_eq!(get_system_env(&written, "K"), Ok("x".to_string()));
}

#[test]
fn reading_after_writing_gives_the_value() {
    let old = "# env\nLANG=C\r\nPATH=/bin\n\n";
    let written = set_system_env(Some(old), "PATH", " /usr/local/bin:/bin ");
    assert_eq!(get_system_env(&written, "PATH"), Ok(" /usr/local/bin:/bin ".to_string()));
    assert_eq!(get_system_env(&written, "LANG"), Ok("C".to_string()));
    let fresh = set_system_env(None, "EDITOR", "vi");
    assert_eq!(get_system_env(&fresh, "EDITOR"), Ok("vi".to_string()));
}
