use envtools::add_to_path::{set_to_process, set_to_system, set_to_user};
use envtools::env_file::get_system_env;
use envtools::path_list::Platform;

#[test]
fn process_path_gets_directory() {
    assert_eq!(
        set_to_process("/opt/x".to_string(), Some("/bin".to_string()), Platform::Unix),
        Some("/bin:/opt/x".to_string())
    );
}

#[test]
fn unreadable_process_path_fails() {
    assert_eq!(set_to_process("/opt/x".to_string(), None, Platform::Unix), None);
}

#[test]
fn unix_system_store_rewrites_environment_file() {
    assert_eq!(
        set_to_system("/opt/x/".to_string(), Some("PATH=\"/bin\"\n".to_string()), Platform::Unix),
        Some("PATH=\"/bin:/opt/x\"".to_string())
    );
}

#[test]
fn unix_store_without_path_fails() {
    assert_eq!(set_to_system("/opt/x".to_string(), Some("A=1".to_string()), Platform::Unix), None);
    assert_eq!(set_to_user("/opt/x".to_string(), None, Platform::Unix), None);
}

#[test]
fn windows_user_store_is_the_value() {
    assert_eq!(
        set_to_user("C:/b".to_string(), Some("C:\\a".to_string()), Platform::Windows),
        Some("C:\\a;C:\\b".to_string())
    );
}

#[test]
fn added_directory_is_read_back() {
    let written = set_to_user(
        "/home/u/bin".to_string(),
        Some("LANG=C\nPATH=\"/usr/bin\"\n".to_string()),
        Platform::Unix,
    )
    .unwrap();
    let path = get_system_env(&written, "PATH").unwrap();
    assert_eq!(path, "/usr/bin:/home/u/bin");
    assert!(path.split(':').any(|e| e == "/home/u/bin"));
}
