use envtools::path_list::{patch_path, Platform};

fn patch(path: &str, dir: &str, platform: Platform) -> String {
    patch_path(path.to_string(), dir, platform)
}

#[test]
fn unix_appends_normalized_directory() {
    assert_eq!(patch("/usr/bin:/bin", "/opt/tool/", Platform::Unix), "/usr/bin:/bin:/opt/tool");
}

#[test]
fn unix_existing_entry_ignoring_case_is_kept() {
    assert_eq!(patch("/usr/bin:/opt/Tool", "/opt/tool", Platform::Unix), "/usr/bin:/opt/Tool");
}

#[test]
fn unix_empty_path_gets_no_separator() {
    assert_eq!(patch("", "/x", Platform::Unix), "/x");
}

#[test]
fn unix_trailing_separator_is_not_doubled() {
    assert_eq!(patch("/a:", "/x", Platform::Unix), "/a:/x");
}

#[test]
fn unix_backslashes_become_slashes_and_are_trimmed() {
    assert_eq!(patch("/a", "\\opt\\x\\\\", Platform::Unix), "/a:/opt/x");
}

#[test]
fn windows_existing_entry_with_other_separators_is_kept() {
    assert_eq!(
        patch("C:\\Windows;C:\\Tools", "c:/tools/", Platform::Windows),
        "C:\\Windows;C:\\Tools"
    );
}

#[test]
fn windows_appends_with_semicolon() {
    assert_eq!(patch("C:\\Windows", "D:/bin", Platform::Windows), "C:\\Windows;D:\\bin");
}

#[test]
fn root_directory_normalizes_to_empty_entry() {
    assert_eq!(patch("/a", "/", Platform::Unix), "/a:");
    assert_eq!(patch("/a:", "/", Platform::Unix), "/a:");
    assert_eq!(patch("/a::/b", "", Platform::Unix), "/a::/b");
}

#[test]
fn case_folding_is_ascii_only() {
    assert_eq!(patch("/\u{c4}", "/\u{e4}", Platform::Unix), "/\u{c4}:/\u{e4}");
}

#[test]
fn adding_twice_is_adding_once() {
    let once = patch("/usr/bin", "/opt/a/", Platform::Unix);
    let twice = patch(&once, "/opt/a/", Platform::Unix);
    assert_eq!(once, "/usr/bin:/opt/a");
    assert_eq!(twice, once);
    let w_once = patch("", "C:/Tools", Platform::Windows);
    assert_eq!(patch(&w_once, "c:\\tools\\", Platform::Windows), w_once);
}

#[test]
fn added_directory_becomes_an_entry_and_old_path_is_prefix() {
    let old = "/usr/bin:/bin:";
    let new = patch(old, "/home/u/bin", Platform::Unix);
    assert!(new.starts_with(old));
    assert!(new.split(':').any(|e| e.eq_ignore_ascii_case("/home/u/bin")));
}
