use envtools::win_string::string_to_win_bytes;

#[test]
fn ascii_and_latin_are_single_units() {
    assert_eq!(string_to_win_bytes("A"), vec![0x41, 0, 0, 0]);
    assert_eq!(string_to_win_bytes("\u{e9}"), vec![0xe9, 0, 0, 0]);
    assert_eq!(string_to_win_bytes("\u{20ac}"), vec![0xac, 0x20, 0, 0]);
}

#[test]
fn astral_characters_become_surrogate_pairs() {
    assert_eq!(string_to_win_bytes("\u{1f600}"), vec![0x3d, 0xd8, 0x00, 0xde, 0, 0]);
}

#[test]
fn empty_string_is_just_the_terminator() {
    assert_eq!(string_to_win_bytes(""), vec![0, 0]);
}

#[test]
fn matches_std_encoding() {
    let s = "C:\\Program Files\\\u{1f600}x";
    let expected: Vec<u8> = s
        .encode_utf16()
        .chain(std::iter::once(0))
        .flat_map(|u| u.to_le_bytes())
        .collect();
    assert_eq!(string_to_win_bytes(s), expected);
}
