use missing_files::order::string_less;

#[test]
fn less_on_plain_names() {
    assert!(string_less("a.txt", "b.txt"));
    assert!(!string_less("b.txt", "a.txt"));
    assert!(string_less("old/a", "old/b"));
}

#[test]
fn nothing_is_less_than_itself() {
    assert!(!string_less("", ""));
    assert!(!string_less("same", "same"));
}

#[test]
fn prefix_comes_first() {
    assert!(string_less("", "a"));
    assert!(!string_less("a", ""));
    assert!(string_less("dir", "dir/file"));
    assert!(!string_less("dir/file", "dir"));
}

#[test]
fn upper_case_comes_before_lower_case() {
    assert!(string_less("Z", "a"));
    assert!(!string_less("a", "Z"));
}

#[test]
fn order_is_that_of_rust_strings() {
    let samples = [
        "", "a", "ab", "abc", "b", "B", "z", "é", "è", "ß", "日本", "日", "本", "😀", "a😀", "~",
        "0", "10", "9", "old/x", "old/x/y", "old-x", "\u{7f}", "\u{80}", "\u{7ff}", "\u{800}",
        "\u{ffff}", "\u{10000}",
    ];
    for left in samples.iter() {
        for right in samples.iter() {
            assert_eq!(string_less(left, right), left < right, "{:?} {:?}", left, right);
        }
    }
}
