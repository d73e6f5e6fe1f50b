use notemancy_content::text::{blank, split_path, title_le};

#[test]
fn split_path_drops_empty_pieces() {
    assert_eq!(split_path("folder/sub/page"), vec!["folder", "sub", "page"]);
    assert_eq!(split_path("/a//b/"), vec!["a", "b"]);
    assert_eq!(split_path("single"), vec!["single"]);
    assert_eq!(split_path(""), Vec::<String>::new());
    assert_eq!(split_path("////"), Vec::<String>::new());
}

#[test]
fn split_path_keeps_characters_beyond_ascii() {
    assert_eq!(split_path("caf\u{e9}/na\u{ef}ve.md"), vec!["caf\u{e9}", "na\u{ef}ve.md"]);
}

#[test]
fn title_le_is_the_code_point_order() {
    assert!(title_le("", ""));
    assert!(title_le("", "a"));
    assert!(!title_le("a", ""));
    assert!(title_le("a", "a"));
    assert!(title_le("a", "ab"));
    assert!(!title_le("ab", "a"));
    assert!(title_le("B", "a"));
    assert!(!title_le("a", "B"));
    assert!(title_le("abc", "abd"));
    assert!(!title_le("abd", "abc"));
    assert!(title_le("z", "\u{e9}"));
    assert!(!title_le("\u{e9}", "z"));
    assert!(title_le("\u{ffff}", "\u{10000}"));
}

#[test]
fn title_le_agrees_with_the_order_of_strings() {
    let samples = ["", "a", "A", "ab", "b", "\u{e9}", "\u{ffff}", "\u{10000}", "a/b", "a b"];
    for x in samples {
        for y in samples {
            assert_eq!(title_le(x, y), x <= y);
        }
    }
}

#[test]
fn blank_means_white_space_only() {
    assert!(blank(""));
    assert!(blank(" \t\r\n"));
    assert!(blank("\u{a0}\u{2003}\u{3000}\u{85}\u{1680}\u{2028}\u{2029}\u{202f}\u{205f}"));
    assert!(!blank("{}"));
    assert!(!blank("  x  "));
    assert!(!blank("\u{200b}"));
}

#[test]
fn blank_agrees_with_trimming() {
    let samples = ["", " ", "\u{b}\u{c}", "a", " a", "\u{feff}", "\u{2000}\u{200a}", "\u{180e}"];
    for s in samples {
        assert_eq!(blank(s), s.trim().is_empty());
    }
}
