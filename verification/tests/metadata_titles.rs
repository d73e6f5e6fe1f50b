use notemancy_content::json::{declared_title, leaf_title};

#[test]
fn declared_title_reads_the_string_under_title() {
    assert_eq!(declared_title("{\"title\":\"Foo Bar\"}"), Some("Foo Bar".to_string()));
    assert_eq!(
        declared_title("  { \"other\": 1, \"title\": \"T\\u00e9\" }  "),
        Some("T\u{e9}".to_string())
    );
    assert_eq!(declared_title("{\"title\":\"\"}"), Some(String::new()));
}

#[test]
fn declared_title_is_none_without_a_string_title() {
    assert_eq!(declared_title("{}"), None);
    assert_eq!(declared_title("{\"Title\":\"x\"}"), None);
    assert_eq!(declared_title("{\"title\":null}"), None);
    assert_eq!(declared_title("{\"title\":3}"), None);
    assert_eq!(declared_title("{\"title\":[\"x\"]}"), None);
    assert_eq!(declared_title("{\"title\":{\"title\":\"x\"}}"), None);
    assert_eq!(declared_title("[1,2]"), None);
    assert_eq!(declared_title("\"title\""), None);
    assert_eq!(declared_title("title"), None);
}

#[test]
fn declared_title_is_none_for_text_that_is_no_json() {
    assert_eq!(declared_title(""), None);
    assert_eq!(declared_title("   "), None);
    assert_eq!(declared_title("{\"title\":\"x\""), None);
    assert_eq!(declared_title("title: x"), None);
    assert_eq!(declared_title("{\"title\":\"x\"} trailing"), None);
}

#[test]
fn leaf_title_prefers_the_declared_title() {
    assert_eq!(leaf_title("foo.md", Some("Foo".to_string())), "Foo");
    assert_eq!(leaf_title("foo.md", Some(String::new())), "");
    assert_eq!(leaf_title("foo.md", None), "foo.md");
}
