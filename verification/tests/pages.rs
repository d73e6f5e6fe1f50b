use notemancy_content::error::ContentError;
use notemancy_content::page::{
    get_attachment, page_of, read_page, resolve_page_path, write_page, AttachmentPayload,
    PageContent, WriteRequest,
};
use notemancy_content::synthesis::Document;
use serde_json::Value;

fn stored(path: &str, content: &str, metadata: &str) -> Document {
    Document {
        virtual_path: path.to_string(),
        content: content.to_string(),
        metadata: metadata.to_string(),
    }
}

#[test]
fn the_empty_path_names_the_default_page() {
    assert_eq!(resolve_page_path(""), "home.md");
    assert_eq!(resolve_page_path("home.md"), "home.md");
    assert_eq!(resolve_page_path(""), resolve_page_path("home.md"));
}

#[test]
fn any_other_path_names_itself() {
    assert_eq!(resolve_page_path("notes/foo.md"), "notes/foo.md");
    assert_eq!(resolve_page_path(" "), " ");
    assert_eq!(resolve_page_path("/"), "/");
}

#[test]
fn blank_metadata_give_the_empty_object() {
    for metadata in ["", "   ", "\n\t", "\u{a0}"] {
        let page = read_page("p.md", Some(stored("p.md", "body", metadata))).unwrap();
        assert_eq!(page.body, "body");
        assert_eq!(page.metadata, Value::Object(serde_json::Map::new()));
    }
}

#[test]
fn json_metadata_are_parsed() {
    let page = read_page(
        "p.md",
        Some(stored("p.md", "# Title\n\ntext", "{\"title\":\"T\",\"tags\":[\"a\",\"b\"],\"n\":3}")),
    )
    .unwrap();
    let mut expected = serde_json::Map::new();
    expected.insert("title".to_string(), Value::String("T".to_string()));
    expected.insert(
        "tags".to_string(),
        Value::Array(vec![Value::String("a".to_string()), Value::String("b".to_string())]),
    );
    expected.insert("n".to_string(), Value::from(3));
    assert_eq!(page, PageContent { body: "# Title\n\ntext".to_string(), metadata: Value::Object(expected) });
}

#[test]
fn metadata_need_not_be_an_object() {
    let page = page_of(stored("p.md", "b", "[1]")).unwrap();
    assert_eq!(page.metadata, Value::Array(vec![Value::from(1)]));
}

#[test]
fn unreadable_metadata_fail_with_the_diagnostic() {
    let text = "{\"title\": ";
    let diagnostic = serde_json::from_str::<Value>(text).unwrap_err().to_string();
    let outcome = read_page("p.md", Some(stored("p.md", "body", text)));
    assert_eq!(outcome, Err(ContentError::MetadataParseError(diagnostic.clone())));
    assert_eq!(
        outcome.unwrap_err().message(),
        format!("Failed to parse metadata JSON: {}", diagnostic)
    );
    assert!(!diagnostic.is_empty());
    assert_ne!(diagnostic, text);
}

#[test]
fn a_missing_document_is_not_found() {
    assert_eq!(
        read_page("notes/gone.md", None),
        Err(ContentError::NotFound("notes/gone.md".to_string()))
    );
    assert_eq!(read_page("", None), Err(ContentError::NotFound("home.md".to_string())));
}

#[test]
fn an_attachment_is_handed_on_as_it_is() {
    let found = Some((vec![0u8, 159, 146, 150], "image/png".to_string()));
    assert_eq!(
        get_attachment("img/a.png", found),
        Ok(AttachmentPayload { bytes: vec![0u8, 159, 146, 150], content_type: "image/png".to_string() })
    );
}

#[test]
fn a_missing_attachment_is_not_found() {
    assert_eq!(
        get_attachment("img/a.png", None),
        Err(ContentError::NotFound("img/a.png".to_string()))
    );
}

#[test]
fn a_write_needs_a_target() {
    assert_eq!(write_page("c".to_string(), None, None), Err(ContentError::InvalidTarget));
}

#[test]
fn a_write_with_a_target_goes_on_unchanged() {
    assert_eq!(
        write_page("c".to_string(), Some("/disk/a.md".to_string()), None),
        Ok(WriteRequest {
            content: "c".to_string(),
            disk_path: Some("/disk/a.md".to_string()),
            virtual_path: None
        })
    );
    assert_eq!(
        write_page("c".to_string(), None, Some("a.md".to_string())),
        Ok(WriteRequest {
            content: "c".to_string(),
            disk_path: None,
            virtual_path: Some("a.md".to_string())
        })
    );
    assert_eq!(
        write_page(String::new(), Some("/d".to_string()), Some("v".to_string())),
        Ok(WriteRequest {
            content: String::new(),
            disk_path: Some("/d".to_string()),
            virtual_path: Some("v".to_string())
        })
    );
}

#[test]
fn what_was_written_is_read_back() {
    let content = "line one\nline two \u{1f600}\n";
    let request = write_page(content.to_string(), None, Some("notes/p.md".to_string())).unwrap();
    let kept = stored(&request.virtual_path.clone().unwrap(), &request.content, "");
    let path = resolve_page_path("notes/p.md");
    let found = if kept.virtual_path == path { Some(kept) } else { None };
    let page = read_page("notes/p.md", found).unwrap();
    assert_eq!(page.body, content);
}
