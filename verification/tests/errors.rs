use notemancy_content::error::ContentError;

#[test]
fn collaborator_messages_are_reported_word_for_word() {
    assert_eq!(ContentError::CollaboratorError("disk full".to_string()).message(), "disk full");
    assert_eq!(ContentError::SignalingFailure("no window".to_string()).message(), "no window");
    assert_eq!(ContentError::CollaboratorError(String::new()).message(), "");
}

#[test]
fn a_missing_path_is_named() {
    assert_eq!(ContentError::NotFound("a/b.md".to_string()).message(), "Not found: a/b.md");
}

#[test]
fn a_parse_failure_carries_the_diagnostic() {
    assert_eq!(
        ContentError::MetadataParseError("EOF while parsing a value at line 1 column 0".to_string())
            .message(),
        "Failed to parse metadata JSON: EOF while parsing a value at line 1 column 0"
    );
}

#[test]
fn a_write_without_target_says_so() {
    assert_eq!(
        ContentError::InvalidTarget.message(),
        "No target: neither a path nor a virtual path was given"
    );
}
