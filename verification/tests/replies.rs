use notemancy_content::reply::{status_code, Endpoint};

#[test]
fn domain_errors_travel_in_an_ordinary_reply() {
    for endpoint in [Endpoint::FileTree, Endpoint::Page, Endpoint::UpdatePage, Endpoint::ReferencingNotes] {
        assert_eq!(status_code(endpoint, false), 200);
        assert_eq!(status_code(endpoint, true), 200);
    }
}

#[test]
fn a_failed_attachment_is_an_internal_error() {
    assert_eq!(status_code(Endpoint::Attachment, false), 200);
    assert_eq!(status_code(Endpoint::Attachment, true), 500);
}
