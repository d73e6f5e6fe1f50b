//! The request-scoped rules of the content service: which page a path
//! names, what a stored document becomes when it is read, what an
//! attachment lookup yields, and which writes have a target.

use crate::error::ContentError;
use crate::json::{empty_object, error_text, json_error_text, json_object, json_parse, parse};
use crate::synthesis::{Document, DocumentView};
use crate::text::{blank, is_blank};
use vstd::prelude::*;

verus! {

/// A page as it is handed to a reader: the body of the document and its
/// metadata as a JSON value.
#[derive(Debug, PartialEq)]
pub struct PageContent {
    pub body: String,
    pub metadata: serde_json::Value,
}

/// An attachment as it is handed to a reader.
#[derive(Clone, Debug, PartialEq, Eq)]
pub struct AttachmentPayload {
    pub bytes: Vec<u8>,
    pub content_type: String,
}

/// A write that has a target, as it is handed to the document store.
#[derive(Clone, Debug, PartialEq, Eq)]
pub struct WriteRequest {
    pub content: String,
    pub disk_path: Option<String>,
    pub virtual_path: Option<String>,
}

/// The page that is shown where no path is given.
pub open spec fn default_page() -> Seq<char> {
    "home.md"@
}

/// The path of the document that a request for `virtual_path` reads: the
/// path itself, and the default page for the empty path.
pub open spec fn page_path(virtual_path: Seq<char>) -> Seq<char> {
    if virtual_path.len() == 0 {
        default_page()
    } else {
        virtual_path
    }
}

/// A request for the empty path reads the same document as a request for
/// the default page.
pub proof fn lemma_empty_path_is_default_page()
    ensures
        page_path(Seq::<char>::empty()) == page_path(default_page()),
        page_path(Seq::<char>::empty()) == default_page(),
{
    reveal_strlit("home.md");
}

/// Whether a read of the stored document yields a page with this body and
/// these metadata, or fails with this error.
pub open spec fn read_outcome(
    document: DocumentView,
    outcome: Result<PageContent, ContentError>,
) -> bool {
    if is_blank(document.metadata) {
        &&& outcome matches Ok(page)
        &&& page.body@ == document.content
        &&& json_object(page.metadata) == Some(Map::<Seq<char>, serde_json::Value>::empty())
    } else {
        match json_parse(document.metadata) {
            Ok(value) => {
                &&& outcome matches Ok(page)
                &&& page.body@ == document.content
                &&& page.metadata == value
            },
            Err(error) => {
                &&& outcome matches Err(ContentError::MetadataParseError(diagnostic))
                &&& diagnostic@ == json_error_text(error)
            },
        }
    }
}

/// A page that is read from a document holds, as its body, the content of
/// the document: where the document store keeps the content of a write as
/// it was handed over, reading the page back gives that content.
pub proof fn lemma_read_gives_back_what_was_written(
    request: WriteRequest,
    document: DocumentView,
    outcome: Result<PageContent, ContentError>,
)
    requires
        document.content == request.content@,
        read_outcome(document, outcome),
        outcome is Ok,
    ensures
        outcome->Ok_0.body@ == request.content@,
{
}

/// The path of the document to look up for a page request.
pub fn resolve_page_path(virtual_path: &str) -> (path: String)
    ensures
        path@ == page_path(virtual_path@),
{
    if virtual_path.unicode_len() == 0 {
        String::from_str("home.md")
    } else {
        virtual_path.to_owned()
    }
}

/// Builds the page of a request from what the lookup of its path found.
///
/// Nothing found is `NotFound` with the path that was looked up. Blank
/// metadata give the empty object. Other metadata must be JSON: where they
/// are not, the read fails with the parser's diagnostic.
pub fn read_page(virtual_path: &str, found: Option<Document>) -> (outcome: Result<
    PageContent,
    ContentError,
>)
    ensures
        match found {
            Some(document) => read_outcome(document@, outcome),
            None => {
                &&& outcome matches Err(ContentError::NotFound(path))
                &&& path@ == page_path(virtual_path@)
            },
        },
{
    match found {
        Some(document) => page_of(document),
        None => Err(ContentError::NotFound(resolve_page_path(virtual_path))),
    }
}

/// Turns a stored document into a page: the body as it is, the metadata
/// parsed.
pub fn page_of(document: Document) -> (outcome: Result<PageContent, ContentError>)
    ensures
        read_outcome(document@, outcome),
{
    if blank(document.metadata.as_str()) {
        Ok(PageContent { body: document.content, metadata: empty_object() })
    } else {
        match parse(document.metadata.as_str()) {
            Ok(value) => Ok(PageContent { body: document.content, metadata: value }),
            Err(error) => Err(ContentError::MetadataParseError(error_text(&error))),
        }
    }
}

/// Builds the payload of an attachment request from what the lookup of its
/// path found: the bytes and the content type as they are, and `NotFound`
/// with the path where there is nothing.
pub fn get_attachment(virtual_path: &str, found: Option<(Vec<u8>, String)>) -> (outcome: Result<
    AttachmentPayload,
    ContentError,
>)
    ensures
        match found {
            Some(asset) => {
                &&& outcome matches Ok(payload)
                &&& payload.bytes@ == asset.0@
                &&& payload.content_type@ == asset.1@
            },
            None => {
                &&& outcome matches Err(ContentError::NotFound(path))
                &&& path@ == virtual_path@
            },
        },
{
    match found {
        Some(asset) => Ok(AttachmentPayload { bytes: asset.0, content_type: asset.1 }),
        None => Err(ContentError::NotFound(virtual_path.to_owned())),
    }
}

/// Checks that a write has a target: a disk path, a virtual path, or both.
/// The request goes on to the document store unchanged; a write without
/// either is `InvalidTarget`.
pub fn write_page(content: String, disk_path: Option<String>, virtual_path: Option<String>) -> (outcome:
    Result<WriteRequest, ContentError>)
    ensures
        match outcome {
            Ok(request) => {
                &&& disk_path is Some || virtual_path is Some
                &&& request.content == content
                &&& request.disk_path == disk_path
                &&& request.virtual_path == virtual_path
            },
            Err(error) => {
                &&& disk_path is None
                &&& virtual_path is None
                &&& error == ContentError::InvalidTarget
            },
        },
{
    if disk_path.is_none() && virtual_path.is_none() {
        Err(ContentError::InvalidTarget)
    } else {
        Ok(WriteRequest { content, disk_path, virtual_path })
    }
}

} // verus!
