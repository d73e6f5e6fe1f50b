//! The failures of the content service, and how each is reported.

use vstd::prelude::*;

verus! {

/// What can go wrong in a request to the content service.
#[derive(Clone, Debug, PartialEq, Eq)]
pub enum ContentError {
    /// No document or attachment stands under the path, which is kept.
    NotFound(String),
    /// The stored metadata is not JSON; the parser's diagnostic is kept.
    MetadataParseError(String),
    /// A write names neither a disk path nor a virtual path.
    InvalidTarget,
    /// A lifecycle signal could not be emitted; the reason is kept.
    SignalingFailure(String),
    /// The document store failed; its message is kept.
    CollaboratorError(String),
}

/// What the message of a missing path starts with.
pub open spec fn not_found_prefix() -> Seq<char> {
    "Not found: "@
}

/// What the message of unreadable metadata starts with.
pub open spec fn metadata_prefix() -> Seq<char> {
    "Failed to parse metadata JSON: "@
}

/// The message of a write without a target.
pub open spec fn invalid_target_text() -> Seq<char> {
    "No target: neither a path nor a virtual path was given"@
}

impl ContentError {
    /// The message under which the failure is reported to a caller. What
    /// came from a collaborator is reported word for word.
    pub open spec fn message_text(self) -> Seq<char> {
        match self {
            ContentError::NotFound(path) => not_found_prefix() + path@,
            ContentError::MetadataParseError(diagnostic) => metadata_prefix() + diagnostic@,
            ContentError::InvalidTarget => invalid_target_text(),
            ContentError::SignalingFailure(reason) => reason@,
            ContentError::CollaboratorError(message) => message@,
        }
    }

    /// Renders the failure as the message that callers are given.
    pub fn message(&self) -> (text: String)
        ensures
            text@ == self.message_text(),
    {
        match self {
            ContentError::NotFound(path) => String::from_str("Not found: ").concat(path.as_str()),
            ContentError::MetadataParseError(diagnostic) => String::from_str(
                "Failed to parse metadata JSON: ",
            ).concat(diagnostic.as_str()),
            ContentError::InvalidTarget => String::from_str(
                "No target: neither a path nor a virtual path was given",
            ),
            ContentError::SignalingFailure(reason) => reason.clone(),
            ContentError::CollaboratorError(message) => message.clone(),
        }
    }
}

} // verus!
