//! How the HTTP surface reports an outcome: domain errors travel inside an
//! ordinary reply, and only a failed attachment changes the status.

use vstd::prelude::*;

verus! {

/// The operations of the HTTP surface.
#[derive(Clone, Copy, Debug, PartialEq, Eq)]
pub enum Endpoint {
    FileTree,
    Page,
    UpdatePage,
    Attachment,
    ReferencingNotes,
}

/// The status of an ordinary reply.
pub const STATUS_OK: u16 = 200;

/// The status of a reply to an attachment request that failed.
pub const STATUS_INTERNAL_ERROR: u16 = 500;

/// The status of the reply to a request: 200, with the error embedded in
/// the body where the operation failed, for every operation but the
/// attachment, whose failure is reported as 500.
pub open spec fn status_of(endpoint: Endpoint, failed: bool) -> u16 {
    if failed && endpoint is Attachment {
        STATUS_INTERNAL_ERROR
    } else {
        STATUS_OK
    }
}

/// The status with which the HTTP surface answers.
pub fn status_code(endpoint: Endpoint, failed: bool) -> (status: u16)
    ensures
        status == status_of(endpoint, failed),
{
    match endpoint {
        Endpoint::Attachment => if failed {
            STATUS_INTERNAL_ERROR
        } else {
            STATUS_OK
        },
        _ => STATUS_OK,
    }
}

} // verus!
