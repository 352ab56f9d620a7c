//! Request shapes of the command surface, and the small computations the
//! commands perform on them before and after talking to storage.

use vstd::prelude::*;
use crate::clipboard::{ClipboardItemRequest, ClipboardItemUpdateRequest};

verus! {

/// List entries, newest first, with optional paging.
pub struct GetClipboardItemsRequest {
    pub token: String,
    pub limit: Option<i64>,
    pub offset: Option<i64>,
}

/// Add one entry.
pub struct AddClipboardItemRequest {
    pub token: String,
    pub content: String,
    pub content_type: String,
    pub encrypt: bool,
}

/// Replace one entry.
pub struct UpdateClipboardItemRequest {
    pub token: String,
    pub id: String,
    pub content: String,
    pub content_type: String,
    pub encrypt: bool,
}

/// Delete one entry.
pub struct DeleteClipboardItemRequest {
    pub token: String,
    pub id: String,
}

/// Search entries by content, with optional paging.
pub struct SearchClipboardItemsRequest {
    pub token: String,
    pub query: String,
    pub limit: Option<i64>,
    pub offset: Option<i64>,
}

/// Register an account.
pub struct RegisterRequest {
    pub email: String,
    pub password: String,
    pub verification_code: String,
}

/// Log in.
pub struct LoginRequest {
    pub email: String,
    pub password: String,
    pub remember_me: bool,
}

/// Change the password of a logged-in account.
pub struct ChangePasswordRequest {
    pub token: String,
    pub old_password: String,
    pub new_password: String,
}

/// Reset a forgotten password with an emailed token.
pub struct ResetPasswordRequest {
    pub email: String,
    pub reset_token: String,
    pub new_password: String,
}

/// Update the profile of a logged-in account.
pub struct UpdateProfileRequest {
    pub token: String,
    pub username: String,
    pub email: String,
}

/// The page size a listing uses: the requested one, or 50.
pub fn effective_limit(limit: Option<i64>) -> (n: i64)
    ensures
        n == match limit {
            Some(l) => l,
            None => 50,
        },
{
    match limit {
        Some(l) => l,
        None => 50,
    }
}

/// The page offset a listing uses: the requested one, or 0.
pub fn effective_offset(offset: Option<i64>) -> (n: i64)
    ensures
        n == match offset {
            Some(o) => o,
            None => 0,
        },
{
    match offset {
        Some(o) => o,
        None => 0,
    }
}

/// The service-level request an add command carries.
pub fn item_request_of(request: AddClipboardItemRequest) -> (r: ClipboardItemRequest)
    ensures
        r.content@ == request.content@,
        r.content_type@ == request.content_type@,
        r.encrypt == request.encrypt,
{
    ClipboardItemRequest {
        content: request.content,
        content_type: request.content_type,
        encrypt: request.encrypt,
    }
}

/// The service-level request an update command carries.
pub fn update_request_of(request: UpdateClipboardItemRequest) -> (r: ClipboardItemUpdateRequest)
    ensures
        r.id@ == request.id@,
        r.content@ == request.content@,
        r.content_type@ == request.content_type@,
        r.encrypt == request.encrypt,
{
    ClipboardItemUpdateRequest {
        id: request.id,
        content: request.content,
        content_type: request.content_type,
        encrypt: request.encrypt,
    }
}

/// Whether the clipboard monitor captures what it just read: only content
/// that is nonempty and differs from the last capture.
pub fn should_capture(content: &str, last: &str) -> (r: bool)
    ensures
        r == (content@.len() > 0 && content@ != last@),
{
    if content.is_empty() {
        false
    } else {
        !crate::strutil::str_eq(content, last)
    }
}

} // verus!
