//! Chats, and the requests that create and change them.

use crate::models::member::AddMemberRequest;
use crate::models::message::{ChatMessageFrom, ItemBody};
use vstd::prelude::*;

verus! {

/// Microsoft Graph Chat resource
#[derive(Debug, Clone)]
pub struct Chat {
    pub id: Option<String>,
    pub topic: Option<String>,
    pub chat_type: Option<String>,
    pub last_updated_date_time: Option<String>,
    /// Present only when the listing expands it.
    pub last_message_preview: Option<ChatMessageInfo>,
}

/// Microsoft Graph chatMessageInfo resource: the preview of a chat's newest message
#[derive(Debug, Clone)]
pub struct ChatMessageInfo {
    pub id: Option<String>,
    pub created_date_time: Option<String>,
    pub message_type: Option<String>,
    pub is_deleted: Option<bool>,
    pub body: Option<ItemBody>,
    pub from: Option<ChatMessageFrom>,
}

/// Request body for creating a new chat.
#[derive(Debug, Clone)]
pub struct ChatCreateRequest {
    pub chat_type: String,
    pub topic: Option<String>,
    pub members: Vec<AddMemberRequest>,
}

/// Request body for updating a chat.
#[derive(Debug, Clone)]
pub struct ChatUpdateRequest {
    pub topic: Option<String>,
}

/// Request body for hide/unhide chat.
#[derive(Debug, Clone)]
pub struct ChatUserAction {
    pub user: ChatUserRef,
}

/// The user that a [`ChatUserAction`] is about.
#[derive(Debug, Clone)]
pub struct ChatUserRef {
    pub id: String,
}

} // verus!
