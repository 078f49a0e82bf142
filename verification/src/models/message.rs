//! The parts of a chat message.

use vstd::prelude::*;

verus! {

/// Microsoft Graph itemBody resource: the body of a message.
#[derive(Debug, Clone)]
pub struct ItemBody {
    pub content_type: Option<String>,
    pub content: Option<String>,
}

/// Microsoft Graph identity resource: a user.
#[derive(Debug, Clone)]
pub struct Identity {
    pub id: Option<String>,
    pub display_name: Option<String>,
    pub user_identity_type: Option<String>,
}

/// Microsoft Graph chatMessageFromIdentitySet resource: who sent a message.
#[derive(Debug, Clone)]
pub struct ChatMessageFrom {
    pub user: Option<Identity>,
}

} // verus!
