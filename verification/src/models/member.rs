//! The members of a chat.

use vstd::prelude::*;

verus! {

/// Request body for adding a member.
#[derive(Debug, Clone)]
pub struct AddMemberRequest {
    pub odata_type: String,
    pub roles: Vec<String>,
    pub user_bind: String,
}

} // verus!
