//! Microsoft Graph resources.

pub mod chat;
pub mod member;
pub mod message;
