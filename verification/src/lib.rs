//! Keeping the tokens of a Teams client in a credential store, and the chat resources it handles.
//!
//! A token is kept under a profile, in one entry of the store or cut into chunks where an entry
//! holds too little. [`keyring`] has the operations for the store that the settings select,
//! [`tokens`] and [`profiles`] those for a store at hand, [`secret_store`] what is asked of a
//! store, and [`laws`] what the operations amount to on a store that gives back what it was given.
//! [`call_laws`] states what they ask of any store, call by call, and [`keyring_laws`] which store
//! they use for which settings.

pub mod call_laws;
pub mod chunks;
pub mod error;
pub mod files;
pub mod header;
pub mod json;
pub mod keyring;
pub mod keyring_laws;
pub mod keys;
pub mod laws;
pub mod memory_store;
pub mod model;
pub mod models;
pub mod profiles;
pub mod replies;
pub mod secret_store;
pub mod settings;
pub mod text;
pub mod tokens;
