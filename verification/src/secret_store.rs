//! What the token logic needs of a credential store, and the record of what was asked of one.

use crate::error;
use crate::error::{ErrorView, TeamsError};
use vstd::prelude::*;

verus! {

/// One call to a credential store: what was asked, and what the store replied.
#[allow(inconsistent_fields)]
pub enum Exchange {
    GetPassword { key: Seq<char>, reply: Result<Option<Seq<char>>, ErrorView> },
    SetPassword { key: Seq<char>, value: Seq<char>, reply: Result<(), ErrorView> },
    GetSecret { key: Seq<char>, reply: Result<Option<Seq<u8>>, ErrorView> },
    SetSecret { key: Seq<char>, value: Seq<u8>, reply: Result<(), ErrorView> },
    Delete { key: Seq<char>, reply: Result<bool, ErrorView> },
}

impl Exchange {
    /// The key that the call was about.
    pub open spec fn key(self) -> Seq<char> {
        match self {
            Exchange::GetPassword { key, .. } => key,
            Exchange::SetPassword { key, .. } => key,
            Exchange::GetSecret { key, .. } => key,
            Exchange::SetSecret { key, .. } => key,
            Exchange::Delete { key, .. } => key,
        }
    }

    /// The error that the store replied with, if it did.
    pub open spec fn failure(self) -> Option<ErrorView> {
        match self {
            Exchange::GetPassword { reply: Err(e), .. } => Some(e),
            Exchange::SetPassword { reply: Err(e), .. } => Some(e),
            Exchange::GetSecret { reply: Err(e), .. } => Some(e),
            Exchange::SetSecret { reply: Err(e), .. } => Some(e),
            Exchange::Delete { reply: Err(e), .. } => Some(e),
            _ => None,
        }
    }
}

/// A password reply with its parts taken by their views.
pub open spec fn password_reply(result: Result<Option<String>, TeamsError>) -> Result<
    Option<Seq<char>>,
    ErrorView,
> {
    match result {
        Ok(Some(value)) => Ok(Some(value@)),
        Ok(None) => Ok(None),
        Err(e) => Err(e@),
    }
}

/// A secret reply with its parts taken by their views.
pub open spec fn secret_reply(result: Result<Option<Vec<u8>>, TeamsError>) -> Result<
    Option<Seq<u8>>,
    ErrorView,
> {
    match result {
        Ok(Some(value)) => Ok(Some(value@)),
        Ok(None) => Ok(None),
        Err(e) => Err(e@),
    }
}

/// The minimal credential-store surface the token logic needs.
///
/// A store is free in what it replies: another process may change its entries, and any call may
/// fail. `history` is the record of the calls so far with their replies, and all that the
/// methods promise is that a call is added to that record.
pub trait SecretStore {
    /// The calls so far, oldest first.
    ///
    /// The record is ghost, so a store written in plain Rust has none to give and leaves this body
    /// as it is. A verified store gives its own: nothing can be proved of this one.
    closed spec fn history(&self) -> Seq<Exchange> {
        arbitrary()
    }

    /// Returns `Ok(None)` when no entry exists under `key`.
    fn get_password(&mut self, key: &str) -> (result: Result<Option<String>, TeamsError>)
        ensures
            final(self).history() == old(self).history().push(
                Exchange::GetPassword { key: key@, reply: password_reply(result) },
            ),
    ;

    fn set_password(&mut self, key: &str, value: &str) -> (result: Result<(), TeamsError>)
        ensures
            final(self).history() == old(self).history().push(
                Exchange::SetPassword { key: key@, value: value@, reply: error::outcome(result) },
            ),
    ;

    /// Returns `Ok(None)` when no entry exists under `key`.
    fn get_secret(&mut self, key: &str) -> (result: Result<Option<Vec<u8>>, TeamsError>)
        ensures
            final(self).history() == old(self).history().push(
                Exchange::GetSecret { key: key@, reply: secret_reply(result) },
            ),
    ;

    fn set_secret(&mut self, key: &str, value: &[u8]) -> (result: Result<(), TeamsError>)
        ensures
            final(self).history() == old(self).history().push(
                Exchange::SetSecret { key: key@, value: value@, reply: error::outcome(result) },
            ),
    ;

    /// Returns whether an entry existed under `key` before the call.
    fn delete(&mut self, key: &str) -> (result: Result<bool, TeamsError>)
        ensures
            final(self).history() == old(self).history().push(
                Exchange::Delete { key: key@, reply: error::outcome(result) },
            ),
    ;
}

/// The calls that lead from one record to a later one.
pub open spec fn since(before: Seq<Exchange>, after: Seq<Exchange>) -> Seq<Exchange> {
    after.skip(before.len() as int)
}

/// Whether a record continues an earlier one.
pub open spec fn continues(before: Seq<Exchange>, after: Seq<Exchange>) -> bool {
    &&& before.len() <= after.len()
    &&& forall|i: int| 0 <= i < before.len() ==> #[trigger] after[i] == before[i]
}

/// A record continues an earlier one if and only if it is that one with calls behind it, and those
/// are the calls since.
pub proof fn law_calls_since(before: Seq<Exchange>, calls: Seq<Exchange>, after: Seq<Exchange>)
    ensures
        continues(before, before + calls),
        since(before, before + calls) == calls,
        continues(before, after) ==> after == before + since(before, after),
{
    assert(since(before, before + calls) =~= calls);
    if continues(before, after) {
        assert(after =~= before + since(before, after));
    }
}

/// A reply is seen as itself, with its value and its error taken by their views.
pub proof fn law_replies_are_seen_as_they_are(text: String, bytes: Vec<u8>, e: TeamsError)
    ensures
        password_reply(Ok(Some(text))) == Ok::<Option<Seq<char>>, ErrorView>(Some(text@)),
        password_reply(Ok(None)) == Ok::<Option<Seq<char>>, ErrorView>(None),
        password_reply(Err(e)) == Err::<Option<Seq<char>>, ErrorView>(e@),
        secret_reply(Ok(Some(bytes))) == Ok::<Option<Seq<u8>>, ErrorView>(Some(bytes@)),
        secret_reply(Ok(None)) == Ok::<Option<Seq<u8>>, ErrorView>(None),
        secret_reply(Err(e)) == Err::<Option<Seq<u8>>, ErrorView>(e@),
{
}

/// A call failed if and only if its reply is an error, and with that error.
pub proof fn law_failures_are_errors_of_the_store(call: Exchange)
    ensures
        call.failure() == match call {
            Exchange::GetPassword { reply, .. } => reply.err(),
            Exchange::SetPassword { reply, .. } => reply.err(),
            Exchange::GetSecret { reply, .. } => reply.err(),
            Exchange::SetSecret { reply, .. } => reply.err(),
            Exchange::Delete { reply, .. } => reply.err(),
        },
{
}

} // verus!
