//! What comes back from a keyring or a file system, in the terms of a credential store.

use crate::error;
use crate::error::{ErrorView, TeamsError};
use vstd::prelude::*;
use vstd::string::*;

verus! {

/// What came of asking for an entry.
pub enum Lookup<T> {
    /// The entry is there.
    Found(T),
    /// There is no such entry.
    Absent,
    /// It could not be told; the text says why.
    Failed(String),
}

/// The error for something that could not be done.
pub open spec fn failure_error(what: Seq<char>, why: Seq<char>) -> ErrorView {
    ErrorView::KeyringError("Failed to "@ + what + ": "@ + why)
}

/// The error for something that could not be done.
pub fn failure(what: &str, why: &str) -> (e: TeamsError)
    ensures
        e@ == failure_error(what@, why@),
{
    let mut message: String = "Failed to ".to_owned();
    message.append(what);
    message.append(": ");
    message.append(why);
    TeamsError::KeyringError(message)
}

/// What came of asking for an entry: the entry, nothing, or an error.
pub open spec fn lookup_outcome<T>(lookup: Lookup<T>, what: Seq<char>) -> Result<
    Option<T>,
    ErrorView,
> {
    match lookup {
        Lookup::Found(value) => Ok(Some(value)),
        Lookup::Absent => Ok(None),
        Lookup::Failed(why) => Err(failure_error(what, why@)),
    }
}

/// What came of deleting an entry: whether it was there, or an error.
pub open spec fn deletion_outcome(lookup: Lookup<()>) -> Result<bool, ErrorView> {
    match lookup {
        Lookup::Found(_) => Ok(true),
        Lookup::Absent => Ok(false),
        Lookup::Failed(why) => Err(failure_error("delete token"@, why@)),
    }
}

/// An absent entry is no error: it is `None`.
pub fn absent_as_none<T>(lookup: Lookup<T>, what: &str) -> (result: Result<Option<T>, TeamsError>)
    ensures
        error::outcome(result) == lookup_outcome(lookup, what@),
        error::outcome(result) == match lookup {
            Lookup::Found(value) => Ok::<Option<T>, ErrorView>(Some(value)),
            Lookup::Absent => Ok::<Option<T>, ErrorView>(None),
            Lookup::Failed(why) => Err::<Option<T>, ErrorView>(failure_error(what@, why@)),
        },
{
    match lookup {
        Lookup::Found(value) => Ok(Some(value)),
        Lookup::Absent => Ok(None),
        Lookup::Failed(why) => Err(failure(what, why.as_str())),
    }
}

/// What deleting an entry tells: whether it was there.
pub fn deleted(lookup: Lookup<()>) -> (result: Result<bool, TeamsError>)
    ensures
        error::outcome(result) == deletion_outcome(lookup),
        error::outcome(result) == match lookup {
            Lookup::Found(_) => Ok::<bool, ErrorView>(true),
            Lookup::Absent => Ok::<bool, ErrorView>(false),
            Lookup::Failed(why) => Err::<bool, ErrorView>(
                failure_error("delete token"@, why@),
            ),
        },
{
    match absent_as_none(lookup, "delete token") {
        Ok(found) => Ok(found.is_some()),
        Err(e) => Err(e),
    }
}

/// How the error for something that could not be done is spelt.
pub proof fn law_failures_say_what_and_why(what: Seq<char>, why: Seq<char>)
    ensures
        failure_error(what, why) == ErrorView::KeyringError(
            seq!['F', 'a', 'i', 'l', 'e', 'd', ' ', 't', 'o', ' '] + what + seq![':', ' '] + why,
        ),
{
    reveal_strlit("Failed to ");
    reveal_strlit(": ");
    assert("Failed to "@ =~= seq!['F', 'a', 'i', 'l', 'e', 'd', ' ', 't', 'o', ' ']);
    assert(": "@ =~= seq![':', ' ']);
}

/// An entry that is there is given as it is, one that is not there is no error, and what could not be
/// told is an error that says what was tried and why it failed. A deletion tells whether the entry
/// was there, and fails in the same way.
pub proof fn law_absent_entries_are_no_error<T>(value: T, what: Seq<char>, why: String)
    ensures
        lookup_outcome(Lookup::Found(value), what) == Ok::<Option<T>, ErrorView>(Some(value)),
        lookup_outcome(Lookup::<T>::Absent, what) == Ok::<Option<T>, ErrorView>(None),
        lookup_outcome(Lookup::<T>::Failed(why), what) == Err::<Option<T>, ErrorView>(
            ErrorView::KeyringError("Failed to "@ + what + ": "@ + why@),
        ),
        deletion_outcome(Lookup::Found(())) == Ok::<bool, ErrorView>(true),
        deletion_outcome(Lookup::Absent) == Ok::<bool, ErrorView>(false),
        deletion_outcome(Lookup::Failed(why)) == Err::<bool, ErrorView>(
            ErrorView::KeyringError("Failed to "@ + "delete token"@ + ": "@ + why@),
        ),
{
}

} // verus!
