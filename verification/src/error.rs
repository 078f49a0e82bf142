//! The errors that the library reports.

use vstd::prelude::*;

verus! {

/// An error, with the text that is shown to the user.
#[derive(Debug)]
pub enum TeamsError {
    /// A setting or an argument that cannot be used.
    InvalidInput(String),
    /// A credential store that is switched off, failed, or holds no usable token.
    KeyringError(String),
}

/// What a [`TeamsError`] says.
pub enum ErrorView {
    InvalidInput(Seq<char>),
    KeyringError(Seq<char>),
}

impl ErrorView {
    /// The text of the error.
    pub open spec fn message(self) -> Seq<char> {
        match self {
            ErrorView::InvalidInput(text) => text,
            ErrorView::KeyringError(text) => text,
        }
    }
}

impl View for TeamsError {
    type V = ErrorView;

    open spec fn view(&self) -> ErrorView {
        match self {
            TeamsError::InvalidInput(text) => ErrorView::InvalidInput(text@),
            TeamsError::KeyringError(text) => ErrorView::KeyringError(text@),
        }
    }
}

impl TeamsError {
    /// The text of the error, as the user sees it.
    pub fn message(&self) -> (text: String)
        ensures
            text@ == self@.message(),
    {
        match self {
            TeamsError::InvalidInput(text) => text.clone(),
            TeamsError::KeyringError(text) => text.clone(),
        }
    }

    /// A second error that says the same.
    pub fn duplicate(&self) -> (copy: TeamsError)
        ensures
            copy@ == self@,
    {
        match self {
            TeamsError::InvalidInput(text) => TeamsError::InvalidInput(text.clone()),
            TeamsError::KeyringError(text) => TeamsError::KeyringError(text.clone()),
        }
    }
}

/// A result with its error taken by its view.
pub open spec fn outcome<T>(result: Result<T, TeamsError>) -> Result<T, ErrorView> {
    match result {
        Ok(value) => Ok(value),
        Err(e) => Err(e@),
    }
}

/// A text result with both sides taken by their views.
pub open spec fn text_outcome(result: Result<String, TeamsError>) -> Result<Seq<char>, ErrorView> {
    match result {
        Ok(text) => Ok(text@),
        Err(e) => Err(e@),
    }
}

/// An error is seen as its kind and its text, and the text is what the user sees.
pub proof fn law_errors_are_seen_as_they_are(text: String)
    ensures
        TeamsError::InvalidInput(text)@ == ErrorView::InvalidInput(text@),
        TeamsError::KeyringError(text)@ == ErrorView::KeyringError(text@),
        ErrorView::InvalidInput(text@).message() == text@,
        ErrorView::KeyringError(text@).message() == text@,
{
}

/// A result is seen as itself, with its error and its text taken by their views.
pub proof fn law_results_are_seen_as_they_are<T>(value: T, text: String, e: TeamsError)
    ensures
        outcome(Ok::<T, TeamsError>(value)) == Ok::<T, ErrorView>(value),
        outcome(Err::<T, TeamsError>(e)) == Err::<T, ErrorView>(e@),
        text_outcome(Ok(text)) == Ok::<Seq<char>, ErrorView>(text@),
        text_outcome(Err(e)) == Err::<Seq<char>, ErrorView>(e@),
{
}

} // verus!
