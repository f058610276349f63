//! The `ContextError` type, the error type used throughout the PDF part of this library.
//! An error always carries an explanation (its context) and possibly the message of the
//! error that caused it.
use vstd::prelude::*;
use crate::strings::{minimized, minimize_first_letter, push_chars, push_str, str_chars, chars_to_string};

verus! {

/// An error with a context and possibly the message of the propagated source error.
#[derive(Debug, Clone)]
pub struct ContextError {
    /// The context of the error.
    pub context: String,
    /// The message of the propagated source error.
    pub source_error: Option<String>,
}

/// The message of an error: its context, followed by `": "` and the message of its source
/// with the first letter minimized, if there is a source.
pub open spec fn context_error_message(context: Seq<char>, source_error: Option<Seq<char>>) -> Seq<char> {
    match source_error {
        Some(source) => context + ": "@ + minimized(source),
        None => context,
    }
}

impl ContextError {
    /// The message that this error displays.
    pub open spec fn spec_message(&self) -> Seq<char> {
        context_error_message(
            self.context@,
            match self.source_error {
                Some(s) => Some(s@),
                None => None,
            },
        )
    }

    /// Create a new `ContextError` with the given context, but no source error.
    pub fn with_context(context: String) -> (error: ContextError)
        ensures
            error.context@ == context@,
            error.source_error is None,
    {
        ContextError { context, source_error: None }
    }

    /// Create a new `ContextError` with the given context and the message of the source error.
    pub fn with_error(context: String, error_message: String) -> (error: ContextError)
        ensures
            error.context@ == context@,
            error.source_error matches Some(s) && s@ == error_message@,
    {
        ContextError { context, source_error: Some(error_message) }
    }

    /// The message of the error, as it is displayed.
    pub fn message(&self) -> (m: String)
        ensures
            m@ == self.spec_message(),
    {
        match &self.source_error {
            Some(source_error) => {
                let mut text = str_chars(self.context.as_str());
                push_str(&mut text, ": ");
                let minimized_source = minimize_first_letter(source_error.clone());
                let source_chars = str_chars(minimized_source.as_str());
                push_chars(&mut text, &source_chars);
                chars_to_string(&text)
            },
            None => self.context.clone(),
        }
    }
}

} // verus!
