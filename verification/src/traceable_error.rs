//! The `TraceableError` type: an error with a context and the message of its source.
use vstd::prelude::*;
use crate::strings::{capitalized, push_chars, push_str, str_chars, chars_to_string};
pub use crate::strings::{capitalize_first_letter, minimize_first_letter};

verus! {

/// Declares `anyhow::Error` so that an error of that kind can be taken as a source.
#[verifier::external_type_specification]
#[verifier::external_body]
pub struct ExAnyhowError(anyhow::Error);

/// An error with a context and possibly the message of the error that caused it.
#[derive(Debug)]
pub struct TraceableError {
    context: String,
    source: Option<String>,
}

/// The message of a traceable error: its context, followed by `" - "` and the message of
/// its source with the first letter capitalized, if there is a source.
pub open spec fn traceable_error_message(context: Seq<char>, source: Option<Seq<char>>) -> Seq<char> {
    match source {
        Some(s) => context + " - "@ + capitalized(s),
        None => context,
    }
}

impl View for TraceableError {
    type V = (Seq<char>, Option<Seq<char>>);

    closed spec fn view(&self) -> (Seq<char>, Option<Seq<char>>) {
        (
            self.context@,
            match self.source {
                Some(s) => Some(s@),
                None => None,
            },
        )
    }
}

impl TraceableError {
    /// An error with the given context and no source.
    pub fn with_context(context: String) -> (error: TraceableError)
        ensures
            error@ == (context@, None::<Seq<char>>),
    {
        TraceableError { context, source: None }
    }

    /// An error with the given context whose source is the given error: the message of the
    /// source is what `anyhow::Error` displays.
    pub fn with_source(context: String, source: anyhow::Error) -> (error: TraceableError)
        ensures
            error@.0 == context@,
            exists|message: String|
                vstd::string::to_string_from_display_ensures::<anyhow::Error>(&source, message) && error@.1 == Some(
                    #[trigger] message@,
                ),
    {
        let message = source.to_string();
        Self::with_source_message(context, message)
    }

    /// An error with the given context and the given source message.
    pub fn with_source_message(context: String, source_message: String) -> (error: TraceableError)
        ensures
            error@ == (context@, Some(source_message@)),
    {
        TraceableError { context, source: Some(source_message) }
    }

    /// The context of the error.
    pub fn context(&self) -> (c: &String)
        ensures
            c@ == self@.0,
    {
        &self.context
    }

    /// The message of the source of the error, if any.
    pub fn source_message(&self) -> (s: Option<String>)
        ensures
            match s {
                Some(m) => self@.1 == Some(m@),
                None => self@.1 is None,
            },
    {
        self.source.clone()
    }

    /// The message of the error, as it is displayed.
    pub fn message(&self) -> (m: String)
        ensures
            m@ == traceable_error_message(self@.0, self@.1),
    {
        match &self.source {
            Some(source) => {
                let mut text = str_chars(self.context.as_str());
                push_str(&mut text, " - ");
                let capitalized_source = capitalize_first_letter(source.clone());
                let source_chars = str_chars(capitalized_source.as_str());
                push_chars(&mut text, &source_chars);
                chars_to_string(&text)
            },
            None => self.context.clone(),
        }
    }
}

} // verus!
