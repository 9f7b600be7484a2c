//! The crate's error type: a message, optionally wrapping the message of an
//! underlying cause.

use vstd::prelude::*;

verus! {

/// An application error.  `msg` describes what failed; `cause` carries the
/// text of an underlying error when one was wrapped.
#[derive(Debug, Clone)]
pub struct Error {
    pub msg: String,
    pub cause: Option<String>,
}

/// The message used when an error is built from a cause alone.
pub open spec fn default_error_msg() -> Seq<char> {
    "Internal error"@
}

impl Error {
    /// An error with the given description and no recorded cause.
    pub fn new(description: &str) -> (r: Error)
        ensures
            r.msg@ == description@,
            r.cause is None,
    {
        Error { msg: description.to_owned(), cause: None }
    }

    /// Wraps an underlying error's text under the default message.
    pub fn from(cause: &str) -> (r: Error)
        ensures
            r.msg@ == default_error_msg(),
            r.cause matches Some(c) && c@ == cause@,
    {
        Error::from_msg("Internal error", cause)
    }

    /// Wraps an underlying error's text under a message of its own.
    pub fn from_msg(msg: &str, cause: &str) -> (r: Error)
        ensures
            r.msg@ == msg@,
            r.cause matches Some(c) && c@ == cause@,
    {
        Error { msg: msg.to_owned(), cause: Some(cause.to_owned()) }
    }

    /// Renders the error: the message, the cause, or "message: cause",
    /// leaving the default message out when a cause can stand for it.
    pub fn message(&self) -> (r: String)
        ensures
            self.cause is None ==> r@ == self.msg@,
            self.cause matches Some(c) ==> r@ == if self.msg@ == default_error_msg() {
                c@
            } else {
                self.msg@ + ": "@ + c@
            },
    {
        match &self.cause {
            None => self.msg.clone(),
            Some(c) => {
                let default: String = "Internal error".to_owned();
                if self.msg == default {
                    c.clone()
                } else {
                    let mut r = self.msg.clone();
                    r.append(": ");
                    r.append(c.as_str());
                    r
                }
            },
        }
    }
}

} // verus!
