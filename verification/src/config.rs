//! Configuration values the core consumes: the retention policy for
//! completed items, and the credential wrapper that never renders its value.

use vstd::prelude::*;

verus! {

/// What reconciliation does with completed items: mark them in place, add
/// them as new records too, or keep them out altogether.
#[derive(Clone, Copy, Debug, PartialEq, Eq, Structural)]
pub enum DonePolicy {
    Mark,
    Add,
    Ignore,
}

impl Default for DonePolicy {
    /// Completed items are marked, not added, unless configured otherwise.
    fn default() -> (r: Self)
        ensures
            r == DonePolicy::Mark,
    {
        DonePolicy::Mark
    }
}

/// A remote credential.  Its only textual rendering is a fixed redaction
/// marker; the real value is reached solely through `expose`, for building
/// the authenticated request.
#[derive(Clone)]
pub struct SecretString(String);

impl SecretString {
    /// The credential's characters, for specification only.
    pub closed spec fn spec_value(&self) -> Seq<char> {
        self.0@
    }

    pub fn new(value: String) -> (r: SecretString)
        ensures
            r.spec_value() == value@,
    {
        SecretString(value)
    }

    /// The real value; to be used only where the request is built.
    pub fn expose(&self) -> (r: &str)
        ensures
            r@ == self.spec_value(),
    {
        self.0.as_str()
    }

    /// The redaction marker that stands in for the value everywhere else.
    pub fn display(&self) -> (r: String)
        ensures
            r@ == "**REDACTED**"@,
    {
        "**REDACTED**".to_owned()
    }
}

} // verus!
