//! Failure of the entry encoding.
use vstd::prelude::*;
use vstd::string::*;

verus! {

/// What an outside encoder or decoder complained of.
#[derive(Clone, Debug, PartialEq, Eq)]
pub struct FormatError(pub String);

impl FormatError {
    /// The failure in words.
    pub fn message(&self) -> (text: String)
        ensures
            text@ == "rkyv format error: "@ + self.0@,
    {
        let mut text = String::from_str("rkyv format error: ");
        text.append(self.0.as_str());
        text
    }
}

} // verus!
