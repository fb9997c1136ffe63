//! Errors raised while building the dictionary.

use vstd::prelude::*;

verus! {

/// Building the dictionary failed.
#[derive(Debug)]
pub enum FenominalError {
    /// A surface form has more non-stop words than the dictionary's size cap
    /// allows. This signals an ontology change that requires lifting the cap.
    DictionaryEntryTooLong { surface: String },
}

impl FenominalError {
    /// A short description of the error.
    pub fn message(&self) -> (r: String)
        ensures
            r@ == self.spec_message(),
    {
        match self {
            FenominalError::DictionaryEntryTooLong { surface } => {
                let mut msg = surface.clone();
                msg.append(": too many words for the dictionary");
                msg
            },
        }
    }

    pub open spec fn spec_message(self) -> Seq<char> {
        match self {
            FenominalError::DictionaryEntryTooLong { surface } => surface@
                + ": too many words for the dictionary"@,
        }
    }
}

} // verus!
