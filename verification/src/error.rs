//! Why decoding fails.

use vstd::prelude::*;
use vstd::string::*;

verus! {

/// The one failure of decoding. Everything else that noise can do is
/// absorbed, at worst into a wrong message.
#[derive(Clone, Copy, Debug, PartialEq, Eq)]
pub enum DecodeError {
    /// No frame reproduced enough of the pilot: the input carries no
    /// detectable watermark.
    NoReliableFrames,
}

impl DecodeError {
    /// A sentence that describes the failure.
    pub fn message(&self) -> (text: String)
        ensures
            text@ == "unable to decode watermark: no reliable frames detected"@,
    {
        match self {
            DecodeError::NoReliableFrames => String::from_str(
                "unable to decode watermark: no reliable frames detected",
            ),
        }
    }
}

} // verus!
