//! An error type for invalid poker hands.

use vstd::prelude::*;

verus! {

/// An error carrying a message that describes why a hand was rejected.
///
/// The view of the error is the message text.
#[derive(Debug)]
pub struct PokerHandError {
    message: String,
}

impl View for PokerHandError {
    type V = Seq<char>;

    closed spec fn view(&self) -> Seq<char> {
        self.message@
    }
}

impl PokerHandError {
    pub fn new(message: &str) -> (e: PokerHandError)
        ensures
            e@ == message@,
    {
        PokerHandError { message: message.to_owned() }
    }

    /// The message describing the error.
    pub fn message(&self) -> (m: &str)
        ensures
            m@ == self@,
    {
        self.message.as_str()
    }
}

} // verus!
