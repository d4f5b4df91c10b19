use vstd::prelude::*;

verus! {

/// A refused user input: the message is shown in the status bar and editing goes on.
#[derive(Debug)]
pub enum Error {
    Invalid(String),
}

} // verus!
