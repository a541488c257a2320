//! The error of a host call.

use vstd::prelude::*;

verus! {

/// What a host reports when a call fails: the code of the failure, such as
/// `ENOENT` or `EEXIST`.
#[derive(Debug)]
pub struct Error {
    pub code: String,
}

impl Error {
    pub fn new(code: &str) -> (r: Error)
        ensures
            r.code@ == code@,
    {
        Error { code: code.to_owned() }
    }

    pub open spec fn spec_already_exists(&self) -> bool {
        self.code@ == "EEXIST"@
    }

    /// Whether the call failed because its target was there already.
    #[verifier::when_used_as_spec(spec_already_exists)]
    pub fn already_exists(&self) -> (r: bool)
        ensures
            r == self.spec_already_exists(),
    {
        crate::path::str_eq(self.code.as_str(), "EEXIST")
    }
}

} // verus!
