//! Lists as they are handed to a script.

use vstd::prelude::*;

verus! {

/// The bytes of a file.
#[derive(Debug)]
pub struct JsVecU8(pub Vec<u8>);

/// A list of names or of paths.
#[derive(Debug)]
pub struct JsVecString(pub Vec<String>);

impl Default for JsVecU8 {
    fn default() -> (r: Self)
        ensures
            r.0@ == Seq::<u8>::empty(),
    {
        JsVecU8(Vec::new())
    }
}

impl Default for JsVecString {
    fn default() -> (r: Self)
        ensures
            r.0@ == Seq::<String>::empty(),
    {
        JsVecString(Vec::new())
    }
}

} // verus!
