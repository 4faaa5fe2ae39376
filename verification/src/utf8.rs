//! Checking that bytes are text.
//!
//! The contract in this file is believed, not proved: it restates what the
//! standard library documents of `core::str::from_utf8`.

use core::str::Utf8Error;
use vstd::prelude::*;
use vstd::utf8::{encode_utf8, valid_utf8};

verus! {

/// `core::str::Utf8Error`, which says where bytes stopped being UTF-8.
#[verifier::external_type_specification]
#[verifier::external_body]
pub struct ExUtf8Error(Utf8Error);

/// `core::str::from_utf8` succeeds on exactly the slices that hold valid
/// UTF-8, and the string it returns is the slice itself, read as text.
pub assume_specification[ core::str::from_utf8 ](v: &[u8]) -> (r: Result<&str, Utf8Error>)
    ensures
        r is Ok <==> valid_utf8(v@),
        r matches Ok(s) ==> encode_utf8(s@) == v@,
;

} // verus!
