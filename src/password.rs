//! A minimal password-strength rule: more than five bytes.

use vstd::prelude::*;
use vstd::utf8::encode_utf8;

verus! {

/// Whether `pwd` is longer than five bytes.
pub fn read_only_is_strong_password(pwd: &str) -> (r: bool)
    ensures
        r == (encode_utf8(pwd@).len() > 5),
{
    pwd.as_bytes().len() > 5
}

/// Whether `pwd`, taken by value, is longer than five bytes.
pub fn mutable_is_strong_password(pwd: String) -> (r: bool)
    ensures
        r == (encode_utf8(pwd@).len() > 5),
{
    pwd.as_str().as_bytes().len() > 5
}

} // verus!
