//! Names and keys as byte strings.

use vstd::prelude::*;
use vstd::string::StrSliceExecFns;
use vstd::utf8::{is_ascii_chars, is_ascii_chars_encode_utf8};

verus! {

/// The bytes of a text of ASCII characters, one byte for each.
pub open spec fn ascii(text: Seq<char>) -> Seq<u8> {
    Seq::new(text.len(), |i: int| text[i] as u8)
}

/// The byte string that spells `text`.
pub fn name(text: &str) -> (bytes: Vec<u8>)
    requires
        is_ascii_chars(text@),
    ensures
        bytes@ == ascii(text@),
{
    proof {
        is_ascii_chars_encode_utf8(text@);
    }
    let bytes = text.as_bytes_vec();
    assert(bytes@ =~= ascii(text@));
    bytes
}

} // verus!
