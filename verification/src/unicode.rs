//! Unicode operations of the standard library.

use vstd::prelude::*;
use vstd::utf8::{encode_utf8, valid_utf8};

use crate::text;

verus! {

/// What `str::to_lowercase` returns.
pub uninterp spec fn lowercase(s: Seq<char>) -> Seq<char>;

/// `str::to_lowercase`: the lowercase equivalent of a text by the Unicode mapping, which does
/// not depend on the locale. Each character gives at least one. Of a text of ASCII characters it
/// is the text with each capital letter replaced by its small letter, which is said of the text
/// and of the result; what it is of other characters is left to the name.
#[verifier::external_body]
pub(crate) fn to_lowercase(s: &str) -> (r: String)
    ensures
        r@ == lowercase(s@),
        s@.len() > 0 ==> r@.len() > 0,
        vstd::utf8::is_ascii_chars(s@) ==> r@ == text::lower_ascii(s@),
        vstd::utf8::is_ascii_chars(r@) ==> lowercase(r@) == text::lower_ascii(r@),
{
    s.to_lowercase()
}

/// `String::from_utf8`: the text whose UTF-8 encoding the bytes are, or none where the bytes
/// are not valid UTF-8.
#[verifier::external_body]
pub(crate) fn from_utf8(bytes: Vec<u8>) -> (r: Option<String>)
    ensures
        match r {
            Some(s) => encode_utf8(s@) == bytes@,
            None => !valid_utf8(bytes@),
        },
{
    String::from_utf8(bytes).ok()
}

} // verus!
