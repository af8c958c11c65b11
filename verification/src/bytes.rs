//! Reading bytes as UTF-8 text.

use vstd::prelude::*;
use vstd::utf8::{decode_utf8, valid_utf8};

verus! {

/// The text that `String::from_utf8_lossy` makes of `bytes`.
pub uninterp spec fn lossy(bytes: Seq<u8>) -> Seq<char>;

/// Calls `String::from_utf8_lossy`. Its result is a function of the bytes alone,
/// named `lossy`, and for bytes that are UTF-8 it is the text they encode. Bytes
/// that are not UTF-8 are replaced by U+FFFD, so that each ASCII character of the
/// text is one of the bytes.
#[verifier::external_body]
fn lossy_text(bytes: &[u8]) -> (r: String)
    ensures
        r@ == lossy(bytes@),
        valid_utf8(bytes@) ==> r@ == decode_utf8(bytes@),
        forall|i: int|
            0 <= i < r@.len() && #[trigger] r@[i] <= '\u{7f}' ==> bytes@.contains(r@[i] as u8),
{
    String::from_utf8_lossy(bytes).into_owned()
}

/// The text that `lossy` names is true to the bytes: bytes that are UTF-8 give the
/// text they encode, and each ASCII character of the text is one of the bytes.
pub open spec fn faithful(bytes: Seq<u8>) -> bool {
    &&& valid_utf8(bytes) ==> lossy(bytes) == decode_utf8(bytes)
    &&& forall|i: int|
        0 <= i < lossy(bytes).len() && #[trigger] lossy(bytes)[i] <= '\u{7f}' ==> bytes.contains(
            lossy(bytes)[i] as u8,
        )
}

/// The text of bytes that may not be UTF-8.
pub fn read_text(bytes: &[u8]) -> (r: String)
    ensures
        r@ == lossy(bytes@),
        faithful(bytes@),
{
    lossy_text(bytes)
}

/// Calls `std::str::from_utf8`. It gives the text whose UTF-8 encoding is
/// `bytes` exactly if `bytes` are UTF-8.
#[verifier::external_body]
pub(crate) fn strict_text(bytes: &[u8]) -> (r: Option<&str>)
    ensures
        r is Some <==> valid_utf8(bytes@),
        r matches Some(s) ==> s@ == decode_utf8(bytes@),
{
    std::str::from_utf8(bytes).ok()
}

/// The name that a string of bytes spells, if it is UTF-8.
pub open spec fn utf8_name(bytes: Seq<u8>) -> Option<Seq<char>> {
    if valid_utf8(bytes) {
        Some(decode_utf8(bytes))
    } else {
        None
    }
}

/// Where a text is true to its bytes, UTF-8 gives the text it encodes.
pub proof fn law_faithful_utf8(bytes: Seq<u8>)
    requires
        faithful(bytes),
        valid_utf8(bytes),
    ensures
        lossy(bytes) == decode_utf8(bytes),
{
}

/// Where a text is true to its bytes, an ASCII character that is none of the bytes
/// is not in the text.
pub proof fn law_faithful_ascii(bytes: Seq<u8>, c: char)
    requires
        faithful(bytes),
        c <= '\u{7f}',
        forall|i: int| 0 <= i < bytes.len() ==> #[trigger] bytes[i] != c as u8,
    ensures
        !lossy(bytes).contains(c),
{
    if lossy(bytes).contains(c) {
        let i = choose|i: int| 0 <= i < lossy(bytes).len() && lossy(bytes)[i] == c;
        assert(bytes.contains(lossy(bytes)[i] as u8));
        let k = choose|k: int| 0 <= k < bytes.len() && bytes[k] == c as u8;
        assert(bytes[k] != c as u8);
    }
}

/// Bytes spell a name exactly if they are UTF-8, and then the text they encode.
pub proof fn law_utf8_name(bytes: Seq<u8>)
    ensures
        utf8_name(bytes) is Some <==> valid_utf8(bytes),
        utf8_name(bytes) matches Some(name) ==> name == decode_utf8(bytes),
{
}

} // verus!
