use vstd::prelude::*;
use vstd::utf8::encode_utf8;
use serde_urlencoded::ser::Error as FormError;
use crate::text::hex_digit;

verus! {

pub open spec fn pairs_view(pairs: Seq<(String, String)>) -> Seq<(Seq<char>, Seq<char>)> {
    Seq::new(pairs.len(), |i: int| (pairs[i].0@, pairs[i].1@))
}

/// A byte of form-encoded text: ASCII letters, digits and `*-._` stay, a space becomes `+`, any
/// other byte becomes `%` and two uppercase hex digits.
pub open spec fn form_byte(b: u8) -> Seq<char> {
    if b == 42 || b == 45 || b == 46 || (48 <= b <= 57) || (65 <= b <= 90) || b == 95 || (97 <= b
        <= 122) {
        seq![b as char]
    } else if b == 32 {
        seq!['+']
    } else {
        seq!['%', hex_digit(b / 16, true), hex_digit(b % 16, true)]
    }
}

/// Form encoding of bytes, one byte after the other.
pub open spec fn form_bytes(b: Seq<u8>) -> Seq<char>
    decreases b.len(),
{
    if b.len() == 0 {
        Seq::empty()
    } else {
        form_bytes(b.drop_last()) + form_byte(b.last())
    }
}

/// The `application/x-www-form-urlencoded` text of name/value pairs: each pair is the encoded
/// UTF-8 bytes of the name, `=`, and those of the value; a `&` goes before a pair where some
/// text precedes it.
pub open spec fn form_urlencoded(pairs: Seq<(Seq<char>, Seq<char>)>) -> Seq<char>
    decreases pairs.len(),
{
    if pairs.len() == 0 {
        Seq::empty()
    } else {
        let before = form_urlencoded(pairs.drop_last());
        let sep = if before.len() > 0 {
            before + seq!['&']
        } else {
            before
        };
        sep + form_bytes(encode_utf8(pairs.last().0)) + seq!['='] + form_bytes(
            encode_utf8(pairs.last().1),
        )
    }
}

#[verifier::external_type_specification]
#[verifier::external_body]
pub struct ExFormError(FormError);

/// Relies on `serde_urlencoded::to_string`: a sequence of string pairs goes through
/// `form_urlencoded::Serializer::append_pair`, which cannot fail, and yields the
/// `application/x-www-form-urlencoded` text of the pairs.
#[verifier::external_body]
pub(crate) fn form_encode(pairs: &Vec<(String, String)>) -> (r: Result<String, FormError>)
    ensures
        r is Ok,
        r matches Ok(s) ==> s@ == form_urlencoded(pairs_view(pairs@)),
{
    serde_urlencoded::to_string(pairs)
}

} // verus!
