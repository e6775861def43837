use vstd::prelude::*;
use vstd::utf8::{decode_utf8, encode_utf8, is_ascii_chars, valid_utf8};

verus! {

/// The hex digit of a number below 16, upper or lower case.
pub open spec fn hex_digit(n: u8, upper: bool) -> char {
    if n < 10 {
        (48 + n) as u8 as char
    } else if upper {
        (55 + n) as u8 as char
    } else {
        (87 + n) as u8 as char
    }
}

/// Two lowercase hex digits for each byte.
pub open spec fn lower_hex(b: Seq<u8>) -> Seq<char>
    decreases b.len(),
{
    if b.len() == 0 {
        Seq::empty()
    } else {
        lower_hex(b.drop_last()) + seq![hex_digit(b.last() / 16, false), hex_digit(b.last() % 16, false)]
    }
}

/// `%` and two uppercase hex digits for each byte.
pub open spec fn percent_encoding(b: Seq<u8>) -> Seq<char>
    decreases b.len(),
{
    if b.len() == 0 {
        Seq::empty()
    } else {
        percent_encoding(b.drop_last()) + seq![
            '%',
            hex_digit(b.last() / 16, true),
            hex_digit(b.last() % 16, true),
        ]
    }
}

/// Relies on `String::from_utf8`: it succeeds exactly on valid UTF-8, whose characters the
/// string then holds.
#[verifier::external_body]
pub(crate) fn string_from_utf8(bytes: Vec<u8>) -> (r: Option<String>)
    ensures
        r is Some <==> valid_utf8(bytes@),
        r matches Some(s) ==> s@ == decode_utf8(bytes@),
{
    String::from_utf8(bytes).ok()
}

/// The string of ASCII characters whose bytes are given.
pub(crate) fn ascii_string(bytes: Vec<u8>, chars: Ghost<Seq<char>>) -> (r: String)
    requires
        is_ascii_chars(chars@),
        bytes@ == Seq::new(chars@.len(), |i: int| chars@[i] as u8),
    ensures
        r@ == chars@,
{
    proof {
        vstd::utf8::is_ascii_chars_encode_utf8(chars@);
        assert(bytes@ =~= encode_utf8(chars@));
        vstd::utf8::encode_utf8_valid_utf8(chars@);
        vstd::utf8::encode_utf8_decode_utf8(chars@);
    }
    match string_from_utf8(bytes) {
        Some(s) => s,
        None => String::new(),
    }
}

fn hex_byte(n: u8, upper: bool) -> (r: u8)
    requires
        n < 16,
    ensures
        r as char == hex_digit(n, upper),
        r < 128,
{
    if n < 10 {
        48 + n
    } else if upper {
        55 + n
    } else {
        87 + n
    }
}

/// Lowercase hex digits of the bytes, two for each.
pub fn format_as_hex_string(vec: &[u8]) -> (r: String)
    ensures
        r@ == lower_hex(vec@),
{
    let mut out: Vec<u8> = Vec::new();
    let ghost mut chars: Seq<char> = Seq::empty();
    let mut k: usize = 0;
    while k < vec.len()
        invariant
            0 <= k <= vec@.len(),
            chars == lower_hex(vec@.subrange(0, k as int)),
            is_ascii_chars(chars),
            out@ == Seq::new(chars.len(), |i: int| chars[i] as u8),
        decreases vec@.len() - k,
    {
        let high = hex_byte(vec[k] / 16, false);
        let low = hex_byte(vec[k] % 16, false);
        out.push(high);
        out.push(low);
        proof {
            assert(vec@.subrange(0, k + 1).drop_last() =~= vec@.subrange(0, k as int));
            chars = chars + seq![high as char, low as char];
            assert(out@ =~= Seq::new(chars.len(), |i: int| chars[i] as u8));
        }
        k = k + 1;
    }
    assert(vec@.subrange(0, k as int) =~= vec@);
    ascii_string(out, Ghost(chars))
}

/// Each byte written as `%` and two uppercase hex digits, as an `info_hash` query value.
pub fn url_encode_bytes(bytes: &[u8]) -> (r: String)
    ensures
        r@ == percent_encoding(bytes@),
{
    let mut out: Vec<u8> = Vec::new();
    let ghost mut chars: Seq<char> = Seq::empty();
    let mut k: usize = 0;
    while k < bytes.len()
        invariant
            0 <= k <= bytes@.len(),
            chars == percent_encoding(bytes@.subrange(0, k as int)),
            is_ascii_chars(chars),
            out@ == Seq::new(chars.len(), |i: int| chars[i] as u8),
        decreases bytes@.len() - k,
    {
        let high = hex_byte(bytes[k] / 16, true);
        let low = hex_byte(bytes[k] % 16, true);
        out.push(37);
        out.push(high);
        out.push(low);
        proof {
            assert(bytes@.subrange(0, k + 1).drop_last() =~= bytes@.subrange(0, k as int));
            chars = chars + seq!['%', high as char, low as char];
            assert(out@ =~= Seq::new(chars.len(), |i: int| chars[i] as u8));
        }
        k = k + 1;
    }
    assert(bytes@.subrange(0, k as int) =~= bytes@);
    ascii_string(out, Ghost(chars))
}

proof fn lemma_encode_concat(a: Seq<char>, b: Seq<char>)
    ensures
        encode_utf8(a + b) == encode_utf8(a) + encode_utf8(b),
    decreases a.len(),
{
    if a.len() == 0 {
        assert(a + b =~= b);
        assert(encode_utf8(a) + encode_utf8(b) =~= encode_utf8(b));
    } else {
        assert((a + b).drop_first() =~= a.drop_first() + b);
        lemma_encode_concat(a.drop_first(), b);
        assert((a + b)[0] == a[0]);
        assert(encode_utf8(a + b) =~= encode_utf8(a) + encode_utf8(b));
    }
}

/// The characters of `a` followed by those of `b`.
pub fn join(a: &str, b: &str) -> (r: String)
    ensures
        r@ == a@ + b@,
{
    let mut bytes: Vec<u8> = Vec::new();
    push_str_bytes(&mut bytes, a);
    push_str_bytes(&mut bytes, b);
    proof {
        lemma_encode_concat(a@, b@);
        vstd::utf8::encode_utf8_valid_utf8(a@ + b@);
        vstd::utf8::encode_utf8_decode_utf8(a@ + b@);
    }
    match string_from_utf8(bytes) {
        Some(s) => s,
        None => String::new(),
    }
}

fn push_str_bytes(out: &mut Vec<u8>, s: &str)
    ensures
        final(out)@ == old(out)@ + encode_utf8(s@),
{
    let b = s.as_bytes();
    let ghost start = out@;
    let mut k: usize = 0;
    while k < b.len()
        invariant
            0 <= k <= b@.len(),
            b@ == encode_utf8(s@),
            out@ == start + b@.subrange(0, k as int),
        decreases b@.len() - k,
    {
        out.push(b[k]);
        k = k + 1;
        assert(out@ =~= start + b@.subrange(0, k as int));
    }
    assert(b@.subrange(0, k as int) =~= b@);
}

/// Decimal digits of a number, as text.
pub fn decimal_string(n: u64) -> (r: String)
    ensures
        r@ == decimal_chars(n as nat),
{
    let mut out: Vec<u8> = Vec::new();
    crate::bencode::push_decimal(&mut out, n);
    proof {
        lemma_decimal_ascii(n as nat);
        assert(out@ =~= Seq::new(decimal_chars(n as nat).len(), |i: int| decimal_chars(n as nat)[i] as u8));
    }
    ascii_string(out, Ghost(decimal_chars(n as nat)))
}

/// Decimal digits of a number, as characters.
pub open spec fn decimal_chars(n: nat) -> Seq<char> {
    Seq::new(crate::bencode::decimal(n).len(), |i: int| crate::bencode::decimal(n)[i] as char)
}

proof fn lemma_decimal_ascii(n: nat)
    ensures
        is_ascii_chars(decimal_chars(n)),
        forall|i: int| 0 <= i < crate::bencode::decimal(n).len() ==> 48 <= #[trigger] crate::bencode::decimal(n)[i] <= 57,
    decreases n,
{
    if n >= 10 {
        lemma_decimal_ascii(n / 10);
    }
}

} // verus!
