//! Byte encodings the tripcodes use: Shift_JIS and Base64.
use vstd::prelude::*;

use base64::Engine;

verus! {

/// What encoding_rs's Shift_JIS encoder makes of some text: the bytes, and
/// whether some character had no Shift_JIS form (and was written as a numeric
/// character reference).
pub uninterp spec fn shift_jis_encoding(text: Seq<char>) -> (Seq<u8>, bool);

/// Text short enough for the Shift_JIS encoder: it sizes its output buffer as
/// the UTF-8 length plus 11, rounded up to a power of two, and that buffer must
/// be a valid allocation (at most `isize::MAX` bytes), else it panics.
pub open spec fn sjis_encodable(s: Seq<char>) -> bool {
    vstd::utf8::encode_utf8(s).len() + 11 <= (isize::MAX as int + 1) / 2
}

/// `encoding_rs::SHIFT_JIS.encode`. The contract names the bytes and the error
/// flag for exactly this text, and states what the crate documents of ASCII
/// input to an ASCII-compatible encoding: it is handed back unchanged; and that
/// text gives some bytes (each character is written, in Shift_JIS or as a
/// numeric character reference). Text too long for the encoder's buffer is left
/// out.
#[verifier::external_body]
pub(crate) fn shift_jis_encode(s: &str) -> (res: (Vec<u8>, bool))
    requires
        sjis_encodable(s@),
    ensures
        (res.0@, res.1) == shift_jis_encoding(s@),
        vstd::utf8::is_ascii_chars(s@) ==> res.0@ == vstd::utf8::encode_utf8(s@) && !res.1,
        s@.len() > 0 ==> res.0@.len() > 0,
{
    let (bytes, _, had_errors) = encoding_rs::SHIFT_JIS.encode(s);
    (bytes.into_owned(), had_errors)
}

/// The Base64 letter of a 6-bit value (standard alphabet).
pub open spec fn b64_char(v: int) -> char {
    if v < 26 {
        (65 + v) as char
    } else if v < 52 {
        (97 + v - 26) as char
    } else if v < 62 {
        (48 + v - 52) as char
    } else if v == 62 {
        '+'
    } else {
        '/'
    }
}

/// Standard Base64 with `=` padding (RFC 4648, section 4).
pub open spec fn base64_standard(b: Seq<u8>) -> Seq<char>
    decreases b.len(),
{
    if b.len() == 0 {
        seq![]
    } else if b.len() == 1 {
        seq![b64_char((b[0] / 4) as int), b64_char((b[0] % 4) * 16), '=', '=']
    } else if b.len() == 2 {
        seq![
            b64_char((b[0] / 4) as int),
            b64_char((b[0] % 4) * 16 + b[1] / 16),
            b64_char((b[1] % 16) * 4),
            '=',
        ]
    } else {
        seq![
            b64_char((b[0] / 4) as int),
            b64_char((b[0] % 4) * 16 + b[1] / 16),
            b64_char((b[1] % 16) * 4 + b[2] / 64),
            b64_char((b[2] % 64) as int),
        ] + base64_standard(b.skip(3))
    }
}

/// `base64::engine::general_purpose::STANDARD.encode`: standard alphabet with
/// padding, which the contract states in full.
#[verifier::external_body]
pub(crate) fn base64_encode(bytes: &[u8]) -> (res: String)
    ensures
        res@ == base64_standard(bytes@),
{
    base64::engine::general_purpose::STANDARD.encode(bytes)
}

} // verus!
