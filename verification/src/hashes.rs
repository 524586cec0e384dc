//! Message digests and their lowercase hexadecimal form.
use vstd::prelude::*;

use hmac::Mac;
use sha2::Digest;

use crate::text::string_from_chars;

verus! {

/// The SHA-1 digest of some bytes.
pub uninterp spec fn sha1_of(data: Seq<u8>) -> Seq<u8>;

/// The SHA-256 digest of some bytes.
pub uninterp spec fn sha256_of(data: Seq<u8>) -> Seq<u8>;

/// The HMAC-SHA256 tag of a message under a key.
pub uninterp spec fn hmac_sha256_of(key: Seq<u8>, msg: Seq<u8>) -> Seq<u8>;

/// `sha1::Sha1::digest`: the contract names the digest of exactly these bytes
/// and states its documented size, 20 bytes.
#[verifier::external_body]
pub(crate) fn sha1_digest(data: &[u8]) -> (res: Vec<u8>)
    ensures
        res@ == sha1_of(data@),
        res@.len() == 20,
{
    sha1::Sha1::digest(data).to_vec()
}

/// `sha2::Sha256::digest`: the contract names the digest of exactly these bytes
/// and states its documented size, 32 bytes.
#[verifier::external_body]
pub(crate) fn sha256_digest(data: &[u8]) -> (res: Vec<u8>)
    ensures
        res@ == sha256_of(data@),
        res@.len() == 32,
{
    sha2::Sha256::digest(data).to_vec()
}

/// `hmac::Hmac::<Sha256>` keyed with `key` over `msg` (`new_from_slice`, `update`,
/// `finalize`). HMAC takes keys of any length, so the key is never refused. The
/// contract names the tag of exactly this key and message, 32 bytes long.
#[verifier::external_body]
pub(crate) fn hmac_sha256(key: &[u8], msg: &[u8]) -> (res: Vec<u8>)
    ensures
        res@ == hmac_sha256_of(key@, msg@),
        res@.len() == 32,
{
    let mut mac = <hmac::Hmac<sha2::Sha256> as Mac>::new_from_slice(key).expect("any key length");
    mac.update(msg);
    mac.finalize().into_bytes().to_vec()
}

/// The lowercase hexadecimal digit of a value below 16.
pub open spec fn hex_digit(v: int) -> char {
    if v < 10 {
        (48 + v) as char
    } else {
        (87 + v) as char
    }
}

/// Two lowercase hexadecimal digits per byte, high nibble first.
pub open spec fn spec_hex(bytes: Seq<u8>) -> Seq<char> {
    Seq::new(
        2 * bytes.len(),
        |k: int|
            if k % 2 == 0 {
                hex_digit((bytes[k / 2] / 16) as int)
            } else {
                hex_digit((bytes[k / 2] % 16) as int)
            },
    )
}

/// Whether `c` is an ASCII hexadecimal digit.
pub open spec fn is_hex_char(c: char) -> bool {
    ('0' <= c <= '9') || ('a' <= c <= 'f') || ('A' <= c <= 'F')
}

fn hex_char(v: u8) -> (c: char)
    requires
        v < 16,
    ensures
        c == hex_digit(v as int),
{
    if v < 10 {
        (48 + v) as char
    } else {
        (87 + v) as char
    }
}

/// Lowercase hexadecimal text of some bytes.
pub fn to_hex(bytes: &[u8]) -> (res: String)
    ensures
        res@ == spec_hex(bytes@),
{
    let mut out: Vec<char> = Vec::new();
    for i in 0..bytes.len()
        invariant
            out@.len() == 2 * i,
            forall|k: int| 0 <= k < 2 * i ==> out@[k] == #[trigger] spec_hex(bytes@)[k],
    {
        let b = bytes[i];
        out.push(hex_char(b / 16));
        out.push(hex_char(b % 16));
        assert forall|k: int| 2 * i <= k < 2 * i + 2 implies out@[k] == #[trigger] spec_hex(
            bytes@,
        )[k] by {
            assert(k / 2 == i);
            assert(k % 2 == k - 2 * i);
        }
    }
    assert(out@ =~= spec_hex(bytes@));
    string_from_chars(out.as_slice())
}

/// Hex text is twice as long as its bytes and made of hexadecimal digits only.
pub proof fn lemma_hex_shape(bytes: Seq<u8>)
    ensures
        spec_hex(bytes).len() == 2 * bytes.len(),
        forall|k: int| 0 <= k < spec_hex(bytes).len() ==> is_hex_char(#[trigger] spec_hex(bytes)[k]),
{
    assert forall|k: int| 0 <= k < spec_hex(bytes).len() implies is_hex_char(
        #[trigger] spec_hex(bytes)[k],
    ) by {
        let v = if k % 2 == 0 {
            bytes[k / 2] / 16
        } else {
            bytes[k / 2] % 16
        };
        assert(0 <= v < 16);
    }
}

} // verus!
