//! Tripcodes: the classic one (crypt(3) DES of the Shift_JIS bytes, as 4chan and
//! vichan compute it) and the secure one (extended BSD DES salted from a site
//! secret), with the name field parsing that selects them, and the IP and file
//! hashes used for bans.
use vstd::prelude::*;

use crate::codecs::{
    base64_encode, base64_standard, shift_jis_encode, shift_jis_encoding,
};
use crate::des::{
    ascii_to_bin, data_block, decode_hash_bytes, des_crypt, des_crypt_with_salt, des_iterate,
    encode_block, is_bits, lemma_data_block_shape, lemma_decode_encode, lemma_des_iterate_shape, lemma_letters_utf8,
    lemma_salted_e_is_expansion, letters, pack_bytes, is_crypt_char, lemma_crypt_output_shape, salted_e, spec_ascii_to_bin,
    spec_des_crypt_with_salt, spec_decode_hash_bytes, ASCII64,
};
use crate::hashes::{
    hmac_sha256, hmac_sha256_of, is_hex_char, lemma_hex_shape, sha1_digest, sha1_of,
    sha256_digest, sha256_of, spec_hex, to_hex,
};
use crate::text::{
    chars_of, copy_range, lemma_trim_keeps, lemma_utf8_at_most_four, string_from_chars, trim,
    trim_chars,
};

verus! {

/// The classic and the secure part of a tripcode, where present.
pub struct Tripcodes {
    /// Classic tripcode seed (without the `#`).
    pub classic: Option<String>,
    /// Secure tripcode seed (without the `##`).
    pub secure: Option<String>,
}

// ------------------------------------------------------------------ name field

/// `i` is the position of the first `#` of `raw`.
pub open spec fn is_first_hash(raw: Seq<char>, i: int) -> bool {
    &&& 0 <= i < raw.len()
    &&& raw[i] == '#'
    &&& forall|j: int| 0 <= j < i ==> raw[j] != '#'
}

/// The name field split into the trimmed name, the classic seed and the secure seed:
/// `Name#seed` is classic, `Name##seed` is secure, and no `#` means no tripcode.
pub open spec fn spec_split_name(raw: Seq<char>) -> (Seq<char>, Option<Seq<char>>, Option<Seq<char>>) {
    if exists|i: int| is_first_hash(raw, i) {
        let idx = choose|i: int| is_first_hash(raw, i);
        let name = trim(raw.subrange(0, idx));
        let rest = raw.subrange(idx + 1, raw.len() as int);
        if rest.len() > 0 && rest[0] == '#' {
            (name, None, Some(rest.subrange(1, rest.len() as int)))
        } else {
            (name, Some(rest), None)
        }
    } else {
        (trim(raw), None, None)
    }
}

/// The name shown never holds a `#`: everything from the first `#` on is the
/// tripcode seed. A seed follows exactly where the field holds a `#`.
pub proof fn lemma_name_has_no_hash(raw: Seq<char>)
    ensures
        forall|i: int|
            0 <= i < spec_split_name(raw).0.len() ==> #[trigger] spec_split_name(raw).0[i] != '#',
        (spec_split_name(raw).1 is Some || spec_split_name(raw).2 is Some) <==> exists|i: int|
            0 <= i < raw.len() && raw[i] == '#',
{
    let p = |c: char| c != '#';
    if exists|i: int| is_first_hash(raw, i) {
        let idx = choose|i: int| is_first_hash(raw, i);
        let head = raw.subrange(0, idx);
        assert forall|i: int| 0 <= i < head.len() implies p(#[trigger] head[i]) by {
            assert(head[i] == raw[i]);
        }
        lemma_trim_keeps(head, p);
    } else {
        assert forall|i: int| 0 <= i < raw.len() implies p(#[trigger] raw[i]) by {
            if raw[i] == '#' {
                lemma_first_hash_exists(raw, i);
            }
        }
        lemma_trim_keeps(raw, p);
    }
}

/// The tripcode seeds are parts of the name field, no longer than it.
pub proof fn lemma_seeds_within_field(raw: Seq<char>)
    ensures
        spec_split_name(raw).0.len() <= raw.len(),
        match spec_split_name(raw).1 {
            Some(seed) => seed.len() <= raw.len(),
            None => true,
        },
        match spec_split_name(raw).2 {
            Some(seed) => seed.len() <= raw.len(),
            None => true,
        },
{
    lemma_name_has_no_hash(raw);
    let p = |c: char| true;
    if exists|i: int| is_first_hash(raw, i) {
        let idx = choose|i: int| is_first_hash(raw, i);
        lemma_trim_keeps(raw.subrange(0, idx), p);
    } else {
        lemma_trim_keeps(raw, p);
    }
}

/// Where `raw` holds a `#`, it has a first one.
proof fn lemma_first_hash_exists(raw: Seq<char>, i: int)
    requires
        0 <= i < raw.len(),
        raw[i] == '#',
    ensures
        exists|j: int| is_first_hash(raw, j),
    decreases i,
{
    if forall|j: int| 0 <= j < i ==> raw[j] != '#' {
        assert(is_first_hash(raw, i));
    } else {
        let j = choose|j: int| 0 <= j < i && raw[j] == '#';
        lemma_first_hash_exists(raw, j);
    }
}

/// Splits the name field: `Name#classic` or `Name##secure`.
pub fn split_name(raw: &str) -> (res: (String, Tripcodes))
    ensures
        res.0@ == spec_split_name(raw@).0,
        res.1.classic.deep_view() == spec_split_name(raw@).1,
        res.1.secure.deep_view() == spec_split_name(raw@).2,
{
    let chars = chars_of(raw);
    let n = chars.len();
    let mut idx: usize = 0;
    while idx < n && chars[idx] != '#'
        invariant
            idx <= n,
            n == raw@.len(),
            chars@ == raw@,
            forall|j: int| 0 <= j < idx ==> raw@[j] != '#',
        decreases n - idx,
    {
        idx = idx + 1;
    }
    if idx == n {
        assert(!exists|i: int| is_first_hash(raw@, i));
        let name = trim_chars(chars.as_slice());
        return (string_from_chars(name.as_slice()), Tripcodes { classic: None, secure: None });
    }
    assert(is_first_hash(raw@, idx as int));
    proof {
        let c = choose|i: int| is_first_hash(raw@, i);
        assert(c == idx) by {
            if c < idx {
                assert(raw@[c] != '#');
            } else if c > idx {
                assert(raw@[idx as int] != '#');
            }
        }
    }
    let head = copy_range(chars.as_slice(), 0, idx);
    let name = string_from_chars(trim_chars(head.as_slice()).as_slice());
    if idx + 1 < n && chars[idx + 1] == '#' {
        let seed = copy_range(chars.as_slice(), idx + 2, n);
        assert(seed@ =~= raw@.subrange(idx + 1, n as int).subrange(1, n - idx - 1));
        (name, Tripcodes { classic: None, secure: Some(string_from_chars(seed.as_slice())) })
    } else {
        let seed = copy_range(chars.as_slice(), idx + 1, n);
        (name, Tripcodes { classic: Some(string_from_chars(seed.as_slice())), secure: None })
    }
}

// ------------------------------------------------------------------ Shift_JIS

/// The Shift_JIS bytes of one character, or `?` where it has none.
pub open spec fn sjis_char(c: char) -> Seq<u8> {
    let (bytes, unmappable) = shift_jis_encoding(seq![c]);
    if unmappable {
        seq![63u8]
    } else {
        bytes
    }
}

/// The bytes a tripcode seed stands for: each character in Shift_JIS, and `?`
/// for each character that Shift_JIS cannot represent.
pub open spec fn spec_to_shift_jis(s: Seq<char>) -> Seq<u8>
    decreases s.len(),
{
    if s.len() == 0 {
        Seq::empty()
    } else {
        spec_to_shift_jis(s.drop_last()) + sjis_char(s.last())
    }
}

/// Converts text to Shift_JIS as vichan does; characters Shift_JIS cannot
/// represent become `?`. ASCII text is unchanged, and only empty text gives no
/// bytes.
pub fn to_shift_jis(s: &str) -> (res: Vec<u8>)
    ensures
        res@ == spec_to_shift_jis(s@),
        vstd::utf8::is_ascii_chars(s@) ==> res@ == vstd::utf8::encode_utf8(s@),
        res@.len() == 0 <==> s@.len() == 0,
{
    let chars = chars_of(s);
    let mut out: Vec<u8> = Vec::new();
    for i in 0..chars.len()
        invariant
            chars@ == s@,
            out@ == spec_to_shift_jis(s@.take(i as int)),
            vstd::utf8::is_ascii_chars(s@) ==> out@ == vstd::utf8::encode_utf8(s@.take(i as int)),
            out@.len() == 0 <==> i == 0,
    {
        let c = chars[i];
        let one = string_from_chars([c].as_slice());
        proof {
            assert(one@ =~= seq![c]);
            lemma_utf8_at_most_four(one@);
        }
        let (mut bytes, unmappable) = shift_jis_encode(one.as_str());
        let ghost before = out@;
        if unmappable {
            out.push(63u8);
        } else {
            out.append(&mut bytes);
        }
        proof {
            let upto = s@.take(i + 1);
            assert(upto.drop_last() =~= s@.take(i as int));
            assert(upto.last() == c);
            assert(out@ == before + sjis_char(c));
            if vstd::utf8::is_ascii_chars(s@) {
                assert(vstd::utf8::is_ascii_chars(one@)) by {
                    assert(one@[0] == s@[i as int]);
                }
                lemma_encode_utf8_push(s@.take(i as int), c);
                assert(s@.take(i as int).push(c) =~= upto);
            }
        }
    }
    assert(s@.take(chars@.len() as int) =~= s@);
    out
}

/// Encoding one more character appends its bytes.
pub proof fn lemma_encode_utf8_push(s: Seq<char>, c: char)
    ensures
        vstd::utf8::encode_utf8(s.push(c)) == vstd::utf8::encode_utf8(s) + vstd::utf8::encode_utf8(
            seq![c],
        ),
    decreases s.len(),
{
    if s.len() == 0 {
        assert(s.push(c) =~= seq![c]);
        assert(vstd::utf8::encode_utf8(s) =~= Seq::<u8>::empty());
        assert(Seq::<u8>::empty() + vstd::utf8::encode_utf8(seq![c]) =~= vstd::utf8::encode_utf8(
            seq![c],
        ));
    } else {
        lemma_encode_utf8_push(s.drop_first(), c);
        assert(s.push(c).drop_first() =~= s.drop_first().push(c));
        assert(s.push(c)[0] == s[0]);
        assert(vstd::utf8::encode_utf8(s.push(c)) =~= vstd::utf8::encode_scalar(s[0] as u32)
            + vstd::utf8::encode_utf8(s.drop_first()) + vstd::utf8::encode_utf8(seq![c]));
    }
}

// ------------------------------------------------------------------ salts

/// A salt byte fixed into the crypt(3) alphabet: bytes outside `.`..=`z` become
/// `.`, and `:;<=>?@` and ``[\]^_` `` become `A`..=`G` and `a`..=`f`.
pub open spec fn spec_fix_salt_char(c: u8) -> u8 {
    let c1: u8 = if 46 <= c <= 122 { c } else { 46 };
    if 58 <= c1 <= 64 {
        (c1 - 58 + 65) as u8
    } else if 91 <= c1 <= 96 {
        (c1 - 91 + 97) as u8
    } else {
        c1
    }
}

/// Fixes a salt byte into the crypt(3) alphabet.
pub fn fix_salt_char(c: u8) -> (r: u8)
    ensures
        r == spec_fix_salt_char(c),
{
    let c1 = if 46 <= c && c <= 122 { c } else { 46 };
    if 58 <= c1 && c1 <= 64 {
        c1 - 58 + 65
    } else if 91 <= c1 && c1 <= 96 {
        c1 - 91 + 97
    } else {
        c1
    }
}

/// Whether a byte is a letter of the crypt(3) alphabet.
pub open spec fn is_crypt_letter(c: u8) -> bool {
    (46 <= c <= 57) || (65 <= c <= 90) || (97 <= c <= 122)
}

/// A fixed salt byte is always a letter of the crypt(3) alphabet, and is the
/// letter of its own 6-bit value.
pub proof fn lemma_fix_salt_char_is_letter(c: u8)
    ensures
        is_crypt_letter(spec_fix_salt_char(c)),
        ASCII64[spec_ascii_to_bin(spec_fix_salt_char(c)) as int] == spec_fix_salt_char(c),
{
}

/// The iteration count of an extended-DES setting: four letters after `_`, least
/// significant first, six bits each.
pub open spec fn spec_decode_count(setting: Seq<u8>) -> int {
    spec_ascii_to_bin(setting[1]) + spec_ascii_to_bin(setting[2]) * 64 + spec_ascii_to_bin(
        setting[3],
    ) * 4096 + spec_ascii_to_bin(setting[4]) * 262144
}

/// Decodes the four count letters of a setting (positions 1..5).
pub fn decode_count(setting: &[u8; 9]) -> (count: u32)
    ensures
        count == spec_decode_count(setting@),
        count < 16777216,
{
    let a = ascii_to_bin(setting[1]) as u32;
    let b = ascii_to_bin(setting[2]) as u32;
    let c = ascii_to_bin(setting[3]) as u32;
    let d = ascii_to_bin(setting[4]) as u32;
    a + b * 64 + c * 4096 + d * 262144
}

// ------------------------------------------------------------------ classic

/// The eight zero bytes.
pub open spec fn zero_block() -> Seq<u8> {
    seq![0u8, 0u8, 0u8, 0u8, 0u8, 0u8, 0u8, 0u8]
}

/// Byte `i` of `text` followed by `H..`.
pub open spec fn salt_source(text: Seq<u8>, i: int) -> u8 {
    if i < text.len() {
        text[i]
    } else if i == text.len() {
        72u8
    } else {
        46u8
    }
}

/// The classic salt: characters 2 and 3 of `text + "H.."`, fixed.
pub open spec fn classic_salt(text: Seq<u8>) -> Seq<u8> {
    seq![spec_fix_salt_char(salt_source(text, 1)), spec_fix_salt_char(salt_source(text, 2))]
}

/// The first eight bytes of `text`, zero-padded.
pub open spec fn key_of(text: Seq<u8>) -> Seq<u8> {
    Seq::new(8, |i: int| if i < text.len() { text[i] } else { 0u8 })
}

/// The classic tripcode of some Shift_JIS bytes: the last ten letters of
/// crypt(3) of the first eight bytes under the classic salt; none for no bytes.
pub open spec fn spec_classic_tripcode_of(text: Seq<u8>) -> Option<Seq<char>> {
    if text.len() == 0 {
        None
    } else {
        Some(
            spec_des_crypt_with_salt(key_of(text), classic_salt(text), 25, zero_block()).subrange(
                1,
                11,
            ),
        )
    }
}

/// The classic tripcode of a seed.
pub open spec fn spec_classic_tripcode(seed: Seq<char>) -> Option<Seq<char>> {
    spec_classic_tripcode_of(spec_to_shift_jis(seed))
}

/// Only the first eight bytes count (crypt(3) takes an eight-byte key, and the
/// salt comes from bytes 2 and 3).
pub proof fn lemma_classic_first_eight_bytes(text: Seq<u8>)
    requires
        text.len() >= 8,
    ensures
        spec_classic_tripcode_of(text) == spec_classic_tripcode_of(text.take(8)),
{
    assert(key_of(text) =~= key_of(text.take(8)));
    assert(classic_salt(text) =~= classic_salt(text.take(8)));
}

/// The Shift_JIS form of joined text is the join of the forms.
pub proof fn lemma_shift_jis_concat(a: Seq<char>, b: Seq<char>)
    ensures
        spec_to_shift_jis(a + b) == spec_to_shift_jis(a) + spec_to_shift_jis(b),
    decreases b.len(),
{
    if b.len() == 0 {
        assert(a + b =~= a);
        assert(spec_to_shift_jis(a) + Seq::<u8>::empty() =~= spec_to_shift_jis(a));
    } else {
        lemma_shift_jis_concat(a, b.drop_last());
        assert((a + b).drop_last() =~= a + b.drop_last());
        assert((a + b).last() == b.last());
        assert(spec_to_shift_jis(a + b) =~= spec_to_shift_jis(a) + spec_to_shift_jis(b));
    }
}

/// Once a start of the seed has eight Shift_JIS bytes, the rest of the seed
/// does not change the classic tripcode (for ASCII seeds: only the first eight
/// characters count).
pub proof fn lemma_classic_seed_prefix(a: Seq<char>, b: Seq<char>)
    requires
        spec_to_shift_jis(a).len() >= 8,
    ensures
        spec_classic_tripcode(a + b) == spec_classic_tripcode(a),
{
    lemma_shift_jis_concat(a, b);
    let ta = spec_to_shift_jis(a);
    let tab = spec_to_shift_jis(a + b);
    lemma_classic_first_eight_bytes(ta);
    lemma_classic_first_eight_bytes(tab);
    assert(tab.take(8) =~= ta.take(8));
}

/// The last ten characters of `s`.
fn last_ten(s: &str) -> (res: String)
    requires
        s@.len() >= 10,
    ensures
        res@ == s@.subrange(s@.len() - 10, s@.len() as int),
{
    let chars = chars_of(s);
    let n = chars.len();
    string_from_chars(copy_range(chars.as_slice(), n - 10, n).as_slice())
}

/// The classic tripcode of the Shift_JIS bytes of a seed.
pub fn classic_tripcode_of(text: &[u8]) -> (res: Option<String>)
    ensures
        res.deep_view() == spec_classic_tripcode_of(text@),
{
    if text.len() == 0 {
        return None;
    }
    let s1 = if 1 < text.len() { text[1] } else if 1 == text.len() { 72 } else { 46 };
    let s2 = if 2 < text.len() { text[2] } else if 2 == text.len() { 72 } else { 46 };
    let salt = [fix_salt_char(s1), fix_salt_char(s2)];
    assert(salt@ =~= classic_salt(text@));
    let mut key = [0u8; 8];
    for i in 0..8
        invariant
            forall|m: int| 0 <= m < i ==> key@[m] == #[trigger] key_of(text@)[m],
            forall|m: int| i <= m < 8 ==> #[trigger] key@[m] == 0,
    {
        if i < text.len() {
            key[i] = text[i];
        }
    }
    assert(key@ =~= key_of(text@));
    let out = des_crypt(&key, &salt, 25);
    let ghost letters11 = spec_des_crypt_with_salt(key@, salt@, 25, zero_block());
    assert(out@.subrange(out@.len() - 10, out@.len() as int) =~= letters11.subrange(1, 11));
    Some(last_ten(out.as_str()))
}

/// Computes the classic tripcode (without the leading `!`).
pub fn classic_tripcode(seed: &str) -> (res: Option<String>)
    ensures
        res.deep_view() == spec_classic_tripcode(seed@),
{
    let text = to_shift_jis(seed);
    classic_tripcode_of(text.as_slice())
}

// ------------------------------------------------------------------ secure

/// The four salt letters of a secure tripcode: the first four Base64 letters of
/// the digest, `+` written `.` (and `.` where the Base64 text is shorter).
pub open spec fn secure_salt(digest: Seq<u8>) -> Seq<u8> {
    let b = base64_standard(digest);
    Seq::new(
        4,
        |i: int|
            if i < b.len() {
                if b[i] == '+' {
                    46u8
                } else {
                    b[i] as u8
                }
            } else {
                46u8
            },
    )
}

/// The setting of a secure tripcode: `_..A.` and the salt (as vichan writes it).
pub open spec fn secure_setting(salt: Seq<u8>) -> Seq<u8> {
    seq![95u8, 46u8, 46u8, 65u8, 46u8] + salt
}

/// Byte `i` of the eight-byte chunk `c` of `text`, zero past its end.
pub open spec fn chunk_byte(text: Seq<u8>, c: int, i: int) -> u8 {
    if 8 * c + i < text.len() {
        text[8 * c + i]
    } else {
        0u8
    }
}

/// The plaintext of a folding step: the running block mixed with the chunk shifted left.
pub open spec fn fold_plain(pk: Seq<u8>, text: Seq<u8>, c: int) -> Seq<u8> {
    Seq::new(8, |i: int| pk[i] ^ (chunk_byte(text, c, i) << 1u8))
}

/// The key of a folding step: the running block shifted right mixed with the chunk.
pub open spec fn fold_key(pk: Seq<u8>, text: Seq<u8>, c: int) -> Seq<u8> {
    Seq::new(8, |i: int| (pk[i] >> 1u8) ^ chunk_byte(text, c, i))
}

/// The running block before chunk `c`: zero, then each step's plaintext encrypted
/// once (no salt) under the step's key.
pub open spec fn fold_block(text: Seq<u8>, c: int) -> Seq<u8>
    decreases c,
{
    if c <= 0 {
        zero_block()
    } else {
        let pk = fold_block(text, c - 1);
        pack_bytes(
            des_iterate(
                data_block(fold_plain(pk, text, c - 1)),
                fold_key(pk, text, c - 1),
                salted_e(seq![]),
                1,
            ),
        )
    }
}

/// How many eight-byte chunks the passphrase folding reads (at least one).
pub open spec fn chunk_count(n: int) -> int {
    if n <= 8 {
        1
    } else {
        (n + 7) / 8
    }
}

/// The key that a passphrase folds down to (BSD extended DES).
pub open spec fn folded_key(text: Seq<u8>) -> Seq<u8> {
    let last = chunk_count(text.len() as int) - 1;
    fold_key(fold_block(text, last), text, last)
}

/// The secure tripcode of some Shift_JIS bytes, given the SHA-1 digest of the
/// bytes followed by the site salt: the last ten letters of extended DES of the
/// folded key under the salt and count of the secure setting.
pub open spec fn spec_secure_tripcode_of(text: Seq<u8>, digest: Seq<u8>) -> Option<Seq<char>> {
    if text.len() == 0 {
        None
    } else {
        let salt = secure_salt(digest);
        Some(
            spec_des_crypt_with_salt(
                folded_key(text),
                salt,
                spec_decode_count(secure_setting(salt)) as nat,
                zero_block(),
            ).subrange(1, 11),
        )
    }
}

/// The secure tripcode of a seed under a site salt.
pub open spec fn spec_secure_tripcode(seed: Seq<char>, secure_salt: Seq<char>) -> Option<
    Seq<char>,
> {
    let text = spec_to_shift_jis(seed);
    spec_secure_tripcode_of(text, sha1_of(text + vstd::utf8::encode_utf8(secure_salt)))
}

/// The number of chunks of a passphrase of `n` bytes.
fn chunk_total(n: usize) -> (chunks: usize)
    requires
        n > 0,
    ensures
        chunks == chunk_count(n as int),
        chunks >= 1,
        8 * (chunks - 1) < n,
{
    if n <= 8 {
        1
    } else {
        let q = n / 8;
        let r = n % 8;
        assert(n == 8 * q + r);
        if r == 0 {
            assert((n + 7) / 8 == q);
            q
        } else {
            assert((n + 7) / 8 == q + 1);
            q + 1
        }
    }
}

/// The plaintext and key of folding step `c`.
fn fold_inputs(pkbuf: &[u8; 8], text: &[u8], c: usize) -> (res: ([u8; 8], [u8; 8]))
    requires
        8 * c < text@.len(),
    ensures
        res.0@ == fold_plain(pkbuf@, text@, c as int),
        res.1@ == fold_key(pkbuf@, text@, c as int),
{
    let n = text.len();
    let mut plain = [0u8; 8];
    let mut keybuf = [0u8; 8];
    for i in 0..8
        invariant
            n == text@.len(),
            8 * c < n,
            forall|m: int| 0 <= m < i ==> plain@[m] == #[trigger] fold_plain(pkbuf@, text@, c as int)[m],
            forall|m: int| 0 <= m < i ==> keybuf@[m] == #[trigger] fold_key(pkbuf@, text@, c as int)[m],
    {
        let ch = if i < n - 8 * c {
            text[8 * c + i]
        } else {
            0
        };
        plain[i] = pkbuf[i] ^ (ch << 1u8);
        keybuf[i] = (pkbuf[i] >> 1u8) ^ ch;
    }
    assert(plain@ =~= fold_plain(pkbuf@, text@, c as int));
    assert(keybuf@ =~= fold_key(pkbuf@, text@, c as int));
    (plain, keybuf)
}

/// One folding step: the plaintext encrypted once, unsalted, under the key.
fn fold_step(keybuf: &[u8; 8], plain: &[u8; 8]) -> (pk: [u8; 8])
    ensures
        pk@ == pack_bytes(des_iterate(data_block(plain@), keybuf@, salted_e(seq![]), 1)),
{
    let no_salt: [u8; 0] = [];
    assert(no_salt@ =~= seq![]);
    let encoded = des_crypt_with_salt(keybuf, no_salt.as_slice(), 1, plain);
    let ghost block = des_iterate(data_block(plain@), keybuf@, salted_e(seq![]), 1);
    proof {
        lemma_salted_e_is_expansion(seq![]);
        lemma_data_block_shape(plain@);
        lemma_des_iterate_shape(data_block(plain@), keybuf@, salted_e(seq![]), 1);
        lemma_letters_utf8(block);
        lemma_decode_encode(block);
    }
    decode_hash_bytes(encoded.as_str())
}

/// The key a passphrase folds down to: each eight-byte chunk but the last
/// updates the running block by one unsalted DES encryption.
fn fold_passphrase(text: &[u8]) -> (key: [u8; 8])
    requires
        text@.len() > 0,
    ensures
        key@ == folded_key(text@),
{
    let n = text.len();
    let chunks = chunk_total(n);
    let mut pkbuf = [0u8; 8];
    let mut keybuf = [0u8; 8];
    let mut plain = [0u8; 8];
    assert(pkbuf@ =~= zero_block());
    let mut c: usize = 0;
    while c < chunks
        invariant
            n == text@.len(),
            chunks == chunk_count(n as int),
            chunks >= 1,
            8 * (chunks - 1) < n,
            c <= chunks,
            pkbuf@ == fold_block(text@, if c < chunks { c as int } else { chunks - 1 }),
            c > 0 ==> keybuf@ == fold_key(fold_block(text@, c - 1), text@, c - 1),
        decreases chunks - c,
    {
        let (p, k) = fold_inputs(&pkbuf, text, c);
        plain = p;
        keybuf = k;
        if c + 1 < chunks {
            pkbuf = fold_step(&keybuf, &plain);
        }
        c = c + 1;
    }
    keybuf
}

/// The secure tripcode of Shift_JIS bytes, given the SHA-1 digest of the bytes
/// followed by the site salt.
pub fn secure_tripcode_of(text: &[u8], digest: &[u8]) -> (res: Option<String>)
    ensures
        res.deep_view() == spec_secure_tripcode_of(text@, digest@),
{
    if text.len() == 0 {
        return None;
    }
    let b64 = base64_encode(digest);
    let b64_chars = chars_of(b64.as_str());
    let mut salt4 = [46u8; 4];
    for i in 0..4
        invariant
            b64_chars@ == base64_standard(digest@),
            forall|m: int| 0 <= m < i ==> salt4@[m] == #[trigger] secure_salt(digest@)[m],
            forall|m: int| i <= m < 4 ==> #[trigger] salt4@[m] == 46u8,
    {
        if i < b64_chars.len() {
            let c = b64_chars[i];
            salt4[i] = if c == '+' {
                46u8
            } else {
                c as u8
            };
        }
    }
    assert(salt4@ =~= secure_salt(digest@));
    let setting = [95u8, 46, 46, 65, 46, salt4[0], salt4[1], salt4[2], salt4[3]];
    assert(setting@ =~= secure_setting(salt4@));
    let count = decode_count(&setting);
    let key = fold_passphrase(text);
    let zero = [0u8; 8];
    assert(zero@ =~= zero_block());
    let encoded = des_crypt_with_salt(&key, salt4.as_slice(), count, &zero);
    Some(last_ten(encoded.as_str()))
}

/// Computes the secure tripcode (without the leading `!!`).
pub fn secure_tripcode(seed: &str, secure_salt: &str) -> (res: Option<String>)
    ensures
        res.deep_view() == spec_secure_tripcode(seed@, secure_salt@),
{
    let text = to_shift_jis(seed);
    let mut input = text.clone();
    let mut salt_bytes = vstd::slice::slice_to_vec(secure_salt.as_bytes());
    input.append(&mut salt_bytes);
    let digest = sha1_digest(input.as_slice());
    secure_tripcode_of(text.as_slice(), digest.as_slice())
}

// ------------------------------------------------------------------ rendering

/// The tripcode shown for a post: `!!` and the secure tripcode where there is a
/// secure seed, else `!` and the classic tripcode where there is a classic seed.
pub open spec fn spec_render(
    classic: Option<Seq<char>>,
    secure: Option<Seq<char>>,
    secure_salt: Seq<char>,
) -> Option<Seq<char>> {
    match secure {
        Some(seed) => match spec_secure_tripcode(seed, secure_salt) {
            Some(t) => Some(seq!['!', '!'] + t),
            None => None,
        },
        None => match classic {
            Some(seed) => match spec_classic_tripcode(seed) {
                Some(t) => Some(seq!['!'] + t),
                None => None,
            },
            None => None,
        },
    }
}

impl Tripcodes {
    /// The tripcode to display, with its `!` or `!!` prefix.
    pub fn render(self, secure_salt: &str) -> (res: Option<String>)
        ensures
            res.deep_view() == spec_render(
                self.classic.deep_view(),
                self.secure.deep_view(),
                secure_salt@,
            ),
    {
        if let Some(seed) = self.secure {
            return match secure_tripcode(seed.as_str(), secure_salt) {
                Some(t) => {
                    let mut out = string_from_chars(['!', '!'].as_slice());
                    out.append(t.as_str());
                    Some(out)
                },
                None => None,
            };
        }
        if let Some(seed) = self.classic {
            return match classic_tripcode(seed.as_str()) {
                Some(t) => {
                    let mut out = string_from_chars(['!'].as_slice());
                    out.append(t.as_str());
                    Some(out)
                },
                None => None,
            };
        }
        None
    }
}

// ------------------------------------------------------------------ hashes

/// HMAC-SHA256 of an IP address under the secret, in hex: the ban key that
/// stands in for the address, which is never stored.
pub fn hash_ip(ip: &str, secret: &str) -> (res: String)
    ensures
        res@ == spec_hex(hmac_sha256_of(vstd::utf8::encode_utf8(secret@), vstd::utf8::encode_utf8(ip@))),
        res@.len() == 64,
        forall|k: int| 0 <= k < res@.len() ==> is_hex_char(#[trigger] res@[k]),
{
    let mac = hmac_sha256(secret.as_bytes(), ip.as_bytes());
    proof {
        lemma_hex_shape(mac@);
    }
    to_hex(mac.as_slice())
}

/// SHA-256 of a file, in hex (for bans by file).
pub fn file_hash(data: &[u8]) -> (res: String)
    ensures
        res@ == spec_hex(sha256_of(data@)),
        res@.len() == 64,
        forall|k: int| 0 <= k < res@.len() ==> is_hex_char(#[trigger] res@[k]),
{
    let digest = sha256_digest(data);
    proof {
        lemma_hex_shape(digest@);
    }
    to_hex(digest.as_slice())
}

/// A tripcode is ten characters of the crypt(3) alphabet, for every seed with
/// bytes; a seed without bytes has none, classic or secure.
pub proof fn lemma_tripcode_shape(text: Seq<u8>, digest: Seq<u8>)
    ensures
        text.len() == 0 ==> spec_classic_tripcode_of(text) is None && spec_secure_tripcode_of(
            text,
            digest,
        ) is None,
        text.len() > 0 ==> spec_classic_tripcode_of(text) is Some && spec_secure_tripcode_of(
            text,
            digest,
        ) is Some,
        spec_classic_tripcode_of(text) matches Some(t) ==> t.len() == 10 && forall|i: int|
            0 <= i < 10 ==> is_crypt_char(#[trigger] t[i]),
        spec_secure_tripcode_of(text, digest) matches Some(t) ==> t.len() == 10 && forall|i: int|
            0 <= i < 10 ==> is_crypt_char(#[trigger] t[i]),
{
    if text.len() > 0 {
        let z = zero_block();
        lemma_crypt_output_shape(key_of(text), classic_salt(text), 25, z);
        let salt = secure_salt(digest);
        let count = spec_decode_count(secure_setting(salt)) as nat;
        lemma_crypt_output_shape(folded_key(text), salt, count, z);
        let c = spec_des_crypt_with_salt(key_of(text), classic_salt(text), 25, z);
        let s = spec_des_crypt_with_salt(folded_key(text), salt, count, z);
        assert forall|i: int| 0 <= i < 10 implies is_crypt_char(#[trigger] c.subrange(1, 11)[i])
            && is_crypt_char(s.subrange(1, 11)[i]) by {
            assert(is_crypt_char(c[i + 1]));
            assert(is_crypt_char(s[i + 1]));
        }
    }
}

/// What crypt(3) makes of a salt byte, as 4chan and vichan: a byte outside
/// `.`..=`z` is `.`; `:;<=>?@` are `A`..=`G`; ``[\]^_` `` are `a`..=`f`; every
/// other byte is kept.
pub proof fn lemma_salt_char_table(c: u8)
    ensures
        c < 46 || c > 122 ==> spec_fix_salt_char(c) == 46,
        58 <= c <= 64 ==> spec_fix_salt_char(c) == c + 7,
        91 <= c <= 96 ==> spec_fix_salt_char(c) == c + 6,
        (46 <= c <= 57 || 65 <= c <= 90 || 97 <= c <= 122) ==> spec_fix_salt_char(c) == c,
{
}

/// The classic salt: the second and third bytes of the text, each fixed as
/// crypt(3) fixes salt bytes (out-of-range bytes become `.`); the text is read
/// as followed by `H..` where it is shorter.
pub proof fn lemma_classic_salt_bytes(text: Seq<u8>)
    ensures
        classic_salt(text).len() == 2,
        text.len() >= 2 ==> classic_salt(text)[0] == spec_fix_salt_char(text[1]),
        text.len() >= 3 ==> classic_salt(text)[1] == spec_fix_salt_char(text[2]),
        text.len() == 2 ==> classic_salt(text)[1] == 72,
        text.len() == 1 ==> classic_salt(text)[0] == 72 && classic_salt(text)[1] == 46,
        text.len() == 0 ==> classic_salt(text)[0] == 46 && classic_salt(text)[1] == 46,
        forall|k: int|
            0 <= k < 2 && k + 1 < text.len() && (text[k + 1] < 46 || text[k + 1] > 122) ==> #[trigger] classic_salt(text)[k] == 46,
{
    lemma_salt_char_table(salt_source(text, 1));
    lemma_salt_char_table(salt_source(text, 2));
}

/// The secure tripcode of a seed is computed from the whole seed: the whole
/// Shift_JIS text is folded into the key, and the whole text followed by the
/// site salt is hashed for the DES salt; the count is `..A.`, 49152.
pub proof fn lemma_secure_uses_whole_seed(seed: Seq<char>, site_salt: Seq<char>)
    ensures
        ({
            let text = spec_to_shift_jis(seed);
            let digest = sha1_of(text + vstd::utf8::encode_utf8(site_salt));
            &&& text.len() == 0 ==> spec_secure_tripcode(seed, site_salt) is None
            &&& text.len() > 0 ==> spec_secure_tripcode(seed, site_salt) == Some(
                spec_des_crypt_with_salt(
                    folded_key(text),
                    secure_salt(digest),
                    49152,
                    zero_block(),
                ).subrange(1, 11),
            )
        }),
{
    let text = spec_to_shift_jis(seed);
    let digest = sha1_of(text + vstd::utf8::encode_utf8(site_salt));
    let salt = secure_salt(digest);
    assert(secure_setting(salt)[1] == 46u8 && secure_setting(salt)[2] == 46u8);
    assert(secure_setting(salt)[3] == 65u8 && secure_setting(salt)[4] == 46u8);
    assert(spec_decode_count(secure_setting(salt)) == 49152);
}

/// The running block before the last chunk of a passphrase depends only on the
/// chunks before it.
proof fn lemma_fold_block_prefix(t1: Seq<u8>, t2: Seq<u8>, c: int)
    requires
        c >= 0,
        8 * c <= t1.len(),
        8 * c <= t2.len(),
        forall|j: int| 0 <= j < 8 * c ==> t1[j] == t2[j],
    ensures
        fold_block(t1, c) == fold_block(t2, c),
    decreases c,
{
    if c > 0 {
        lemma_fold_block_prefix(t1, t2, c - 1);
        let pk = fold_block(t1, c - 1);
        assert forall|i: int| 0 <= i < 8 implies #[trigger] chunk_byte(t1, c - 1, i) == chunk_byte(
            t2,
            c - 1,
            i,
        ) by {
            assert(8 * (c - 1) + i < 8 * c);
        }
        assert(fold_plain(pk, t1, c - 1) =~= fold_plain(pk, t2, c - 1));
        assert(fold_key(pk, t1, c - 1) =~= fold_key(pk, t2, c - 1));
    }
}

/// Every byte of a passphrase counts: two passphrases of one length that agree
/// up to their last eight-byte chunk and differ in it fold to different keys,
/// exactly where they differ.
pub proof fn lemma_folded_key_uses_last_chunk(t1: Seq<u8>, t2: Seq<u8>, i: int)
    requires
        t1.len() == t2.len(),
        ({
            let last = chunk_count(t1.len() as int) - 1;
            &&& forall|j: int| 0 <= j < 8 * last ==> t1[j] == t2[j]
            &&& 0 <= i < 8
            &&& 8 * last + i < t1.len()
            &&& t1[8 * last + i] != t2[8 * last + i]
        }),
    ensures
        folded_key(t1) != folded_key(t2),
        folded_key(t1)[i] != folded_key(t2)[i],
{
    let n = t1.len() as int;
    let last = chunk_count(n) - 1;
    assert(last >= 0);
    assert(8 * last <= n) by {
        if n > 8 {
            assert(8 * ((n + 7) / 8) <= n + 7);
        }
    }
    lemma_fold_block_prefix(t1, t2, last);
    let pk = fold_block(t1, last);
    let a = t1[8 * last + i];
    let b = t2[8 * last + i];
    let x = pk[i] >> 1u8;
    assert(folded_key(t1)[i] == x ^ a);
    assert(folded_key(t2)[i] == x ^ b);
    assert((x ^ a) != (x ^ b)) by (bit_vector)
        requires
            a != b,
    ;
}

/// A classic tripcode is the last ten of the eleven crypt(3) letters of the
/// text's first eight bytes (zero-padded), 25 rounds over the zero block, under
/// the classic salt; text without bytes has none.
pub proof fn lemma_classic_is_crypt_tail(text: Seq<u8>)
    ensures
        text.len() == 0 <==> spec_classic_tripcode_of(text) is None,
        key_of(text).len() == 8,
        forall|i: int| 0 <= i < 8 && i < text.len() ==> #[trigger] key_of(text)[i] == text[i],
        forall|i: int| text.len() <= i < 8 ==> #[trigger] key_of(text)[i] == 0,
        ({
            let c = spec_des_crypt_with_salt(key_of(text), classic_salt(text), 25, zero_block());
            &&& c.len() == 11
            &&& text.len() > 0 ==> spec_classic_tripcode_of(text) == Some(
                c.subrange(c.len() - 10, c.len() as int),
            )
        }),
{
    lemma_crypt_output_shape(key_of(text), classic_salt(text), 25, zero_block());
}

} // verus!
