//! Unix `crypt(3)` DES, as used by classic and secure tripcodes.
//!
//! Bits are kept one per byte (0 or 1). A 64-bit block is a `Seq<u8>` of
//! length 64; the model below states the cipher over such sequences and the
//! executable code is proved against it.
use vstd::prelude::*;

use crate::text::{string_from_chars, utf8_lossy, utf8_lossy_decoding};

verus! {

pub const PC1_C: [usize; 28] = [
    57, 49, 41, 33, 25, 17, 9, 1, 58, 50, 42, 34, 26, 18, 10, 2, 59, 51, 43, 35, 27, 19, 11, 3, 60,
    52, 44, 36,
];
pub const PC1_D: [usize; 28] = [
    63, 55, 47, 39, 31, 23, 15, 7, 62, 54, 46, 38, 30, 22, 14, 6, 61, 53, 45, 37, 29, 21, 13, 5, 28,
    20, 12, 4,
];
pub const PC2_C: [usize; 24] = [
    14, 17, 11, 24, 1, 5, 3, 28, 15, 6, 21, 10, 23, 19, 12, 4, 26, 8, 16, 7, 27, 20, 13, 2,
];
pub const PC2_D: [usize; 24] = [
    41, 52, 31, 37, 47, 55, 30, 40, 51, 45, 33, 48, 44, 49, 39, 56, 34, 53, 46, 42, 50, 36, 29, 32,
];
pub const E: [usize; 48] = [
    32, 1, 2, 3, 4, 5, 4, 5, 6, 7, 8, 9, 8, 9, 10, 11, 12, 13, 12, 13, 14, 15, 16, 17, 16, 17, 18,
    19, 20, 21, 20, 21, 22, 23, 24, 25, 24, 25, 26, 27, 28, 29, 28, 29, 30, 31, 32, 1,
];
pub const IP: [usize; 64] = [
    58, 50, 42, 34, 26, 18, 10, 2, 60, 52, 44, 36, 28, 20, 12, 4, 62, 54, 46, 38, 30, 22, 14, 6, 64,
    56, 48, 40, 32, 24, 16, 8, 57, 49, 41, 33, 25, 17, 9, 1, 59, 51, 43, 35, 27, 19, 11, 3, 61, 53,
    45, 37, 29, 21, 13, 5, 63, 55, 47, 39, 31, 23, 15, 7,
];
pub const FP: [usize; 64] = [
    40, 8, 48, 16, 56, 24, 64, 32, 39, 7, 47, 15, 55, 23, 63, 31, 38, 6, 46, 14, 54, 22, 62, 30, 37,
    5, 45, 13, 53, 21, 61, 29, 36, 4, 44, 12, 52, 20, 60, 28, 35, 3, 43, 11, 51, 19, 59, 27, 34, 2,
    42, 10, 50, 18, 58, 26, 33, 1, 41, 9, 49, 17, 57, 25,
];
pub const S: [[u8; 64]; 8] = [
    [
        14, 4, 13, 1, 2, 15, 11, 8, 3, 10, 6, 12, 5, 9, 0, 7, 0, 15, 7, 4, 14, 2, 13, 1, 10, 6, 12,
        11, 9, 5, 3, 8, 4, 1, 14, 8, 13, 6, 2, 11, 15, 12, 9, 7, 3, 10, 5, 0, 15, 12, 8, 2, 4, 9, 1,
        7, 5, 11, 3, 14, 10, 0, 6, 13,
    ],
    [
        15, 1, 8, 14, 6, 11, 3, 4, 9, 7, 2, 13, 12, 0, 5, 10, 3, 13, 4, 7, 15, 2, 8, 14, 12, 0, 1,
        10, 6, 9, 11, 5, 0, 14, 7, 11, 10, 4, 13, 1, 5, 8, 12, 6, 9, 3, 2, 15, 13, 8, 10, 1, 3, 15,
        4, 2, 11, 6, 7, 12, 0, 5, 14, 9,
    ],
    [
        10, 0, 9, 14, 6, 3, 15, 5, 1, 13, 12, 7, 11, 4, 2, 8, 13, 7, 0, 9, 3, 4, 6, 10, 2, 8, 5, 14,
        12, 11, 15, 1, 13, 6, 4, 9, 8, 15, 3, 0, 11, 1, 2, 12, 5, 10, 14, 7, 1, 10, 13, 0, 6, 9, 8,
        7, 4, 15, 14, 3, 11, 5, 2, 12,
    ],
    [
        7, 13, 14, 3, 0, 6, 9, 10, 1, 2, 8, 5, 11, 12, 4, 15, 13, 8, 11, 5, 6, 15, 0, 3, 4, 7, 2,
        12, 1, 10, 14, 9, 10, 6, 9, 0, 12, 11, 7, 13, 15, 1, 3, 14, 5, 2, 8, 4, 3, 15, 0, 6, 10, 1,
        13, 8, 9, 4, 5, 11, 12, 7, 2, 14,
    ],
    [
        2, 12, 4, 1, 7, 10, 11, 6, 8, 5, 3, 15, 13, 0, 14, 9, 14, 11, 2, 12, 4, 7, 13, 1, 5, 0, 15,
        10, 3, 9, 8, 6, 4, 2, 1, 11, 10, 13, 7, 8, 15, 9, 12, 5, 6, 3, 0, 14, 11, 8, 12, 7, 1, 14,
        2, 13, 6, 15, 0, 9, 10, 4, 5, 3,
    ],
    [
        12, 1, 10, 15, 9, 2, 6, 8, 0, 13, 3, 4, 14, 7, 5, 11, 10, 15, 4, 2, 7, 12, 9, 5, 6, 1, 13,
        14, 0, 11, 3, 8, 9, 14, 15, 5, 2, 8, 12, 3, 7, 0, 4, 10, 1, 13, 11, 6, 4, 3, 2, 12, 9, 5,
        15, 10, 11, 14, 1, 7, 6, 0, 8, 13,
    ],
    [
        4, 11, 2, 14, 15, 0, 8, 13, 3, 12, 9, 7, 5, 10, 6, 1, 13, 0, 11, 7, 4, 9, 1, 10, 14, 3, 5,
        12, 2, 15, 8, 6, 1, 4, 11, 13, 12, 3, 7, 14, 10, 15, 6, 8, 0, 5, 9, 2, 6, 11, 13, 8, 1, 4,
        10, 7, 9, 5, 0, 15, 14, 2, 3, 12,
    ],
    [
        13, 2, 8, 4, 6, 15, 11, 1, 10, 9, 3, 14, 5, 0, 12, 7, 1, 15, 13, 8, 10, 3, 7, 4, 12, 5, 6,
        11, 0, 14, 9, 2, 7, 11, 4, 1, 9, 12, 14, 2, 0, 6, 10, 13, 15, 3, 5, 8, 2, 1, 14, 7, 4, 10,
        8, 13, 15, 12, 9, 0, 3, 5, 6, 11,
    ],
];
pub const P: [usize; 32] = [
    16, 7, 20, 21, 29, 12, 28, 17, 1, 15, 23, 26, 5, 18, 31, 10, 2, 8, 24, 14, 32, 27, 3, 9, 19, 13,
    30, 6, 22, 11, 4, 25,
];
pub const SHIFTS: [u8; 16] = [1, 1, 2, 2, 2, 2, 2, 2, 1, 2, 2, 2, 2, 2, 2, 1];


/// The crypt(3) alphabet: the letter for each 6-bit value.
pub const ASCII64: [u8; 64] = [
    46, 47, 48, 49, 50, 51, 52, 53, 54, 55, 56, 57, 65, 66, 67, 68, 69, 70, 71, 72, 73, 74, 75, 76,
    77, 78, 79, 80, 81, 82, 83, 84, 85, 86, 87, 88, 89, 90, 97, 98, 99, 100, 101, 102, 103, 104,
    105, 106, 107, 108, 109, 110, 111, 112, 113, 114, 115, 116, 117, 118, 119, 120, 121, 122,
];

// ------------------------------------------------------------------ the model

/// Every entry of `s` is a single bit.
pub open spec fn is_bits(s: Seq<u8>) -> bool {
    forall|i: int| 0 <= i < s.len() ==> #[trigger] s[i] <= 1
}

/// The 6-bit value of a letter of the crypt(3) alphabet (0 for other bytes).
pub open spec fn spec_ascii_to_bin(ch: u8) -> u8 {
    if 46 <= ch <= 57 {
        (ch - 46) as u8
    } else if 65 <= ch <= 90 {
        (ch - 65 + 12) as u8
    } else if 97 <= ch <= 122 {
        (ch - 97 + 38) as u8
    } else {
        0
    }
}

/// The key block: seven bits of each key byte (bits 6..0), an unused eighth bit.
pub open spec fn key_block(key: Seq<u8>) -> Seq<u8> {
    Seq::new(64, |k: int| if k % 8 == 7 { 0u8 } else { (key[k / 8] >> ((6 - k % 8) as u8)) & 1u8 })
}

/// A data block: the eight bits of each byte, most significant first.
pub open spec fn data_block(data: Seq<u8>) -> Seq<u8> {
    Seq::new(64, |k: int| (data[k / 8] >> ((7 - k % 8) as u8)) & 1u8)
}

/// Left shifts of the key halves done before round `n` (rounds counted from 1).
pub open spec fn shift_total(n: int) -> int
    decreases n,
{
    if n <= 0 {
        0
    } else {
        shift_total(n - 1) + SHIFTS[n - 1]
    }
}

/// Subkey of round `round` (from 0): PC-2 applied to the rotated halves of PC-1.
pub open spec fn subkey(key: Seq<u8>, round: int) -> Seq<u8> {
    let kb = key_block(key);
    let t = shift_total(round + 1);
    Seq::new(
        48,
        |j: int|
            if j < 24 {
                kb[PC1_C[(PC2_C[j] - 1 + t) % 28] - 1]
            } else {
                kb[PC1_D[(PC2_D[j - 24] - 29 + t) % 28] - 1]
            },
    )
}

/// Whether salt bit `p` (0..24) is set: bit `p % 6` of the value of salt letter `p / 6`.
pub open spec fn salt_bit(salt: Seq<u8>, p: int) -> bool {
    p / 6 < salt.len() && (spec_ascii_to_bin(salt[p / 6]) >> ((p % 6) as u8)) & 1u8 == 1u8
}

/// The expansion table with entries `p` and `p + 24` exchanged for each set salt bit `p`.
pub open spec fn salted_e(salt: Seq<u8>) -> Seq<usize> {
    Seq::new(
        48,
        |k: int|
            if k < 24 {
                if salt_bit(salt, k) { E[k + 24] } else { E[k] }
            } else {
                if salt_bit(salt, k - 24) { E[k - 24] } else { E[k] }
            },
    )
}

/// Row/column index into S-box `j` of the six bits `pres[6j..6j+6]`.
pub open spec fn sbox_index(pres: Seq<u8>, j: int) -> int {
    pres[6 * j] * 32 + pres[6 * j + 5] * 16 + pres[6 * j + 1] * 8 + pres[6 * j + 2] * 4
        + pres[6 * j + 3] * 2 + pres[6 * j + 4]
}

/// The cipher function: expand `r`, mix in the subkey, substitute (before P).
/// The expanded half mixed with the subkey.
pub open spec fn pres_bits(r: Seq<u8>, k: Seq<u8>, e: Seq<usize>) -> Seq<u8> {
    Seq::new(48, |j: int| r[e[j] - 1] ^ k[j])
}

pub open spec fn f_bits(r: Seq<u8>, k: Seq<u8>, e: Seq<usize>) -> Seq<u8> {
    let pres = pres_bits(r, k, e);
    Seq::new(32, |x: int| (S[x / 4][sbox_index(pres, x / 4)] >> ((3 - x % 4) as u8)) & 1u8)
}

/// The halves after `n` Feistel rounds starting from `(l, r)`.
pub open spec fn feistel(l: Seq<u8>, r: Seq<u8>, key: Seq<u8>, e: Seq<usize>, n: int) -> (
    Seq<u8>,
    Seq<u8>,
)
    decreases n,
{
    if n <= 0 {
        (l, r)
    } else {
        let (l1, r1) = feistel(l, r, key, e, n - 1);
        let f = f_bits(r1, subkey(key, n - 1), e);
        (r1, Seq::new(32, |j: int| l1[j] ^ f[P[j] - 1]))
    }
}

/// One encryption of a 64-bit block: IP, sixteen rounds, swap, FP.
pub open spec fn encrypt_once(block: Seq<u8>, key: Seq<u8>, e: Seq<usize>) -> Seq<u8> {
    let l0 = Seq::new(32, |i: int| block[IP[i] - 1]);
    let r0 = Seq::new(32, |i: int| block[IP[i + 32] - 1]);
    let (l16, r16) = feistel(l0, r0, key, e, 16);
    let pre = r16 + l16;
    Seq::new(64, |i: int| pre[FP[i] - 1])
}

/// `n` encryptions in a row.
pub closed spec fn des_iterate(block: Seq<u8>, key: Seq<u8>, e: Seq<usize>, n: nat) -> Seq<u8>
    decreases n,
{
    if n == 0 {
        block
    } else {
        encrypt_once(des_iterate(block, key, e, (n - 1) as nat), key, e)
    }
}

/// Bit `k` of a block, 0 past its end (the encoding reads 66 bits of a 64-bit block).
pub open spec fn bit_at(block: Seq<u8>, k: int) -> int {
    if 0 <= k < block.len() { block[k] as int } else { 0 }
}

/// The 6-bit group `i` of a block, most significant bit first.
pub open spec fn sextet(block: Seq<u8>, i: int) -> int {
    bit_at(block, 6 * i) * 32 + bit_at(block, 6 * i + 1) * 16 + bit_at(block, 6 * i + 2) * 8
        + bit_at(block, 6 * i + 3) * 4 + bit_at(block, 6 * i + 4) * 2 + bit_at(block, 6 * i + 5)
}

/// The eleven letters that encode a block.
pub open spec fn encode_block(block: Seq<u8>) -> Seq<u8> {
    Seq::new(11, |i: int| ASCII64[sextet(block, i)])
}

/// Letters as characters.
pub open spec fn letters(s: Seq<u8>) -> Seq<char> {
    Seq::new(s.len(), |i: int| s[i] as char)
}

/// crypt(3) with an arbitrary salt of up to four letters: `count` encryptions of
/// `plaintext` under `key`, encoded in eleven letters.
pub open spec fn spec_des_crypt_with_salt(
    key: Seq<u8>,
    salt: Seq<u8>,
    count: nat,
    plaintext: Seq<u8>,
) -> Seq<char> {
    letters(encode_block(des_iterate(data_block(plaintext), key, salted_e(salt), count)))
}

// ------------------------------------------------------------------ bit facts

/// A shifted and masked byte is a single bit.
pub proof fn lemma_shift_bit(x: u8, s: u8)
    ensures
        (x >> s) & 1u8 <= 1,
{
    assert((x >> s) & 1u8 <= 1) by (bit_vector);
}

proof fn lemma_xor_bits(a: u8, b: u8)
    requires
        a <= 1,
        b <= 1,
    ensures
        a ^ b <= 1,
{
    assert(a <= 1 && b <= 1 ==> a ^ b <= 1) by (bit_vector);
}

// ------------------------------------------------------------------ code

/// The 6-bit value of a crypt(3) letter; 0 for bytes outside the alphabet.
pub fn ascii_to_bin(ch: u8) -> (v: u8)
    ensures
        v == spec_ascii_to_bin(ch),
        v < 64,
{
    if 46 <= ch && ch <= 57 {
        ch - 46
    } else if 65 <= ch && ch <= 90 {
        ch - 65 + 12
    } else if 97 <= ch && ch <= 122 {
        ch - 97 + 38
    } else {
        0
    }
}

/// The sixteen subkeys, round `r` at `48 * r .. 48 * r + 48`.
fn key_schedule(key: &[u8; 8]) -> (ks: [u8; 768])
    ensures
        forall|r: int, j: int|
            0 <= r < 16 && 0 <= j < 48 ==> ks@[48 * r + j] == #[trigger] subkey(key@, r)[j],
        is_bits(ks@),
{
    let mut kb = [0u8; 64];
    for k in 0..64
        invariant
            forall|m: int| 0 <= m < k ==> kb@[m] == #[trigger] key_block(key@)[m],
            is_bits(kb@),
    {
        let bit = if k % 8 == 7 {
            0u8
        } else {
            proof {
                lemma_shift_bit(key@[(k / 8) as int], (6 - k % 8) as u8);
            }
            (key[k / 8] >> (6 - (k % 8) as u8)) & 1
        };
        kb[k] = bit;
    }
    assert(kb@ =~= key_block(key@));
    let mut ks = [0u8; 768];
    let mut t: usize = 0;
    for r in 0..16
        invariant
            kb@ == key_block(key@),
            is_bits(kb@),
            t == shift_total(r as int),
            t <= 2 * r,
            forall|rr: int, j: int|
                0 <= rr < r && 0 <= j < 48 ==> ks@[48 * rr + j] == #[trigger] subkey(key@, rr)[j],
            is_bits(ks@),
    {
        t = t + SHIFTS[r] as usize;
        for j in 0..24
            invariant
                kb@ == key_block(key@),
                is_bits(kb@),
                t == shift_total(r + 1),
                t <= 2 * r + 2,
                r < 16,
                forall|rr: int, jj: int|
                    0 <= rr < r && 0 <= jj < 48 ==> ks@[48 * rr + jj] == #[trigger] subkey(
                        key@,
                        rr,
                    )[jj],
                forall|jj: int| 0 <= jj < j ==> #[trigger] ks@[48 * r + jj] == subkey(key@, r as int)[jj],
                forall|jj: int|
                    24 <= jj < j + 24 ==> #[trigger] ks@[48 * r + jj] == subkey(key@, r as int)[jj],
                is_bits(ks@),
        {
            let ghost sk = subkey(key@, r as int);
            assert(sk[j as int] == kb@[PC1_C[(PC2_C[j as int] - 1 + t) % 28] - 1]);
            assert(sk[j + 24] == kb@[PC1_D[(PC2_D[j as int] - 29 + t) % 28] - 1]);
            ks[48 * r + j] = kb[PC1_C[(PC2_C[j] - 1 + t) % 28] - 1];
            ks[48 * r + j + 24] = kb[PC1_D[(PC2_D[j] - 29 + t) % 28] - 1];
            assert(ks@[48 * r + j] == sk[j as int]);
            assert(ks@[48 * r + j + 24] == sk[j + 24]);
        }
        assert forall|jj: int| 0 <= jj < 48 implies ks@[48 * r + jj] == #[trigger] subkey(
            key@,
            r as int,
        )[jj] by {
            assert(ks@[48 * r + jj] == subkey(key@, r as int)[jj]);
        }
    }
    ks
}

/// The expansion table for a salt.
fn salted_expansion(salt: &[u8]) -> (e: [usize; 48])
    ensures
        e@ == salted_e(salt@),
        forall|j: int| 0 <= j < 48 ==> 1 <= #[trigger] e@[j] <= 32,
{
    let mut e = [0usize; 48];
    for k in 0..48
        invariant
            forall|m: int| 0 <= m < k ==> e@[m] == #[trigger] salted_e(salt@)[m],
            forall|m: int| 0 <= m < k ==> 1 <= #[trigger] e@[m] <= 32,
    {
        let p = if k < 24 { k } else { k - 24 };
        let set = p / 6 < salt.len() && (ascii_to_bin(salt[p / 6]) >> (p % 6) as u8) & 1 == 1;
        assert(set == salt_bit(salt@, p as int));
        e[k] = if k < 24 {
            if set { E[k + 24] } else { E[k] }
        } else {
            if set { E[k - 24] } else { E[k] }
        };
    }
    assert(e@ =~= salted_e(salt@));
    e
}

/// The subkey table of `key`, as `key_schedule` returns it.
pub open spec fn is_schedule_of(ks: Seq<u8>, key: Seq<u8>) -> bool {
    &&& ks.len() == 768
    &&& is_bits(ks)
    &&& forall|r: int, j: int|
        0 <= r < 16 && 0 <= j < 48 ==> ks[48 * r + j] == #[trigger] subkey(key, r)[j]
}

/// An expansion table whose entries index a 32-bit half.
pub open spec fn is_expansion(e: Seq<usize>) -> bool {
    &&& e.len() == 48
    &&& forall|j: int| 0 <= j < 48 ==> 1 <= #[trigger] e[j] <= 32
}

/// The cipher function of round `round`.
fn cipher_f(
    r: &[u8; 32],
    ks: &[u8; 768],
    round: usize,
    e: &[usize; 48],
    Ghost(key): Ghost<Seq<u8>>,
) -> (f: [u8; 32])
    requires
        round < 16,
        is_bits(r@),
        is_schedule_of(ks@, key),
        is_expansion(e@),
    ensures
        f@ == f_bits(r@, subkey(key, round as int), e@),
        is_bits(f@),
{
    let ghost k = subkey(key, round as int);
    let ghost pres_spec = pres_bits(r@, k, e@);
    let mut pres = [0u8; 48];
    for j in 0..48
        invariant
            round < 16,
            is_bits(r@),
            is_schedule_of(ks@, key),
            is_expansion(e@),
            k == subkey(key, round as int),
            pres_spec == pres_bits(r@, k, e@),
            forall|m: int| 0 <= m < j ==> pres@[m] == #[trigger] pres_spec[m],
            is_bits(pres@),
    {
        assert(ks@[48 * round + j] == subkey(key, round as int)[j as int]);
        proof {
            lemma_xor_bits(r@[e@[j as int] - 1], ks@[48 * round + j]);
        }
        pres[j] = r[e[j] - 1] ^ ks[48 * round + j];
    }
    assert(pres@ =~= pres_spec);
    let mut f = [0u8; 32];
    for j in 0..8
        invariant
            is_bits(pres@),
            pres@ == pres_spec,
            pres_spec == pres_bits(r@, k, e@),
            forall|x: int|
                0 <= x < 4 * j ==> f@[x] == #[trigger] f_bits(r@, k, e@)[x],
            is_bits(f@),
    {
        let t = 6 * j;
        let idx = (pres[t] as usize) * 32 + (pres[t + 5] as usize) * 16 + (pres[t + 1] as usize)
            * 8 + (pres[t + 2] as usize) * 4 + (pres[t + 3] as usize) * 2 + (pres[t + 4] as usize);
        assert(idx == sbox_index(pres_spec, j as int));
        let v = S[j][idx];
        proof {
            lemma_shift_bit(v, 3);
            lemma_shift_bit(v, 2);
            lemma_shift_bit(v, 1);
            lemma_shift_bit(v, 0);
        }
        f[4 * j] = (v >> 3u8) & 1;
        f[4 * j + 1] = (v >> 2u8) & 1;
        f[4 * j + 2] = (v >> 1u8) & 1;
        f[4 * j + 3] = (v >> 0u8) & 1;
        proof {
            let fb = f_bits(r@, k, e@);
            let x0 = 4 * j as int;
            assert(x0 / 4 == j && x0 % 4 == 0);
            assert((x0 + 1) / 4 == j && (x0 + 1) % 4 == 1);
            assert((x0 + 2) / 4 == j && (x0 + 2) % 4 == 2);
            assert((x0 + 3) / 4 == j && (x0 + 3) % 4 == 3);
            assert(fb[x0] == (v >> 3u8) & 1u8);
            assert(fb[x0 + 1] == (v >> 2u8) & 1u8);
            assert(fb[x0 + 2] == (v >> 1u8) & 1u8);
            assert(fb[x0 + 3] == (v >> 0u8) & 1u8);
        }
    }
    assert(f@ =~= f_bits(r@, k, e@));
    f
}

/// One encryption of a block.
fn encrypt_block(
    block: &[u8; 64],
    ks: &[u8; 768],
    e: &[usize; 48],
    Ghost(key): Ghost<Seq<u8>>,
) -> (out: [u8; 64])
    requires
        is_bits(block@),
        is_schedule_of(ks@, key),
        is_expansion(e@),
    ensures
        out@ == encrypt_once(block@, key, e@),
        is_bits(out@),
{
    let mut l = [0u8; 32];
    let mut r = [0u8; 32];
    for i in 0..32
        invariant
            is_bits(block@),
            forall|m: int| 0 <= m < i ==> l@[m] == #[trigger] block@[IP[m] - 1],
            forall|m: int| 0 <= m < i ==> r@[m] == #[trigger] block@[IP[m + 32] - 1],
            is_bits(l@),
            is_bits(r@),
    {
        l[i] = block[IP[i] - 1];
        r[i] = block[IP[i + 32] - 1];
    }
    let ghost l0 = Seq::new(32, |i: int| block@[IP[i] - 1]);
    let ghost r0 = Seq::new(32, |i: int| block@[IP[i + 32] - 1]);
    assert(l@ =~= l0);
    assert(r@ =~= r0);
    for round in 0..16
        invariant
            is_schedule_of(ks@, key),
            is_expansion(e@),
            (l@, r@) == feistel(l0, r0, key, e@, round as int),
            is_bits(l@),
            is_bits(r@),
    {
        let f = cipher_f(&r, ks, round, e, Ghost(key));
        let mut nr = [0u8; 32];
        for j in 0..32
            invariant
                is_bits(l@),
                is_bits(f@),
                forall|m: int| 0 <= m < j ==> nr@[m] == #[trigger] (l@[m] ^ f@[P[m] - 1]),
                is_bits(nr@),
        {
            proof {
                lemma_xor_bits(l@[j as int], f@[P[j as int] - 1]);
            }
            nr[j] = l[j] ^ f[P[j] - 1];
        }
        assert(nr@ =~= Seq::new(32, |j: int| l@[j] ^ f@[P[j] - 1]));
        l = r;
        r = nr;
    }
    let mut pre = [0u8; 64];
    for i in 0..32
        invariant
            forall|m: int| 0 <= m < i ==> pre@[m] == #[trigger] r@[m],
            forall|m: int| 0 <= m < i ==> pre@[m + 32] == #[trigger] l@[m],
    {
        pre[i] = r[i];
        pre[i + 32] = l[i];
    }
    assert(pre@ =~= r@ + l@);
    let mut out = [0u8; 64];
    for i in 0..64
        invariant
            is_bits(pre@),
            forall|m: int| 0 <= m < i ==> out@[m] == #[trigger] pre@[FP[m] - 1],
            is_bits(out@),
    {
        out[i] = pre[FP[i] - 1];
    }
    assert(out@ =~= Seq::new(64, |i: int| pre@[FP[i] - 1]));
    out
}

/// The bits of a data block.
fn data_bits(data: &[u8; 8]) -> (block: [u8; 64])
    ensures
        block@ == data_block(data@),
        is_bits(block@),
{
    let mut block = [0u8; 64];
    for k in 0..64
        invariant
            forall|m: int| 0 <= m < k ==> block@[m] == #[trigger] data_block(data@)[m],
            is_bits(block@),
    {
        proof {
            lemma_shift_bit(data@[(k / 8) as int], (7 - k % 8) as u8);
        }
        block[k] = (data[k / 8] >> (7 - (k % 8) as u8)) & 1;
    }
    assert(block@ =~= data_block(data@));
    block
}

/// Bit `k` of a block, 0 past its end.
fn bit_or_zero(block: &[u8; 64], k: usize) -> (b: usize)
    requires
        is_bits(block@),
    ensures
        b == bit_at(block@, k as int),
        b <= 1,
{
    if k < 64 {
        block[k] as usize
    } else {
        0
    }
}

/// The eleven letters that encode a block, as characters.
fn encode_letters(block: &[u8; 64]) -> (res: Vec<char>)
    requires
        is_bits(block@),
    ensures
        res@ == letters(encode_block(block@)),
{
    let mut out: Vec<char> = Vec::new();
    for i in 0..11
        invariant
            is_bits(block@),
            out@.len() == i,
            forall|m: int| 0 <= m < i ==> out@[m] == #[trigger] letters(encode_block(block@))[m],
    {
        let val = bit_or_zero(block, 6 * i) * 32 + bit_or_zero(block, 6 * i + 1) * 16
            + bit_or_zero(block, 6 * i + 2) * 8 + bit_or_zero(block, 6 * i + 3) * 4
            + bit_or_zero(block, 6 * i + 4) * 2 + bit_or_zero(block, 6 * i + 5);
        assert(val == sextet(block@, i as int));
        out.push(ASCII64[val] as char);
    }
    assert(out@ =~= letters(encode_block(block@)));
    out
}

/// crypt(3) DES with a salt of up to four letters (further letters must be
/// worth zero): `iterations` encryptions of `plaintext` under the seven low bits
/// of each key byte, encoded in eleven letters.
pub fn des_crypt_with_salt(key: &[u8; 8], salt: &[u8], iterations: u32, plaintext: &[u8; 8]) -> (res:
    String)
    requires
        forall|p: int| 4 <= p < salt@.len() ==> spec_ascii_to_bin(#[trigger] salt@[p]) == 0,
    ensures
        res@ == spec_des_crypt_with_salt(key@, salt@, iterations as nat, plaintext@),
{
    let ks = key_schedule(key);
    let e = salted_expansion(salt);
    let mut block = data_bits(plaintext);
    let ghost start = block@;
    let mut it: u32 = 0;
    while it < iterations
        invariant
            it <= iterations,
            is_schedule_of(ks@, key@),
            is_expansion(e@),
            e@ == salted_e(salt@),
            start == data_block(plaintext@),
            block@ == des_iterate(start, key@, e@, it as nat),
            is_bits(block@),
        decreases iterations - it,
    {
        block = encrypt_block(&block, &ks, &e, Ghost(key@));
        it = it + 1;
    }
    let chars = encode_letters(&block);
    string_from_chars(chars.as_slice())
}

/// Traditional crypt(3): a two-letter salt, `iterations` encryptions of the zero
/// block; the salt as text followed by the eleven letters. A salt that is valid
/// UTF-8 is written as it decodes (an ASCII salt as its two letters).
pub fn des_crypt(key: &[u8; 8], salt: &[u8; 2], iterations: u32) -> (res: String)
    ensures
        res@ == utf8_lossy_decoding(salt@) + spec_des_crypt_with_salt(
            key@,
            salt@,
            iterations as nat,
            seq![0u8, 0u8, 0u8, 0u8, 0u8, 0u8, 0u8, 0u8],
        ),
        vstd::utf8::valid_utf8(salt@) ==> res@ == vstd::utf8::decode_utf8(salt@)
            + spec_des_crypt_with_salt(
            key@,
            salt@,
            iterations as nat,
            seq![0u8, 0u8, 0u8, 0u8, 0u8, 0u8, 0u8, 0u8],
        ),
        salt[0] < 128 && salt[1] < 128 ==> res@ == seq![salt[0] as char, salt[1] as char]
            + spec_des_crypt_with_salt(
            key@,
            salt@,
            iterations as nat,
            seq![0u8, 0u8, 0u8, 0u8, 0u8, 0u8, 0u8, 0u8],
        ),
{
    let zero = [0u8; 8];
    assert(zero@ =~= seq![0u8, 0u8, 0u8, 0u8, 0u8, 0u8, 0u8, 0u8]);
    let out = des_crypt_with_salt(key, salt.as_slice(), iterations, &zero);
    let mut text = utf8_lossy(salt.as_slice());
    proof {
        if salt[0] < 128 && salt[1] < 128 {
            let c = seq![salt[0] as char, salt[1] as char];
            assert(vstd::utf8::is_ascii_chars(c));
            vstd::utf8::is_ascii_chars_encode_utf8(c);
            assert(vstd::utf8::encode_utf8(c) =~= salt@);
            vstd::utf8::encode_utf8_valid_utf8(c);
            vstd::utf8::encode_utf8_decode_utf8(c);
        }
    }
    text.append(out.as_str());
    text
}

// ------------------------------------------------------------------ decoding

/// The 66 bits that eleven letters stand for (letters past the eleventh, or
/// missing ones, count as zero bits).
pub open spec fn decoded_bits(enc: Seq<u8>) -> Seq<u8> {
    Seq::new(
        66,
        |k: int|
            if k / 6 < enc.len() {
                (spec_ascii_to_bin(enc[k / 6]) >> ((5 - k % 6) as u8)) & 1u8
            } else {
                0u8
            },
    )
}

/// Byte `i` of a bit sequence, most significant bit first.
pub open spec fn pack_byte(bits: Seq<u8>, i: int) -> u8 {
    (bits[8 * i] * 128 + bits[8 * i + 1] * 64 + bits[8 * i + 2] * 32 + bits[8 * i + 3] * 16
        + bits[8 * i + 4] * 8 + bits[8 * i + 5] * 4 + bits[8 * i + 6] * 2 + bits[8 * i + 7]) as u8
}

/// The first eight bytes of a bit sequence.
pub open spec fn pack_bytes(bits: Seq<u8>) -> Seq<u8> {
    Seq::new(8, |i: int| pack_byte(bits, i))
}

/// What `decode_hash_bytes` makes of the bytes of an encoded block.
pub open spec fn spec_decode_hash_bytes(enc: Seq<u8>) -> Seq<u8> {
    pack_bytes(decoded_bits(enc))
}

/// Decodes eleven letters back into the eight bytes of the block they encode.
pub fn decode_hash_bytes(encoded: &str) -> (out: [u8; 8])
    ensures
        out@ == spec_decode_hash_bytes(vstd::utf8::encode_utf8(encoded@)),
{
    let bytes = encoded.as_bytes();
    let ghost enc = bytes@;
    let mut block = [0u8; 66];
    for k in 0..66
        invariant
            enc == bytes@,
            forall|m: int| 0 <= m < k ==> block@[m] == #[trigger] decoded_bits(enc)[m],
            forall|m: int| k <= m < 66 ==> #[trigger] block@[m] == 0,
            is_bits(block@),
    {
        if k / 6 < bytes.len() {
            let val = ascii_to_bin(bytes[k / 6]);
            proof {
                lemma_shift_bit(val, (5 - k % 6) as u8);
            }
            block[k] = (val >> (5 - (k % 6) as u8)) & 1;
        }
    }
    assert(block@ =~= decoded_bits(enc));
    let mut out = [0u8; 8];
    for i in 0..8
        invariant
            is_bits(block@),
            block@ == decoded_bits(enc),
            forall|m: int| 0 <= m < i ==> out@[m] == #[trigger] pack_bytes(block@)[m],
    {
        out[i] = block[8 * i] * 128 + block[8 * i + 1] * 64 + block[8 * i + 2] * 32 + block[8 * i
            + 3] * 16 + block[8 * i + 4] * 8 + block[8 * i + 5] * 4 + block[8 * i + 6] * 2
            + block[8 * i + 7];
    }
    assert(out@ =~= pack_bytes(block@));
    out
}

// ------------------------------------------------------------------ laws

/// Every 6-bit value is the value of its letter: `ascii_to_bin` inverts the alphabet.
pub proof fn lemma_ascii_to_bin_inverts_alphabet(v: int)
    requires
        0 <= v < 64,
    ensures
        spec_ascii_to_bin(ASCII64[v]) == v,
{
}

proof fn lemma_sextet_bits(a0: u8, a1: u8, a2: u8, a3: u8, a4: u8, a5: u8)
    requires
        a0 <= 1,
        a1 <= 1,
        a2 <= 1,
        a3 <= 1,
        a4 <= 1,
        a5 <= 1,
    ensures
        ({
            let v = (a0 * 32 + a1 * 16 + a2 * 8 + a3 * 4 + a4 * 2 + a5) as u8;
            &&& (v >> 5u8) & 1u8 == a0
            &&& (v >> 4u8) & 1u8 == a1
            &&& (v >> 3u8) & 1u8 == a2
            &&& (v >> 2u8) & 1u8 == a3
            &&& (v >> 1u8) & 1u8 == a4
            &&& (v >> 0u8) & 1u8 == a5
        }),
{
    assert({
        let v = (a0 * 32 + a1 * 16 + a2 * 8 + a3 * 4 + a4 * 2 + a5) as u8;
        &&& (v >> 5u8) & 1u8 == a0
        &&& (v >> 4u8) & 1u8 == a1
        &&& (v >> 3u8) & 1u8 == a2
        &&& (v >> 2u8) & 1u8 == a3
        &&& (v >> 1u8) & 1u8 == a4
        &&& (v >> 0u8) & 1u8 == a5
    }) by (bit_vector)
        requires
            a0 <= 1,
            a1 <= 1,
            a2 <= 1,
            a3 <= 1,
            a4 <= 1,
            a5 <= 1,
    ;
}

/// Decoding the letters of a block gives back the block's eight bytes.
pub proof fn lemma_decode_encode(block: Seq<u8>)
    requires
        block.len() == 64,
        is_bits(block),
    ensures
        spec_decode_hash_bytes(encode_block(block)) == pack_bytes(block),
{
    let enc = encode_block(block);
    let d = decoded_bits(enc);
    assert forall|k: int| 0 <= k < 64 implies #[trigger] d[k] == block[k] by {
        let i = k / 6;
        let v = sextet(block, i);
        assert(0 <= i < 11);
        assert(0 <= v < 64);
        lemma_ascii_to_bin_inverts_alphabet(v);
        assert(enc[i] == ASCII64[v]);
        let a0 = bit_at(block, 6 * i) as u8;
        let a1 = bit_at(block, 6 * i + 1) as u8;
        let a2 = bit_at(block, 6 * i + 2) as u8;
        let a3 = bit_at(block, 6 * i + 3) as u8;
        let a4 = bit_at(block, 6 * i + 4) as u8;
        let a5 = bit_at(block, 6 * i + 5) as u8;
        lemma_sextet_bits(a0, a1, a2, a3, a4, a5);
        assert(v as u8 == (a0 * 32 + a1 * 16 + a2 * 8 + a3 * 4 + a4 * 2 + a5) as u8);
        assert(k % 6 == k - 6 * i);
    }
    assert(pack_bytes(d) =~= pack_bytes(block)) by {
        assert forall|i: int| 0 <= i < 8 implies #[trigger] pack_bytes(d)[i] == pack_bytes(
            block,
        )[i] by {
            assert(d[8 * i] == block[8 * i]);
            assert(d[8 * i + 1] == block[8 * i + 1]);
            assert(d[8 * i + 2] == block[8 * i + 2]);
            assert(d[8 * i + 3] == block[8 * i + 3]);
            assert(d[8 * i + 4] == block[8 * i + 4]);
            assert(d[8 * i + 5] == block[8 * i + 5]);
            assert(d[8 * i + 6] == block[8 * i + 6]);
            assert(d[8 * i + 7] == block[8 * i + 7]);
        }
    }
}

proof fn lemma_byte_bits(x: u8)
    ensures
        (((x >> 7u8) & 1u8) * 128 + ((x >> 6u8) & 1u8) * 64 + ((x >> 5u8) & 1u8) * 32 + ((x
            >> 4u8) & 1u8) * 16 + ((x >> 3u8) & 1u8) * 8 + ((x >> 2u8) & 1u8) * 4 + ((x >> 1u8)
            & 1u8) * 2 + ((x >> 0u8) & 1u8)) as u8 == x,
{
    assert((((x >> 7u8) & 1u8) * 128 + ((x >> 6u8) & 1u8) * 64 + ((x >> 5u8) & 1u8) * 32 + ((x
        >> 4u8) & 1u8) * 16 + ((x >> 3u8) & 1u8) * 8 + ((x >> 2u8) & 1u8) * 4 + ((x >> 1u8)
        & 1u8) * 2 + ((x >> 0u8) & 1u8)) as u8 == x) by (bit_vector);
}

/// The bits of eight bytes are a 64-bit block.
pub proof fn lemma_data_block_shape(data: Seq<u8>)
    requires
        data.len() == 8,
    ensures
        data_block(data).len() == 64,
        is_bits(data_block(data)),
{
    assert forall|k: int| 0 <= k < 64 implies #[trigger] data_block(data)[k] <= 1 by {
        lemma_shift_bit(data[k / 8], (7 - k % 8) as u8);
    }
}

/// Packing the bits of eight bytes gives the bytes back.
pub proof fn lemma_pack_data_block(data: Seq<u8>)
    requires
        data.len() == 8,
    ensures
        pack_bytes(data_block(data)) == data,
{
    let b = data_block(data);
    assert forall|i: int| 0 <= i < 8 implies #[trigger] pack_bytes(b)[i] == data[i] by {
        let x = data[i];
        lemma_byte_bits(x);
        assert forall|j: int| 0 <= j < 8 implies #[trigger] b[8 * i + j] == (x >> ((7 - j) as u8))
            & 1u8 by {
            assert((8 * i + j) / 8 == i);
            assert((8 * i + j) % 8 == j);
        }
        assert(b[8 * i] == (x >> 7u8) & 1u8);
        assert(b[8 * i + 1] == (x >> 6u8) & 1u8);
        assert(b[8 * i + 2] == (x >> 5u8) & 1u8);
        assert(b[8 * i + 3] == (x >> 4u8) & 1u8);
        assert(b[8 * i + 4] == (x >> 3u8) & 1u8);
        assert(b[8 * i + 5] == (x >> 2u8) & 1u8);
        assert(b[8 * i + 6] == (x >> 1u8) & 1u8);
        assert(b[8 * i + 7] == (x >> 0u8) & 1u8);
    }
    assert(pack_bytes(b) =~= data);
}

/// The Feistel rounds keep two 32-bit halves.
pub proof fn lemma_feistel_shape(l: Seq<u8>, r: Seq<u8>, key: Seq<u8>, e: Seq<usize>, n: int)
    requires
        l.len() == 32,
        r.len() == 32,
        is_bits(l),
        is_bits(r),
        is_expansion(e),
    ensures
        feistel(l, r, key, e, n).0.len() == 32,
        feistel(l, r, key, e, n).1.len() == 32,
        is_bits(feistel(l, r, key, e, n).0),
        is_bits(feistel(l, r, key, e, n).1),
    decreases n,
{
    if n > 0 {
        lemma_feistel_shape(l, r, key, e, n - 1);
        let (l1, r1) = feistel(l, r, key, e, n - 1);
        let f = f_bits(r1, subkey(key, n - 1), e);
        assert forall|x: int| 0 <= x < 32 implies #[trigger] f[x] <= 1 by {
            let pres = pres_bits(r1, subkey(key, n - 1), e);
            lemma_shift_bit(S[x / 4][sbox_index(pres, x / 4)], (3 - x % 4) as u8);
        }
        let r2 = Seq::new(32, |j: int| l1[j] ^ f[P[j] - 1]);
        assert forall|j: int| 0 <= j < 32 implies #[trigger] r2[j] <= 1 by {
            lemma_xor_bits(l1[j], f[P[j] - 1]);
        }
    }
}

/// One encryption turns a 64-bit block into a 64-bit block.
pub proof fn lemma_encrypt_once_shape(block: Seq<u8>, key: Seq<u8>, e: Seq<usize>)
    requires
        block.len() == 64,
        is_bits(block),
        is_expansion(e),
    ensures
        encrypt_once(block, key, e).len() == 64,
        is_bits(encrypt_once(block, key, e)),
{
    let l0 = Seq::new(32, |i: int| block[IP[i] - 1]);
    let r0 = Seq::new(32, |i: int| block[IP[i + 32] - 1]);
    lemma_feistel_shape(l0, r0, key, e, 16);
}

/// Any number of encryptions turns a 64-bit block into a 64-bit block.
pub proof fn lemma_des_iterate_shape(block: Seq<u8>, key: Seq<u8>, e: Seq<usize>, n: nat)
    requires
        block.len() == 64,
        is_bits(block),
        is_expansion(e),
    ensures
        des_iterate(block, key, e, n).len() == 64,
        is_bits(des_iterate(block, key, e, n)),
    decreases n,
{
    if n > 0 {
        lemma_des_iterate_shape(block, key, e, (n - 1) as nat);
        lemma_encrypt_once_shape(des_iterate(block, key, e, (n - 1) as nat), key, e);
    }
}

/// The letters of an encoded block are ASCII: their UTF-8 bytes are the letters.
pub proof fn lemma_letters_utf8(block: Seq<u8>)
    requires
        is_bits(block),
    ensures
        vstd::utf8::encode_utf8(letters(encode_block(block))) == encode_block(block),
{
    let enc = encode_block(block);
    let l = letters(enc);
    assert forall|i: int| 0 <= i < l.len() implies '\0' <= #[trigger] l[i] <= '\u{7f}' by {
        assert(0 <= sextet(block, i) < 64);
    }
    vstd::utf8::is_ascii_chars_encode_utf8(l);
    assert forall|i: int| 0 <= i < l.len() implies #[trigger] vstd::utf8::encode_utf8(l)[i]
        == enc[i] by {
        assert(0 <= sextet(block, i) < 64);
        assert(l[i] as u8 == vstd::utf8::encode_utf8(l)[i]);
    }
    assert(vstd::utf8::encode_utf8(l) =~= enc);
}

/// Every salt gives an expansion table whose entries index a 32-bit half.
pub proof fn lemma_salted_e_is_expansion(salt: Seq<u8>)
    ensures
        is_expansion(salted_e(salt)),
{
}

/// A character of the crypt(3) alphabet `./0-9A-Za-z`.
pub open spec fn is_crypt_char(c: char) -> bool {
    ('.' <= c <= '9') || ('A' <= c <= 'Z') || ('a' <= c <= 'z')
}

/// crypt(3) output is eleven characters of its alphabet.
pub proof fn lemma_crypt_output_shape(key: Seq<u8>, salt: Seq<u8>, count: nat, plaintext: Seq<u8>)
    requires
        plaintext.len() == 8,
    ensures
        spec_des_crypt_with_salt(key, salt, count, plaintext).len() == 11,
        forall|i: int|
            0 <= i < 11 ==> is_crypt_char(
                #[trigger] spec_des_crypt_with_salt(key, salt, count, plaintext)[i],
            ),
{
    let e = salted_e(salt);
    lemma_data_block_shape(plaintext);
    lemma_des_iterate_shape(data_block(plaintext), key, e, count);
    let block = des_iterate(data_block(plaintext), key, e, count);
    assert forall|i: int| 0 <= i < 11 implies is_crypt_char(
        #[trigger] spec_des_crypt_with_salt(key, salt, count, plaintext)[i],
    ) by {
        let v = sextet(block, i);
        assert(0 <= v < 64);
        assert(46 <= ASCII64[v] <= 57 || 65 <= ASCII64[v] <= 90 || 97 <= ASCII64[v] <= 122);
    }
}

/// Keys with the same key block encrypt alike, however often.
proof fn lemma_same_key_block(k1: Seq<u8>, k2: Seq<u8>, block: Seq<u8>, e: Seq<usize>, n: nat)
    requires
        key_block(k1) == key_block(k2),
    ensures
        des_iterate(block, k1, e, n) == des_iterate(block, k2, e, n),
    decreases n,
{
    if n > 0 {
        lemma_same_key_block(k1, k2, block, e, (n - 1) as nat);
        let b = des_iterate(block, k1, e, (n - 1) as nat);
        let l0 = Seq::new(32, |i: int| b[IP[i] - 1]);
        let r0 = Seq::new(32, |i: int| b[IP[i + 32] - 1]);
        lemma_same_key_block_rounds(k1, k2, l0, r0, e, 16);
    }
}

proof fn lemma_same_key_block_rounds(
    k1: Seq<u8>,
    k2: Seq<u8>,
    l: Seq<u8>,
    r: Seq<u8>,
    e: Seq<usize>,
    n: int,
)
    requires
        key_block(k1) == key_block(k2),
    ensures
        feistel(l, r, k1, e, n) == feistel(l, r, k2, e, n),
    decreases n,
{
    if n > 0 {
        lemma_same_key_block_rounds(k1, k2, l, r, e, n - 1);
        assert(subkey(k1, n - 1) =~= subkey(k2, n - 1));
    }
}

/// Bit 7 of the key bytes takes no part: clearing it leaves crypt(3) unchanged.
pub proof fn lemma_key_high_bit_unused(key: Seq<u8>, salt: Seq<u8>, count: nat, plaintext: Seq<u8>)
    requires
        key.len() == 8,
    ensures
        spec_des_crypt_with_salt(key, salt, count, plaintext) == spec_des_crypt_with_salt(
            key.map_values(|b: u8| b & 0x7f),
            salt,
            count,
            plaintext,
        ),
{
    let low = key.map_values(|b: u8| b & 0x7f);
    assert forall|k: int| 0 <= k < 64 implies #[trigger] key_block(key)[k] == key_block(low)[k] by {
        if k % 8 != 7 {
            let b = key[k / 8];
            let sh = (6 - k % 8) as u8;
            assert(low[k / 8] == b & 0x7f);
            assert((b >> sh) & 1u8 == ((b & 0x7f) >> sh) & 1u8) by (bit_vector)
                requires
                    sh <= 6,
            ;
        }
    }
    assert(key_block(key) =~= key_block(low));
    lemma_same_key_block(key, low, data_block(plaintext), salted_e(salt), count);
}

/// The value of salt letter `p`, zero past the end of the salt.
pub open spec fn salt_value(salt: Seq<u8>, p: int) -> u8 {
    if p < salt.len() {
        spec_ascii_to_bin(salt[p])
    } else {
        0
    }
}

/// Only the values of the first four salt letters count: a letter worth zero
/// (such as `.`) may be replaced by `.`, or left off at the end, and letters
/// past the fourth change nothing.
pub proof fn lemma_salt_values_decide(
    s1: Seq<u8>,
    s2: Seq<u8>,
    key: Seq<u8>,
    count: nat,
    plaintext: Seq<u8>,
)
    requires
        forall|p: int| 0 <= p < 4 ==> salt_value(s1, p) == salt_value(s2, p),
    ensures
        spec_des_crypt_with_salt(key, s1, count, plaintext) == spec_des_crypt_with_salt(
            key,
            s2,
            count,
            plaintext,
        ),
{
    assert forall|p: int| 0 <= p < 24 implies salt_bit(s1, p) == salt_bit(s2, p) by {
        let q = p / 6;
        let sh = (p % 6) as u8;
        assert(salt_value(s1, q) == salt_value(s2, q));
        let zero: u8 = 0;
        assert((zero >> sh) & 1u8 == 0u8) by (bit_vector)
            requires
                zero == 0,
        ;
    }
    assert(salted_e(s1) =~= salted_e(s2));
}

/// With no encryption at all, decoding the letters gives back the plaintext.
pub proof fn lemma_zero_iterations_round_trip(key: Seq<u8>, salt: Seq<u8>, plaintext: Seq<u8>)
    requires
        plaintext.len() == 8,
    ensures
        spec_decode_hash_bytes(
            vstd::utf8::encode_utf8(spec_des_crypt_with_salt(key, salt, 0, plaintext)),
        ) == plaintext,
{
    let block = data_block(plaintext);
    assert(des_iterate(block, key, salted_e(salt), 0) == block);
    lemma_data_block_shape(plaintext);
    lemma_letters_utf8(block);
    lemma_decode_encode(block);
    lemma_pack_data_block(plaintext);
}

} // verus!
