//! Hashes and base64, from the crates that compute them.

use base64::engine::general_purpose::STANDARD as BASE64;
use base64::Engine;
use sha1::Digest;
use vstd::prelude::*;

verus! {

/// The SHA-1 hash of some bytes, as `sha1` computes it.
pub uninterp spec fn sha1_hash(data: Seq<u8>) -> Seq<u8>;

/// The SHA-256 hash of some bytes, as `sha2` computes it.
pub uninterp spec fn sha256_hash(data: Seq<u8>) -> Seq<u8>;

/// The character that stands for six bits in the standard base64 alphabet.
pub open spec fn base64_char(bits: int) -> char {
    "ABCDEFGHIJKLMNOPQRSTUVWXYZabcdefghijklmnopqrstuvwxyz0123456789+/"@[bits]
}

/// The standard base64 text of some bytes: four characters for every three bytes
/// begun, padded with `=` where fewer than three are left.
pub open spec fn base64_text(data: Seq<u8>) -> Seq<char>
    decreases data.len(),
{
    if data.len() == 0 {
        Seq::empty()
    } else {
        let a = data[0] as int;
        let b = if data.len() > 1 { data[1] as int } else { 0 };
        let c = if data.len() > 2 { data[2] as int } else { 0 };
        let third = if data.len() > 1 { base64_char(b % 16 * 4 + c / 64) } else { '=' };
        let fourth = if data.len() > 2 { base64_char(c % 64) } else { '=' };
        seq![base64_char(a / 4), base64_char(a % 4 * 16 + b / 16), third, fourth]
            + if data.len() > 3 {
            base64_text(data.skip(3))
        } else {
            Seq::empty()
        }
    }
}

/// Trusted: `Sha1::digest` returns the hash of its argument, 20 bytes that
/// depend on nothing else.
#[verifier::external_body]
pub(crate) fn sha1(data: &[u8]) -> (r: [u8; 20])
    ensures
        r@ == sha1_hash(data@),
{
    sha1::Sha1::digest(data).into()
}

/// Trusted: `Sha256::digest` returns the hash of its argument, 32 bytes that
/// depend on nothing else.
#[verifier::external_body]
pub(crate) fn sha256(data: &[u8]) -> (r: [u8; 32])
    ensures
        r@ == sha256_hash(data@),
{
    sha2::Sha256::digest(data).into()
}

/// Trusted: `Engine::encode` of the standard engine returns the base64 text of
/// its argument. It panics where the text would be too long for the address
/// space.
#[verifier::external_body]
pub(crate) fn base64(data: &[u8]) -> (r: String)
    requires
        data@.len() <= usize::MAX / 4,
    ensures
        r@ == base64_text(data@),
{
    BASE64.encode(data)
}

/// Three bytes are four characters of six bits each, the highest first; one or two bytes
/// at the end are two or three characters and padding.
pub proof fn base64_is_six_bits_a_character(a: u8, b: u8, c: u8, rest: Seq<u8>)
    ensures
        ({
            let letters = "ABCDEFGHIJKLMNOPQRSTUVWXYZabcdefghijklmnopqrstuvwxyz0123456789+/"@;
            let three = a * 65536 + b * 256 + c;
            let two = a * 65536 + b * 256;
            let one = a * 65536;
            &&& base64_text(seq![a, b, c] + rest) == seq![
                letters[three / 262144],
                letters[three / 4096 % 64],
                letters[three / 64 % 64],
                letters[three % 64],
            ] + base64_text(rest)
            &&& base64_text(seq![a, b]) == seq![
                letters[two / 262144],
                letters[two / 4096 % 64],
                letters[two / 64 % 64],
                '=',
            ]
            &&& base64_text(seq![a]) == seq![
                letters[one / 262144],
                letters[one / 4096 % 64],
                '=',
                '=',
            ]
            &&& base64_text(Seq::empty()) == Seq::<char>::empty()
        }),
{
    let none = Seq::<char>::empty();
    let data = seq![a, b, c] + rest;
    assert(data.skip(3) =~= rest);
    assert(data[0] == a && data[1] == b && data[2] == c);
    lemma_six_bits(a, b, c);
    lemma_six_bits(a, b, 0);
    lemma_six_bits(a, 0, 0);
    if rest.len() == 0 {
        assert(base64_text(rest) =~= none);
    }
    assert(base64_text(data) =~= seq![
        base64_char(a as int / 4),
        base64_char(a as int % 4 * 16 + b as int / 16),
        base64_char(b as int % 16 * 4 + c as int / 64),
        base64_char(c as int % 64),
    ] + base64_text(rest));
    assert(base64_text(seq![a, b]) =~= seq![
        base64_char(a as int / 4),
        base64_char(a as int % 4 * 16 + b as int / 16),
        base64_char(b as int % 16 * 4),
        '=',
    ]);
    assert(base64_text(seq![a]) =~= seq![
        base64_char(a as int / 4),
        base64_char(a as int % 4 * 16),
        '=',
        '=',
    ]);
}

proof fn lemma_six_bits(a: u8, b: u8, c: u8)
    ensures
        ({
            let all = a * 65536 + b * 256 + c;
            &&& all / 262144 == a as int / 4
            &&& all / 4096 % 64 == a as int % 4 * 16 + b as int / 16
            &&& all / 64 % 64 == b as int % 16 * 4 + c as int / 64
            &&& all % 64 == c as int % 64
        }),
{
    let all: u32 = (a * 65536 + b * 256 + c) as u32;
    assert(all / 262144 == (a as u32) / 4 && all / 4096 % 64 == (a as u32) % 4 * 16 + (b as u32) / 16
        && all / 64 % 64 == (b as u32) % 16 * 4 + (c as u32) / 64 && all % 64 == (c as u32) % 64)
        by (bit_vector)
        requires
            all == (a as u32) * 65536 + (b as u32) * 256 + (c as u32),
    ;
}

} // verus!
