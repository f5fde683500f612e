//! Checksums and their texts.

use vstd::prelude::*;
use vstd::utf8::encode_utf8;
use crate::text::{lowercase, to_lower};

verus! {

/// What `crc32fast` computes of some bytes.
pub uninterp spec fn crc32(bytes: Seq<u8>) -> u32;

/// What `sha2::Sha256` computes of some bytes.
pub uninterp spec fn sha256(bytes: Seq<u8>) -> Seq<u8>;

/// `crc32fast::Hasher` over all bytes at once: the result is a function of the
/// bytes.
#[verifier::external_body]
fn crc_of(bytes: &[u8]) -> (c: u32)
    ensures
        c == crc32(bytes@),
{
    let mut h = crc32fast::Hasher::new();
    h.update(bytes);
    h.finalize()
}

/// `sha2::Sha256::digest`: 32 bytes, a function of the bytes given.
#[verifier::external_body]
fn sha_of(bytes: &[u8]) -> (d: Vec<u8>)
    ensures
        d@ == sha256(bytes@),
        d@.len() == 32,
{
    <sha2::Sha256 as sha2::Digest>::digest(bytes).to_vec()
}

/// `hex::encode`: two small hexadecimal digits for each byte, in order.
#[verifier::external_body]
fn hex_of(bytes: &[u8]) -> (s: String)
    ensures
        s@ == hex_text(bytes@),
{
    hex::encode(bytes)
}

/// The small hexadecimal digit that writes `d`.
pub open spec fn hex_char(d: nat) -> char {
    if d < 10 {
        (48 + d) as char
    } else {
        (87 + d) as char
    }
}

/// The last `width` hexadecimal digits of a number.
pub open spec fn hex_digits(n: nat, width: nat) -> Seq<char>
    decreases width,
{
    if width == 0 {
        Seq::empty()
    } else {
        hex_digits(n / 16, (width - 1) as nat).push(hex_char(n % 16))
    }
}

/// Two hexadecimal digits for each byte.
pub open spec fn hex_text(bytes: Seq<u8>) -> Seq<char>
    decreases bytes.len(),
{
    if bytes.len() == 0 {
        Seq::empty()
    } else {
        hex_text(bytes.drop_last()) + hex_digits(bytes.last() as nat, 2)
    }
}

fn hex_digit(d: u32) -> (c: char)
    requires
        d < 16,
    ensures
        c == hex_char(d as nat),
{
    if d < 10 {
        (48u8 + d as u8) as char
    } else {
        (87u8 + d as u8) as char
    }
}

/// The number in eight hexadecimal digits.
pub fn hex8(n: u32) -> (out: String)
    ensures
        out@ == hex_digits(n as nat, 8),
{
    let d0: u32 = n % 16;
    let n1: u32 = n / 16;
    let d1: u32 = n1 % 16;
    let n2: u32 = n1 / 16;
    let d2: u32 = n2 % 16;
    let n3: u32 = n2 / 16;
    let d3: u32 = n3 % 16;
    let n4: u32 = n3 / 16;
    let d4: u32 = n4 % 16;
    let n5: u32 = n4 / 16;
    let d5: u32 = n5 % 16;
    let n6: u32 = n5 / 16;
    let d6: u32 = n6 % 16;
    let n7: u32 = n6 / 16;
    let d7: u32 = n7 % 16;
    let mut out: String = String::new();
    out.push(hex_digit(d7));
    out.push(hex_digit(d6));
    out.push(hex_digit(d5));
    out.push(hex_digit(d4));
    out.push(hex_digit(d3));
    out.push(hex_digit(d2));
    out.push(hex_digit(d1));
    out.push(hex_digit(d0));
    proof {
        reveal_with_fuel(hex_digits, 9);
        assert(out@ =~= hex_digits(n as nat, 8));
    }
    out
}

/// The key of a game directory, given as its canonical path: the checksum of the
/// path in small letters, so that the case of a path does not matter.
pub fn dir_hash_key(canonical: &str) -> (key: String)
    ensures
        key@ == hex_digits(crc32(encode_utf8(lowercase(canonical@))) as nat, 8),
{
    let low = to_lower(canonical);
    hex8(crc_of(low.as_str().as_bytes()))
}

/// The digest of a file with these bytes.
pub fn sha256_text(bytes: &[u8]) -> (out: String)
    ensures
        out@ == hex_text(sha256(bytes@)),
{
    let d = sha_of(bytes);
    hex_of(d.as_slice())
}

/// Directories whose canonical paths differ only in case share a key.
pub proof fn law_key_ignores_case(a: Seq<char>, b: Seq<char>)
    requires
        lowercase(a) == lowercase(b),
    ensures
        hex_digits(crc32(encode_utf8(lowercase(a))) as nat, 8) == hex_digits(
            crc32(encode_utf8(lowercase(b))) as nat,
            8,
        ),
{
}

/// A key has eight characters.
pub proof fn law_key_length(n: nat, width: nat)
    ensures
        hex_digits(n, width).len() == width,
    decreases width,
{
    if width > 0 {
        law_key_length(n / 16, (width - 1) as nat);
    }
}

/// What can be written with so many hexadecimal digits.
pub open spec fn hex_limit(width: nat) -> nat
    decreases width,
{
    if width == 0 {
        1
    } else {
        16 * hex_limit((width - 1) as nat)
    }
}

/// Different numbers are written differently, as far as the digits reach.
pub proof fn law_keys_tell_checksums_apart(a: nat, b: nat, width: nat)
    requires
        a < hex_limit(width),
        b < hex_limit(width),
        hex_digits(a, width) == hex_digits(b, width),
    ensures
        a == b,
    decreases width,
{
    if width > 0 {
        let w = (width - 1) as nat;
        let x = hex_digits(a, width);
        let y = hex_digits(b, width);
        assert(x.last() == hex_char(a % 16));
        assert(y.last() == hex_char(b % 16));
        assert(x.drop_last() =~= hex_digits(a / 16, w));
        assert(y.drop_last() =~= hex_digits(b / 16, w));
        law_keys_tell_checksums_apart(a / 16, b / 16, w);
    }
}

} // verus!
