//! The content checksum sent along with a page edit: the MD5 digest of
//! the text, written as lowercase hex.

use vstd::prelude::*;
use vstd::string::StringSliceAdditionalSpecFns;
use md5::Digest;

verus! {

/// The MD5 digest of a byte string.  Its value is fixed by the bytes
/// alone; nothing further is assumed of it.
pub uninterp spec fn md5_of(bytes: Seq<u8>) -> Seq<u8>;

/// The character for one hex digit.
pub open spec fn hex_digit(d: int) -> char {
    if d < 10 {
        crate::strutil::digit_char(d)
    } else if d == 10 {
        'a'
    } else if d == 11 {
        'b'
    } else if d == 12 {
        'c'
    } else if d == 13 {
        'd'
    } else if d == 14 {
        'e'
    } else {
        'f'
    }
}

/// Lowercase hex: two digits per byte, high nibble first.
pub open spec fn hex_of(bytes: Seq<u8>) -> Seq<char>
    decreases bytes.len(),
{
    if bytes.len() == 0 {
        Seq::empty()
    } else {
        hex_of(bytes.drop_last()).push(hex_digit(bytes.last() as int / 16)).push(
            hex_digit(bytes.last() as int % 16),
        )
    }
}

/// Relies on md5::Md5 (the md-5 crate): hashing a byte string yields its
/// 16-byte MD5 digest, a function of the bytes alone.
#[verifier::external_body]
fn md5_digest(text: &str) -> (r: Vec<u8>)
    ensures
        r@ == md5_of(text.spec_bytes()),
        r@.len() == 16,
{
    let mut hasher = md5::Md5::new();
    hasher.update(text.as_bytes());
    hasher.finalize().to_vec()
}

/// Relies on hex::encode: each byte becomes two lowercase hex digits,
/// high nibble first, in order.
#[verifier::external_body]
fn hex_encode(bytes: &Vec<u8>) -> (r: String)
    ensures
        r@ == hex_of(bytes@),
{
    hex::encode(bytes.as_slice())
}

/// The checksum string for a page edit: the text's MD5 digest in
/// lowercase hex.
pub fn get_md5(text: &str) -> (r: String)
    ensures
        r@ == hex_of(md5_of(text.spec_bytes())),
{
    let digest = md5_digest(text);
    hex_encode(&digest)
}

} // verus!
