//! `MD5`: the digest of a text's bytes, written as 32 lower-case
//! hexadecimal digits.
use crate::chars::string_of;
use md5::{Digest, Md5};
use vstd::prelude::*;

verus! {

/// The 16-byte MD5 digest (RFC 1321) of a byte string.
pub uninterp spec fn md5_digest_of(bytes: Seq<u8>) -> Seq<u8>;

/// The md-5 crate's `Md5::digest`: the 16-byte MD5 digest of the input.
#[verifier::external_body]
fn md5_digest(bytes: &[u8]) -> (r: Vec<u8>)
    ensures
        r@ == md5_digest_of(bytes@),
        r@.len() == 16,
{
    Md5::digest(bytes).to_vec()
}

/// The lower-case hexadecimal digit of a nibble.
pub open spec fn lower_hex_digit(n: int) -> char {
    if n < 10 { (n + 48) as char } else { (n + 87) as char }
}

/// Two lower-case hexadecimal digits per byte.
pub open spec fn lower_hex_text(bytes: Seq<u8>) -> Seq<char>
    decreases bytes.len(),
{
    if bytes.len() == 0 {
        Seq::empty()
    } else {
        lower_hex_text(bytes.drop_last()) + seq![
            lower_hex_digit((bytes.last() / 16) as int),
            lower_hex_digit((bytes.last() % 16) as int),
        ]
    }
}

fn lower_hex_char(n: u8) -> (c: char)
    requires
        n < 16,
    ensures
        c == lower_hex_digit(n as int),
{
    if n < 10 { (n + 48) as char } else { (n + 87) as char }
}

/// `MD5(bytes)`: the digest as 32 lower-case hexadecimal digits.
pub fn md5_hex(bytes: &[u8]) -> (r: String)
    ensures
        r@ == lower_hex_text(md5_digest_of(bytes@)),
        r@.len() == 32,
{
    let digest = md5_digest(bytes);
    let mut out: Vec<char> = Vec::new();
    let mut i: usize = 0;
    while i < digest.len()
        invariant
            i <= digest@.len(),
            digest@.len() == 16,
            out@ == lower_hex_text(digest@.subrange(0, i as int)),
            out@.len() == 2 * i,
        decreases digest@.len() - i,
    {
        let b = digest[i];
        out.push(lower_hex_char(b / 16));
        out.push(lower_hex_char(b % 16));
        proof {
            let t = digest@.subrange(0, i + 1);
            assert(t.drop_last() =~= digest@.subrange(0, i as int));
        }
        i = i + 1;
        assert(out@ =~= lower_hex_text(digest@.subrange(0, i as int)));
    }
    assert(digest@.subrange(0, digest@.len() as int) =~= digest@);
    string_of(out.as_slice())
}

} // verus!
