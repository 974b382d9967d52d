//! The info digest: the cryptographic hash of the canonical encoding of a
//! sub-document, and its lowercase hexadecimal rendering.

use vstd::prelude::*;

use crate::encode::encode;
use crate::encode::spec_canon;
use crate::encode::spec_encode;
use crate::value::SpecValue;
use crate::value::Value;

verus! {

/// What SHA-1 returns for a byte sequence. The digest is a function of the
/// input bytes alone; its definition is the hash function itself.
pub uninterp spec fn sha1_of(bytes: Seq<u8>) -> Seq<u8>;

/// Relies on sha1::Sha1 through its Digest impl: the SHA-1 digest is
/// twenty bytes, and depends on the input bytes alone.
#[verifier::external_body]
fn sha1_digest(bytes: &Vec<u8>) -> (r: Vec<u8>)
    ensures
        r@ == sha1_of(bytes@),
        r@.len() == 20,
{
    let out = <sha1::Sha1 as sha1::Digest>::digest(bytes.as_slice());
    out.as_slice().to_vec()
}

/// The digest of the canonical encoding of `info`: the encoder is run
/// afresh, so the bytes hashed are canonical whatever order the document
/// stored its keys in.
pub fn info_digest(info: &Value) -> (r: Vec<u8>)
    ensures
        r@ == sha1_of(spec_encode(spec_canon(info.deep()))),
        r@.len() == 20,
{
    let e = encode(info);
    sha1_digest(&e)
}

/// One lowercase hexadecimal digit for a value below sixteen.
pub open spec fn hex_digit(n: int) -> u8 {
    if n < 10 {
        (48 + n) as u8
    } else {
        (87 + n) as u8
    }
}

/// The lowercase hexadecimal rendering of the bytes `b[k..]`, two digits a
/// byte.
pub open spec fn hex_from(b: Seq<u8>, k: int) -> Seq<u8>
    decreases b.len() - k,
{
    if k < 0 || k >= b.len() {
        Seq::empty()
    } else {
        seq![hex_digit(b[k] as int / 16), hex_digit(b[k] as int % 16)] + hex_from(b, k + 1)
    }
}

/// The lowercase hexadecimal rendering of a byte sequence.
pub open spec fn hex_of(b: Seq<u8>) -> Seq<u8> {
    hex_from(b, 0)
}

/// Two digits for each byte.
pub proof fn lemma_hex_len(b: Seq<u8>, k: int)
    requires
        0 <= k <= b.len(),
    ensures
        hex_from(b, k).len() == 2 * (b.len() - k),
    decreases b.len() - k,
{
    if k < b.len() {
        lemma_hex_len(b, k + 1);
    }
}

/// Render bytes as lowercase hexadecimal text, two digits a byte.
pub fn to_hex(b: &Vec<u8>) -> (r: Vec<u8>)
    ensures
        r@ == hex_of(b@),
        r@.len() == 2 * b@.len(),
{
    let mut out: Vec<u8> = Vec::new();
    proof {
        assert(out@ + hex_from(b@, 0) =~= hex_of(b@));
    }
    let mut k: usize = 0;
    while k < b.len()
        invariant
            0 <= k <= b@.len(),
            out@ + hex_from(b@, k as int) == hex_of(b@),
        decreases b@.len() - k,
    {
        let byte = b[k];
        let hi = byte / 16;
        let lo = byte % 16;
        let ghost before = out@;
        out.push(
            if hi < 10 {
                48 + hi
            } else {
                87 + hi
            },
        );
        out.push(
            if lo < 10 {
                48 + lo
            } else {
                87 + lo
            },
        );
        proof {
            assert(out@ + hex_from(b@, k + 1) =~= before + hex_from(b@, k as int));
        }
        k += 1;
    }
    proof {
        assert(hex_from(b@, b@.len() as int) =~= Seq::<u8>::empty());
        assert(out@ =~= hex_of(b@));
        lemma_hex_len(b@, 0);
    }
    out
}

/// The forty lowercase hexadecimal characters of the info digest.
pub fn info_digest_hex(info: &Value) -> (r: Vec<u8>)
    ensures
        r@ == hex_of(sha1_of(spec_encode(spec_canon(info.deep())))),
        r@.len() == 40,
{
    let d = info_digest(info);
    to_hex(&d)
}

/// The digest is a function of the value model alone: two calls on equal
/// values yield the same twenty bytes.
pub proof fn lemma_info_digest_deterministic(a: SpecValue, b: SpecValue)
    requires
        a == b,
    ensures
        sha1_of(spec_encode(spec_canon(a))) == sha1_of(spec_encode(spec_canon(b))),
{
}

} // verus!
