//! The cryptographic digest behind object identifiers.
//!
//! An object identifier (OID) is the lowercase hexadecimal rendering of
//! the 20-byte SHA-1 digest of the object's full encoded bytes. The
//! digest itself comes from the `sha1` crate; the hex rendering is done
//! (and verified) here.

use sha1::Digest;
use vstd::prelude::*;

verus! {

/// The 20-byte SHA-1 digest of a byte sequence. The digest is a pure
/// function of the input bytes, so it gets a name and nothing more.
pub uninterp spec fn sha1_of(data: Seq<u8>) -> Seq<u8>;

/// Relies on `sha1::Sha1::digest` (the `Digest` trait impl): the SHA-1
/// digest is 20 bytes and depends on the input bytes alone.
#[verifier::external_body]
fn sha1_digest(data: &Vec<u8>) -> (r: Vec<u8>)
    ensures
        r@ == sha1_of(data@),
        r@.len() == 20,
{
    sha1::Sha1::digest(data.as_slice()).to_vec()
}

/// The lowercase hex digit for a value below 16, as an ASCII byte.
pub open spec fn hex_digit(v: u8) -> u8
    recommends
        v < 16,
{
    if v < 10 {
        (v + 0x30) as u8
    } else {
        (v + 0x57) as u8
    }
}

/// The lowercase hex rendering of a byte sequence: two digits per byte,
/// high nibble first.
pub open spec fn hex_of(data: Seq<u8>) -> Seq<u8>
    decreases data.len(),
{
    if data.len() == 0 {
        Seq::<u8>::empty()
    } else {
        seq![hex_digit(data[0] / 16), hex_digit(data[0] % 16)] + hex_of(data.drop_first())
    }
}

/// Whether a byte is a lowercase ASCII hex digit.
pub open spec fn is_hex_byte(b: u8) -> bool {
    (0x30 <= b && b <= 0x39) || (0x61 <= b && b <= 0x66)
}

/// A well-formed object identifier: 40 lowercase hex digits.
pub open spec fn is_oid(s: Seq<u8>) -> bool {
    s.len() == 40 && forall|i: int| 0 <= i < s.len() ==> is_hex_byte(s[i])
}

/// The object identifier of an encoded object: the hex rendering of its
/// SHA-1 digest.
pub open spec fn oid_of(data: Seq<u8>) -> Seq<u8> {
    hex_of(sha1_of(data))
}

proof fn lemma_hex_of_len(data: Seq<u8>)
    ensures
        hex_of(data).len() == 2 * data.len(),
        forall|i: int| 0 <= i < hex_of(data).len() ==> is_hex_byte(#[trigger] hex_of(data)[i]),
    decreases data.len(),
{
    if data.len() > 0 {
        lemma_hex_of_len(data.drop_first());
    }
}

/// Hex-encodes a byte vector, two lowercase digits per byte.
pub fn to_hex(data: &Vec<u8>) -> (r: Vec<u8>)
    ensures
        r@ == hex_of(data@),
{
    let mut r: Vec<u8> = Vec::new();
    let mut i: usize = 0;
    while i < data.len()
        invariant
            0 <= i <= data@.len(),
            r@ == hex_of(data@.take(i as int)),
        decreases data@.len() - i,
    {
        let b = data[i];
        let hi: u8 = b / 16;
        let lo: u8 = b % 16;
        r.push(if hi < 10 {
            hi + 0x30
        } else {
            hi + 0x57
        });
        r.push(if lo < 10 {
            lo + 0x30
        } else {
            lo + 0x57
        });
        proof {
            lemma_hex_of_take_step(data@, i as int);
        }
        i = i + 1;
    }
    proof {
        assert(data@.take(data@.len() as int) =~= data@);
    }
    r
}

proof fn lemma_hex_of_take_step(data: Seq<u8>, i: int)
    requires
        0 <= i < data.len(),
    ensures
        hex_of(data.take(i + 1)) == hex_of(data.take(i)) + seq![
            hex_digit(data[i] / 16),
            hex_digit(data[i] % 16),
        ],
    decreases i,
{
    let pre = data.take(i + 1);
    if i == 0 {
        assert(pre.drop_first() =~= Seq::<u8>::empty());
        assert(data.take(0) =~= Seq::<u8>::empty());
        assert(hex_of(pre) =~= hex_of(data.take(0)) + seq![
            hex_digit(data[0] / 16),
            hex_digit(data[0] % 16),
        ]);
    } else {
        lemma_hex_of_take_step(data.drop_first(), i - 1);
        assert(pre.drop_first() =~= data.drop_first().take(i));
        assert(data.take(i).drop_first() =~= data.drop_first().take(i - 1));
        assert(pre[0] == data[0]);
        assert(data.take(i)[0] == data[0]);
        assert(data.drop_first()[i - 1] == data[i]);
        assert(hex_of(pre) =~= hex_of(data.take(i)) + seq![
            hex_digit(data[i] / 16),
            hex_digit(data[i] % 16),
        ]);
    }
}

/// An identifier computed from a 20-byte digest is well-formed: 40
/// lowercase hex digits.
pub proof fn lemma_is_oid_of(data: Seq<u8>)
    requires
        sha1_of(data).len() == 20,
    ensures
        is_oid(oid_of(data)),
{
    lemma_hex_of_len(sha1_of(data));
}

/// Computes the object identifier of a byte vector: the lowercase hex
/// rendering of its SHA-1 digest, always 40 hex digits.
pub fn oid_for(data: &Vec<u8>) -> (r: Vec<u8>)
    ensures
        r@ == oid_of(data@),
        is_oid(r@),
{
    let d = sha1_digest(data);
    let r = to_hex(&d);
    proof {
        lemma_hex_of_len(d@);
    }
    r
}

} // verus!
