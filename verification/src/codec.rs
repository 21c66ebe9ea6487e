//! The object model and its byte encoding.
//!
//! Every stored object is encoded as `type-tag NUL payload`. The type
//! tag is one of `blob`, `tree`, `commit` and never contains a NUL
//! byte; the payload may contain arbitrary bytes, so decoding splits on
//! the first NUL only. Decoding inverts encoding exactly.

use vstd::prelude::*;

verus! {

/// The kind of a stored object.
#[derive(Clone, Copy, Debug, PartialEq, Eq, Structural)]
pub enum ObjectType {
    Blob,
    Tree,
    Commit,
}

/// A decoded object: its kind and its raw payload bytes.
#[derive(Debug)]
pub struct Object {
    pub t: ObjectType,
    pub contents: Vec<u8>,
}

/// The errors the store and graph operations surface.
#[derive(Clone, Copy, Debug, PartialEq, Eq, Structural)]
pub enum GitError {
    /// No object exists under the given identifier.
    NotFound,
    /// The object decoded, but not to the expected kind.
    TypeMismatch,
    /// The stored bytes do not parse for their declared type.
    CorruptObject,
    /// A symbolic name has no mapping.
    UnknownReference,
}

/// The ASCII type tag of an object kind.
pub open spec fn tag_of(t: ObjectType) -> Seq<u8> {
    match t {
        ObjectType::Blob => seq![0x62u8, 0x6cu8, 0x6fu8, 0x62u8],
        ObjectType::Tree => seq![0x74u8, 0x72u8, 0x65u8, 0x65u8],
        ObjectType::Commit => seq![0x63u8, 0x6fu8, 0x6du8, 0x6du8, 0x69u8, 0x74u8],
    }
}

/// No type tag contains a NUL byte: the framing separator is unambiguous.
pub proof fn lemma_tag_has_no_nul(t: ObjectType)
    ensures
        forall|i: int| 0 <= i < tag_of(t).len() ==> tag_of(t)[i] != 0,
{
}

/// The encoded form of an object: its type tag, a NUL byte, then the
/// payload unchanged.
pub open spec fn encode_spec(t: ObjectType, payload: Seq<u8>) -> Seq<u8> {
    tag_of(t) + seq![0u8] + payload
}

/// The position of the first NUL byte, if any.
pub open spec fn first_nul(s: Seq<u8>) -> Option<int>
    decreases s.len(),
{
    if s.len() == 0 {
        None
    } else if s[0] == 0 {
        Some(0int)
    } else {
        match first_nul(s.drop_first()) {
            None => None,
            Some(i) => Some(i + 1),
        }
    }
}

/// The object kind whose tag a byte sequence spells, if any.
pub open spec fn parse_tag(s: Seq<u8>) -> Option<ObjectType> {
    if s == tag_of(ObjectType::Blob) {
        Some(ObjectType::Blob)
    } else if s == tag_of(ObjectType::Tree) {
        Some(ObjectType::Tree)
    } else if s == tag_of(ObjectType::Commit) {
        Some(ObjectType::Commit)
    } else {
        None
    }
}

/// Decoding: split on the first NUL into tag and payload, then read the
/// tag. `None` stands for a corrupt object.
pub open spec fn decode_spec(s: Seq<u8>) -> Option<(ObjectType, Seq<u8>)> {
    match first_nul(s) {
        None => None,
        Some(i) => match parse_tag(s.take(i)) {
            None => None,
            Some(t) => Some((t, s.skip(i + 1))),
        },
    }
}

proof fn lemma_first_nul_at(s: Seq<u8>, k: int)
    requires
        0 <= k < s.len(),
        s[k] == 0,
        forall|j: int| 0 <= j < k ==> s[j] != 0,
    ensures
        first_nul(s) == Some(k),
    decreases k,
{
    if k > 0 {
        lemma_first_nul_at(s.drop_first(), k - 1);
    }
}

/// The three tags are pairwise distinct, so a tag reads back as the
/// kind that wrote it.
pub proof fn lemma_parse_tag_of(t: ObjectType)
    ensures
        parse_tag(tag_of(t)) == Some(t),
{
    assert(tag_of(ObjectType::Blob) != tag_of(ObjectType::Tree)) by {
        assert(tag_of(ObjectType::Blob)[0] != tag_of(ObjectType::Tree)[0]);
    }
    assert(tag_of(ObjectType::Blob) != tag_of(ObjectType::Commit)) by {
        assert(tag_of(ObjectType::Blob).len() != tag_of(ObjectType::Commit).len());
    }
    assert(tag_of(ObjectType::Tree) != tag_of(ObjectType::Commit)) by {
        assert(tag_of(ObjectType::Tree).len() != tag_of(ObjectType::Commit).len());
    }
}

/// Decoding inverts encoding: the tag holds no NUL, so the first NUL of
/// the encoding sits right after the tag, and the payload comes back
/// byte for byte.
pub proof fn lemma_decode_encode(t: ObjectType, payload: Seq<u8>)
    ensures
        decode_spec(encode_spec(t, payload)) == Some((t, payload)),
{
    let e = encode_spec(t, payload);
    let n = tag_of(t).len() as int;
    lemma_tag_has_no_nul(t);
    assert(e[n] == 0);
    lemma_first_nul_at(e, n);
    assert(e.take(n) =~= tag_of(t));
    assert(e.skip(n + 1) =~= payload);
    lemma_parse_tag_of(t);
}

/// The ASCII tag bytes of an object kind.
pub fn tag_bytes(t: ObjectType) -> (r: Vec<u8>)
    ensures
        r@ == tag_of(t),
{
    let r: Vec<u8> = match t {
        ObjectType::Blob => vec![0x62u8, 0x6cu8, 0x6fu8, 0x62u8],
        ObjectType::Tree => vec![0x74u8, 0x72u8, 0x65u8, 0x65u8],
        ObjectType::Commit => vec![0x63u8, 0x6fu8, 0x6du8, 0x6du8, 0x69u8, 0x74u8],
    };
    proof {
        assert(r@ =~= tag_of(t));
    }
    r
}

/// Reads an object kind off its ASCII tag, `None` for any other bytes.
pub fn get_type_from_bytes(bytes: &[u8]) -> (r: Option<ObjectType>)
    ensures
        r == parse_tag(bytes@),
{
    if bytes_eq_tag(bytes, ObjectType::Blob) {
        Some(ObjectType::Blob)
    } else if bytes_eq_tag(bytes, ObjectType::Tree) {
        Some(ObjectType::Tree)
    } else if bytes_eq_tag(bytes, ObjectType::Commit) {
        Some(ObjectType::Commit)
    } else {
        None
    }
}

fn bytes_eq_tag(bytes: &[u8], t: ObjectType) -> (r: bool)
    ensures
        r == (bytes@ == tag_of(t)),
{
    let tag = tag_bytes(t);
    if bytes.len() != tag.len() {
        return false;
    }
    let mut i: usize = 0;
    while i < tag.len()
        invariant
            bytes@.len() == tag@.len(),
            0 <= i <= tag@.len(),
            tag@ == tag_of(t),
            forall|j: int| 0 <= j < i ==> bytes@[j] == tag@[j],
        decreases tag@.len() - i,
    {
        if bytes[i] != tag[i] {
            return false;
        }
        i = i + 1;
    }
    proof {
        assert(bytes@ =~= tag_of(t));
    }
    true
}

/// Encodes an object for storage: type tag, NUL, payload.
pub fn encode_object(t: ObjectType, payload: &Vec<u8>) -> (r: Vec<u8>)
    ensures
        r@ == encode_spec(t, payload@),
{
    let mut r = tag_bytes(t);
    r.push(0u8);
    let mut i: usize = 0;
    while i < payload.len()
        invariant
            0 <= i <= payload@.len(),
            r@ == tag_of(t) + seq![0u8] + payload@.take(i as int),
        decreases payload@.len() - i,
    {
        r.push(payload[i]);
        proof {
            assert(tag_of(t) + seq![0u8] + payload@.take(i + 1) =~= (tag_of(t) + seq![0u8]
                + payload@.take(i as int)).push(payload@[i as int]));
        }
        i = i + 1;
    }
    proof {
        assert(payload@.take(payload@.len() as int) =~= payload@);
        assert(r@ =~= encode_spec(t, payload@));
    }
    r
}

/// Decodes stored bytes into an object, or reports them corrupt.
pub fn decode_object(data: &Vec<u8>) -> (r: Result<Object, GitError>)
    ensures
        match r {
            Ok(obj) => decode_spec(data@) == Some((obj.t, obj.contents@)),
            Err(e) => e == GitError::CorruptObject && decode_spec(data@) is None,
        },
{
    let mut i: usize = 0;
    while i < data.len()
        invariant
            0 <= i <= data@.len(),
            forall|j: int| 0 <= j < i ==> data@[j] != 0,
        decreases data@.len() - i,
    {
        if data[i] == 0 {
            proof {
                lemma_first_nul_at(data@, i as int);
            }
            let mut tag: Vec<u8> = Vec::new();
            let mut j: usize = 0;
            while j < i
                invariant
                    0 <= j <= i < data@.len(),
                    tag@ == data@.take(i as int).take(j as int),
                decreases i - j,
            {
                tag.push(data[j]);
                proof {
                    assert(data@.take(i as int).take(j + 1) =~= data@.take(i as int).take(
                        j as int,
                    ).push(data@[j as int]));
                }
                j = j + 1;
            }
            proof {
                assert(data@.take(i as int).take(i as int) =~= data@.take(i as int));
            }
            let t = match get_type_from_bytes(tag.as_slice()) {
                Some(t) => t,
                None => {
                    return Err(GitError::CorruptObject);
                },
            };
            let mut contents: Vec<u8> = Vec::new();
            let mut k: usize = i + 1;
            while k < data.len()
                invariant
                    i + 1 <= k <= data@.len(),
                    contents@ == data@.subrange(i + 1, k as int),
                decreases data@.len() - k,
            {
                contents.push(data[k]);
                proof {
                    assert(data@.subrange(i + 1, k + 1) =~= data@.subrange(i + 1, k as int).push(
                        data@[k as int],
                    ));
                }
                k = k + 1;
            }
            proof {
                assert(contents@ =~= data@.skip(i + 1));
            }
            return Ok(Object { t, contents });
        }
        i = i + 1;
    }
    proof {
        lemma_first_nul_in_range(data@);
    }
    Err(GitError::CorruptObject)
}

proof fn lemma_first_nul_in_range(s: Seq<u8>)
    ensures
        match first_nul(s) {
            Some(i) => 0 <= i < s.len() && s[i] == 0,
            None => forall|j: int| 0 <= j < s.len() ==> s[j] != 0,
        },
    decreases s.len(),
{
    if s.len() > 0 && s[0] != 0 {
        lemma_first_nul_in_range(s.drop_first());
        if first_nul(s) is None {
            assert forall|j: int| 0 <= j < s.len() implies s[j] != 0 by {
                if j > 0 {
                    assert(s.drop_first()[j - 1] != 0);
                }
            }
        }
    }
}

} // verus!
