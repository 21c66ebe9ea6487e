//! The content-addressed object store.
//!
//! An append-only keyspace from object identifier to encoded bytes,
//! viewed as a `Map<Seq<u8>, Seq<u8>>`. Writing is idempotent: an
//! object whose identifier is already present is left as it is, and
//! identical contents always land under the identical identifier.

use crate::bytes::{bytes_eq, clone_bytes_fn};
use crate::codec::{decode_spec, encode_object, encode_spec, GitError, Object, ObjectType};
use crate::digest::{is_oid, oid_for, oid_of};
use vstd::prelude::*;

verus! {

/// The object keyspace: identifier/bytes pairs with distinct identifiers.
pub struct Store {
    entries: Vec<(Vec<u8>, Vec<u8>)>,
}

/// The map a sequence of identifier/bytes pairs spells, later pairs
/// taking precedence.
pub open spec fn map_of(s: Seq<(Vec<u8>, Vec<u8>)>) -> Map<Seq<u8>, Seq<u8>>
    decreases s.len(),
{
    if s.len() == 0 {
        Map::empty()
    } else {
        map_of(s.drop_last()).insert(s.last().0@, s.last().1@)
    }
}

pub proof fn lemma_map_of_contains(s: Seq<(Vec<u8>, Vec<u8>)>, k: Seq<u8>)
    ensures
        map_of(s).contains_key(k) <==> exists|i: int| 0 <= i < s.len() && (#[trigger] s[i]).0@ == k,
    decreases s.len(),
{
    if s.len() > 0 {
        lemma_map_of_contains(s.drop_last(), k);
        if s.last().0@ == k {
            assert(s[s.len() - 1].0@ == k);
        } else if map_of(s).contains_key(k) {
            let i = choose|i: int| 0 <= i < s.drop_last().len() && (#[trigger] s.drop_last()[i]).0@
                == k;
            assert(s[i].0@ == k);
        } else {
            assert forall|i: int| 0 <= i < s.len() implies (#[trigger] s[i]).0@ != k by {
                if i < s.len() - 1 {
                    assert(s.drop_last()[i].0@ != k);
                }
            }
        }
    }
}

pub proof fn lemma_map_of_first_match(s: Seq<(Vec<u8>, Vec<u8>)>, i: int)
    requires
        0 <= i < s.len(),
        forall|p: int, q: int| 0 <= p < q < s.len() ==> (#[trigger] s[p]).0@ != (#[trigger] s[q]).0@,
    ensures
        map_of(s).contains_key(s[i].0@),
        map_of(s)[s[i].0@] == s[i].1@,
    decreases s.len(),
{
    if i == s.len() - 1 {
        assert(s[i] == s.last());
    } else {
        lemma_map_of_first_match(s.drop_last(), i);
        assert(s.drop_last()[i] == s[i]);
        assert(s[i].0@ != s[s.len() - 1].0@);
    }
}

impl Store {
    /// The contents of the store: encoded bytes keyed by identifier.
    pub closed spec fn view(&self) -> Map<Seq<u8>, Seq<u8>> {
        map_of(self.entries@)
    }

    /// Well-formedness: no identifier occurs twice.
    pub closed spec fn wf(&self) -> bool {
        forall|p: int, q: int|
            0 <= p < q < self.entries@.len() ==> (#[trigger] self.entries@[p]).0@ != (
            #[trigger] self.entries@[q]).0@
    }

    /// An empty store.
    pub fn new() -> (s: Store)
        ensures
            s@ == Map::<Seq<u8>, Seq<u8>>::empty(),
            s.wf(),
    {
        Store { entries: Vec::new() }
    }

    /// Looks an identifier up, handing back the index of its entry.
    fn find(&self, oid: &Vec<u8>) -> (r: Option<usize>)
        requires
            self.wf(),
        ensures
            match r {
                Some(i) => 0 <= i < self.entries@.len() && self.entries@[i as int].0@ == oid@
                    && self@.contains_key(oid@) && self@[oid@] == self.entries@[i as int].1@,
                None => !self@.contains_key(oid@),
            },
    {
        let mut i: usize = 0;
        while i < self.entries.len()
            invariant
                self.wf(),
                0 <= i <= self.entries@.len(),
                forall|j: int| 0 <= j < i ==> (#[trigger] self.entries@[j]).0@ != oid@,
            decreases self.entries@.len() - i,
        {
            if bytes_eq(&self.entries[i].0, oid) {
                proof {
                    lemma_map_of_first_match(self.entries@, i as int);
                }
                return Some(i);
            }
            i = i + 1;
        }
        proof {
            lemma_map_of_contains(self.entries@, oid@);
        }
        None
    }

    /// Whether an object exists under the given identifier.
    pub fn contains(&self, oid: &Vec<u8>) -> (r: bool)
        requires
            self.wf(),
        ensures
            r == self@.contains_key(oid@),
    {
        self.find(oid).is_some()
    }

    /// Encodes `contents` under type `t`, stores the encoding keyed by
    /// its digest unless that key already exists, and returns the
    /// digest. Identical contents give the identical identifier, so
    /// writing is deduplicating and idempotent.
    pub fn hash_object(&mut self, contents: &Vec<u8>, t: ObjectType) -> (oid: Vec<u8>)
        requires
            old(self).wf(),
        ensures
            final(self).wf(),
            oid@ == oid_of(encode_spec(t, contents@)),
            is_oid(oid@),
            final(self)@ == put_spec(old(self)@, t, contents@),
            final(self)@.contains_key(oid@),
    {
        let data = encode_object(t, contents);
        let oid = oid_for(&data);
        if self.find(&oid).is_none() {
            let ghost pre = self.entries@;
            proof {
                lemma_map_of_contains(pre, oid@);
            }
            let oid_key = clone_bytes_fn(&oid);
            self.entries.push((oid_key, data));
            proof {
                assert(self.entries@.drop_last() =~= pre);
                assert forall|p: int, q: int|
                    0 <= p < q < self.entries@.len() implies (#[trigger] self.entries@[p]).0@ != (
                #[trigger] self.entries@[q]).0@ by {
                    if q == self.entries@.len() - 1 {
                        assert(pre[p] == self.entries@[p]);
                        assert(pre[p].0@ != oid@);
                    } else {
                        assert(pre[p] == self.entries@[p]);
                        assert(pre[q] == self.entries@[q]);
                    }
                }
            }
        }
        oid
    }

    /// Reads and decodes the object under `oid`. Fails with `NotFound`
    /// when no such object exists, `CorruptObject` when its bytes do
    /// not parse, and `TypeMismatch` when a kind was expected and the
    /// object is of another.
    pub fn get_object(&self, oid: &Vec<u8>, expected: Option<ObjectType>) -> (r: Result<
        Object,
        GitError,
    >)
        requires
            self.wf(),
        ensures
            match r {
                Ok(obj) => get_spec(self@, oid@, expected) == Ok::<_, GitError>(
                    (obj.t, obj.contents@),
                ),
                Err(e) => get_spec(self@, oid@, expected) == Err::<(ObjectType, Seq<u8>), _>(e),
            },
    {
        let i = match self.find(oid) {
            Some(i) => i,
            None => {
                return Err(GitError::NotFound);
            },
        };
        let obj = match crate::codec::decode_object(&self.entries[i].1) {
            Ok(obj) => obj,
            Err(e) => {
                return Err(e);
            },
        };
        match expected {
            Some(t) => {
                if !type_eq(t, obj.t) {
                    return Err(GitError::TypeMismatch);
                }
            },
            None => {},
        }
        Ok(obj)
    }
}

/// Two entry sequences equal pair for pair in value spell the same map.
pub proof fn lemma_map_of_congruent(s1: Seq<(Vec<u8>, Vec<u8>)>, s2: Seq<(Vec<u8>, Vec<u8>)>)
    requires
        s1.len() == s2.len(),
        forall|i: int|
            0 <= i < s1.len() ==> (#[trigger] s1[i]).0@ == (#[trigger] s2[i]).0@ && s1[i].1@
                == s2[i].1@,
    ensures
        map_of(s1) == map_of(s2),
    decreases s1.len(),
{
    if s1.len() > 0 {
        assert forall|i: int|
            0 <= i < s1.drop_last().len() implies (#[trigger] s1.drop_last()[i]).0@ == (
        #[trigger] s2.drop_last()[i]).0@ && s1.drop_last()[i].1@ == s2.drop_last()[i].1@ by {
            assert(s1.drop_last()[i] == s1[i]);
            assert(s2.drop_last()[i] == s2[i]);
        }
        lemma_map_of_congruent(s1.drop_last(), s2.drop_last());
        assert(s1[s1.len() - 1].0@ == s2[s2.len() - 1].0@);
        assert(s1[s1.len() - 1].1@ == s2[s2.len() - 1].1@);
    }
}

impl Store {
    /// The store's whole contents, copied out as identifier/bytes
    /// pairs that spell exactly the store's map.
    pub fn snapshot(&self) -> (r: Vec<(Vec<u8>, Vec<u8>)>)
        ensures
            map_of(r@) == self@,
    {
        let mut r: Vec<(Vec<u8>, Vec<u8>)> = Vec::new();
        let mut i: usize = 0;
        while i < self.entries.len()
            invariant
                0 <= i <= self.entries@.len(),
                r@.len() == i,
                forall|j: int|
                    0 <= j < i ==> (#[trigger] r@[j]).0@ == (#[trigger] self.entries@[j]).0@
                        && r@[j].1@ == self.entries@[j].1@,
            decreases self.entries@.len() - i,
        {
            let k = clone_bytes_fn(&self.entries[i].0);
            let v = clone_bytes_fn(&self.entries[i].1);
            r.push((k, v));
            i = i + 1;
        }
        proof {
            lemma_map_of_congruent(r@, self.entries@);
        }
        r
    }
}

/// What a write leaves behind, as a function of the store's contents:
/// the encoding of `contents` under type `t`, keyed by its digest,
/// unless that key is already taken.
pub open spec fn put_spec(m: Map<Seq<u8>, Seq<u8>>, t: ObjectType, contents: Seq<u8>) -> Map<
    Seq<u8>,
    Seq<u8>,
> {
    if m.contains_key(oid_of(encode_spec(t, contents))) {
        m
    } else {
        m.insert(oid_of(encode_spec(t, contents)), encode_spec(t, contents))
    }
}

/// What a lookup yields, as a function of the store's contents.
pub open spec fn get_spec(
    m: Map<Seq<u8>, Seq<u8>>,
    oid: Seq<u8>,
    expected: Option<ObjectType>,
) -> Result<(ObjectType, Seq<u8>), GitError> {
    if !m.contains_key(oid) {
        Err(GitError::NotFound)
    } else {
        match decode_spec(m[oid]) {
            None => Err(GitError::CorruptObject),
            Some((t, c)) => if expected is Some && expected->0 != t {
                Err(GitError::TypeMismatch)
            } else {
                Ok((t, c))
            },
        }
    }
}

/// Determinism of writes. `hash_object` always returns
/// `oid_of(encode_spec(t, contents))`, which does not depend on the
/// store, so two writes of the same bytes yield the same identifier;
/// this law adds that the second write leaves the store exactly as the
/// first left it, holding the one object under that identifier.
pub proof fn lemma_put_deterministic(m: Map<Seq<u8>, Seq<u8>>, t: ObjectType, contents: Seq<u8>)
    ensures
        put_spec(put_spec(m, t, contents), t, contents) == put_spec(m, t, contents),
        put_spec(m, t, contents).contains_key(oid_of(encode_spec(t, contents))),
{
}

/// Round-trip of writes and reads: storing `contents` under type `t`
/// and reading the returned identifier back yields `t` and `contents`
/// exactly, with or without an expected type. The one store this does
/// not hold of is one that already keyed different bytes under the
/// same digest, which a collision-resistant digest rules out.
pub proof fn lemma_put_get_round_trip(m: Map<Seq<u8>, Seq<u8>>, t: ObjectType, contents: Seq<u8>)
    requires
        !m.contains_key(oid_of(encode_spec(t, contents))) || m[oid_of(encode_spec(t, contents))]
            == encode_spec(t, contents),
    ensures
        get_spec(put_spec(m, t, contents), oid_of(encode_spec(t, contents)), None) == Ok::<
            _,
            GitError,
        >((t, contents)),
        get_spec(put_spec(m, t, contents), oid_of(encode_spec(t, contents)), Some(t)) == Ok::<
            _,
            GitError,
        >((t, contents)),
{
    crate::codec::lemma_decode_encode(t, contents);
}

/// Equality of two object kinds.
pub fn type_eq(a: ObjectType, b: ObjectType) -> (r: bool)
    ensures
        r == (a == b),
{
    match (a, b) {
        (ObjectType::Blob, ObjectType::Blob) => true,
        (ObjectType::Tree, ObjectType::Tree) => true,
        (ObjectType::Commit, ObjectType::Commit) => true,
        _ => false,
    }
}

} // verus!
