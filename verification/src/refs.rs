//! Mutable references: the small named keyspace beside the immutable
//! object store.
//!
//! A reference maps a human-readable name (`HEAD`, a tag) to an object
//! identifier. References are the only mutable state in the system:
//! updating one overwrites its mapping, creating where absent.

use crate::bytes::{bytes_eq, clone_bytes_fn};
use crate::codec::GitError;
use crate::digest::{is_hex_byte, is_oid};
use crate::store::{lemma_map_of_contains, map_of, Store};
use vstd::prelude::*;

verus! {

/// The reference keyspace: name/identifier pairs with distinct names.
pub struct Refs {
    entries: Vec<(Vec<u8>, Vec<u8>)>,
}

proof fn lemma_map_of_update(s: Seq<(Vec<u8>, Vec<u8>)>, i: int, e: (Vec<u8>, Vec<u8>))
    requires
        0 <= i < s.len(),
        e.0@ == s[i].0@,
        forall|p: int, q: int| 0 <= p < q < s.len() ==> (#[trigger] s[p]).0@ != (#[trigger] s[q]).0@,
    ensures
        map_of(s.update(i, e)) == map_of(s).insert(e.0@, e.1@),
    decreases s.len(),
{
    let su = s.update(i, e);
    if i == s.len() - 1 {
        assert(su.drop_last() =~= s.drop_last());
        assert(su.last() == e);
    } else {
        assert(su.drop_last() =~= s.drop_last().update(i, e));
        assert forall|p: int, q: int|
            0 <= p < q < s.drop_last().len() implies (#[trigger] s.drop_last()[p]).0@ != (
        #[trigger] s.drop_last()[q]).0@ by {
            assert(s.drop_last()[p] == s[p]);
            assert(s.drop_last()[q] == s[q]);
        }
        lemma_map_of_update(s.drop_last(), i, e);
        assert(su.last() == s.last());
        assert(s.drop_last()[i] == s[i]);
        assert(e.0@ != s.last().0@);
        assert(map_of(s.drop_last()).insert(e.0@, e.1@).insert(s.last().0@, s.last().1@) =~= map_of(
            s.drop_last(),
        ).insert(s.last().0@, s.last().1@).insert(e.0@, e.1@));
    }
}

impl Refs {
    /// The mapping of names to object identifiers.
    pub closed spec fn view(&self) -> Map<Seq<u8>, Seq<u8>> {
        map_of(self.entries@)
    }

    /// Well-formedness: no name occurs twice.
    pub closed spec fn wf(&self) -> bool {
        forall|p: int, q: int|
            0 <= p < q < self.entries@.len() ==> (#[trigger] self.entries@[p]).0@ != (
            #[trigger] self.entries@[q]).0@
    }

    /// An empty reference keyspace.
    pub fn new() -> (r: Refs)
        ensures
            r@ == Map::<Seq<u8>, Seq<u8>>::empty(),
            r.wf(),
    {
        Refs { entries: Vec::new() }
    }

    fn find(&self, name: &Vec<u8>) -> (r: Option<usize>)
        requires
            self.wf(),
        ensures
            match r {
                Some(i) => 0 <= i < self.entries@.len() && self.entries@[i as int].0@ == name@
                    && self@.contains_key(name@) && self@[name@] == self.entries@[i as int].1@,
                None => !self@.contains_key(name@),
            },
    {
        let mut i: usize = 0;
        while i < self.entries.len()
            invariant
                self.wf(),
                0 <= i <= self.entries@.len(),
                forall|j: int| 0 <= j < i ==> (#[trigger] self.entries@[j]).0@ != name@,
            decreases self.entries@.len() - i,
        {
            if bytes_eq(&self.entries[i].0, name) {
                proof {
                    crate::store::lemma_map_of_first_match(self.entries@, i as int);
                }
                return Some(i);
            }
            i = i + 1;
        }
        proof {
            lemma_map_of_contains(self.entries@, name@);
        }
        None
    }

    /// The identifier a name maps to, if any.
    pub fn get_ref(&self, name: &Vec<u8>) -> (r: Option<Vec<u8>>)
        requires
            self.wf(),
        ensures
            match r {
                Some(oid) => self@.contains_key(name@) && self@[name@] == oid@,
                None => !self@.contains_key(name@),
            },
    {
        match self.find(name) {
            Some(i) => Some(clone_bytes_fn(&self.entries[i].1)),
            None => None,
        }
    }

    /// Overwrites (creating if absent) the mapping `name -> oid`.
    pub fn update_ref(&mut self, name: &Vec<u8>, oid: &Vec<u8>)
        requires
            old(self).wf(),
        ensures
            final(self).wf(),
            final(self)@ == old(self)@.insert(name@, oid@),
    {
        match self.find(name) {
            Some(i) => {
                let ghost pre = self.entries@;
                let new_name = clone_bytes_fn(name);
                let new_oid = clone_bytes_fn(oid);
                let ghost e = (new_name, new_oid);
                self.entries.set(i, (new_name, new_oid));
                proof {
                    lemma_map_of_update(pre, i as int, e);
                    assert forall|p: int, q: int|
                        0 <= p < q < self.entries@.len() implies (#[trigger] self.entries@[p]).0@
                        != (#[trigger] self.entries@[q]).0@ by {
                        assert(pre[p].0@ != pre[q].0@);
                        assert(self.entries@[p].0@ == pre[p].0@);
                        assert(self.entries@[q].0@ == pre[q].0@);
                    }
                }
            },
            None => {
                let ghost pre = self.entries@;
                self.entries.push((clone_bytes_fn(name), clone_bytes_fn(oid)));
                proof {
                    assert(self.entries@.drop_last() =~= pre);
                    lemma_map_of_contains(pre, name@);
                    assert forall|p: int, q: int|
                        0 <= p < q < self.entries@.len() implies (#[trigger] self.entries@[p]).0@
                        != (#[trigger] self.entries@[q]).0@ by {
                        if q == self.entries@.len() - 1 {
                            assert(pre[p] == self.entries@[p]);
                            assert(pre[p].0@ != name@);
                        } else {
                            assert(pre[p] == self.entries@[p]);
                            assert(pre[q] == self.entries@[q]);
                        }
                    }
                }
            },
        }
    }

    /// The reference map's whole contents, copied out as name and
    /// identifier pairs that spell exactly the map.
    pub fn snapshot(&self) -> (r: Vec<(Vec<u8>, Vec<u8>)>)
        ensures
            map_of(r@) == self@,
    {
        let mut r: Vec<(Vec<u8>, Vec<u8>)> = Vec::new();
        let mut i: usize = 0;
        while i < self.entries.len()
            invariant
                0 <= i <= self.entries@.len(),
                r@.len() == i,
                forall|j: int|
                    0 <= j < i ==> (#[trigger] r@[j]).0@ == (#[trigger] self.entries@[j]).0@
                        && r@[j].1@ == self.entries@[j].1@,
            decreases self.entries@.len() - i,
        {
            let k = clone_bytes_fn(&self.entries[i].0);
            let v = clone_bytes_fn(&self.entries[i].1);
            r.push((k, v));
            i = i + 1;
        }
        proof {
            crate::store::lemma_map_of_congruent(r@, self.entries@);
        }
        r
    }

    /// Creates (or, matching `update_ref`, silently overwrites) a tag:
    /// a reference immutable by convention only.
    pub fn create_tag(&mut self, name: &Vec<u8>, oid: &Vec<u8>)
        requires
            old(self).wf(),
        ensures
            final(self).wf(),
            final(self)@ == old(self)@.insert(name@, oid@),
    {
        self.update_ref(name, oid);
    }
}

/// What name resolution yields: a well-formed digest under which an
/// object exists stands for itself; anything else is a symbolic name,
/// resolved through the reference mapping.
pub open spec fn get_oid_spec(
    objects: Map<Seq<u8>, Seq<u8>>,
    refs: Map<Seq<u8>, Seq<u8>>,
    input: Seq<u8>,
) -> Result<Seq<u8>, GitError> {
    if is_oid(input) && objects.contains_key(input) {
        Ok(input)
    } else if refs.contains_key(input) {
        Ok(refs[input])
    } else {
        Err(GitError::UnknownReference)
    }
}

/// Whether a byte string has the shape of an object identifier: 40
/// lowercase hex digits.
pub fn looks_like_oid(input: &Vec<u8>) -> (r: bool)
    ensures
        r == is_oid(input@),
{
    if input.len() != 40 {
        return false;
    }
    let mut i: usize = 0;
    while i < input.len()
        invariant
            input@.len() == 40,
            0 <= i <= 40,
            forall|j: int| 0 <= j < i ==> is_hex_byte(input@[j]),
        decreases input@.len() - i,
    {
        let b = input[i];
        if !((0x30 <= b && b <= 0x39) || (0x61 <= b && b <= 0x66)) {
            return false;
        }
        i = i + 1;
    }
    true
}

/// Resolves a name or an identifier to an object identifier: a
/// well-formed digest with a stored object resolves to itself, any
/// other input through the reference mapping, and fails with
/// `UnknownReference` when no mapping exists.
pub fn get_oid(store: &Store, refs: &Refs, input: &Vec<u8>) -> (r: Result<Vec<u8>, GitError>)
    requires
        store.wf(),
        refs.wf(),
    ensures
        match r {
            Ok(oid) => get_oid_spec(store@, refs@, input@) == Ok::<_, GitError>(oid@),
            Err(e) => get_oid_spec(store@, refs@, input@) == Err::<Seq<u8>, _>(e),
        },
{
    if looks_like_oid(input) && store.contains(input) {
        return Ok(clone_bytes_fn(input));
    }
    match refs.get_ref(input) {
        Some(oid) => Ok(oid),
        None => Err(GitError::UnknownReference),
    }
}

} // verus!
