//! Tree objects: canonical directory listings.
//!
//! A tree payload is one record per directory entry — `<type-tag>
//! <oid> <name>` ended by a newline — with the records in ascending
//! byte order of name. Identical directory contents therefore always
//! produce byte-identical payloads, and so identical identifiers,
//! whatever order the entries arrived in.

use crate::bytes::{bytes_eq, clone_bytes_fn, push_all, sub_vec};
use crate::codec::{parse_tag, tag_of, GitError, ObjectType};
use crate::digest::is_oid;
use vstd::prelude::*;

verus! {

/// One directory entry of a tree object: the kind of the child, its
/// identifier, and its name within the directory.
#[derive(Debug)]
pub struct TreeEntry {
    pub t: ObjectType,
    pub oid: Vec<u8>,
    pub name: Vec<u8>,
}

/// The mathematical form of a tree record: kind, identifier, name.
pub open spec fn entry_record(e: TreeEntry) -> (ObjectType, Seq<u8>, Seq<u8>) {
    (e.t, e.oid@, e.name@)
}

/// The records a vector of entries spells.
pub open spec fn records_view(s: Seq<TreeEntry>) -> Seq<(ObjectType, Seq<u8>, Seq<u8>)> {
    Seq::new(s.len(), |i: int| entry_record(s[i]))
}

/// A well-formed tree record: the child is a blob or a tree, its
/// identifier has digest shape, and its name is nonempty and free of
/// newlines.
pub open spec fn record_valid(r: (ObjectType, Seq<u8>, Seq<u8>)) -> bool {
    &&& (r.0 == ObjectType::Blob || r.0 == ObjectType::Tree)
    &&& is_oid(r.1)
    &&& r.2.len() >= 1
    &&& forall|i: int| 0 <= i < r.2.len() ==> r.2[i] != 0x0a
}

pub open spec fn records_valid(rs: Seq<(ObjectType, Seq<u8>, Seq<u8>)>) -> bool {
    forall|i: int| 0 <= i < rs.len() ==> record_valid(#[trigger] rs[i])
}

/// Lexicographic byte order: `a` at or before `b`.
pub open spec fn bytes_le(a: Seq<u8>, b: Seq<u8>) -> bool
    decreases a.len(),
{
    if a.len() == 0 {
        true
    } else if b.len() == 0 {
        false
    } else if a[0] < b[0] {
        true
    } else if a[0] > b[0] {
        false
    } else {
        bytes_le(a.drop_first(), b.drop_first())
    }
}

/// Strict lexicographic byte order.
pub open spec fn bytes_lt(a: Seq<u8>, b: Seq<u8>) -> bool {
    bytes_le(a, b) && a != b
}

pub proof fn lemma_bytes_le_total(a: Seq<u8>, b: Seq<u8>)
    ensures
        bytes_le(a, b) || bytes_le(b, a),
        bytes_le(a, b) && bytes_le(b, a) ==> a == b,
        a == b ==> bytes_le(a, b),
    decreases a.len(),
{
    if a.len() > 0 && b.len() > 0 && a[0] == b[0] {
        lemma_bytes_le_total(a.drop_first(), b.drop_first());
        if bytes_le(a, b) && bytes_le(b, a) {
            assert(bytes_le(a.drop_first(), b.drop_first()));
            assert(bytes_le(b.drop_first(), a.drop_first()));
            assert(a.drop_first() == b.drop_first());
            assert forall|i: int| 0 <= i < a.len() implies a[i] == b[i] by {
                if i > 0 {
                    assert(a.drop_first()[i - 1] == b.drop_first()[i - 1]);
                }
            }
            assert(a =~= b);
        }
        if a == b {
            assert(a.drop_first() == b.drop_first());
        }
    } else if a.len() > 0 && b.len() == 0 {
        assert(bytes_le(b, a));
    }
}

pub proof fn lemma_bytes_le_trans(a: Seq<u8>, b: Seq<u8>, c: Seq<u8>)
    requires
        bytes_le(a, b),
        bytes_le(b, c),
    ensures
        bytes_le(a, c),
    decreases a.len(),
{
    if a.len() > 0 && b.len() > 0 && c.len() > 0 && a[0] == b[0] && b[0] == c[0] {
        lemma_bytes_le_trans(a.drop_first(), b.drop_first(), c.drop_first());
    }
}

/// Records in ascending name order.
pub open spec fn records_sorted(rs: Seq<(ObjectType, Seq<u8>, Seq<u8>)>) -> bool {
    forall|i: int, j: int|
        0 <= i < j < rs.len() ==> bytes_le((#[trigger] rs[i]).2, (#[trigger] rs[j]).2)
}

/// Inserts a record into a name-sorted sequence, keeping the order;
/// an equal name lands after those already there.
pub open spec fn insert_record(
    rs: Seq<(ObjectType, Seq<u8>, Seq<u8>)>,
    r: (ObjectType, Seq<u8>, Seq<u8>),
) -> Seq<(ObjectType, Seq<u8>, Seq<u8>)>
    decreases rs.len(),
{
    if rs.len() == 0 {
        seq![r]
    } else if bytes_lt(r.2, rs[0].2) {
        seq![r] + rs
    } else {
        seq![rs[0]] + insert_record(rs.drop_first(), r)
    }
}

/// The canonical order of a sequence of records: sorted by name.
pub open spec fn sort_records(rs: Seq<(ObjectType, Seq<u8>, Seq<u8>)>) -> Seq<
    (ObjectType, Seq<u8>, Seq<u8>),
>
    decreases rs.len(),
{
    if rs.len() == 0 {
        rs
    } else {
        insert_record(sort_records(rs.drop_last()), rs.last())
    }
}

proof fn lemma_cons_multiset(rs: Seq<(ObjectType, Seq<u8>, Seq<u8>)>, r: (ObjectType, Seq<u8>, Seq<u8>))
    ensures
        (seq![r] + rs).to_multiset() == rs.to_multiset().insert(r),
    decreases rs.len(),
{
    if rs.len() == 0 {
        let e = Seq::<(ObjectType, Seq<u8>, Seq<u8>)>::empty();
        assert(seq![r] + rs =~= e.push(r));
        assert(rs =~= e);
        e.to_multiset_ensures();
        assert(e.push(r).to_multiset() == e.to_multiset().insert(r));
    } else {
        let dl = rs.drop_last();
        let x = rs.last();
        lemma_cons_multiset(dl, r);
        assert(seq![r] + rs =~= (seq![r] + dl).push(x));
        (seq![r] + dl).to_multiset_ensures();
        assert((seq![r] + dl).push(x).to_multiset() == (seq![r] + dl).to_multiset().insert(x));
        dl.to_multiset_ensures();
        assert(dl.push(x) =~= rs);
        assert(dl.push(x).to_multiset() == dl.to_multiset().insert(x));
        assert(dl.to_multiset().insert(r).insert(x) =~= dl.to_multiset().insert(x).insert(r));
        assert((seq![r] + rs).to_multiset() == dl.to_multiset().insert(x).insert(r));
    }
}

pub proof fn lemma_insert_record_sorted(
    rs: Seq<(ObjectType, Seq<u8>, Seq<u8>)>,
    r: (ObjectType, Seq<u8>, Seq<u8>),
)
    requires
        records_sorted(rs),
    ensures
        records_sorted(insert_record(rs, r)),
        insert_record(rs, r).to_multiset() == rs.to_multiset().insert(r),
        insert_record(rs, r).len() == rs.len() + 1,
    decreases rs.len(),
{
    let out = insert_record(rs, r);
    if rs.len() == 0 {
        lemma_cons_multiset(rs, r);
        assert(seq![r] + rs =~= seq![r]);
    } else if bytes_lt(r.2, rs[0].2) {
        assert forall|i: int, j: int| 0 <= i < j < out.len() implies bytes_le(
            (#[trigger] out[i]).2,
            (#[trigger] out[j]).2,
        ) by {
            if i == 0 {
                assert(out[j] == rs[j - 1]);
                if j == 1 {
                    assert(bytes_le(r.2, rs[0].2));
                } else {
                    assert(bytes_le(rs[0].2, rs[j - 1].2));
                    lemma_bytes_le_trans(r.2, rs[0].2, rs[j - 1].2);
                }
            } else {
                assert(out[i] == rs[i - 1]);
                assert(out[j] == rs[j - 1]);
            }
        }
        lemma_cons_multiset(rs, r);
    } else {
        let rest = rs.drop_first();
        assert forall|i: int, j: int| 0 <= i < j < rest.len() implies bytes_le(
            (#[trigger] rest[i]).2,
            (#[trigger] rest[j]).2,
        ) by {
            assert(rest[i] == rs[i + 1]);
            assert(rest[j] == rs[j + 1]);
        }
        lemma_insert_record_sorted(rest, r);
        let tail = insert_record(rest, r);
        lemma_bytes_le_total(r.2, rs[0].2);
        assert(bytes_le(rs[0].2, r.2));
        assert forall|i: int| 0 <= i < rest.len() implies bytes_le(
            rs[0].2,
            (#[trigger] rest[i]).2,
        ) by {
            assert(rest[i] == rs[i + 1]);
        }
        lemma_insert_all_ge(rest, r, rs[0].2);
        assert forall|i: int, j: int| 0 <= i < j < out.len() implies bytes_le(
            (#[trigger] out[i]).2,
            (#[trigger] out[j]).2,
        ) by {
            if i == 0 {
                assert(out[j] == tail[j - 1]);
                assert(bytes_le(rs[0].2, tail[j - 1].2));
            } else {
                assert(out[i] == tail[i - 1]);
                assert(out[j] == tail[j - 1]);
            }
        }
        lemma_cons_multiset(tail, rs[0]);
        lemma_cons_multiset(rest, rs[0]);
        assert(seq![rs[0]] + rest =~= rs);
        assert(rest.to_multiset().insert(r).insert(rs[0]) =~= rest.to_multiset().insert(
            rs[0],
        ).insert(r));
    }
}

/// Inserting a record whose name is at or after `lo` into records all
/// at or after `lo` leaves every name at or after `lo`.
proof fn lemma_insert_all_ge(
    rs: Seq<(ObjectType, Seq<u8>, Seq<u8>)>,
    r: (ObjectType, Seq<u8>, Seq<u8>),
    lo: Seq<u8>,
)
    requires
        bytes_le(lo, r.2),
        forall|i: int| 0 <= i < rs.len() ==> bytes_le(lo, (#[trigger] rs[i]).2),
    ensures
        forall|i: int|
            0 <= i < insert_record(rs, r).len() ==> bytes_le(
                lo,
                (#[trigger] insert_record(rs, r)[i]).2,
            ),
    decreases rs.len(),
{
    let out = insert_record(rs, r);
    if rs.len() == 0 {
    } else if bytes_lt(r.2, rs[0].2) {
        assert forall|i: int| 0 <= i < out.len() implies bytes_le(lo, (#[trigger] out[i]).2) by {
            if i > 0 {
                assert(out[i] == rs[i - 1]);
            }
        }
    } else {
        let rest = rs.drop_first();
        assert forall|i: int| 0 <= i < rest.len() implies bytes_le(lo, (#[trigger] rest[i]).2) by {
            assert(rest[i] == rs[i + 1]);
        }
        lemma_insert_all_ge(rest, r, lo);
        assert forall|i: int| 0 <= i < out.len() implies bytes_le(lo, (#[trigger] out[i]).2) by {
            if i > 0 {
                assert(out[i] == insert_record(rest, r)[i - 1]);
            }
        }
    }
}

/// Sorting yields a name-sorted permutation of the input.
pub proof fn lemma_sort_records_sorted(rs: Seq<(ObjectType, Seq<u8>, Seq<u8>)>)
    ensures
        records_sorted(sort_records(rs)),
        sort_records(rs).to_multiset() == rs.to_multiset(),
        sort_records(rs).len() == rs.len(),
    decreases rs.len(),
{
    if rs.len() > 0 {
        let dl = rs.drop_last();
        let x = rs.last();
        lemma_sort_records_sorted(dl);
        lemma_insert_record_sorted(sort_records(dl), x);
        dl.to_multiset_ensures();
        assert(dl.push(x) =~= rs);
        assert(dl.push(x).to_multiset() == dl.to_multiset().insert(x));
    }
}

/// Sorting a sequence already in order gives it back unchanged.
pub proof fn lemma_sort_records_of_sorted(rs: Seq<(ObjectType, Seq<u8>, Seq<u8>)>)
    requires
        records_sorted(rs),
    ensures
        sort_records(rs) == rs,
    decreases rs.len(),
{
    if rs.len() > 0 {
        assert forall|i: int, j: int|
            0 <= i < j < rs.drop_last().len() implies bytes_le(
            (#[trigger] rs.drop_last()[i]).2,
            (#[trigger] rs.drop_last()[j]).2,
        ) by {
            assert(rs.drop_last()[i] == rs[i]);
            assert(rs.drop_last()[j] == rs[j]);
        }
        lemma_sort_records_of_sorted(rs.drop_last());
        assert forall|i: int| 0 <= i < rs.drop_last().len() implies bytes_le(
            (#[trigger] rs.drop_last()[i]).2,
            rs.last().2,
        ) by {
            assert(rs.drop_last()[i] == rs[i]);
            assert(bytes_le(rs[i].2, rs[rs.len() - 1].2));
        }
        lemma_insert_sorted_at_end(rs.drop_last(), rs.last());
        assert(rs.drop_last().push(rs.last()) =~= rs);
    }
}

proof fn lemma_insert_sorted_at_end(
    rs: Seq<(ObjectType, Seq<u8>, Seq<u8>)>,
    r: (ObjectType, Seq<u8>, Seq<u8>),
)
    requires
        forall|i: int| 0 <= i < rs.len() ==> bytes_le((#[trigger] rs[i]).2, r.2),
    ensures
        insert_record(rs, r) == rs.push(r),
    decreases rs.len(),
{
    if rs.len() == 0 {
        assert(seq![r] =~= rs.push(r));
    } else if bytes_lt(r.2, rs[0].2) {
        lemma_bytes_le_total(r.2, rs[0].2);
        assert(false);
    } else {
        let rest = rs.drop_first();
        assert forall|i: int| 0 <= i < rest.len() implies bytes_le((#[trigger] rest[i]).2, r.2) by {
            assert(rest[i] == rs[i + 1]);
        }
        lemma_insert_sorted_at_end(rest, r);
        assert(seq![rs[0]] + rest.push(r) =~= rs.push(r));
    }
}

/// The bytes of one tree record: type tag, space, identifier, space,
/// name, newline.
pub open spec fn record_bytes(r: (ObjectType, Seq<u8>, Seq<u8>)) -> Seq<u8> {
    tag_of(r.0) + seq![0x20u8] + r.1 + seq![0x20u8] + r.2 + seq![0x0au8]
}

/// A tree's payload: its records, one after the other.
pub open spec fn tree_payload(rs: Seq<(ObjectType, Seq<u8>, Seq<u8>)>) -> Seq<u8>
    decreases rs.len(),
{
    if rs.len() == 0 {
        Seq::<u8>::empty()
    } else {
        record_bytes(rs[0]) + tree_payload(rs.drop_first())
    }
}

pub proof fn lemma_tree_payload_push(
    rs: Seq<(ObjectType, Seq<u8>, Seq<u8>)>,
    r: (ObjectType, Seq<u8>, Seq<u8>),
)
    ensures
        tree_payload(rs.push(r)) == tree_payload(rs) + record_bytes(r),
    decreases rs.len(),
{
    if rs.len() == 0 {
        assert(rs.push(r)[0] == r);
        assert(rs.push(r).drop_first() =~= rs);
        assert(record_bytes(r) + tree_payload(rs) =~= tree_payload(rs) + record_bytes(r));
    } else {
        assert(rs.push(r).drop_first() =~= rs.drop_first().push(r));
        lemma_tree_payload_push(rs.drop_first(), r);
        assert(rs.push(r)[0] == rs[0]);
        assert(record_bytes(rs[0]) + (tree_payload(rs.drop_first()) + record_bytes(r)) =~= (
        record_bytes(rs[0]) + tree_payload(rs.drop_first())) + record_bytes(r));
    }
}

/// The position of the first newline, if any.
pub open spec fn first_nl(s: Seq<u8>) -> Option<int>
    decreases s.len(),
{
    if s.len() == 0 {
        None
    } else if s[0] == 0x0a {
        Some(0int)
    } else {
        match first_nl(s.drop_first()) {
            None => None,
            Some(i) => Some(i + 1),
        }
    }
}

pub proof fn lemma_first_nl_at(s: Seq<u8>, k: int)
    requires
        0 <= k < s.len(),
        s[k] == 0x0a,
        forall|j: int| 0 <= j < k ==> s[j] != 0x0a,
    ensures
        first_nl(s) == Some(k),
    decreases k,
{
    if k > 0 {
        lemma_first_nl_at(s.drop_first(), k - 1);
    }
}

pub proof fn lemma_first_nl_range(s: Seq<u8>)
    ensures
        match first_nl(s) {
            Some(i) => 0 <= i < s.len() && s[i] == 0x0a,
            None => forall|j: int| 0 <= j < s.len() ==> s[j] != 0x0a,
        },
    decreases s.len(),
{
    if s.len() > 0 && s[0] != 0x0a {
        lemma_first_nl_range(s.drop_first());
        if first_nl(s) is None {
            assert forall|j: int| 0 <= j < s.len() implies s[j] != 0x0a by {
                if j > 0 {
                    assert(s.drop_first()[j - 1] != 0x0a);
                }
            }
        }
    }
}

/// Parses a tree payload into its records; `None` stands for a
/// corrupt tree. Each record is fixed-width up to its name, which
/// runs to the record's newline.
pub open spec fn parse_tree(s: Seq<u8>) -> Option<Seq<(ObjectType, Seq<u8>, Seq<u8>)>>
    decreases s.len(),
{
    if s.len() == 0 {
        Some(Seq::empty())
    } else if s.len() >= 47 && parse_tag(s.take(4)) is Some && s[4] == 0x20 && is_oid(
        s.subrange(5, 45),
    ) && s[45] == 0x20 {
        match first_nl(s.skip(46)) {
            Some(k) => if 1 <= k && 46 + k + 1 <= s.len() {
                match parse_tree(s.skip(46 + k + 1)) {
                    Some(rest) => Some(
                        seq![
                            (parse_tag(s.take(4))->0, s.subrange(5, 45), s.subrange(46, 46 + k)),
                        ] + rest,
                    ),
                    None => None,
                }
            } else {
                None
            },
            None => None,
        }
    } else {
        None
    }
}

/// Parsing inverts encoding: a payload written from well-formed
/// records reads back record for record.
pub proof fn lemma_parse_tree_payload(rs: Seq<(ObjectType, Seq<u8>, Seq<u8>)>)
    requires
        records_valid(rs),
    ensures
        parse_tree(tree_payload(rs)) == Some(rs),
    decreases rs.len(),
{
    if rs.len() > 0 {
        let r = rs[0];
        let e = tree_payload(rs);
        let rb = record_bytes(r);
        let nlen = r.2.len() as int;
        assert(record_valid(r));
        assert(tag_of(r.0).len() == 4);
        assert(rb.len() == 47 + nlen);
        assert(e.len() == rb.len() + tree_payload(rs.drop_first()).len());
        assert(e.take(4) =~= tag_of(r.0));
        crate::codec::lemma_parse_tag_of(r.0);
        assert(e[4] == 0x20);
        assert(e.subrange(5, 45) =~= r.1);
        assert(e[45] == 0x20);
        let tail = e.skip(46);
        assert(tail.len() == 1 + nlen + tree_payload(rs.drop_first()).len());
        assert forall|j: int| 0 <= j < nlen implies tail[j] != 0x0a by {
            assert(tail[j] == r.2[j]);
        }
        assert(tail[nlen] == 0x0a);
        lemma_first_nl_at(tail, nlen);
        assert(e.subrange(46, 46 + nlen) =~= r.2);
        assert(e.skip(46 + nlen + 1) =~= tree_payload(rs.drop_first()));
        assert forall|i: int| 0 <= i < rs.drop_first().len() implies record_valid(
            #[trigger] rs.drop_first()[i],
        ) by {
            assert(rs.drop_first()[i] == rs[i + 1]);
        }
        lemma_parse_tree_payload(rs.drop_first());
        assert(seq![(r.0, r.1, r.2)] + rs.drop_first() =~= rs);
    }
}

/// Encodes directory entries into a tree payload, in the order given.
pub fn encode_tree(entries: &Vec<TreeEntry>) -> (r: Vec<u8>)
    ensures
        r@ == tree_payload(records_view(entries@)),
{
    let mut r: Vec<u8> = Vec::new();
    let mut i: usize = 0;
    while i < entries.len()
        invariant
            0 <= i <= entries@.len(),
            r@ == tree_payload(records_view(entries@.take(i as int))),
        decreases entries@.len() - i,
    {
        let e = &entries[i];
        let mut rb = crate::codec::tag_bytes(e.t);
        rb.push(0x20u8);
        push_all(&mut rb, &e.oid);
        rb.push(0x20u8);
        push_all(&mut rb, &e.name);
        rb.push(0x0au8);
        proof {
            assert(rb@ =~= record_bytes(entry_record(entries@[i as int])));
        }
        push_all(&mut r, &rb);
        proof {
            lemma_tree_payload_push(
                records_view(entries@.take(i as int)),
                entry_record(entries@[i as int]),
            );
            assert(records_view(entries@.take(i + 1)) =~= records_view(
                entries@.take(i as int),
            ).push(entry_record(entries@[i as int])));
        }
        i = i + 1;
    }
    proof {
        assert(entries@.take(entries@.len() as int) =~= entries@);
    }
    r
}

/// Splices parsed records onto those a parse still owes.
pub open spec fn parse_glue(
    prefix: Seq<(ObjectType, Seq<u8>, Seq<u8>)>,
    rest: Option<Seq<(ObjectType, Seq<u8>, Seq<u8>)>>,
) -> Option<Seq<(ObjectType, Seq<u8>, Seq<u8>)>> {
    match rest {
        None => None,
        Some(tail) => Some(prefix + tail),
    }
}

/// Decodes a tree payload into its entries, or reports it corrupt.
pub fn decode_tree(payload: &Vec<u8>) -> (r: Result<Vec<TreeEntry>, GitError>)
    ensures
        match r {
            Ok(entries) => parse_tree(payload@) == Some(records_view(entries@)),
            Err(e) => e == GitError::CorruptObject && parse_tree(payload@) is None,
        },
{
    let mut out: Vec<TreeEntry> = Vec::new();
    let mut pos: usize = 0;
    proof {
        assert(payload@.skip(0) =~= payload@);
        match parse_tree(payload@) {
            None => {},
            Some(tail) => {
                assert(records_view(out@) + tail =~= tail);
            },
        }
    }
    loop
        invariant
            0 <= pos <= payload@.len(),
            parse_glue(records_view(out@), parse_tree(payload@.skip(pos as int))) == parse_tree(
                payload@,
            ),
        decreases payload@.len() - pos,
    {
        let ghost s = payload@.skip(pos as int);
        let ghost prefix = records_view(out@);
        if pos == payload.len() {
            proof {
                assert(s.len() == 0);
                assert(prefix + Seq::<(ObjectType, Seq<u8>, Seq<u8>)>::empty() =~= prefix);
            }
            return Ok(out);
        }
        if payload.len() - pos < 47 {
            return Err(GitError::CorruptObject);
        }
        let tag = sub_vec(payload, pos, pos + 4);
        proof {
            assert(tag@ =~= s.take(4));
        }
        let t = match crate::codec::get_type_from_bytes(tag.as_slice()) {
            Some(t) => t,
            None => {
                return Err(GitError::CorruptObject);
            },
        };
        if payload[pos + 4] != 0x20u8 {
            proof {
                assert(s[4] == payload@[pos + 4]);
            }
            return Err(GitError::CorruptObject);
        }
        let oid = sub_vec(payload, pos + 5, pos + 45);
        proof {
            assert(oid@ =~= s.subrange(5, 45));
        }
        if !crate::refs::looks_like_oid(&oid) {
            return Err(GitError::CorruptObject);
        }
        if payload[pos + 45] != 0x20u8 {
            proof {
                assert(s[45] == payload@[pos + 45]);
            }
            return Err(GitError::CorruptObject);
        }
        proof {
            assert(s[4] == payload@[pos + 4]);
            assert(s[45] == payload@[pos + 45]);
        }
        let mut j: usize = pos + 46;
        while j < payload.len() && payload[j] != 0x0au8
            invariant
                pos + 46 <= j <= payload@.len(),
                forall|q: int| pos + 46 <= q < j ==> payload@[q] != 0x0a,
            decreases payload@.len() - j,
        {
            j = j + 1;
        }
        let ghost tail = s.skip(46);
        if j == payload.len() {
            proof {
                assert forall|q: int| 0 <= q < tail.len() implies tail[q] != 0x0a by {
                    assert(tail[q] == payload@[pos + 46 + q]);
                }
                lemma_first_nl_range(tail);
            }
            return Err(GitError::CorruptObject);
        }
        let ghost k = j - (pos + 46);
        proof {
            assert(tail[k] == payload@[j as int]);
            assert forall|q: int| 0 <= q < k implies tail[q] != 0x0a by {
                assert(tail[q] == payload@[pos + 46 + q]);
            }
            lemma_first_nl_at(tail, k);
        }
        if j == pos + 46 {
            return Err(GitError::CorruptObject);
        }
        let name = sub_vec(payload, pos + 46, j);
        proof {
            assert(name@ =~= s.subrange(46, 46 + k));
            assert(payload@.skip(j + 1) =~= s.skip(46 + k + 1));
        }
        out.push(TreeEntry { t, oid, name });
        pos = j + 1;
        proof {
            assert(records_view(out@) =~= prefix.push(
                (t, s.subrange(5, 45), s.subrange(46, 46 + k)),
            ));
            let rec = (t, s.subrange(5, 45), s.subrange(46, 46 + k));
            match parse_tree(payload@.skip(pos as int)) {
                None => {},
                Some(rest) => {
                    assert(prefix + (seq![rec] + rest) =~= (prefix.push(rec)) + rest);
                },
            }
        }
    }
}

/// Lexicographic comparison: whether `a` is at or before `b`.
pub fn bytes_le_fn(a: &Vec<u8>, b: &Vec<u8>) -> (r: bool)
    ensures
        r == bytes_le(a@, b@),
{
    let mut i: usize = 0;
    proof {
        assert(a@.skip(0) =~= a@);
        assert(b@.skip(0) =~= b@);
    }
    loop
        invariant
            0 <= i <= a@.len(),
            i <= b@.len(),
            bytes_le(a@, b@) == bytes_le(a@.skip(i as int), b@.skip(i as int)),
        decreases a@.len() - i,
    {
        let ghost sa = a@.skip(i as int);
        let ghost sb = b@.skip(i as int);
        if i == a.len() {
            proof {
                assert(sa.len() == 0);
            }
            return true;
        }
        if i == b.len() {
            proof {
                assert(sb.len() == 0 && sa.len() > 0);
            }
            return false;
        }
        proof {
            assert(sa[0] == a@[i as int]);
            assert(sb[0] == b@[i as int]);
        }
        if a[i] < b[i] {
            return true;
        }
        if a[i] > b[i] {
            return false;
        }
        proof {
            assert(sa.drop_first() =~= a@.skip(i + 1));
            assert(sb.drop_first() =~= b@.skip(i + 1));
        }
        i = i + 1;
    }
}

/// Strict lexicographic comparison.
pub fn bytes_lt_fn(a: &Vec<u8>, b: &Vec<u8>) -> (r: bool)
    ensures
        r == bytes_lt(a@, b@),
{
    let le = bytes_le_fn(a, b);
    let eq = bytes_eq(a, b);
    le && !eq
}

proof fn lemma_insert_record_at(
    rs: Seq<(ObjectType, Seq<u8>, Seq<u8>)>,
    r: (ObjectType, Seq<u8>, Seq<u8>),
    idx: int,
)
    requires
        0 <= idx <= rs.len(),
        forall|p: int| 0 <= p < idx ==> !bytes_lt(r.2, (#[trigger] rs[p]).2),
        idx < rs.len() ==> bytes_lt(r.2, rs[idx].2),
    ensures
        insert_record(rs, r) == rs.insert(idx, r),
    decreases idx,
{
    if rs.len() == 0 {
        assert(seq![r] =~= rs.insert(0, r));
    } else if idx == 0 {
        assert(seq![r] + rs =~= rs.insert(0, r));
    } else {
        let rest = rs.drop_first();
        assert forall|p: int| 0 <= p < idx - 1 implies !bytes_lt(r.2, (#[trigger] rest[p]).2) by {
            assert(rest[p] == rs[p + 1]);
        }
        if idx - 1 < rest.len() {
            assert(rest[idx - 1] == rs[idx]);
        }
        lemma_insert_record_at(rest, r, idx - 1);
        assert(seq![rs[0]] + rest.insert(idx - 1, r) =~= rs.insert(idx, r));
    }
}

/// Tree canonicalization, one directory level at a time. Whatever
/// order a directory's records arrive in, the stored payload holds
/// them sorted by name; reading that payload back yields exactly the
/// stored records; and writing the read-back records again re-sorts a
/// sorted sequence — a no-op — so the re-written payload, and with it
/// the tree's identifier, is byte-identical to the first.
pub proof fn lemma_tree_canonicalization(rs: Seq<(ObjectType, Seq<u8>, Seq<u8>)>)
    requires
        records_valid(rs),
    ensures
        records_sorted(sort_records(rs)),
        parse_tree(tree_payload(sort_records(rs))) == Some(sort_records(rs)),
        tree_payload(sort_records(sort_records(rs))) == tree_payload(sort_records(rs)),
{
    let stored = sort_records(rs);
    lemma_sort_records_sorted(rs);
    lemma_sort_preserves_valid(rs);
    lemma_parse_tree_payload(stored);
    lemma_sort_records_of_sorted(stored);
}

/// Sorting keeps every record valid: the output is a permutation of
/// the input.
pub proof fn lemma_sort_preserves_valid(rs: Seq<(ObjectType, Seq<u8>, Seq<u8>)>)
    requires
        records_valid(rs),
    ensures
        records_valid(sort_records(rs)),
{
    let stored = sort_records(rs);
    lemma_sort_records_sorted(rs);
    assert forall|i: int| 0 <= i < stored.len() implies record_valid(#[trigger] stored[i]) by {
        stored.to_multiset_ensures();
        rs.to_multiset_ensures();
        assert(stored.contains(stored[i]));
        assert(stored.to_multiset().count(stored[i]) > 0);
        assert(rs.contains(stored[i]));
        let j = choose|j: int| 0 <= j < rs.len() && rs[j] == stored[i];
        assert(record_valid(rs[j]));
    }
}

/// Every record of a sorted permutation comes from the input, and the
/// other way round.
pub proof fn lemma_sort_records_exchange(rs: Seq<(ObjectType, Seq<u8>, Seq<u8>)>, i: int)
    requires
        0 <= i < sort_records(rs).len(),
    ensures
        exists|j: int| 0 <= j < rs.len() && rs[j] == sort_records(rs)[i],
{
    let stored = sort_records(rs);
    lemma_sort_records_sorted(rs);
    stored.to_multiset_ensures();
    rs.to_multiset_ensures();
    assert(stored.contains(stored[i]));
    assert(stored.to_multiset().count(stored[i]) > 0);
    assert(rs.contains(stored[i]));
}

/// The position where a name belongs in name-sorted entries: past
/// every entry it is not strictly before.
fn find_insert_pos(out: &Vec<TreeEntry>, name: &Vec<u8>) -> (idx: usize)
    ensures
        0 <= idx <= out@.len(),
        forall|p: int| 0 <= p < idx ==> !bytes_lt(name@, (#[trigger] out@[p]).name@),
        idx < out@.len() ==> bytes_lt(name@, out@[idx as int].name@),
{
    let mut idx: usize = 0;
    while idx < out.len()
        invariant
            0 <= idx <= out@.len(),
            forall|p: int| 0 <= p < idx ==> !bytes_lt(name@, (#[trigger] out@[p]).name@),
        decreases out@.len() - idx,
    {
        if bytes_lt_fn(name, &out[idx].name) {
            return idx;
        }
        idx = idx + 1;
    }
    idx
}

/// Sorts directory entries into canonical name order.
pub fn sort_entries(entries: Vec<TreeEntry>) -> (r: Vec<TreeEntry>)
    ensures
        records_view(r@) == sort_records(records_view(entries@)),
{
    let mut out: Vec<TreeEntry> = Vec::new();
    let mut i: usize = 0;
    while i < entries.len()
        invariant
            0 <= i <= entries@.len(),
            records_view(out@) == sort_records(records_view(entries@.take(i as int))),
        decreases entries@.len() - i,
    {
        let ghost sorted = records_view(out@);
        let ghost rsv = records_view(entries@.take(i as int));
        proof {
            lemma_sort_records_sorted(rsv);
        }
        let e = &entries[i];
        let idx = find_insert_pos(&out, &e.name);
        proof {
            let rec = entry_record(entries@[i as int]);
            assert forall|p: int| 0 <= p < idx implies !bytes_lt(rec.2, (#[trigger] sorted[p]).2) by {
                assert(sorted[p] == entry_record(out@[p]));
            }
            if (idx as int) < sorted.len() {
                assert(sorted[idx as int] == entry_record(out@[idx as int]));
            }
            lemma_insert_record_at(sorted, rec, idx as int);
        }
        let item = TreeEntry {
            t: e.t,
            oid: clone_bytes_fn(&e.oid),
            name: clone_bytes_fn(&e.name),
        };
        out.insert(idx, item);
        proof {
            let rec = entry_record(entries@[i as int]);
            assert(records_view(out@) =~= sorted.insert(idx as int, rec));
            assert(records_view(entries@.take(i + 1)) =~= rsv.push(rec));
            assert(rsv.push(rec).drop_last() =~= rsv);
            assert(rsv.push(rec).last() == rec);
            assert(sort_records(rsv.push(rec)) == insert_record(sort_records(rsv), rec));
        }
        i = i + 1;
    }
    proof {
        assert(entries@.take(entries@.len() as int) =~= entries@);
    }
    out
}

} // verus!
