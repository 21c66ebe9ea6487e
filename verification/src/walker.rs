//! The tree builder and walker: between directory values and stored
//! tree objects.
//!
//! `write_tree` turns a directory value into tree objects bottom-up —
//! children first, since a tree's encoding embeds its children's
//! identifiers — and returns the root identifier. `read_tree` is the
//! inverse: it materializes the directory value a stored tree
//! identifier reaches, failing loudly on any missing or corrupt
//! object.

use crate::bytes::clone_bytes_fn;
use crate::codec::{encode_spec, GitError, ObjectType};
use crate::digest::oid_of;
use crate::store::{get_spec, put_spec, Store};
use crate::tree::{
    decode_tree, encode_tree, parse_tree, records_view, sort_entries, sort_records, tree_payload,
    TreeEntry,
};
use vstd::prelude::*;

verus! {

/// A directory value: what the working directory holds, as plain
/// data. A file carries its contents; a directory carries named
/// children.
#[derive(Debug)]
pub enum FsNode {
    File { contents: Vec<u8> },
    Dir { entries: Vec<FsEntry> },
}

/// One named child of a directory value.
#[derive(Debug)]
pub struct FsEntry {
    pub name: Vec<u8>,
    pub node: FsNode,
}

/// The mathematical form of a directory value.
pub enum FsTree {
    File { contents: Seq<u8> },
    Dir { entries: Seq<FsTreeEntry> },
}

/// One named child, in mathematical form.
pub struct FsTreeEntry {
    pub name: Seq<u8>,
    pub node: FsTree,
}

/// The view of a directory value.
pub open spec fn node_view(n: FsNode) -> FsTree
    decreases n,
{
    match n {
        FsNode::File { contents } => FsTree::File { contents: contents@ },
        FsNode::Dir { entries } => FsTree::Dir { entries: entries_view(entries@) },
    }
}

/// The view of a sequence of children.
pub open spec fn entries_view(s: Seq<FsEntry>) -> Seq<FsTreeEntry>
    decreases s,
{
    if s.len() == 0 {
        Seq::empty()
    } else {
        entries_view(s.drop_last()).push(
            FsTreeEntry { name: s.last().name@, node: node_view(s.last().node) },
        )
    }
}

/// The kind of object a node is stored as.
pub open spec fn node_kind(t: FsTree) -> ObjectType {
    match t {
        FsTree::File { .. } => ObjectType::Blob,
        FsTree::Dir { .. } => ObjectType::Tree,
    }
}

/// The encoded bytes a node is stored as: its blob encoding for a
/// file, its tree encoding — records in canonical name order — for a
/// directory.
pub open spec fn node_enc(t: FsTree) -> Seq<u8>
    decreases t, 0int,
{
    match t {
        FsTree::File { contents } => encode_spec(ObjectType::Blob, contents),
        FsTree::Dir { entries } => encode_spec(
            ObjectType::Tree,
            tree_payload(sort_records(records_of(entries))),
        ),
    }
}

/// The identifier a node is stored under: the digest of its encoded
/// bytes, a Merkle hash of the whole subtree.
pub open spec fn node_oid(t: FsTree) -> Seq<u8>
    decreases t, 1int,
{
    oid_of(node_enc(t))
}

/// The tree records of a directory's children, in the order given.
pub open spec fn records_of(s: Seq<FsTreeEntry>) -> Seq<(ObjectType, Seq<u8>, Seq<u8>)>
    decreases s, 2int,
{
    if s.len() == 0 {
        Seq::empty()
    } else {
        records_of(s.drop_last()).push(
            (node_kind(s.last().node), node_oid(s.last().node), s.last().name),
        )
    }
}

/// The store a tree write leaves behind: every node of the subtree
/// stored under its identifier, children before parents.
pub open spec fn write_objects(m: Map<Seq<u8>, Seq<u8>>, t: FsTree) -> Map<Seq<u8>, Seq<u8>>
    decreases t,
{
    match t {
        FsTree::File { contents } => put_spec(m, ObjectType::Blob, contents),
        FsTree::Dir { entries } => put_spec(
            write_entries(m, entries),
            ObjectType::Tree,
            tree_payload(sort_records(records_of(entries))),
        ),
    }
}

/// The store after writing each child's subtree, left to right.
pub open spec fn write_entries(m: Map<Seq<u8>, Seq<u8>>, s: Seq<FsTreeEntry>) -> Map<
    Seq<u8>,
    Seq<u8>,
>
    decreases s,
{
    if s.len() == 0 {
        m
    } else {
        write_objects(write_entries(m, s.drop_last()), s.last().node)
    }
}

/// Stores the subtree under `node` bottom-up and returns the root's
/// identifier: blobs for files, then one tree object per directory,
/// its records in canonical name order. The identifier depends on the
/// directory value alone, never on the store or on entry order.
pub fn write_tree(store: &mut Store, node: &FsNode) -> (oid: Vec<u8>)
    requires
        old(store).wf(),
    ensures
        final(store).wf(),
        oid@ == node_oid(node_view(*node)),
        final(store)@ == write_objects(old(store)@, node_view(*node)),
        final(store)@.contains_key(oid@),
    decreases *node,
{
    match node {
        FsNode::File { contents } => store.hash_object(contents, ObjectType::Blob),
        FsNode::Dir { entries } => {
            let mut recs: Vec<TreeEntry> = Vec::new();
            let mut i: usize = 0;
            while i < entries.len()
                invariant
                    store.wf(),
                    0 <= i <= entries@.len(),
                    store@ == write_entries(old(store)@, entries_view(entries@.take(i as int))),
                    records_view(recs@) == records_of(entries_view(entries@.take(i as int))),
                    *node == (FsNode::Dir { entries: *entries }),
                decreases entries@.len() - i,
            {
                let e = &entries[i];
                let t = match &e.node {
                    FsNode::File { .. } => ObjectType::Blob,
                    FsNode::Dir { .. } => ObjectType::Tree,
                };
                proof {
                    assert((*node)->Dir_entries == *entries);
                    assert(decreases_to!(*node => (*node)->Dir_entries));
                    assert(decreases_to!(*entries => entries@));
                    assert(decreases_to!(entries@ => entries@[i as int]));
                    assert(decreases_to!(entries@[i as int] => entries@[i as int].node));
                    assert(decreases_to!(*node => entries@[i as int].node));
                }
                let coid = write_tree(store, &e.node);
                recs.push(TreeEntry { t, oid: coid, name: clone_bytes_fn(&e.name) });
                proof {
                    let pre = entries_view(entries@.take(i as int));
                    let post = entries_view(entries@.take(i + 1));
                    assert(entries@.take(i + 1).drop_last() =~= entries@.take(i as int));
                    assert(entries@.take(i + 1).last() == entries@[i as int]);
                    assert(post.drop_last() =~= pre);
                    assert(records_view(recs@) =~= records_of(post));
                }
                i = i + 1;
            }
            proof {
                assert(entries@.take(entries@.len() as int) =~= entries@);
            }
            let sorted = sort_entries(recs);
            let payload = encode_tree(&sorted);
            store.hash_object(&payload, ObjectType::Tree)
        },
    }
}

/// What materializing a stored tree yields: the directory value the
/// identifier reaches. `fuel` bounds the depth; a deeper (and so,
/// with a sound chain of digests, cyclic) tree reports
/// `CorruptObject`.
pub open spec fn read_tree_spec(m: Map<Seq<u8>, Seq<u8>>, oid: Seq<u8>, fuel: nat) -> Result<
    FsTree,
    GitError,
>
    decreases fuel, 0int,
{
    if fuel == 0 {
        Err(GitError::CorruptObject)
    } else {
        match get_spec(m, oid, Some(ObjectType::Tree)) {
            Err(e) => Err(e),
            Ok((t, payload)) => match parse_tree(payload) {
                None => Err(GitError::CorruptObject),
                Some(rs) => match read_records_spec(m, rs, (fuel - 1) as nat) {
                    Err(e) => Err(e),
                    Ok(es) => Ok(FsTree::Dir { entries: es }),
                },
            },
        }
    }
}

/// Materializes each record of a tree in turn.
pub open spec fn read_records_spec(
    m: Map<Seq<u8>, Seq<u8>>,
    rs: Seq<(ObjectType, Seq<u8>, Seq<u8>)>,
    fuel: nat,
) -> Result<Seq<FsTreeEntry>, GitError>
    decreases fuel, rs.len(),
{
    if rs.len() == 0 {
        Ok(Seq::empty())
    } else {
        let child = if rs[0].0 == ObjectType::Blob {
            match get_spec(m, rs[0].1, Some(ObjectType::Blob)) {
                Err(e) => Err(e),
                Ok((t, c)) => Ok(FsTree::File { contents: c }),
            }
        } else if rs[0].0 == ObjectType::Tree {
            read_tree_spec(m, rs[0].1, fuel)
        } else {
            Err(GitError::CorruptObject)
        };
        match child {
            Err(e) => Err(e),
            Ok(cn) => match read_records_spec(m, rs.drop_first(), fuel) {
                Err(e) => Err(e),
                Ok(rest) => Ok(seq![FsTreeEntry { name: rs[0].2, node: cn }] + rest),
            },
        }
    }
}

/// Whether a node's names are fit for tree records: nonempty, free of
/// newlines, all the way down.
pub open spec fn node_valid(t: FsTree) -> bool
    decreases t,
{
    match t {
        FsTree::File { .. } => true,
        FsTree::Dir { entries } => entries_valid(entries),
    }
}

pub open spec fn entries_valid(s: Seq<FsTreeEntry>) -> bool
    decreases s,
{
    if s.len() == 0 {
        true
    } else {
        entries_valid(s.drop_last()) && s.last().name.len() >= 1 && (forall|i: int|
            0 <= i < s.last().name.len() ==> s.last().name[i] != 0x0a) && node_valid(s.last().node)
    }
}

/// The encodings of every object in a subtree.
pub open spec fn subtree_encs(t: FsTree) -> Set<Seq<u8>>
    decreases t,
{
    match t {
        FsTree::File { .. } => Set::empty().insert(node_enc(t)),
        FsTree::Dir { entries } => entries_encs(entries).insert(node_enc(t)),
    }
}

pub open spec fn entries_encs(s: Seq<FsTreeEntry>) -> Set<Seq<u8>>
    decreases s,
{
    if s.len() == 0 {
        Set::empty()
    } else {
        entries_encs(s.drop_last()).union(subtree_encs(s.last().node))
    }
}

/// What this library assumes of the digest over a family `encs` of
/// encodings and a store `m`: the digest is 20 bytes wide, no two
/// distinct encodings of the family collide, and nothing already in
/// the store squats on one of the family's identifiers with other
/// bytes. Every clause holds of a real collision-resistant digest
/// with overwhelming probability.
pub open spec fn digest_sound(m: Map<Seq<u8>, Seq<u8>>, encs: Set<Seq<u8>>) -> bool {
    &&& forall|e: Seq<u8>| encs.contains(e) ==> (#[trigger] crate::digest::sha1_of(e)).len() == 20
    &&& forall|e1: Seq<u8>, e2: Seq<u8>|
        encs.contains(e1) && encs.contains(e2) && oid_of(e1) == oid_of(e2) ==> e1 == e2
    &&& forall|e: Seq<u8>|
        #[trigger] encs.contains(e) && m.contains_key(oid_of(e)) ==> m[oid_of(e)] == e
}

/// Every node of the subtree sits in the store under its identifier,
/// holding exactly its encoding.
pub open spec fn tree_stored(m: Map<Seq<u8>, Seq<u8>>, t: FsTree) -> bool
    decreases t,
{
    &&& m.contains_key(node_oid(t))
    &&& m[node_oid(t)] == node_enc(t)
    &&& match t {
        FsTree::File { .. } => true,
        FsTree::Dir { entries } => entries_stored(m, entries),
    }
}

pub open spec fn entries_stored(m: Map<Seq<u8>, Seq<u8>>, s: Seq<FsTreeEntry>) -> bool
    decreases s,
{
    if s.len() == 0 {
        true
    } else {
        entries_stored(m, s.drop_last()) && tree_stored(m, s.last().node)
    }
}

/// One store extends another: every key of the first is kept, with
/// its value.
pub open spec fn store_extends(m1: Map<Seq<u8>, Seq<u8>>, m2: Map<Seq<u8>, Seq<u8>>) -> bool {
    forall|k: Seq<u8>|
        #[trigger] m1.contains_key(k) ==> m2.contains_key(k) && m2[k] == m1[k]
}

pub proof fn lemma_tree_stored_monotone(m1: Map<Seq<u8>, Seq<u8>>, m2: Map<Seq<u8>, Seq<u8>>, t: FsTree)
    requires
        tree_stored(m1, t),
        store_extends(m1, m2),
    ensures
        tree_stored(m2, t),
    decreases t, 0int,
{
    match t {
        FsTree::File { .. } => {},
        FsTree::Dir { entries } => {
            lemma_entries_stored_monotone(m1, m2, entries);
        },
    }
}

proof fn lemma_entries_stored_monotone(
    m1: Map<Seq<u8>, Seq<u8>>,
    m2: Map<Seq<u8>, Seq<u8>>,
    s: Seq<FsTreeEntry>,
)
    requires
        entries_stored(m1, s),
        store_extends(m1, m2),
    ensures
        entries_stored(m2, s),
    decreases s, 1int,
{
    if s.len() > 0 {
        lemma_entries_stored_monotone(m1, m2, s.drop_last());
        lemma_tree_stored_monotone(m1, m2, s.last().node);
    }
}

/// One write of a family member lands under its identifier, keeps
/// everything present, and keeps the digest sound for the family.
pub proof fn lemma_put_sound(
    m: Map<Seq<u8>, Seq<u8>>,
    t: ObjectType,
    contents: Seq<u8>,
    encs: Set<Seq<u8>>,
)
    requires
        digest_sound(m, encs),
        encs.contains(encode_spec(t, contents)),
    ensures
        digest_sound(put_spec(m, t, contents), encs),
        store_extends(m, put_spec(m, t, contents)),
        put_spec(m, t, contents).contains_key(oid_of(encode_spec(t, contents))),
        put_spec(m, t, contents)[oid_of(encode_spec(t, contents))] == encode_spec(t, contents),
{
}

/// Writing a subtree stores every one of its nodes under its
/// identifier, adds nothing else, and disturbs nothing present —
/// granted a digest sound for the subtree's encodings.
pub proof fn lemma_write_tree_stores(
    m: Map<Seq<u8>, Seq<u8>>,
    t: FsTree,
    encs: Set<Seq<u8>>,
)
    requires
        digest_sound(m, encs),
        subtree_encs(t).subset_of(encs),
    ensures
        tree_stored(write_objects(m, t), t),
        store_extends(m, write_objects(m, t)),
        digest_sound(write_objects(m, t), encs),
    decreases t, 0int,
{
    match t {
        FsTree::File { contents } => {
            assert(subtree_encs(t).contains(node_enc(t)));
        },
        FsTree::Dir { entries } => {
            assert(subtree_encs(t).contains(node_enc(t)));
            assert(entries_encs(entries).subset_of(subtree_encs(t))) by {
                assert forall|e: Seq<u8>| entries_encs(entries).contains(e) implies subtree_encs(
                    t,
                ).contains(e) by {}
            }
            lemma_write_entries_stores(m, entries, encs);
            let m1 = write_entries(m, entries);
            let m2 = write_objects(m, t);
            lemma_entries_stored_monotone(m1, m2, entries);
        },
    }
}

proof fn lemma_write_entries_stores(
    m: Map<Seq<u8>, Seq<u8>>,
    s: Seq<FsTreeEntry>,
    encs: Set<Seq<u8>>,
)
    requires
        digest_sound(m, encs),
        entries_encs(s).subset_of(encs),
    ensures
        entries_stored(write_entries(m, s), s),
        store_extends(m, write_entries(m, s)),
        digest_sound(write_entries(m, s), encs),
    decreases s, 1int,
{
    if s.len() > 0 {
        assert(entries_encs(s.drop_last()).subset_of(entries_encs(s))) by {
            assert forall|e: Seq<u8>| entries_encs(s.drop_last()).contains(e) implies entries_encs(
                s,
            ).contains(e) by {}
        }
        assert(subtree_encs(s.last().node).subset_of(entries_encs(s))) by {
            assert forall|e: Seq<u8>|
                subtree_encs(s.last().node).contains(e) implies entries_encs(s).contains(e) by {}
        }
        lemma_write_entries_stores(m, s.drop_last(), encs);
        let m1 = write_entries(m, s.drop_last());
        lemma_write_tree_stores(m1, s.last().node, encs);
        let m2 = write_entries(m, s);
        lemma_entries_stored_monotone(m1, m2, s.drop_last());
    }
}

/// The record one child contributes to its parent's tree object.
pub open spec fn entry_rec(en: FsTreeEntry) -> (ObjectType, Seq<u8>, Seq<u8>) {
    (node_kind(en.node), node_oid(en.node), en.name)
}

/// The height of a subtree: how many directory levels a read must
/// descend.
pub open spec fn height(t: FsTree) -> nat
    decreases t, 0int,
{
    match t {
        FsTree::File { .. } => 1,
        FsTree::Dir { entries } => 1 + entries_height(entries),
    }
}

pub open spec fn entries_height(s: Seq<FsTreeEntry>) -> nat
    decreases s, 1int,
{
    if s.len() == 0 {
        0
    } else if entries_height(s.drop_last()) >= height(s.last().node) {
        entries_height(s.drop_last())
    } else {
        height(s.last().node)
    }
}

proof fn lemma_records_of_index(s: Seq<FsTreeEntry>)
    ensures
        records_of(s).len() == s.len(),
        forall|i: int| 0 <= i < s.len() ==> records_of(s)[i] == entry_rec(#[trigger] s[i]),
    decreases s,
{
    if s.len() > 0 {
        lemma_records_of_index(s.drop_last());
        assert forall|i: int| 0 <= i < s.len() implies records_of(s)[i] == entry_rec(
            #[trigger] s[i],
        ) by {
            if i < s.len() - 1 {
                assert(s.drop_last()[i] == s[i]);
                assert(records_of(s)[i] == records_of(s.drop_last())[i]);
            } else {
                assert(s[i] == s.last());
            }
        }
    }
}

proof fn lemma_entries_stored_index(m: Map<Seq<u8>, Seq<u8>>, s: Seq<FsTreeEntry>, i: int)
    requires
        entries_stored(m, s),
        0 <= i < s.len(),
    ensures
        tree_stored(m, s[i].node),
    decreases s,
{
    if i < s.len() - 1 {
        lemma_entries_stored_index(m, s.drop_last(), i);
        assert(s.drop_last()[i] == s[i]);
    } else {
        assert(s[i] == s.last());
    }
}

proof fn lemma_entries_valid_index(s: Seq<FsTreeEntry>, i: int)
    requires
        entries_valid(s),
        0 <= i < s.len(),
    ensures
        node_valid(s[i].node),
        s[i].name.len() >= 1,
        forall|q: int| 0 <= q < s[i].name.len() ==> s[i].name[q] != 0x0a,
    decreases s,
{
    if i < s.len() - 1 {
        lemma_entries_valid_index(s.drop_last(), i);
        assert(s.drop_last()[i] == s[i]);
    } else {
        assert(s[i] == s.last());
    }
}

proof fn lemma_entries_encs_index(s: Seq<FsTreeEntry>, i: int)
    requires
        0 <= i < s.len(),
    ensures
        subtree_encs(s[i].node).subset_of(entries_encs(s)),
    decreases s,
{
    if i < s.len() - 1 {
        lemma_entries_encs_index(s.drop_last(), i);
        assert(s.drop_last()[i] == s[i]);
        assert forall|e: Seq<u8>| subtree_encs(s[i].node).contains(e) implies entries_encs(
            s,
        ).contains(e) by {
            assert(entries_encs(s.drop_last()).contains(e));
        }
    } else {
        assert(s[i] == s.last());
        assert forall|e: Seq<u8>| subtree_encs(s[i].node).contains(e) implies entries_encs(
            s,
        ).contains(e) by {}
    }
}

proof fn lemma_entries_height_index(s: Seq<FsTreeEntry>, i: int)
    requires
        0 <= i < s.len(),
    ensures
        height(s[i].node) <= entries_height(s),
    decreases s,
{
    if i < s.len() - 1 {
        lemma_entries_height_index(s.drop_last(), i);
        assert(s.drop_last()[i] == s[i]);
    } else {
        assert(s[i] == s.last());
    }
}

/// Reading a stored subtree back succeeds and yields a directory
/// value with the identical Merkle hash: the stored records are
/// already canonical, so re-hashing what was read changes nothing.
pub proof fn lemma_read_tree_stored(
    m: Map<Seq<u8>, Seq<u8>>,
    t: FsTree,
    encs: Set<Seq<u8>>,
    fuel: nat,
)
    requires
        t is Dir,
        tree_stored(m, t),
        node_valid(t),
        subtree_encs(t).subset_of(encs),
        digest_sound(m, encs),
        fuel >= height(t),
    ensures
        match read_tree_spec(m, node_oid(t), fuel) {
            Ok(t2) => node_oid(t2) == node_oid(t),
            Err(e) => false,
        },
    decreases t, 0int, 0int,
{
    let es = t->Dir_entries;
    let rsv = records_of(es);
    let srs = sort_records(rsv);
    crate::codec::lemma_decode_encode(ObjectType::Tree, tree_payload(srs));
    lemma_records_of_index(es);
    assert forall|i: int| 0 <= i < rsv.len() implies crate::tree::record_valid(
        #[trigger] rsv[i],
    ) by {
        lemma_entries_valid_index(es, i);
        lemma_entries_encs_index(es, i);
        assert(subtree_encs(es[i].node).contains(node_enc(es[i].node)));
        assert(encs.contains(node_enc(es[i].node)));
        crate::digest::lemma_is_oid_of(node_enc(es[i].node));
        assert(rsv[i] == entry_rec(es[i]));
    }
    crate::tree::lemma_sort_preserves_valid(rsv);
    crate::tree::lemma_parse_tree_payload(srs);
    crate::tree::lemma_sort_records_sorted(rsv);
    assert forall|i: int| 0 <= i < srs.len() implies exists|j: int|
        0 <= j < es.len() && #[trigger] srs[i] == entry_rec(es[j]) by {
        crate::tree::lemma_sort_records_exchange(rsv, i);
        let j = choose|j: int| 0 <= j < rsv.len() && rsv[j] == srs[i];
        assert(srs[i] == entry_rec(es[j]));
    }
    lemma_read_records_stored(m, es, srs, encs, (fuel - 1) as nat);
    match read_records_spec(m, srs, (fuel - 1) as nat) {
        Err(e) => {
            assert(false);
        },
        Ok(es2) => {
            lemma_records_of_index(es2);
            assert forall|i: int| 0 <= i < srs.len() implies records_of(es2)[i] == srs[i] by {
                assert(records_of(es2)[i] == entry_rec(es2[i]));
                let (a, b, c) = srs[i];
                assert(entry_rec(es2[i]) == (a, b, c));
            }
            assert(records_of(es2) =~= srs);
            crate::tree::lemma_sort_records_of_sorted(srs);
        },
    }
}

proof fn lemma_read_records_stored(
    m: Map<Seq<u8>, Seq<u8>>,
    es: Seq<FsTreeEntry>,
    rs: Seq<(ObjectType, Seq<u8>, Seq<u8>)>,
    encs: Set<Seq<u8>>,
    fuel: nat,
)
    requires
        entries_stored(m, es),
        entries_valid(es),
        entries_encs(es).subset_of(encs),
        digest_sound(m, encs),
        fuel >= entries_height(es),
        forall|i: int|
            0 <= i < rs.len() ==> exists|j: int| 0 <= j < es.len() && #[trigger] rs[i] == entry_rec(
                es[j],
            ),
    ensures
        match read_records_spec(m, rs, fuel) {
            Ok(es2) => es2.len() == rs.len() && forall|i: int|
                0 <= i < rs.len() ==> (#[trigger] es2[i]).name == rs[i].2 && node_kind(es2[i].node)
                    == rs[i].0 && node_oid(es2[i].node) == rs[i].1,
            Err(e) => false,
        },
    decreases es, 1int, rs.len(),
{
    if rs.len() > 0 {
        let j = choose|j: int| 0 <= j < es.len() && rs[0] == entry_rec(es[j]);
        let child = es[j].node;
        lemma_entries_stored_index(m, es, j);
        lemma_entries_valid_index(es, j);
        lemma_entries_encs_index(es, j);
        lemma_entries_height_index(es, j);
        match child {
            FsTree::File { contents } => {
                crate::codec::lemma_decode_encode(ObjectType::Blob, contents);
                assert(rs[0].0 == ObjectType::Blob);
                assert(get_spec(m, rs[0].1, Some(ObjectType::Blob)) == Ok::<_, GitError>(
                    (ObjectType::Blob, contents),
                ));
            },
            FsTree::Dir { entries } => {
                assert(rs[0].0 == ObjectType::Tree);
                assert(subtree_encs(child).subset_of(encs)) by {
                    assert forall|e: Seq<u8>| subtree_encs(child).contains(e) implies encs.contains(
                        e,
                    ) by {
                        assert(entries_encs(es).contains(e));
                    }
                }
                lemma_read_tree_stored(m, child, encs, fuel);
            },
        }
        assert forall|i: int|
            0 <= i < rs.drop_first().len() implies exists|jj: int|
            0 <= jj < es.len() && #[trigger] rs.drop_first()[i] == entry_rec(es[jj]) by {
            assert(rs.drop_first()[i] == rs[i + 1]);
            let jj = choose|jj: int| 0 <= jj < es.len() && rs[i + 1] == entry_rec(es[jj]);
            assert(rs.drop_first()[i] == entry_rec(es[jj]));
        }
        lemma_read_records_stored(m, es, rs.drop_first(), encs, fuel);
        match read_records_spec(m, rs, fuel) {
            Err(e) => {
                assert(false);
            },
            Ok(es2) => {
                let rest = read_records_spec(m, rs.drop_first(), fuel);
                assert forall|i: int|
                    0 <= i < rs.len() implies (#[trigger] es2[i]).name == rs[i].2 && node_kind(
                    es2[i].node,
                ) == rs[i].0 && node_oid(es2[i].node) == rs[i].1 by {
                    if i > 0 {
                        assert(es2[i] == rest->Ok_0[i - 1]);
                        assert(rs.drop_first()[i - 1] == rs[i]);
                    }
                }
            },
        }
    }
}

/// Tree canonicalization, whole subtrees at a time: writing a
/// directory value, reading the root identifier back, and re-hashing
/// what was read yields the identical root identifier, whatever order
/// the entries arrived in. The digest soundness premises hold of a
/// collision-resistant digest with overwhelming probability.
pub proof fn lemma_write_read_rewrite(
    m: Map<Seq<u8>, Seq<u8>>,
    t: FsTree,
    encs: Set<Seq<u8>>,
    fuel: nat,
)
    requires
        t is Dir,
        node_valid(t),
        subtree_encs(t).subset_of(encs),
        digest_sound(m, encs),
        fuel >= height(t),
    ensures
        match read_tree_spec(write_objects(m, t), node_oid(t), fuel) {
            Ok(t2) => node_oid(t2) == node_oid(t),
            Err(e) => false,
        },
{
    lemma_write_tree_stores(m, t, encs);
    lemma_read_tree_stored(write_objects(m, t), t, encs, fuel);
}

/// Splices materialized children onto those a read still owes.
pub open spec fn read_glue(prefix: Seq<FsTreeEntry>, rest: Result<Seq<FsTreeEntry>, GitError>) -> Result<
    Seq<FsTreeEntry>,
    GitError,
> {
    match rest {
        Err(e) => Err(e),
        Ok(tail) => Ok(prefix + tail),
    }
}

/// Materializes the directory value under a stored tree identifier.
/// Every child is read from the store; any missing or corrupt object
/// aborts the whole restore. `depth` bounds the tree depth walked.
pub fn read_tree(store: &Store, oid: &Vec<u8>, depth: usize) -> (r: Result<FsNode, GitError>)
    requires
        store.wf(),
    ensures
        match r {
            Ok(node) => read_tree_spec(store@, oid@, depth as nat) == Ok::<_, GitError>(
                node_view(node),
            ),
            Err(e) => read_tree_spec(store@, oid@, depth as nat) == Err::<FsTree, _>(e),
        },
    decreases depth,
{
    if depth == 0 {
        return Err(GitError::CorruptObject);
    }
    let obj = match store.get_object(oid, Some(ObjectType::Tree)) {
        Ok(obj) => obj,
        Err(e) => {
            return Err(e);
        },
    };
    let recs = match decode_tree(&obj.contents) {
        Ok(recs) => recs,
        Err(e) => {
            return Err(e);
        },
    };
    let ghost rsv = records_view(recs@);
    let ghost fuel = (depth - 1) as nat;
    let mut out: Vec<FsEntry> = Vec::new();
    let mut i: usize = 0;
    proof {
        assert(rsv.skip(0) =~= rsv);
        match read_records_spec(store@, rsv, fuel) {
            Err(e) => {},
            Ok(tail) => {
                assert(entries_view(out@) + tail =~= tail);
            },
        }
    }
    while i < recs.len()
        invariant
            store.wf(),
            0 <= i <= recs@.len(),
            rsv == records_view(recs@),
            fuel == (depth - 1) as nat,
            depth >= 1,
            read_tree_spec(store@, oid@, depth as nat) == match read_records_spec(
                store@,
                rsv,
                fuel,
            ) {
                Err(e) => Err::<FsTree, GitError>(e),
                Ok(es) => Ok(FsTree::Dir { entries: es }),
            },
            read_glue(entries_view(out@), read_records_spec(store@, rsv.skip(i as int), fuel))
                == read_records_spec(store@, rsv, fuel),
        decreases recs@.len() - i,
    {
        let ghost prefix = entries_view(out@);
        let ghost srest = rsv.skip(i as int);
        proof {
            assert(srest[0] == rsv[i as int]);
            assert(srest.drop_first() =~= rsv.skip(i + 1));
        }
        let e = &recs[i];
        let child: FsNode = match e.t {
            ObjectType::Blob => {
                match store.get_object(&e.oid, Some(ObjectType::Blob)) {
                    Ok(obj) => FsNode::File { contents: obj.contents },
                    Err(err) => {
                        return Err(err);
                    },
                }
            },
            ObjectType::Tree => {
                match read_tree(store, &e.oid, depth - 1) {
                    Ok(node) => node,
                    Err(err) => {
                        return Err(err);
                    },
                }
            },
            ObjectType::Commit => {
                return Err(GitError::CorruptObject);
            },
        };
        let ghost cv = node_view(child);
        let name = clone_bytes_fn(&e.name);
        let ghost nv = name@;
        let ghost pre_out = out@;
        out.push(FsEntry { name, node: child });
        proof {
            let post = entries_view(out@);
            assert(out@.drop_last() =~= pre_out);
            assert(post =~= prefix.push(FsTreeEntry { name: nv, node: cv }));
            assert(nv == rsv[i as int].2);
            match read_records_spec(store@, rsv.skip(i + 1), fuel) {
                Err(e) => {},
                Ok(tail) => {
                    assert(prefix + (seq![FsTreeEntry { name: nv, node: cv }] + tail) =~= (
                    prefix.push(FsTreeEntry { name: nv, node: cv })) + tail);
                },
            }
        }
        i = i + 1;
    }
    proof {
        assert(rsv.skip(rsv.len() as int).len() == 0);
        match read_records_spec(store@, rsv, fuel) {
            Err(e) => {},
            Ok(tail) => {
                assert(entries_view(out@) + Seq::<FsTreeEntry>::empty() =~= entries_view(out@));
            },
        }
    }
    Ok(FsNode::Dir { entries: out })
}

} // verus!
