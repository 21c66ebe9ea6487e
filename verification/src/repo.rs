//! Whole-repository operations: snapshotting the working directory
//! into a commit, and materializing a commit back onto it.

use crate::codec::{GitError, Object};
use crate::commits::{
    commit_oid_spec, commit_store_spec, commit_tree, get_commit, get_commit_spec, head_name,
    head_name_spec, head_of,
};
use crate::digest::is_oid;
use crate::refs::{get_oid, get_oid_spec, Refs};
use crate::store::{get_spec, Store};
use crate::walker::{
    node_oid, node_view, read_tree, read_tree_spec, write_objects, write_tree, FsNode, FsTree,
};
use vstd::prelude::*;

verus! {

/// Snapshots `workdir`: writes its whole subtree bottom-up, stores a
/// commit whose tree is the root identifier and whose parent is the
/// current `HEAD` (if any), moves `HEAD` to the new commit, and
/// returns its identifier.
pub fn commit(store: &mut Store, refs: &mut Refs, workdir: &FsNode, message: &Vec<u8>) -> (oid:
    Vec<u8>)
    requires
        old(store).wf(),
        old(refs).wf(),
    ensures
        final(store).wf(),
        final(refs).wf(),
        oid@ == commit_oid_spec(node_oid(node_view(*workdir)), head_of(old(refs)@), message@),
        final(store)@ == commit_store_spec(
            write_objects(old(store)@, node_view(*workdir)),
            node_oid(node_view(*workdir)),
            head_of(old(refs)@),
            message@,
        ),
        final(store)@.contains_key(oid@),
        final(refs)@ == old(refs)@.insert(head_name_spec(), oid@),
{
    let tree_oid = write_tree(store, workdir);
    commit_tree(store, refs, &tree_oid, message)
}

/// What a checkout materializes: the input resolved to a commit, the
/// commit's tree read back as a directory value, and that commit's
/// identifier (which `HEAD` will then name).
pub open spec fn checkout_spec(
    sm: Map<Seq<u8>, Seq<u8>>,
    rm: Map<Seq<u8>, Seq<u8>>,
    input: Seq<u8>,
    fuel: nat,
) -> Result<(Seq<u8>, FsTree), GitError> {
    match get_oid_spec(sm, rm, input) {
        Err(e) => Err(e),
        Ok(oid) => match get_commit_spec(sm, oid) {
            Err(e) => Err(e),
            Ok((tree, parent, message)) => match read_tree_spec(sm, tree, fuel) {
                Err(e) => Err(e),
                Ok(t) => Ok((oid, t)),
            },
        },
    }
}

/// Resolves `input` to a commit, materializes that commit's tree as a
/// directory value, and moves `HEAD` to the commit — only after the
/// whole tree read succeeded, so `HEAD` never names unreadable state.
/// `depth` bounds the tree depth walked.
pub fn checkout(store: &Store, refs: &mut Refs, input: &Vec<u8>, depth: usize) -> (r: Result<
    FsNode,
    GitError,
>)
    requires
        store.wf(),
        old(refs).wf(),
    ensures
        final(refs).wf(),
        match r {
            Ok(node) => match checkout_spec(store@, old(refs)@, input@, depth as nat) {
                Ok((oid, t)) => node_view(node) == t && final(refs)@ == old(refs)@.insert(
                    head_name_spec(),
                    oid,
                ),
                Err(e) => false,
            },
            Err(e) => checkout_spec(store@, old(refs)@, input@, depth as nat) == Err::<
                (Seq<u8>, FsTree),
                _,
            >(e) && final(refs)@ == old(refs)@,
        },
{
    let oid = match get_oid(store, refs, input) {
        Ok(oid) => oid,
        Err(e) => {
            return Err(e);
        },
    };
    let c = match get_commit(store, &oid) {
        Ok(c) => c,
        Err(e) => {
            return Err(e);
        },
    };
    let node = match read_tree(store, &c.tree, depth) {
        Ok(node) => node,
        Err(e) => {
            return Err(e);
        },
    };
    let head = head_name();
    refs.update_ref(&head, &oid);
    Ok(node)
}

/// Checkout idempotence. Materializing a stored identifier reads only
/// the immutable object store — resolution never consults the
/// reference map for a digest with a stored object — so a second
/// checkout of the same identifier, after the first moved `HEAD` (or
/// changed the references in any other way), materializes the
/// identical working directory state.
pub proof fn lemma_checkout_idempotent(
    sm: Map<Seq<u8>, Seq<u8>>,
    rm1: Map<Seq<u8>, Seq<u8>>,
    rm2: Map<Seq<u8>, Seq<u8>>,
    oid: Seq<u8>,
    fuel: nat,
)
    requires
        is_oid(oid),
        sm.contains_key(oid),
    ensures
        checkout_spec(sm, rm1, oid, fuel) == checkout_spec(sm, rm2, oid, fuel),
{
}

/// Commit then checkout restores the snapshot. After a commit of the
/// directory value `t` — its subtree written, the commit object
/// stored, `HEAD` moved to it, exactly what `commit` leaves behind —
/// a checkout of the new identifier succeeds and materializes a
/// directory value with the identical Merkle hash as `t`. So a
/// reference never names a commit whose state cannot be read back.
/// The digest soundness premises hold of a collision-resistant digest
/// with overwhelming probability.
pub proof fn lemma_commit_checkout(
    m: Map<Seq<u8>, Seq<u8>>,
    rm: Map<Seq<u8>, Seq<u8>>,
    t: FsTree,
    parent: Option<Seq<u8>>,
    message: Seq<u8>,
    encs: Set<Seq<u8>>,
    fuel: nat,
)
    requires
        t is Dir,
        crate::walker::node_valid(t),
        crate::walker::subtree_encs(t).subset_of(encs),
        encs.contains(
            crate::codec::encode_spec(
                crate::codec::ObjectType::Commit,
                crate::commits::commit_payload(node_oid(t), parent, message),
            ),
        ),
        crate::walker::digest_sound(m, encs),
        crate::commits::commit_fields_valid(node_oid(t), parent),
        fuel >= crate::walker::height(t),
    ensures
        ({
            let oid_c = commit_oid_spec(node_oid(t), parent, message);
            let m2 = commit_store_spec(write_objects(m, t), node_oid(t), parent, message);
            match checkout_spec(m2, rm.insert(head_name_spec(), oid_c), oid_c, fuel) {
                Ok((oid, t2)) => oid == oid_c && node_oid(t2) == node_oid(t),
                Err(e) => false,
            }
        }),
{
    let payload = crate::commits::commit_payload(node_oid(t), parent, message);
    let cenc = crate::codec::encode_spec(crate::codec::ObjectType::Commit, payload);
    let oid_c = commit_oid_spec(node_oid(t), parent, message);
    let m1 = write_objects(m, t);
    let m2 = commit_store_spec(m1, node_oid(t), parent, message);
    crate::walker::lemma_write_tree_stores(m, t, encs);
    crate::walker::lemma_put_sound(m1, crate::codec::ObjectType::Commit, payload, encs);
    crate::digest::lemma_is_oid_of(cenc);
    assert(get_oid_spec(m2, rm.insert(head_name_spec(), oid_c), oid_c) == Ok::<_, GitError>(oid_c));
    crate::codec::lemma_decode_encode(crate::codec::ObjectType::Commit, payload);
    crate::commits::lemma_parse_commit_payload(node_oid(t), parent, message);
    assert(get_commit_spec(m2, oid_c) == Ok::<_, GitError>((node_oid(t), parent, message)));
    crate::walker::lemma_tree_stored_monotone(m1, m2, t);
    crate::walker::lemma_read_tree_stored(m2, t, encs, fuel);
}

/// Resolves a name or identifier and reads the object under it, of
/// whatever kind it is.
pub fn cat_file(store: &Store, refs: &Refs, input: &Vec<u8>) -> (r: Result<Object, GitError>)
    requires
        store.wf(),
        refs.wf(),
    ensures
        match r {
            Ok(obj) => match get_oid_spec(store@, refs@, input@) {
                Ok(oid) => get_spec(store@, oid, None) == Ok::<_, GitError>((obj.t, obj.contents@)),
                Err(e) => false,
            },
            Err(e) => match get_oid_spec(store@, refs@, input@) {
                Ok(oid) => get_spec(store@, oid, None) == Err::<
                    (crate::codec::ObjectType, Seq<u8>),
                    _,
                >(e),
                Err(e2) => e == e2,
            },
        },
{
    let oid = match get_oid(store, refs, input) {
        Ok(oid) => oid,
        Err(e) => {
            return Err(e);
        },
    };
    store.get_object(&oid, None)
}

} // verus!
