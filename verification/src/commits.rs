//! Commit objects and the history chain.
//!
//! A commit payload is a fixed-order record: a `tree` line naming the
//! snapshot's root tree, an optional `parent` line naming the previous
//! commit, a blank line, then the free-text message. Identifiers are
//! fixed-width, so the record parses unambiguously and round-trips
//! exactly. Commits form a singly-linked chain through their parent
//! links, walked by `log`.

use crate::bytes::{bytes_eq, clone_bytes_fn, push_all, sub_vec};
use crate::codec::GitError;
use crate::codec::ObjectType;
use crate::digest::is_oid;
use crate::refs::looks_like_oid;
use crate::store::{get_spec, put_spec, Store};
use vstd::prelude::*;

verus! {

/// A decoded commit: the root tree it snapshots, its optional
/// predecessor, and its message.
#[derive(Debug)]
pub struct CommitData {
    pub tree: Vec<u8>,
    pub parent: Option<Vec<u8>>,
    pub message: Vec<u8>,
}

/// The view of an optional byte vector.
pub open spec fn opt_bytes_view(p: Option<Vec<u8>>) -> Option<Seq<u8>> {
    match p {
        Some(v) => Some(v@),
        None => None,
    }
}

/// The ASCII bytes of `tree ` (with the trailing space).
pub open spec fn tree_label() -> Seq<u8> {
    seq![0x74u8, 0x72u8, 0x65u8, 0x65u8, 0x20u8]
}

/// The ASCII bytes of `parent ` (with the trailing space).
pub open spec fn parent_label() -> Seq<u8> {
    seq![0x70u8, 0x61u8, 0x72u8, 0x65u8, 0x6eu8, 0x74u8, 0x20u8]
}

/// A commit's payload: `tree` line, optional `parent` line, blank
/// line, message.
pub open spec fn commit_payload(
    tree: Seq<u8>,
    parent: Option<Seq<u8>>,
    message: Seq<u8>,
) -> Seq<u8> {
    tree_label() + tree + seq![0x0au8] + match parent {
        Some(p) => parent_label() + p + seq![0x0au8],
        None => Seq::<u8>::empty(),
    } + seq![0x0au8] + message
}

/// Parses a commit payload; `None` stands for a corrupt commit. The
/// `tree` line carries a 40-digit identifier ending the line; what
/// follows is either the blank line and the message, or a `parent`
/// line first.
pub open spec fn parse_commit(s: Seq<u8>) -> Option<(Seq<u8>, Option<Seq<u8>>, Seq<u8>)> {
    if s.len() >= 47 && s.take(5) == tree_label() && is_oid(s.subrange(5, 45)) && s[45] == 0x0a {
        if s[46] == 0x0a {
            Some((s.subrange(5, 45), None, s.skip(47)))
        } else if s.len() >= 95 && s.subrange(46, 53) == parent_label() && is_oid(
            s.subrange(53, 93),
        ) && s[93] == 0x0a && s[94] == 0x0a {
            Some((s.subrange(5, 45), Some(s.subrange(53, 93)), s.skip(95)))
        } else {
            None
        }
    } else {
        None
    }
}

/// Whether a commit's fields are well-formed: both identifiers have
/// digest shape.
pub open spec fn commit_fields_valid(tree: Seq<u8>, parent: Option<Seq<u8>>) -> bool {
    is_oid(tree) && match parent {
        Some(p) => is_oid(p),
        None => true,
    }
}

/// Parsing inverts encoding: a well-formed commit comes back field for
/// field, message byte for byte.
pub proof fn lemma_parse_commit_payload(tree: Seq<u8>, parent: Option<Seq<u8>>, message: Seq<u8>)
    requires
        commit_fields_valid(tree, parent),
    ensures
        parse_commit(commit_payload(tree, parent, message)) == Some((tree, parent, message)),
{
    let e = commit_payload(tree, parent, message);
    match parent {
        None => {
            assert(e.len() == 47 + message.len());
            assert(e.take(5) =~= tree_label());
            assert(e.subrange(5, 45) =~= tree);
            assert(e[45] == 0x0a);
            assert(e[46] == 0x0a);
            assert(e.skip(47) =~= message);
        },
        Some(p) => {
            assert(e.len() == 95 + message.len());
            assert(e.take(5) =~= tree_label());
            assert(e.subrange(5, 45) =~= tree);
            assert(e[45] == 0x0a);
            assert(e[46] == 0x70);
            assert(e.subrange(46, 53) =~= parent_label());
            assert(e.subrange(53, 93) =~= p);
            assert(e[93] == 0x0a);
            assert(e[94] == 0x0a);
            assert(e.skip(95) =~= message);
        },
    }
}

fn tree_label_bytes() -> (r: Vec<u8>)
    ensures
        r@ == tree_label(),
{
    let r: Vec<u8> = vec![0x74u8, 0x72u8, 0x65u8, 0x65u8, 0x20u8];
    proof {
        assert(r@ =~= tree_label());
    }
    r
}

fn parent_label_bytes() -> (r: Vec<u8>)
    ensures
        r@ == parent_label(),
{
    let r: Vec<u8> = vec![0x70u8, 0x61u8, 0x72u8, 0x65u8, 0x6eu8, 0x74u8, 0x20u8];
    proof {
        assert(r@ =~= parent_label());
    }
    r
}

/// Encodes a commit into its payload bytes.
pub fn encode_commit(c: &CommitData) -> (r: Vec<u8>)
    ensures
        r@ == commit_payload(c.tree@, opt_bytes_view(c.parent), c.message@),
{
    let mut r = tree_label_bytes();
    push_all(&mut r, &c.tree);
    r.push(0x0au8);
    match &c.parent {
        Some(p) => {
            let lbl = parent_label_bytes();
            push_all(&mut r, &lbl);
            push_all(&mut r, p);
            r.push(0x0au8);
        },
        None => {},
    }
    r.push(0x0au8);
    push_all(&mut r, &c.message);
    proof {
        assert(r@ =~= commit_payload(c.tree@, opt_bytes_view(c.parent), c.message@));
    }
    r
}

/// Decodes a commit payload, or reports it corrupt.
pub fn decode_commit(payload: &Vec<u8>) -> (r: Result<CommitData, GitError>)
    ensures
        match r {
            Ok(c) => parse_commit(payload@) == Some((c.tree@, opt_bytes_view(c.parent), c.message@)),
            Err(e) => e == GitError::CorruptObject && parse_commit(payload@) is None,
        },
{
    if payload.len() < 47 {
        return Err(GitError::CorruptObject);
    }
    let head = sub_vec(payload, 0, 5);
    let lbl = tree_label_bytes();
    if !bytes_eq(&head, &lbl) {
        proof {
            assert(payload@.take(5) == payload@.subrange(0, 5));
        }
        return Err(GitError::CorruptObject);
    }
    proof {
        assert(payload@.take(5) == payload@.subrange(0, 5));
    }
    let tree = sub_vec(payload, 5, 45);
    if !looks_like_oid(&tree) {
        return Err(GitError::CorruptObject);
    }
    if payload[45] != 0x0au8 {
        return Err(GitError::CorruptObject);
    }
    if payload[46] == 0x0au8 {
        let message = sub_vec(payload, 47, payload.len());
        proof {
            assert(payload@.subrange(47, payload@.len() as int) == payload@.skip(47));
        }
        return Ok(CommitData { tree, parent: None, message });
    }
    if payload.len() < 95 {
        return Err(GitError::CorruptObject);
    }
    let plbl = sub_vec(payload, 46, 53);
    let plbl_lit = parent_label_bytes();
    if !bytes_eq(&plbl, &plbl_lit) {
        return Err(GitError::CorruptObject);
    }
    let parent = sub_vec(payload, 53, 93);
    if !looks_like_oid(&parent) {
        return Err(GitError::CorruptObject);
    }
    if payload[93] != 0x0au8 || payload[94] != 0x0au8 {
        return Err(GitError::CorruptObject);
    }
    let message = sub_vec(payload, 95, payload.len());
    proof {
        assert(payload@.subrange(95, payload@.len() as int) == payload@.skip(95));
    }
    Ok(CommitData { tree, parent: Some(parent), message })
}

/// What reading a commit yields, as a function of the store's
/// contents: the object under `oid` must exist, decode as a commit,
/// and its payload must parse.
pub open spec fn get_commit_spec(m: Map<Seq<u8>, Seq<u8>>, oid: Seq<u8>) -> Result<
    (Seq<u8>, Option<Seq<u8>>, Seq<u8>),
    GitError,
> {
    match get_spec(m, oid, Some(ObjectType::Commit)) {
        Err(e) => Err(e),
        Ok((t, payload)) => match parse_commit(payload) {
            None => Err(GitError::CorruptObject),
            Some(c) => Ok(c),
        },
    }
}

/// Reads and decodes the commit under `oid`.
pub fn get_commit(store: &Store, oid: &Vec<u8>) -> (r: Result<CommitData, GitError>)
    requires
        store.wf(),
    ensures
        match r {
            Ok(c) => get_commit_spec(store@, oid@) == Ok::<_, GitError>(
                (c.tree@, opt_bytes_view(c.parent), c.message@),
            ),
            Err(e) => get_commit_spec(store@, oid@) == Err::<
                (Seq<u8>, Option<Seq<u8>>, Seq<u8>),
                _,
            >(e),
        },
{
    let obj = match store.get_object(oid, Some(ObjectType::Commit)) {
        Ok(obj) => obj,
        Err(e) => {
            return Err(e);
        },
    };
    decode_commit(&obj.contents)
}

/// What creating a commit leaves behind: its payload stored under its
/// digest, and `HEAD` moved to it.
pub open spec fn commit_store_spec(
    m: Map<Seq<u8>, Seq<u8>>,
    tree: Seq<u8>,
    parent: Option<Seq<u8>>,
    message: Seq<u8>,
) -> Map<Seq<u8>, Seq<u8>> {
    put_spec(m, ObjectType::Commit, commit_payload(tree, parent, message))
}

/// The identifier of the commit `commit_tree` creates.
pub open spec fn commit_oid_spec(
    tree: Seq<u8>,
    parent: Option<Seq<u8>>,
    message: Seq<u8>,
) -> Seq<u8> {
    crate::digest::oid_of(
        crate::codec::encode_spec(ObjectType::Commit, commit_payload(tree, parent, message)),
    )
}

/// The current `HEAD`, if one is set.
pub open spec fn head_of(refs: Map<Seq<u8>, Seq<u8>>) -> Option<Seq<u8>> {
    if refs.contains_key(head_name_spec()) {
        Some(refs[head_name_spec()])
    } else {
        None
    }
}

/// The ASCII bytes of `HEAD`.
pub fn head_name() -> (r: Vec<u8>)
    ensures
        r@ == head_name_spec(),
{
    let r: Vec<u8> = vec![0x48u8, 0x45u8, 0x41u8, 0x44u8];
    proof {
        assert(r@ =~= head_name_spec());
    }
    r
}

/// The name of the `HEAD` reference.
pub open spec fn head_name_spec() -> Seq<u8> {
    seq![0x48u8, 0x45u8, 0x41u8, 0x44u8]
}

/// Creates a commit snapshotting `tree_oid`: the current `HEAD`, if
/// any, becomes the parent; the encoded commit is stored under its
/// digest; `HEAD` moves to the new commit. Returns the new
/// identifier. The object is durably in the store before `HEAD` names
/// it.
pub fn commit_tree(
    store: &mut Store,
    refs: &mut crate::refs::Refs,
    tree_oid: &Vec<u8>,
    message: &Vec<u8>,
) -> (oid: Vec<u8>)
    requires
        old(store).wf(),
        old(refs).wf(),
    ensures
        final(store).wf(),
        final(refs).wf(),
        oid@ == commit_oid_spec(tree_oid@, head_of(old(refs)@), message@),
        final(store)@ == commit_store_spec(
            old(store)@,
            tree_oid@,
            head_of(old(refs)@),
            message@,
        ),
        final(store)@.contains_key(oid@),
        final(refs)@ == old(refs)@.insert(head_name_spec(), oid@),
{
    let head = head_name();
    let parent = refs.get_ref(&head);
    let c = CommitData {
        tree: clone_bytes_fn(tree_oid),
        parent,
        message: clone_bytes_fn(message),
    };
    let payload = encode_commit(&c);
    let oid = store.hash_object(&payload, ObjectType::Commit);
    refs.update_ref(&head, &oid);
    oid
}

/// What walking the history yields: the chain of `(identifier,
/// message)` pairs from `oid` back to the first parentless commit.
/// `fuel` bounds the walk; a chain longer than `fuel` reports
/// `CorruptObject`, as only a cyclic chain could be.
pub open spec fn log_spec(m: Map<Seq<u8>, Seq<u8>>, oid: Seq<u8>, fuel: nat) -> Result<
    Seq<(Seq<u8>, Seq<u8>)>,
    GitError,
>
    decreases fuel,
{
    match get_commit_spec(m, oid) {
        Err(e) => Err(e),
        Ok((tree, parent, message)) => match parent {
            None => Ok(seq![(oid, message)]),
            Some(p) => if fuel == 0 {
                Err(GitError::CorruptObject)
            } else {
                match log_spec(m, p, (fuel - 1) as nat) {
                    Err(e) => Err(e),
                    Ok(rest) => Ok(seq![(oid, message)] + rest),
                }
            },
        },
    }
}

/// Walks the history from `start`: one store lookup per step,
/// following parent links until a parentless commit. A missing or
/// corrupt link is a fatal error, not a silent truncation. `max_back`
/// bounds how many parent links may be followed; any acyclic chain in
/// a store of at most `max_back + 1` objects fits the bound.
pub fn log(store: &Store, start: &Vec<u8>, max_back: usize) -> (r: Result<
    Vec<(Vec<u8>, Vec<u8>)>,
    GitError,
>)
    requires
        store.wf(),
    ensures
        match r {
            Ok(entries) => Ok::<_, GitError>(
                Seq::new(entries@.len(), |i: int| (entries@[i].0@, entries@[i].1@)),
            ) == log_spec(store@, start@, max_back as nat),
            Err(e) => log_spec(store@, start@, max_back as nat) == Err::<Seq<(Seq<u8>, Seq<u8>)>, _>(
                e,
            ),
        },
{
    let mut entries: Vec<(Vec<u8>, Vec<u8>)> = Vec::new();
    let mut cur: Vec<u8> = clone_bytes_fn(start);
    let mut fuel: usize = max_back;
    loop
        invariant
            store.wf(),
            fuel <= max_back,
            log_glue(
                Seq::new(entries@.len(), |i: int| (entries@[i].0@, entries@[i].1@)),
                log_spec(store@, cur@, fuel as nat),
            ) == log_spec(store@, start@, max_back as nat),
        decreases fuel,
    {
        let c = match get_commit(store, &cur) {
            Ok(c) => c,
            Err(e) => {
                return Err(e);
            },
        };
        let ghost pre_entries = Seq::new(entries@.len(), |i: int| (entries@[i].0@, entries@[i].1@));
        let ghost cv = cur@;
        let ghost mv = c.message@;
        match c.parent {
            None => {
                entries.push((cur, c.message));
                proof {
                    let post = Seq::new(
                        entries@.len(),
                        |i: int| (entries@[i].0@, entries@[i].1@),
                    );
                    assert(post =~= pre_entries.push((cv, mv)));
                    assert(pre_entries + seq![(cv, mv)] =~= pre_entries.push((cv, mv)));
                }
                return Ok(entries);
            },
            Some(p) => {
                if fuel == 0 {
                    return Err(GitError::CorruptObject);
                }
                let ghost pv = p@;
                entries.push((cur, c.message));
                cur = p;
                fuel = fuel - 1;
                proof {
                    let post = Seq::new(
                        entries@.len(),
                        |i: int| (entries@[i].0@, entries@[i].1@),
                    );
                    assert(post =~= pre_entries.push((cv, mv)));
                    assert(pre_entries + seq![(cv, mv)] =~= pre_entries.push((cv, mv)));
                    match log_spec(store@, pv, fuel as nat) {
                        Err(e) => {},
                        Ok(tail) => {
                            assert(pre_entries + (seq![(cv, mv)] + tail) =~= (pre_entries + seq![
                                (cv, mv),
                            ]) + tail);
                        },
                    }
                }
            },
        }
    }
}

/// Commit chain integrity. A first commit made with no `HEAD` set,
/// then a second made with `HEAD` at the first — exactly the stores
/// and parents `commit_tree` leaves behind — give a history of
/// exactly the second then the first, in that order, and the first
/// commit's parent link is absent (the chain is terminal there). The
/// identifier well-formedness and freshness assumptions below hold of
/// every identifier `hash_object` actually returns, distinctness
/// resting on the digest's collision resistance.
pub proof fn lemma_commit_chain(
    m0: Map<Seq<u8>, Seq<u8>>,
    t1: Seq<u8>,
    t2: Seq<u8>,
    msg1: Seq<u8>,
    msg2: Seq<u8>,
    fuel: nat,
)
    requires
        is_oid(t1),
        is_oid(t2),
        is_oid(commit_oid_spec(t1, None, msg1)),
        !m0.contains_key(commit_oid_spec(t1, None, msg1)),
        !m0.contains_key(commit_oid_spec(t2, Some(commit_oid_spec(t1, None, msg1)), msg2)),
        commit_oid_spec(t1, None, msg1) != commit_oid_spec(
            t2,
            Some(commit_oid_spec(t1, None, msg1)),
            msg2,
        ),
        fuel >= 1,
    ensures
        ({
            let oid1 = commit_oid_spec(t1, None, msg1);
            let oid2 = commit_oid_spec(t2, Some(oid1), msg2);
            let m2 = commit_store_spec(
                commit_store_spec(m0, t1, None, msg1),
                t2,
                Some(oid1),
                msg2,
            );
            log_spec(m2, oid2, fuel) == Ok::<_, GitError>(seq![(oid2, msg2), (oid1, msg1)])
                && get_commit_spec(m2, oid1) == Ok::<_, GitError>((t1, None::<Seq<u8>>, msg1))
        }),
{
    let oid1 = commit_oid_spec(t1, None, msg1);
    let oid2 = commit_oid_spec(t2, Some(oid1), msg2);
    let p1 = commit_payload(t1, None, msg1);
    let p2 = commit_payload(t2, Some(oid1), msg2);
    let m1 = commit_store_spec(m0, t1, None, msg1);
    let m2 = commit_store_spec(m1, t2, Some(oid1), msg2);
    crate::codec::lemma_decode_encode(ObjectType::Commit, p1);
    crate::codec::lemma_decode_encode(ObjectType::Commit, p2);
    lemma_parse_commit_payload(t1, None, msg1);
    lemma_parse_commit_payload(t2, Some(oid1), msg2);
    assert(m2[oid1] == crate::codec::encode_spec(ObjectType::Commit, p1));
    assert(m2[oid2] == crate::codec::encode_spec(ObjectType::Commit, p2));
    assert(get_commit_spec(m2, oid1) == Ok::<_, GitError>((t1, None::<Seq<u8>>, msg1)));
    assert(get_commit_spec(m2, oid2) == Ok::<_, GitError>((t2, Some(oid1), msg2)));
    assert(log_spec(m2, oid1, (fuel - 1) as nat) == Ok::<_, GitError>(seq![(oid1, msg1)]));
    assert(seq![(oid2, msg2)] + seq![(oid1, msg1)] =~= seq![(oid2, msg2), (oid1, msg1)]);
}

/// Splices a walked prefix onto the tail the walk still owes: the
/// whole history is the prefix followed by the rest, and an error
/// anywhere is an error of the whole.
pub open spec fn log_glue(
    prefix: Seq<(Seq<u8>, Seq<u8>)>,
    rest: Result<Seq<(Seq<u8>, Seq<u8>)>, GitError>,
) -> Result<Seq<(Seq<u8>, Seq<u8>)>, GitError> {
    match rest {
        Err(e) => Err(e),
        Ok(tail) => Ok(prefix + tail),
    }
}

} // verus!
