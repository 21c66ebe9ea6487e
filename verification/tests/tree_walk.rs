use gitox::codec::{GitError, ObjectType};
use gitox::refs::{get_oid, Refs};
use gitox::repo::{cat_file, checkout, commit};
use gitox::store::Store;
use gitox::tree::decode_tree;
use gitox::walker::{read_tree, write_tree, FsEntry, FsNode};

fn file(name: &str, contents: &[u8]) -> FsEntry {
    FsEntry { name: name.as_bytes().to_vec(), node: FsNode::File { contents: contents.to_vec() } }
}

fn dir(name: &str, entries: Vec<FsEntry>) -> FsEntry {
    FsEntry { name: name.as_bytes().to_vec(), node: FsNode::Dir { entries } }
}

fn node_eq(a: &FsNode, b: &FsNode) -> bool {
    match (a, b) {
        (FsNode::File { contents: ca }, FsNode::File { contents: cb }) => ca == cb,
        (FsNode::Dir { entries: ea }, FsNode::Dir { entries: eb }) => {
            ea.len() == eb.len()
                && ea.iter().zip(eb.iter()).all(|(x, y)| {
                    x.name == y.name && node_eq(&x.node, &y.node)
                })
        }
        _ => false,
    }
}

#[test]
fn write_tree_sorts_entries_by_name() {
    let mut store = Store::new();
    let workdir = FsNode::Dir {
        entries: vec![file("b.txt", b"bee"), file("a.txt", b"ay")],
    };
    let tree_oid = write_tree(&mut store, &workdir);
    let obj = store.get_object(&tree_oid, Some(ObjectType::Tree)).unwrap();
    let entries = decode_tree(&obj.contents).unwrap();
    assert_eq!(entries.len(), 2);
    assert_eq!(entries[0].name, b"a.txt".to_vec());
    assert_eq!(entries[1].name, b"b.txt".to_vec());
    assert_eq!(entries[0].t, ObjectType::Blob);
    assert_eq!(entries[1].t, ObjectType::Blob);
}

#[test]
fn write_tree_oid_ignores_entry_order() {
    let mut store1 = Store::new();
    let mut store2 = Store::new();
    let d1 = FsNode::Dir { entries: vec![file("b.txt", b"bee"), file("a.txt", b"ay")] };
    let d2 = FsNode::Dir { entries: vec![file("a.txt", b"ay"), file("b.txt", b"bee")] };
    assert_eq!(write_tree(&mut store1, &d1), write_tree(&mut store2, &d2));
}

#[test]
fn tree_write_read_rewrite_same_oid() {
    let mut store = Store::new();
    let workdir = FsNode::Dir {
        entries: vec![
            file("zeta.txt", b"z"),
            dir("sub", vec![file("inner.txt", b"nested"), file("also.txt", b"x")]),
            file("alpha.txt", b"a"),
        ],
    };
    let oid1 = write_tree(&mut store, &workdir);
    let read_back = read_tree(&store, &oid1, 64).unwrap();
    let oid2 = write_tree(&mut store, &read_back);
    assert_eq!(oid1, oid2);
    let read_again = read_tree(&store, &oid2, 64).unwrap();
    assert!(node_eq(&read_back, &read_again));
}

#[test]
fn read_tree_restores_contents() {
    let mut store = Store::new();
    let workdir = FsNode::Dir {
        entries: vec![file("a.txt", b"ay"), dir("sub", vec![file("c.txt", b"sea")])],
    };
    let oid = write_tree(&mut store, &workdir);
    let node = read_tree(&store, &oid, 64).unwrap();
    match &node {
        FsNode::Dir { entries } => {
            assert_eq!(entries.len(), 2);
            assert_eq!(entries[0].name, b"a.txt".to_vec());
            match &entries[0].node {
                FsNode::File { contents } => assert_eq!(contents, &b"ay".to_vec()),
                _ => panic!("expected a file"),
            }
            assert_eq!(entries[1].name, b"sub".to_vec());
            match &entries[1].node {
                FsNode::Dir { entries: sub } => {
                    assert_eq!(sub.len(), 1);
                    assert_eq!(sub[0].name, b"c.txt".to_vec());
                }
                _ => panic!("expected a directory"),
            }
        }
        _ => panic!("expected a directory"),
    }
}

#[test]
fn read_tree_of_blob_oid_is_type_mismatch() {
    let mut store = Store::new();
    let blob_oid = store.hash_object(&b"not a tree".to_vec(), ObjectType::Blob);
    assert_eq!(read_tree(&store, &blob_oid, 64).unwrap_err(), GitError::TypeMismatch);
}

#[test]
fn checkout_twice_gives_identical_state() {
    let mut store = Store::new();
    let mut refs = Refs::new();
    let workdir = FsNode::Dir {
        entries: vec![file("a.txt", b"ay"), dir("sub", vec![file("c.txt", b"sea")])],
    };
    let commit_oid = commit(&mut store, &mut refs, &workdir, &b"snapshot".to_vec());

    let first = checkout(&store, &mut refs, &commit_oid, 64).unwrap();
    let second = checkout(&store, &mut refs, &commit_oid, 64).unwrap();
    assert!(node_eq(&first, &second));
    let head = get_oid(&store, &refs, &b"HEAD".to_vec()).unwrap();
    assert_eq!(head, commit_oid);
}

#[test]
fn checkout_unknown_name_is_unknown_reference() {
    let store = Store::new();
    let mut refs = Refs::new();
    let err = checkout(&store, &mut refs, &b"nonsense".to_vec(), 64).unwrap_err();
    assert_eq!(err, GitError::UnknownReference);
}

#[test]
fn tags_resolve_and_overwrite() {
    let mut store = Store::new();
    let mut refs = Refs::new();
    let oid_a = store.hash_object(&b"a".to_vec(), ObjectType::Blob);
    let oid_b = store.hash_object(&b"b".to_vec(), ObjectType::Blob);
    refs.create_tag(&b"release".to_vec(), &oid_a);
    assert_eq!(get_oid(&store, &refs, &b"release".to_vec()).unwrap(), oid_a);
    refs.create_tag(&b"release".to_vec(), &oid_b);
    assert_eq!(get_oid(&store, &refs, &b"release".to_vec()).unwrap(), oid_b);
}

#[test]
fn cat_file_resolves_names_and_digests() {
    let mut store = Store::new();
    let mut refs = Refs::new();
    let oid = store.hash_object(&b"payload".to_vec(), ObjectType::Blob);
    refs.update_ref(&b"mytag".to_vec(), &oid);
    let by_oid = cat_file(&store, &refs, &oid).unwrap();
    assert_eq!(by_oid.contents, b"payload".to_vec());
    let by_name = cat_file(&store, &refs, &b"mytag".to_vec()).unwrap();
    assert_eq!(by_name.contents, b"payload".to_vec());
    assert_eq!(
        cat_file(&store, &refs, &b"missing".to_vec()).unwrap_err(),
        GitError::UnknownReference
    );
}

#[test]
fn decode_tree_garbage_is_corrupt() {
    assert_eq!(decode_tree(&b"short".to_vec()).unwrap_err(), GitError::CorruptObject);
    let mut no_newline = b"blob ".to_vec();
    no_newline.extend_from_slice(&vec![b'0'; 40]);
    no_newline.extend_from_slice(b" name-without-newline");
    assert_eq!(decode_tree(&no_newline).unwrap_err(), GitError::CorruptObject);
}
