use gitox::codec::{decode_object, get_type_from_bytes, GitError, ObjectType};
use gitox::commits::{commit_tree, decode_commit, encode_commit, get_commit, log, CommitData};
use gitox::refs::{get_oid, Refs};
use gitox::store::Store;
use sha1::Digest;

#[test]
fn determinism_same_oid_twice() {
    let mut store = Store::new();
    let contents = b"some file contents".to_vec();
    let oid1 = store.hash_object(&contents, ObjectType::Blob);
    let oid2 = store.hash_object(&contents, ObjectType::Blob);
    assert_eq!(oid1, oid2);
    let snapshot = store.snapshot();
    let matching = snapshot.iter().filter(|(k, _)| *k == oid1).count();
    assert_eq!(matching, 1);
    assert_eq!(snapshot.len(), 1);
}

#[test]
fn round_trip_blob() {
    let mut store = Store::new();
    let contents = b"hello world\nwith\x00a nul byte".to_vec();
    let oid = store.hash_object(&contents, ObjectType::Blob);
    let obj = store.get_object(&oid, None).unwrap();
    assert_eq!(obj.t, ObjectType::Blob);
    assert_eq!(obj.contents, contents);
    let obj2 = store.get_object(&oid, Some(ObjectType::Blob)).unwrap();
    assert_eq!(obj2.contents, contents);
}

#[test]
fn hash_file_matches_digest_of_framed_bytes() {
    let mut store = Store::new();
    let oid = store.hash_object(&b"hello\n".to_vec(), ObjectType::Blob);
    let digest = sha1::Sha1::digest(b"blob\x00hello\n");
    let mut expected = String::new();
    for b in digest.iter() {
        expected.push_str(&format!("{:02x}", b));
    }
    assert_eq!(String::from_utf8(oid).unwrap(), expected);
}

#[test]
fn oid_is_forty_lowercase_hex_digits() {
    let mut store = Store::new();
    let oid = store.hash_object(&b"abc".to_vec(), ObjectType::Blob);
    assert_eq!(oid.len(), 40);
    for b in oid.iter() {
        assert!((b'0'..=b'9').contains(b) || (b'a'..=b'f').contains(b));
    }
}

#[test]
fn get_object_unknown_oid_is_not_found() {
    let store = Store::new();
    let oid = vec![b'a'; 40];
    assert_eq!(store.get_object(&oid, None).unwrap_err(), GitError::NotFound);
}

#[test]
fn type_tags_parse_back() {
    assert_eq!(get_type_from_bytes(b"blob"), Some(ObjectType::Blob));
    assert_eq!(get_type_from_bytes(b"tree"), Some(ObjectType::Tree));
    assert_eq!(get_type_from_bytes(b"commit"), Some(ObjectType::Commit));
    assert_eq!(get_type_from_bytes(b"bogus"), None);
    assert_eq!(get_type_from_bytes(b""), None);
}

#[test]
fn decode_without_nul_is_corrupt() {
    let raw = b"blob with no separator".to_vec();
    assert_eq!(decode_object(&raw).unwrap_err(), GitError::CorruptObject);
}

#[test]
fn decode_unknown_tag_is_corrupt() {
    let raw = b"bogus\x00payload".to_vec();
    assert_eq!(decode_object(&raw).unwrap_err(), GitError::CorruptObject);
}

#[test]
fn commit_payload_round_trips() {
    let tree = vec![b'1'; 40];
    let parent = vec![b'2'; 40];
    let message = b"first commit\nwith two lines".to_vec();
    let c = CommitData { tree: tree.clone(), parent: Some(parent.clone()), message: message.clone() };
    let payload = encode_commit(&c);
    let back = decode_commit(&payload).unwrap();
    assert_eq!(back.tree, tree);
    assert_eq!(back.parent, Some(parent));
    assert_eq!(back.message, message);

    let root = CommitData { tree: tree.clone(), parent: None, message: b"".to_vec() };
    let payload2 = encode_commit(&root);
    let back2 = decode_commit(&payload2).unwrap();
    assert_eq!(back2.tree, tree);
    assert_eq!(back2.parent, None);
    assert_eq!(back2.message, b"".to_vec());
}

#[test]
fn decode_commit_garbage_is_corrupt() {
    assert_eq!(decode_commit(&b"tre".to_vec()).unwrap_err(), GitError::CorruptObject);
    assert_eq!(
        decode_commit(&b"tree short\n\nmessage here and more padding".to_vec()).unwrap_err(),
        GitError::CorruptObject
    );
}

#[test]
fn commit_chain_logs_newest_first() {
    let mut store = Store::new();
    let mut refs = Refs::new();
    let tree_oid = store.hash_object(&Vec::new(), ObjectType::Tree);
    let oid1 = commit_tree(&mut store, &mut refs, &tree_oid, &b"first".to_vec());
    let oid2 = commit_tree(&mut store, &mut refs, &tree_oid, &b"second".to_vec());
    assert_ne!(oid1, oid2);

    let entries = log(&store, &oid2, 10).unwrap();
    assert_eq!(entries.len(), 2);
    assert_eq!(entries[0].0, oid2);
    assert_eq!(entries[0].1, b"second".to_vec());
    assert_eq!(entries[1].0, oid1);
    assert_eq!(entries[1].1, b"first".to_vec());

    let first = get_commit(&store, &oid1).unwrap();
    assert_eq!(first.parent, None);
    let second = get_commit(&store, &oid2).unwrap();
    assert_eq!(second.parent, Some(oid1));

    let head = get_oid(&store, &refs, &b"HEAD".to_vec()).unwrap();
    assert_eq!(head, oid2);
}

#[test]
fn cat_file_commit_as_blob_is_type_mismatch() {
    let mut store = Store::new();
    let mut refs = Refs::new();
    let tree_oid = store.hash_object(&Vec::new(), ObjectType::Tree);
    let commit_oid = commit_tree(&mut store, &mut refs, &tree_oid, &b"snapshot".to_vec());
    let err = store.get_object(&commit_oid, Some(ObjectType::Blob)).unwrap_err();
    assert_eq!(err, GitError::TypeMismatch);
}

#[test]
fn log_from_unknown_oid_is_not_found() {
    let store = Store::new();
    let oid = vec![b'0'; 40];
    assert_eq!(log(&store, &oid, 10).unwrap_err(), GitError::NotFound);
}
