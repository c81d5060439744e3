//! The editable tree: construction, traversal, blocking, marshalling.

use attaca::digest::{Sha3Digest, DIGEST_SIZE};
use attaca::object::{decode_subtree_payload, SubtreeEntry};
use attaca::store::Store;
use attaca::tree::{Blocked, Entry, Tree};

fn zero_digest() -> Sha3Digest {
    Sha3Digest::from_bytes(&vec![0u8; DIGEST_SIZE])
}

fn path(components: &[&[u8]]) -> Vec<Vec<u8>> {
    components.iter().map(|c| c.to_vec()).collect()
}

fn leaf() -> SubtreeEntry {
    SubtreeEntry::File(zero_digest(), 0)
}

#[test]
fn from_and_into_iter() {
    let paths = [
        path(&[b"a", b"b"]),
        path(&[b"a", b"c"]),
        path(&[b"d"]),
        path(&[b"e", b"f", b"g"]),
    ];
    let items: Vec<(Vec<Vec<u8>>, SubtreeEntry)> = paths.iter().map(|p| (p.clone(), leaf())).collect();
    let tree = Tree::from_path_entries(items).unwrap();
    let mut iter = tree.into_iter();
    let mut seen: Vec<Vec<Vec<u8>>> = Vec::new();
    while let Some((p, _)) = iter.next() {
        seen.push(p);
    }
    let mut expected: Vec<Vec<Vec<u8>>> = paths.to_vec();
    expected.sort();
    seen.sort();
    assert_eq!(seen, expected);
}

#[test]
fn entry_occupied_remove_and_replace() {
    let items = vec![(path(&[b"a"]), leaf())];
    let tree = Tree::from_path_entries(items).unwrap();
    let occupied = match tree.entry(path(&[b"a"])) {
        Ok(Entry::Occupied(oe)) => oe,
        _ => panic!("expected an occupied entry"),
    };
    // remove, then re-insert through the vacancy
    let vacant = occupied.remove();
    let tree = vacant.insert(SubtreeEntry::File(zero_digest(), 9)).into_inner();
    match tree.entry(path(&[b"a"])) {
        Ok(Entry::Occupied(_)) => {},
        _ => panic!("expected the path to be occupied again"),
    }
}

#[test]
fn entry_vacant_on_missing_name() {
    let items = vec![(path(&[b"a"]), leaf())];
    let tree = Tree::from_path_entries(items).unwrap();
    match tree.entry(path(&[b"b", b"c"])) {
        Ok(Entry::Vacant(ve)) => {
            assert_eq!(ve.immediate.as_deref(), Some(b"b".as_slice()));
            assert_eq!(ve.rest, vec![b"c".to_vec()]);
        },
        _ => panic!("expected a vacancy"),
    }
}

#[test]
fn prefix_collision_is_rejected() {
    // "a" is a leaf, so "a/b" walks into an opaque node
    let items = vec![(path(&[b"a"]), leaf()), (path(&[b"a", b"b"]), leaf())];
    assert!(Tree::from_path_entries(items).is_err());
}

#[test]
fn marshal_then_resolve() {
    let mut store = Store::new();
    let items = vec![(path(&[b"a", b"b"]), leaf()), (path(&[b"a", b"c"]), leaf())];
    let tree = Tree::from_path_entries(items).unwrap();
    let root_d = tree.marshal(&mut store).unwrap();
    // the root subtree object is in the store and loads as a subtree
    let handle = store.resolve(&root_d).unwrap().expect("root digest resolves");
    let (blob, refs) = store.load(&handle).unwrap();
    let sub = decode_subtree_payload(&blob).unwrap();
    assert_eq!(sub.len(), 1);
    let (name, entry) = sub.entry_at(0);
    assert_eq!(name, b"a".to_vec());
    let inner_d = entry.hash();
    assert_eq!(refs.len(), 1);
    assert!(refs[0].digest() == inner_d);
    // the inner subtree holds the two leaves
    let inner_handle = store.resolve(&inner_d).unwrap().expect("inner digest resolves");
    let (inner_blob, _) = store.load(&inner_handle).unwrap();
    let inner = decode_subtree_payload(&inner_blob).unwrap();
    assert_eq!(inner.len(), 2);
    assert_eq!(inner.entry_at(0).0, b"b".to_vec());
    assert_eq!(inner.entry_at(1).0, b"c".to_vec());
}

#[test]
fn marshal_is_deterministic() {
    let mut store1 = Store::new();
    let mut store2 = Store::new();
    let items = || vec![(path(&[b"x"]), leaf()), (path(&[b"y", b"z"]), leaf())];
    let d1 = Tree::from_path_entries(items()).unwrap().marshal(&mut store1).unwrap();
    let d2 = Tree::from_path_entries(items()).unwrap().marshal(&mut store2).unwrap();
    assert!(d1 == d2);
}

fn fetch_subtree(store: &mut Store, blocked: &Blocked) -> Tree {
    let d = blocked.object_hash();
    let handle = store.resolve(&d).unwrap().expect("blocking digest resolves");
    let (blob, _) = store.load(&handle).unwrap();
    let sub = decode_subtree_payload(&blob).unwrap();
    Tree::from_subtree(&sub)
}

#[test]
fn blocked_then_unblock() {
    // marshal {a/b, a/c}, then edit a tree that knows only the root digest
    let mut store = Store::new();
    let items = vec![(path(&[b"a", b"b"]), leaf()), (path(&[b"a", b"c"]), leaf())];
    let tree1 = Tree::from_path_entries(items).unwrap();
    let root_d = tree1.marshal(&mut store).unwrap();

    let tree2 = Tree::from_entry(SubtreeEntry::Subtree(root_d.duplicate()));
    let blocked = match tree2.entry(path(&[b"a", b"d"])) {
        Err(b) => b,
        Ok(_) => panic!("expected the walk to block at the opaque root"),
    };
    assert!(blocked.object_hash() == root_d);

    // expand the root: the walk resumes and blocks at the inner subtree
    let fetched = fetch_subtree(&mut store, &blocked);
    let blocked = match blocked.unblock(fetched) {
        Err(b) => b,
        Ok(_) => panic!("expected the walk to block at the inner subtree"),
    };

    // expand the inner subtree: "d" is now a vacancy
    let fetched = fetch_subtree(&mut store, &blocked);
    let vacant = match blocked.unblock(fetched) {
        Ok(Entry::Vacant(ve)) => ve,
        _ => panic!("expected a vacancy at the missing component"),
    };
    assert_eq!(vacant.immediate.as_deref(), Some(b"d".as_slice()));

    // insert and re-marshal: the root digest changes
    let tree3 = vacant.insert(leaf()).into_inner();
    let new_root = tree3.marshal(&mut store).unwrap();
    assert!(new_root != root_d);
}

#[test]
fn from_no_items_is_the_empty_tree() {
    let tree = Tree::from_path_entries(Vec::new()).unwrap();
    let mut iter = tree.into_iter();
    assert!(iter.next().is_none());
}
