//! The object store: install, resolve, load, handles, branches.

use attaca::digest::Sha3Digest;
use attaca::error::Error;
use attaca::store::{HandleBuilder, Object, Store};

use sha3::Digest as _;

#[test]
fn small_round_trip() {
    let mut store = Store::new();
    let mut builder = HandleBuilder::new();
    builder.write(&b"hello\n".to_vec());
    let h1 = builder.finish(&mut store);
    let (blob, refs) = store.load(&h1).unwrap();
    assert_eq!(blob, b"hello\n".to_vec());
    assert_eq!(refs.len(), 0);
    // the handle's digest is the SHA3-256 of the canonical encoding
    let enc = Object::new(b"hello\n".to_vec(), Vec::new()).encode();
    let expected = sha3::Sha3_256::digest(&enc).to_vec();
    assert_eq!(h1.digest().as_bytes(), &expected);
}

#[test]
fn reference_graph() {
    let mut store = Store::new();
    let ha = store.install_object(Object::new(b"A".to_vec(), Vec::new()));
    let hb = store.install_object(Object::new(b"B".to_vec(), Vec::new()));
    let mut builder = store.handle_builder();
    builder.add_reference(ha.clone());
    builder.add_reference(hb.clone());
    let hp = builder.finish(&mut store);
    let (blob, refs) = store.load(&hp).unwrap();
    assert_eq!(blob, Vec::<u8>::new());
    assert_eq!(refs.len(), 2);
    assert!(refs[0] == ha);
    assert!(refs[1] == hb);
}

#[test]
fn install_is_idempotent() {
    let mut store = Store::new();
    let h1 = store.install_object(Object::new(b"dup".to_vec(), Vec::new()));
    let h2 = store.install_object(Object::new(b"dup".to_vec(), Vec::new()));
    assert!(h1 == h2);
    let (blob, _) = store.load(&h1).unwrap();
    assert_eq!(blob, b"dup".to_vec());
}

#[test]
fn install_then_resolve() {
    let mut store = Store::new();
    let o = Object::new(b"content".to_vec(), Vec::new());
    let d = o.digest();
    let h = store.install_object(o);
    let found = store.resolve(&d).unwrap();
    assert_eq!(found.as_ref(), Some(&h));
    let (blob, refs) = store.load(&h).unwrap();
    assert_eq!(blob, b"content".to_vec());
    assert_eq!(refs.len(), 0);
}

#[test]
fn resolve_unknown_digest_is_none() {
    let mut store = Store::new();
    let d = Sha3Digest::hash_bytes(&b"never installed".to_vec());
    assert_eq!(store.resolve(&d).unwrap(), None);
}

#[test]
fn handle_equality() {
    let mut store = Store::new();
    let d = Sha3Digest::hash_bytes(&b"anything".to_vec());
    let h1 = store.handle_for_digest(&d);
    let h2 = store.handle_for_digest(&d);
    assert!(h1 == h2);
}

#[test]
fn dangling_handle_fails_to_load() {
    let mut store = Store::new();
    let d = Sha3Digest::hash_bytes(&b"missing".to_vec());
    let h = store.handle_for_digest(&d);
    assert_eq!(store.load(&h).err(), Some(Error::HandleDangling));
}

#[test]
fn weak_slot_reload() {
    let mut store = Store::new();
    let o = Object::new(b"evict me".to_vec(), Vec::new());
    let d = o.digest();
    let h = store.install_object(o);
    // drop the resident copy: the data must come back from the backing map
    store.evict(&d);
    let (blob, _) = store.load(&h).unwrap();
    assert_eq!(blob, b"evict me".to_vec());
}

#[test]
fn get_object_round_trip() {
    let mut store = Store::new();
    let o = Object::new(b"bytes".to_vec(), Vec::new());
    let d = o.digest();
    store.install_object(o);
    store.evict(&d);
    let back = store.get_object(&d).unwrap().unwrap();
    assert_eq!(back.blob, b"bytes".to_vec());
    assert_eq!(back.refs.len(), 0);
}

#[test]
fn branch_compare_and_set() {
    let mut store = Store::new();
    let h = store.install_object(Object::new(b"first".to_vec(), Vec::new()));
    let h2 = store.install_object(Object::new(b"second".to_vec(), Vec::new()));
    let name = b"main".to_vec();
    assert_eq!(store.load_branch(&name), None);
    assert_eq!(store.swap_branch(&name, None, &h), Ok(()));
    // a second swap expecting an empty branch must conflict
    assert_eq!(store.swap_branch(&name, None, &h2), Err(Error::BranchConflict));
    assert_eq!(store.load_branch(&name).as_ref(), Some(&h));
    // the swap expecting the current target succeeds
    assert_eq!(store.swap_branch(&name, Some(&h), &h2), Ok(()));
    assert_eq!(store.load_branch(&name).as_ref(), Some(&h2));
}

#[test]
fn branches_are_independent() {
    let mut store = Store::new();
    let h = store.install_object(Object::new(b"x".to_vec(), Vec::new()));
    assert_eq!(store.swap_branch(&b"one".to_vec(), None, &h), Ok(()));
    assert_eq!(store.load_branch(&b"two".to_vec()), None);
    assert_eq!(store.load_branch(&b"one".to_vec()).as_ref(), Some(&h));
}
