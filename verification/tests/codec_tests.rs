//! The wire formats: LEB128, the canonical object encoding, payloads.

use attaca::canonical::algo_name_bytes;
use attaca::digest::{Sha3Digest, DIGEST_SIZE};
use attaca::error::Error;
use attaca::object::{decode_subtree_payload, encode_subtree_payload, encode_timestamp, SubtreeEntry, SubtreeObject,
    Timestamp};
use attaca::store::Object;
use attaca::varint::{leb128_read, leb128_write};

use sha3::Digest as _;

fn zero_digest() -> Sha3Digest {
    Sha3Digest::from_bytes(&vec![0u8; DIGEST_SIZE])
}

#[test]
fn leb128_small_values() {
    let mut out = Vec::new();
    leb128_write(&mut out, 0);
    assert_eq!(out, vec![0u8]);
    let mut out = Vec::new();
    leb128_write(&mut out, 127);
    assert_eq!(out, vec![127u8]);
    let mut out = Vec::new();
    leb128_write(&mut out, 128);
    assert_eq!(out, vec![0x80, 0x01]);
    let mut out = Vec::new();
    leb128_write(&mut out, 300);
    assert_eq!(out, vec![0xAC, 0x02]);
}

#[test]
fn leb128_round_trip() {
    for v in [0u64, 1, 127, 128, 300, 16384, u64::MAX] {
        let mut out = Vec::new();
        leb128_write(&mut out, v);
        let (back, end) = leb128_read(&out, 0).unwrap();
        assert_eq!(back, v);
        assert_eq!(end, out.len());
    }
}

#[test]
fn leb128_rejects_bad_input() {
    // truncated: a continuation byte with nothing after it
    assert_eq!(leb128_read(&vec![0x80], 0), Err(Error::MalformedObject));
    // empty input
    assert_eq!(leb128_read(&Vec::new(), 0), Err(Error::MalformedObject));
    // non-minimal encoding of zero
    assert_eq!(leb128_read(&vec![0x80, 0x00], 0), Err(Error::MalformedObject));
}

#[test]
fn canonical_encoding_exact_bytes() {
    let o = Object::new(b"hello\n".to_vec(), Vec::new());
    let enc = o.encode();
    let mut expected = vec![6u8];
    expected.extend_from_slice(b"hello\n");
    expected.extend_from_slice(&algo_name_bytes());
    expected.push(0);
    expected.push(32);
    expected.push(0);
    assert_eq!(enc, expected);
}

#[test]
fn canonical_round_trip() {
    let d1 = Sha3Digest::hash_bytes(&b"left".to_vec());
    let d2 = Sha3Digest::hash_bytes(&b"right".to_vec());
    let o = Object::new(b"payload".to_vec(), vec![d1.duplicate(), d2.duplicate()]);
    let enc = o.encode();
    let back = Object::decode(&enc).unwrap();
    assert_eq!(back.blob, b"payload".to_vec());
    assert_eq!(back.refs.len(), 2);
    assert!(back.refs[0] == d1);
    assert!(back.refs[1] == d2);
}

#[test]
fn canonical_decode_rejects_garbage() {
    assert_eq!(
        Object::decode(&b"not an object".to_vec()).err(),
        Some(Error::MalformedObject)
    );
    // a valid encoding with a trailing byte is malformed too
    let mut enc = Object::new(b"x".to_vec(), Vec::new()).encode();
    enc.push(0);
    assert_eq!(Object::decode(&enc).err(), Some(Error::MalformedObject));
    // a wrong algorithm name is malformed
    let mut enc = Object::new(b"x".to_vec(), Vec::new()).encode();
    enc[2] = b'm';
    assert_eq!(Object::decode(&enc).err(), Some(Error::MalformedObject));
}

#[test]
fn digest_matches_reference_implementation() {
    // the library's hashing must agree with an independent SHA3-256
    let d = Sha3Digest::hash_bytes(&b"abc".to_vec());
    let expected = sha3::Sha3_256::digest(b"abc").to_vec();
    assert_eq!(d.as_bytes(), &expected);
    assert_ne!(d.as_bytes(), &b"abc".to_vec());
}

#[test]
fn digest_stability() {
    let a = Object::new(b"same".to_vec(), vec![zero_digest()]);
    let b = Object::new(b"same".to_vec(), vec![zero_digest()]);
    assert!(a.digest() == b.digest());
    let c = Object::new(b"other".to_vec(), vec![zero_digest()]);
    assert!(a.digest() != c.digest());
}

#[test]
fn subtree_payload_round_trip() {
    let mut sub = SubtreeObject::new();
    // inserted out of order; held sorted by name
    sub.insert(b"zeta".to_vec(), SubtreeEntry::Subtree(zero_digest()));
    sub.insert(b"alpha".to_vec(), SubtreeEntry::File(zero_digest(), 42));
    sub.insert(b"mid".to_vec(), SubtreeEntry::File(zero_digest(), 7));
    let payload = encode_subtree_payload(&sub);
    let back = decode_subtree_payload(&payload).unwrap();
    assert_eq!(back.len(), 3);
    let (n0, e0) = back.entry_at(0);
    assert_eq!(n0, b"alpha".to_vec());
    assert!(matches!(e0, SubtreeEntry::File(_, 42)));
    let (n1, _) = back.entry_at(1);
    assert_eq!(n1, b"mid".to_vec());
    let (n2, e2) = back.entry_at(2);
    assert_eq!(n2, b"zeta".to_vec());
    assert!(matches!(e2, SubtreeEntry::Subtree(_)));
}

#[test]
fn subtree_insert_replaces_same_name() {
    let mut sub = SubtreeObject::new();
    sub.insert(b"name".to_vec(), SubtreeEntry::File(zero_digest(), 1));
    sub.insert(b"name".to_vec(), SubtreeEntry::File(zero_digest(), 2));
    assert_eq!(sub.len(), 1);
    let (_, e) = sub.entry_at(0);
    assert!(matches!(e, SubtreeEntry::File(_, 2)));
}

#[test]
fn subtree_decode_rejects_unsorted() {
    let mut sub = SubtreeObject::new();
    sub.insert(b"a".to_vec(), SubtreeEntry::File(zero_digest(), 0));
    sub.insert(b"b".to_vec(), SubtreeEntry::File(zero_digest(), 0));
    let payload = encode_subtree_payload(&sub);
    // swap the two one-byte names to break the canonical order
    let mut broken = payload.clone();
    let a_at = payload.iter().position(|&b| b == b'a').unwrap();
    let b_at = payload.iter().position(|&b| b == b'b').unwrap();
    broken[a_at] = b'b';
    broken[b_at] = b'a';
    assert_eq!(decode_subtree_payload(&broken).err(), Some(Error::MalformedObject));
}

#[test]
fn timestamp_exact_bytes() {
    let t = Timestamp { year: 2024, month: 1, day: 2, hour: 3, minute: 4, second: 5 };
    let mut out = Vec::new();
    encode_timestamp(&mut out, &t);
    assert_eq!(out, b"2024-01-02T03:04:05Z".to_vec());
}

#[test]
fn small_object_payload() {
    let small = attaca::object::SmallObject { chunk: b"chunk".to_vec() };
    assert_eq!(small.size(), 5);
    assert_eq!(small.as_raw().chunk, b"chunk");
    let o = small.to_object();
    let mut expected = vec![0u8];
    expected.extend_from_slice(b"chunk");
    assert_eq!(o.blob, expected);
    assert_eq!(o.refs.len(), 0);
}

#[test]
fn large_object_payload() {
    let d1 = Sha3Digest::hash_bytes(&b"one".to_vec());
    let d2 = Sha3Digest::hash_bytes(&b"two".to_vec());
    let large = attaca::object::LargeObject {
        size: 300,
        children: vec![(100, d1.duplicate()), (200, d2.duplicate())],
    };
    assert_eq!(large.size(), 300);
    let o = large.to_object();
    assert_eq!(o.blob[0], 1);
    assert_eq!(o.refs.len(), 2);
    assert!(o.refs[0] == d1);
    assert!(o.refs[1] == d2);
    let data = attaca::object::DataObject::Large(large);
    assert_eq!(data.size(), 300);
    assert!(!data.is_empty());
}

#[test]
fn commit_object_refs() {
    let subtree = Sha3Digest::hash_bytes(&b"tree".to_vec());
    let parent = Sha3Digest::hash_bytes(&b"parent".to_vec());
    let commit = attaca::object::CommitObject {
        subtree: subtree.duplicate(),
        parents: vec![parent.duplicate()],
        message: b"first commit".to_vec(),
        timestamp: Timestamp { year: 2024, month: 6, day: 15, hour: 12, minute: 0, second: 0 },
    };
    let o = commit.to_object();
    assert_eq!(o.blob[0], 3);
    assert_eq!(o.refs.len(), 2);
    assert!(o.refs[0] == subtree);
    assert!(o.refs[1] == parent);
    // the payload ends with the fixed-width timestamp
    let tail = &o.blob[o.blob.len() - 20..];
    assert_eq!(tail, b"2024-06-15T12:00:00Z");
}

#[test]
fn shallow_object_hash() {
    let d = Sha3Digest::hash_bytes(&b"ref".to_vec());
    let shallow = attaca::object::ShallowObject::Data(d.duplicate(), 10);
    assert!(shallow.hash() == d);
}

#[test]
fn small_payload_round_trip() {
    let small = attaca::object::SmallObject { chunk: b"data".to_vec() };
    let o = small.to_object();
    let back = attaca::object::decode_small_payload(&o.blob).unwrap();
    assert_eq!(back.chunk, b"data".to_vec());
    // an empty input and a wrong tag are rejected
    assert_eq!(
        attaca::object::decode_small_payload(&Vec::new()).err(),
        Some(Error::MalformedObject)
    );
    assert_eq!(
        attaca::object::decode_small_payload(&vec![9u8, 1, 2]).err(),
        Some(Error::MalformedObject)
    );
}

#[test]
fn large_payload_round_trip() {
    let d1 = Sha3Digest::hash_bytes(&b"one".to_vec());
    let d2 = Sha3Digest::hash_bytes(&b"two".to_vec());
    let large = attaca::object::LargeObject {
        size: 300,
        children: vec![(100, d1.duplicate()), (200, d2.duplicate())],
    };
    let o = large.to_object();
    let back = attaca::object::decode_large_payload(&o.blob).unwrap();
    assert_eq!(back.size, 300);
    assert_eq!(back.children.len(), 2);
    assert_eq!(back.children[0].0, 100);
    assert!(back.children[0].1 == d1);
    assert_eq!(back.children[1].0, 200);
    assert!(back.children[1].1 == d2);
    // a truncated child list is rejected
    let mut cut = o.blob.clone();
    cut.truncate(cut.len() - 1);
    assert_eq!(
        attaca::object::decode_large_payload(&cut).err(),
        Some(Error::MalformedObject)
    );
    // a trailing byte is rejected
    let mut extra = o.blob.clone();
    extra.push(0);
    assert_eq!(
        attaca::object::decode_large_payload(&extra).err(),
        Some(Error::MalformedObject)
    );
}

#[test]
fn commit_payload_round_trip() {
    let subtree = Sha3Digest::hash_bytes(&b"tree".to_vec());
    let p1 = Sha3Digest::hash_bytes(&b"parent one".to_vec());
    let p2 = Sha3Digest::hash_bytes(&b"parent two".to_vec());
    let commit = attaca::object::CommitObject {
        subtree: subtree.duplicate(),
        parents: vec![p1.duplicate(), p2.duplicate()],
        message: b"a message".to_vec(),
        timestamp: Timestamp { year: 2024, month: 6, day: 15, hour: 12, minute: 34, second: 56 },
    };
    let o = commit.to_object();
    let back = attaca::object::decode_commit_payload(&o.blob).unwrap();
    assert!(back.subtree == subtree);
    assert_eq!(back.parents.len(), 2);
    assert!(back.parents[0] == p1);
    assert!(back.parents[1] == p2);
    assert_eq!(back.message, b"a message".to_vec());
    assert_eq!(
        back.timestamp,
        Timestamp { year: 2024, month: 6, day: 15, hour: 12, minute: 34, second: 56 }
    );
    // a broken timestamp digit is rejected
    let mut bad = o.blob.clone();
    let n = bad.len();
    bad[n - 2] = b'x';
    assert_eq!(
        attaca::object::decode_commit_payload(&bad).err(),
        Some(Error::MalformedObject)
    );
    // an out-of-range month is rejected
    let mut bad2 = o.blob.clone();
    let n2 = bad2.len();
    bad2[n2 - 15] = b'1';
    bad2[n2 - 14] = b'3';
    assert_eq!(
        attaca::object::decode_commit_payload(&bad2).err(),
        Some(Error::MalformedObject)
    );
    // truncation is rejected
    let mut cut = o.blob.clone();
    cut.truncate(cut.len() - 1);
    assert_eq!(
        attaca::object::decode_commit_payload(&cut).err(),
        Some(Error::MalformedObject)
    );
}
