use spfs::encoding::{self, Digest};
use spfs::graph::{Blob, Entry, Layer, Manifest, Object, Platform};
use spfs::tracking::EntryKind;

fn sample_digest(seed: u64) -> Digest {
    Digest {
        q0: seed,
        q1: seed.wrapping_mul(31),
        q2: seed ^ 0xdead,
        q3: seed.rotate_left(17),
    }
}

fn roundtrip(o: &Object) -> Object {
    let bytes = o.to_bytes();
    Object::decode(&bytes).expect("decoding a canonical encoding must succeed")
}

#[test]
fn blob_round_trip() {
    let o = Object::Blob(Blob {
        payload: sample_digest(7),
        size: 42,
    });
    match roundtrip(&o) {
        Object::Blob(b) => {
            assert_eq!(b.payload, sample_digest(7));
            assert_eq!(b.size, 42);
        }
        _ => panic!("wrong variant"),
    }
}

#[test]
fn layer_round_trip() {
    let o = Object::Layer(Layer {
        manifest: sample_digest(9),
    });
    match roundtrip(&o) {
        Object::Layer(l) => assert_eq!(l.manifest, sample_digest(9)),
        _ => panic!("wrong variant"),
    }
}

#[test]
fn platform_round_trip() {
    let o = Object::Platform(Platform {
        layers: vec![sample_digest(1), sample_digest(2), sample_digest(3)],
    });
    match roundtrip(&o) {
        Object::Platform(p) => {
            assert_eq!(p.layers.len(), 3);
            assert_eq!(p.layers[0], sample_digest(1));
            assert_eq!(p.layers[2], sample_digest(3));
        }
        _ => panic!("wrong variant"),
    }
}

#[test]
fn manifest_round_trip() {
    let mut m = Manifest::new();
    m.insert(Entry {
        name: "hello.txt".to_string(),
        kind: EntryKind::Blob,
        mode: 0o644,
        object: sample_digest(11),
        size: 5,
    });
    m.insert(Entry {
        name: "sub".to_string(),
        kind: EntryKind::Tree,
        mode: 0o755,
        object: sample_digest(12),
        size: 0,
    });
    let o = Object::Manifest(m);
    match roundtrip(&o) {
        Object::Manifest(m2) => {
            assert_eq!(m2.entries.len(), 2);
            assert_eq!(m2.entries[0].name, "hello.txt");
            assert_eq!(m2.entries[0].mode, 0o644);
            assert_eq!(m2.entries[1].name, "sub");
            assert_eq!(m2.entries[1].object, sample_digest(12));
        }
        _ => panic!("wrong variant"),
    }
}

#[test]
fn digest_is_stable_across_encodings() {
    let o = Object::Blob(Blob {
        payload: sample_digest(3),
        size: 9,
    });
    let d1 = o.digest();
    let d2 = o.digest();
    assert_eq!(d1, d2);
    let o2 = roundtrip(&o);
    assert_eq!(o2.digest(), d1);
}

#[test]
fn truncated_stream_is_rejected() {
    let o = Object::Blob(Blob {
        payload: sample_digest(5),
        size: 1,
    });
    let mut bytes = o.to_bytes();
    bytes.pop();
    assert!(matches!(
        Object::decode(&bytes),
        Err(spfs::Error::EncodingError(_))
    ));
}

#[test]
fn trailing_garbage_is_rejected() {
    let o = Object::Layer(Layer {
        manifest: sample_digest(5),
    });
    let mut bytes = o.to_bytes();
    bytes.push(0);
    assert!(Object::decode(&bytes).is_err());
}

#[test]
fn unknown_tag_byte_is_rejected() {
    let bytes = vec![9u8, 0, 0, 0];
    assert!(Object::decode(&bytes).is_err());
}

#[test]
fn non_canonical_manifest_encoding_is_rejected() {
    // Encode a manifest with entries out of canonical order by hand: two
    // blob entries named "b" then "a".
    let mut m1 = Manifest::new();
    m1.insert(Entry {
        name: "b".to_string(),
        kind: EntryKind::Blob,
        mode: 0,
        object: encoding::empty_digest(),
        size: 0,
    });
    let mut m2 = Manifest::new();
    m2.insert(Entry {
        name: "a".to_string(),
        kind: EntryKind::Blob,
        mode: 0,
        object: encoding::empty_digest(),
        size: 0,
    });
    let b1 = Object::Manifest(m1).to_bytes();
    let b2 = Object::Manifest(m2).to_bytes();
    // Splice the two one-entry bodies into one two-entry manifest with the
    // entries reversed ("b" before "a").
    let mut forged = Vec::new();
    forged.push(1u8); // manifest tag
    forged.extend_from_slice(&[0, 0, 0, 0, 0, 0, 0, 2]); // two entries
    forged.extend_from_slice(&b1[9..]); // entry "b"
    forged.extend_from_slice(&b2[9..]); // entry "a"
    assert!(Object::decode(&forged).is_err());
}

#[test]
fn hex_round_trip() {
    let d = sample_digest(99);
    let h = d.to_hex();
    assert_eq!(h.len(), 64);
    assert_eq!(Digest::from_hex(&h), Some(d));
}

#[test]
fn hex_rejects_bad_input() {
    assert_eq!(Digest::from_hex("zz"), None);
    assert_eq!(Digest::from_hex(""), None);
    let d = sample_digest(4);
    let mut h = d.to_hex();
    h.pop();
    assert_eq!(Digest::from_hex(&h), None);
}

#[test]
fn empty_digest_is_digest_of_empty_content() {
    let d = encoding::empty_digest();
    let e = encoding::hash_bytes(&Vec::new());
    assert_eq!(d, e);
    assert_ne!(d, encoding::null_digest());
}
