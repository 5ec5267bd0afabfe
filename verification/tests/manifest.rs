use spfs::encoding;
use spfs::graph::{Entry, Manifest};
use spfs::tracking::EntryKind;

fn entry(name: &str, kind: EntryKind, object: encoding::Digest) -> Entry {
    Entry {
        name: name.to_string(),
        kind,
        mode: 0,
        object,
        size: 0,
    }
}

#[test]
fn test_entry_blobs_compare_name() {
    let a = Entry {
        name: "a".to_string(),
        kind: EntryKind::Blob,
        mode: 0,
        object: encoding::empty_digest(),
        size: 0,
    };
    let b = Entry {
        name: "b".to_string(),
        kind: EntryKind::Blob,
        mode: 0,
        object: encoding::empty_digest(),
        size: 0,
    };
    assert!(a < b);
    assert!(b > a);
}

#[test]
fn test_entry_trees_compare_name() {
    let a = Entry {
        name: "a".to_string(),
        kind: EntryKind::Tree,
        mode: 0,
        object: encoding::empty_digest(),
        size: 0,
    };
    let b = Entry {
        name: "b".to_string(),
        kind: EntryKind::Tree,
        mode: 0,
        object: encoding::empty_digest(),
        size: 0,
    };
    assert!(a < b);
    assert!(b > a);
}

#[test]
fn test_entry_compare_kind() {
    let blob = Entry {
        name: "a".to_string(),
        kind: EntryKind::Blob,
        mode: 0,
        object: encoding::empty_digest(),
        size: 0,
    };
    let tree = Entry {
        name: "b".to_string(),
        kind: EntryKind::Tree,
        mode: 0,
        object: encoding::empty_digest(),
        size: 0,
    };
    assert!(tree > blob);
    assert!(blob < tree);
}

#[test]
fn test_entry_compare() {
    let root_file = Entry {
        name: "file".to_string(),
        kind: EntryKind::Blob,
        mode: 0,
        object: encoding::null_digest(),
        size: 0,
    };
    let root_dir = Entry {
        name: "xdir".to_string(),
        kind: EntryKind::Tree,
        mode: 0,
        object: encoding::null_digest(),
        size: 0,
    };
    assert!(root_dir > root_file);
}

#[test]
fn manifest_insert_keeps_canonical_order() {
    let mut m = Manifest::new();
    m.insert(entry("zeta", EntryKind::Blob, encoding::empty_digest()));
    m.insert(entry("alpha", EntryKind::Tree, encoding::empty_digest()));
    m.insert(entry("beta", EntryKind::Blob, encoding::empty_digest()));
    // Blobs sort before trees, names ascending within a kind.
    let names: Vec<&str> = m.entries.iter().map(|e| e.name.as_str()).collect();
    assert_eq!(names, vec!["beta", "zeta", "alpha"]);
}

#[test]
fn manifest_insert_replaces_same_name() {
    let mut m = Manifest::new();
    m.insert(entry("a", EntryKind::Blob, encoding::empty_digest()));
    m.insert(entry("a", EntryKind::Tree, encoding::null_digest()));
    assert_eq!(m.entries.len(), 1);
    assert!(matches!(m.entries[0].kind, EntryKind::Tree));
}

#[test]
fn construction_order_does_not_change_digest() {
    // Two manifests with the same content, built in different orders,
    // encode and hash identically.
    let mut m1 = Manifest::new();
    m1.insert(entry("a", EntryKind::Blob, encoding::empty_digest()));
    m1.insert(entry("d", EntryKind::Tree, encoding::empty_digest()));
    m1.insert(entry("c", EntryKind::Blob, encoding::empty_digest()));

    let mut m2 = Manifest::new();
    m2.insert(entry("c", EntryKind::Blob, encoding::empty_digest()));
    m2.insert(entry("a", EntryKind::Blob, encoding::empty_digest()));
    m2.insert(entry("d", EntryKind::Tree, encoding::empty_digest()));

    let o1 = spfs::graph::Object::Manifest(m1);
    let o2 = spfs::graph::Object::Manifest(m2);
    assert_eq!(o1.digest(), o2.digest());
}
