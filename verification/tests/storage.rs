use spfs::db::Database;
use spfs::encoding::Digest;
use spfs::graph::{Blob, Layer, Object, Platform};
use spfs::storage::{digest_path, PinnedRepository, Repository, RepositoryHandle};
use spfs::sync::sync_object_tree;

fn blob(seed: u64) -> Object {
    Object::Blob(Blob {
        payload: Digest {
            q0: seed,
            q1: 0,
            q2: 0,
            q3: seed,
        },
        size: seed,
    })
}

#[test]
fn write_then_read_returns_the_object() {
    let mut db = Database::new();
    let o = blob(1);
    let d = db.write_object(&o).unwrap();
    let got = db.read_object(&d).unwrap();
    assert_eq!(got.digest(), d);
}

#[test]
fn read_of_absent_digest_is_unknown_object() {
    let db = Database::new();
    let d = spfs::encoding::null_digest();
    match db.read_object(&d) {
        Err(e) => assert!(e.is_unknown_object()),
        Ok(_) => panic!("read of an absent digest must fail"),
    }
}

#[test]
fn write_object_is_idempotent() {
    let mut db = Database::new();
    let o = blob(2);
    let d1 = db.write_object(&o).unwrap();
    let n1 = db.len();
    let d2 = db.write_object(&o).unwrap();
    assert_eq!(d1, d2);
    assert_eq!(db.len(), n1);
    let digests = db.iter_digests();
    assert_eq!(digests.len(), 1);
}

#[test]
fn remove_object_treats_absent_as_success() {
    let mut db = Database::new();
    let o = blob(3);
    let d = db.write_object(&o).unwrap();
    db.remove_object(&d).unwrap();
    assert!(!db.has_object(&d));
    // Removing again is still a success.
    db.remove_object(&d).unwrap();
}

#[test]
fn walk_visits_every_reachable_digest_once() {
    let mut db = Database::new();
    let b = blob(4);
    let bd = db.write_object(&b).unwrap();
    let mut m = spfs::graph::Manifest::new();
    m.insert(spfs::graph::Entry {
        name: "f".to_string(),
        kind: spfs::tracking::EntryKind::Blob,
        mode: 0,
        object: bd,
        size: 0,
    });
    let md = db.write_object(&Object::Manifest(m)).unwrap();
    let ld = db.write_object(&Object::Layer(Layer { manifest: md })).unwrap();
    let pd = db
        .write_object(&Object::Platform(Platform { layers: vec![ld] }))
        .unwrap();
    let visited = db.walk_objects(&pd);
    let found: Vec<Digest> = visited.iter().map(|(d, _)| *d).collect();
    assert!(found.contains(&pd));
    assert!(found.contains(&ld));
    assert!(found.contains(&md));
    assert!(found.contains(&bd));
    // Each digest appears exactly once.
    for i in 0..found.len() {
        for j in 0..found.len() {
            if i != j {
                assert_ne!(found[i], found[j]);
            }
        }
    }
    // Everything present is flagged as such.
    assert!(visited.iter().all(|(_, present)| *present));
}

#[test]
fn walk_terminates_on_chain_of_nested_trees() {
    // A chain platform -> layer -> manifest -> blob repeated by rewrapping.
    let mut db = Database::new();
    let mut d = db.write_object(&blob(5)).unwrap();
    for _ in 0..32 {
        d = db.write_object(&Object::Layer(Layer { manifest: d })).unwrap();
    }
    let visited = db.walk_objects(&d);
    assert_eq!(visited.len(), 33);
}

#[test]
fn walk_reports_missing_children() {
    let mut db = Database::new();
    let ghost = Digest {
        q0: 1,
        q1: 2,
        q2: 3,
        q3: 4,
    };
    let ld = db.write_object(&Object::Layer(Layer { manifest: ghost })).unwrap();
    let visited = db.walk_objects(&ld);
    assert_eq!(visited.len(), 2);
    let missing: Vec<_> = visited.iter().filter(|(_, p)| !p).collect();
    assert_eq!(missing.len(), 1);
    assert_eq!(missing[0].0, ghost);
}

#[test]
fn sync_is_idempotent_and_complete() {
    let mut src = Repository::new();
    let b = blob(6);
    let bd = src.db.write_object(&b).unwrap();
    let ld = src
        .db
        .write_object(&Object::Layer(Layer { manifest: bd }))
        .unwrap();

    let mut dst = Repository::new();
    let report = sync_object_tree(&src, &mut dst, &ld).unwrap();
    assert_eq!(report.transferred, 2);
    assert!(dst.db.has_object(&ld));
    assert!(dst.db.has_object(&bd));

    // A second identical sync transfers zero objects.
    let report2 = sync_object_tree(&src, &mut dst, &ld).unwrap();
    assert_eq!(report2.transferred, 0);
}

#[test]
fn sync_aborts_on_missing_source_object() {
    let mut src = Repository::new();
    let ghost = Digest {
        q0: 9,
        q1: 9,
        q2: 9,
        q3: 9,
    };
    let ld = src
        .db
        .write_object(&Object::Layer(Layer { manifest: ghost }))
        .unwrap();
    let mut dst = Repository::new();
    assert!(sync_object_tree(&src, &mut dst, &ld).is_err());
    assert!(!dst.db.has_object(&ld));
}

#[test]
fn sync_env_moves_objects_then_tags() {
    let mut src = Repository::new();
    let bd = src.db.write_object(&blob(20)).unwrap();
    let ld = src
        .db
        .write_object(&Object::Layer(Layer { manifest: bd }))
        .unwrap();
    src.tags.push_tag("envs/main", &ld, 5);

    let mut dst = Repository::new();
    let spec = spfs::tracking::EnvSpec::parse("envs/main").unwrap();
    let roots = spfs::sync::sync_env(&src, &mut dst, &spec, 9).unwrap();
    assert_eq!(roots, vec![ld]);
    // The objects arrived, and the tag points at something the
    // destination holds.
    assert!(dst.db.has_object(&ld));
    assert!(dst.db.has_object(&bd));
    let target = dst.tags.resolve_tag("envs/main").unwrap();
    assert_eq!(target, ld);
    assert!(dst.db.has_object(&target));
}

#[test]
fn sync_env_missing_source_object_commits_no_tag() {
    let mut src = Repository::new();
    let ghost = Digest {
        q0: 5,
        q1: 6,
        q2: 7,
        q3: 8,
    };
    let ld = src
        .db
        .write_object(&Object::Layer(Layer { manifest: ghost }))
        .unwrap();
    src.tags.push_tag("envs/broken", &ld, 5);
    let mut dst = Repository::new();
    let spec = spfs::tracking::EnvSpec::parse("envs/broken").unwrap();
    assert!(spfs::sync::sync_env(&src, &mut dst, &spec, 9).is_err());
    assert!(dst.tags.resolve_tag("envs/broken").is_err());
}

#[test]
fn pinned_repository_rejects_writes() {
    let mut base = Repository::new();
    let d = base.db.write_object(&blob(7)).unwrap();
    let mut pinned = PinnedRepository::pin(base);
    assert!(pinned.read_object(&d).is_ok());
    match pinned.write_object(&blob(8)) {
        Err(spfs::Error::StorageFault(_)) => {}
        _ => panic!("writes through a pinned repository must be rejected"),
    }
}

#[test]
fn repository_handle_dispatches_backends() {
    let mut repo = Repository::new();
    let d = repo.db.write_object(&blob(9)).unwrap();
    let mut handle = RepositoryHandle::FS(repo);
    assert!(handle.read_object(&d).is_ok());
    assert!(handle.write_object(&blob(10)).is_ok());

    let mut base = Repository::new();
    let d2 = base.db.write_object(&blob(11)).unwrap();
    let mut pinned_handle = RepositoryHandle::Pinned(PinnedRepository::pin(base));
    assert!(pinned_handle.read_object(&d2).is_ok());
    assert!(pinned_handle.write_object(&blob(12)).is_err());
}

#[test]
fn digest_path_shards_by_first_two_characters() {
    let d = Digest {
        q0: 0,
        q1: 0,
        q2: 0,
        q3: 0,
    };
    let p = digest_path(&d);
    assert_eq!(p.len(), 65);
    assert_eq!(&p[0..3], "00/");
    let h = d.to_hex();
    assert_eq!(&p[3..], &h[2..]);
}

#[test]
fn payload_store_round_trip() {
    let mut repo = Repository::new();
    let d = repo.payloads.write_payload(vec![1, 2, 3]);
    assert!(repo.payloads.has_payload(&d));
    assert_eq!(repo.payloads.read_payload(&d).unwrap(), vec![1, 2, 3]);
    // Idempotent by content.
    let d2 = repo.payloads.write_payload(vec![1, 2, 3]);
    assert_eq!(d, d2);
}
