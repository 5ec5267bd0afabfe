//! Graph-aware synchronization between repositories.
//!
//! A sync walks the object graph in the source and transfers every visited
//! object that the destination does not yet hold, together with blob
//! payloads.  Presence in the destination is the sole deduplication: an
//! already-present digest is skipped whole.  Because object writes are
//! idempotent, an interrupted sync can simply be retried.

use vstd::prelude::*;

verus! {

use crate::db::{reachable, walk_has, lemma_walk_complete, lemma_contents_consistent_at};
use crate::encoding::Digest;
use crate::graph::{Object, ObjectV};
use crate::encoding::digest_of;
use crate::storage::Repository;
use crate::Error;

/// Every key of `a` is a key of `b`.
pub open spec fn keys_grow<V>(a: Map<Digest, V>, b: Map<Digest, V>) -> bool {
    forall|k: Digest| #[trigger] a.contains_key(k) ==> b.contains_key(k)
}

/// Whether the payload of the blob stored at `d` (if it is one, and the
/// source holds its bytes) is present in the destination payload store.
pub open spec fn blob_payload_synced(
    sm: Map<Digest, ObjectV>,
    src_p: Map<Digest, Seq<u8>>,
    dst_p: Map<Digest, Seq<u8>>,
    d: Digest,
) -> bool {
    match sm[d] {
        ObjectV::Blob(b) => src_p.contains_key(b.payload) ==> dst_p.contains_key(b.payload),
        _ => true,
    }
}

/// Copies the one object at `d` (and, for a blob, its payload bytes) from
/// the source into the destination, unless the destination already holds
/// the digest, in which case nothing changes.  Returns whether it wrote.
#[verifier::rlimit(100)]
#[verifier::spinoff_prover]
fn transfer_one(src: &Repository, dst: &mut Repository, d: &Digest) -> (r: bool)
    requires
        src.wf(),
        old(dst).wf(),
        src.db.contents().contains_key(*d),
    ensures
        final(dst).wf(),
        final(dst).tags == old(dst).tags,
        r == !old(dst).db.contents().contains_key(*d),
        !r ==> *final(dst) == *old(dst),
        final(dst).db.contents().contains_key(*d),
        keys_grow(old(dst).db.contents(), final(dst).db.contents()),
        keys_grow(old(dst).payloads.contents(), final(dst).payloads.contents()),
        forall|x: Digest|
            #[trigger] final(dst).db.contents().contains_key(x) ==> old(dst).db.contents(
            ).contains_key(x) || x == *d,
        r ==> blob_payload_synced(
            src.db.contents(),
            src.payloads.contents(),
            final(dst).payloads.contents(),
            *d,
        ),
{
    proof {
        lemma_contents_consistent_at(src.db, *d);
    }
    if dst.db.has_object(d) {
        return false;
    }
    let o = match src.db.read_object(d) {
        Ok(o) => o,
        Err(_) => {
            proof {
                assert(false);
            }
            return false;
        },
    };
    let _ = match dst.db.write_object(&o) {
        Ok(w) => w,
        Err(_) => {
            proof {
                assert(false);
            }
            return false;
        },
    };
    // A blob's raw bytes travel with it when the source holds them.
    match o {
        Object::Blob(b) => {
            match src.payloads.read_payload(&b.payload) {
                Ok(bytes) => {
                    proof {
                        crate::storage::lemma_payload_consistent_at(src.payloads, b.payload);
                        assert(digest_of(bytes@) == b.payload);
                    }
                    let _ = dst.payloads.write_payload(bytes);
                },
                Err(_) => {},
            }
        },
        _ => {},
    }
    true
}

/// What one sync did.
pub struct SyncReport {
    /// How many objects were written to the destination.
    pub transferred: usize,
}

/// Transfers every object reachable from `root` in `src` into `dst`.
///
/// On success, every digest reachable from the root and present in the
/// source is present in the destination, and the report counts zero
/// transfers exactly when the destination already held them all — so a
/// second identical sync transfers nothing and leaves the destination
/// untouched.  A blob's raw payload travels with it: for every reachable
/// blob the destination did not yet hold, the payload bytes held by the
/// source are in the destination afterwards.  (A digest already present in
/// the destination is skipped whole — object and payload — as the sole
/// deduplication.)  A reachable digest missing from the source aborts the
/// sync before anything is transferred, leaving the destination untouched.
#[verifier::rlimit(100)]
pub fn sync_object_tree(src: &Repository, dst: &mut Repository, root: &Digest) -> (r: crate::Result<
    SyncReport,
>)
    requires
        src.wf(),
        old(dst).wf(),
    ensures
        final(dst).wf(),
        final(dst).tags == old(dst).tags,
        keys_grow(old(dst).db.contents(), final(dst).db.contents()),
        keys_grow(old(dst).payloads.contents(), final(dst).payloads.contents()),
        match r {
            Ok(rep) => {
                &&& forall|d: Digest|
                    reachable(src.db.contents(), *root, d) ==> src.db.contents().contains_key(d)
                &&& forall|d: Digest|
                    reachable(src.db.contents(), *root, d) ==> final(dst).db.contents(
                    ).contains_key(d)
                &&& (rep.transferred == 0 <==> (forall|d: Digest|
                    reachable(src.db.contents(), *root, d) ==> old(dst).db.contents(
                    ).contains_key(d)))
                &&& (rep.transferred == 0 ==> *final(dst) == *old(dst))
                &&& forall|d: Digest|
                    (reachable(src.db.contents(), *root, d) && !old(dst).db.contents(
                    ).contains_key(d)) ==> #[trigger] blob_payload_synced(
                        src.db.contents(),
                        src.payloads.contents(),
                        final(dst).payloads.contents(),
                        d,
                    )
            },
            Err(e) => {
                &&& e is UnknownObject
                &&& *final(dst) == *old(dst)
                &&& exists|d: Digest|
                    reachable(src.db.contents(), *root, d) && !src.db.contents().contains_key(d)
            },
        },
{
    let ghost sm = src.db.contents();
    let visited = src.db.walk_objects(root);
    // Abort before transferring anything if a reachable object is missing.
    let n = visited.len();
    let mut i: usize = 0;
    while i < n
        invariant
            i <= n,
            n == visited@.len(),
            sm == src.db.contents(),
            crate::db::walk_post(sm, *root, visited@),
            *dst == *old(dst),
            dst.wf(),
            forall|j: int| 0 <= j < i ==> (#[trigger] visited@[j]).1,
        decreases n - i,
    {
        if !visited[i].1 {
            proof {
                assert(reachable(sm, *root, visited@[i as int].0));
                assert(!sm.contains_key(visited@[i as int].0));
            }
            return Err(Error::UnknownObject(visited[i].0));
        }
        i = i + 1;
    }
    proof {
        assert forall|d: Digest| reachable(sm, *root, d) implies sm.contains_key(d) by {
            lemma_walk_complete(sm, *root, visited@, d);
            let j = choose|j: int| 0 <= j < visited@.len() && (#[trigger] visited@[j]).0 == d;
        }
    }
    // Transfer whatever the destination does not yet hold.
    let mut transferred: usize = 0;
    let mut i: usize = 0;
    proof {
        assert forall|j: int| 0 <= j < visited@.len() implies sm.contains_key(
            (#[trigger] visited@[j]).0,
        ) by {
            assert(visited@[j].1);
        }
    }
    while i < n
        invariant
            i <= n,
            n == visited@.len(),
            src.wf(),
            sm == src.db.contents(),
            forall|j: int| 0 <= j < n ==> sm.contains_key((#[trigger] visited@[j]).0),
            forall|x: int, y: int|
                #![trigger visited@[x], visited@[y]]
                0 <= x < y < n ==> visited@[x].0 != visited@[y].0,
            forall|x: Digest|
                #[trigger] dst.db.contents().contains_key(x) ==> old(dst).db.contents(
                ).contains_key(x) || exists|j: int| 0 <= j < i && (#[trigger] visited@[j]).0 == x,
            dst.wf(),
            dst.tags == old(dst).tags,
            keys_grow(old(dst).db.contents(), dst.db.contents()),
            keys_grow(old(dst).payloads.contents(), dst.payloads.contents()),
            forall|j: int| 0 <= j < i ==> dst.db.contents().contains_key(
                (#[trigger] visited@[j]).0,
            ),
            forall|j: int|
                #![trigger visited@[j]]
                (0 <= j < i && !old(dst).db.contents().contains_key(visited@[j].0))
                    ==> blob_payload_synced(
                    sm,
                    src.payloads.contents(),
                    dst.payloads.contents(),
                    visited@[j].0,
                ),
            transferred <= i,
            transferred == 0 ==> *dst == *old(dst),
            transferred == 0 <==> (forall|j: int|
                0 <= j < i ==> old(dst).db.contents().contains_key((#[trigger] visited@[j]).0)),
        decreases n - i,
    {
        let d = visited[i].0;
        proof {
            assert(sm.contains_key(d));
        }
        let ghost dpre = *dst;
        let wrote = transfer_one(src, dst, &d);
        if wrote {
            transferred = transferred + 1;
        }
        proof {
            assert forall|j: int| 0 <= j < i + 1 implies dst.db.contents().contains_key(
                (#[trigger] visited@[j]).0,
            ) by {
                if j < i {
                    assert(dpre.db.contents().contains_key(visited@[j].0));
                }
            }
            assert forall|x: Digest|
                #[trigger] dst.db.contents().contains_key(x) implies old(dst).db.contents(
            ).contains_key(x) || exists|j: int| 0 <= j < i + 1 && (#[trigger] visited@[j]).0
                == x by {
                if dpre.db.contents().contains_key(x) {
                    if !old(dst).db.contents().contains_key(x) {
                        let jj = choose|jj: int|
                            0 <= jj < i && (#[trigger] visited@[jj]).0 == x;
                        assert(visited@[jj].0 == x);
                    }
                } else {
                    assert(x == d);
                    assert(visited@[i as int].0 == x);
                }
            }
            assert forall|j: int|
                #![trigger visited@[j]]
                (0 <= j < i + 1 && !old(dst).db.contents().contains_key(visited@[j].0))
                    implies blob_payload_synced(
                sm,
                src.payloads.contents(),
                dst.payloads.contents(),
                visited@[j].0,
            ) by {
                if j == i {
                    if !wrote {
                        assert(dpre.db.contents().contains_key(d));
                        if !old(dst).db.contents().contains_key(d) {
                            let jj = choose|jj: int|
                                0 <= jj < i && (#[trigger] visited@[jj]).0 == d;
                            assert(visited@[jj].0 != visited@[i as int].0);
                        }
                    }
                } else {
                    assert(blob_payload_synced(
                        sm,
                        src.payloads.contents(),
                        dpre.payloads.contents(),
                        visited@[j].0,
                    ));
                    match sm[visited@[j].0] {
                        ObjectV::Blob(b) => {
                            if src.payloads.contents().contains_key(b.payload) {
                                assert(dpre.payloads.contents().contains_key(b.payload));
                            }
                        },
                        _ => {},
                    }
                }
            }
        }
        i = i + 1;
    }
    proof {
        assert forall|d: Digest| reachable(sm, *root, d) implies dst.db.contents().contains_key(
            d,
        ) by {
            lemma_walk_complete(sm, *root, visited@, d);
            let j = choose|j: int| 0 <= j < visited@.len() && (#[trigger] visited@[j]).0 == d;
        }
        if transferred == 0 {
            assert forall|d: Digest| reachable(sm, *root, d) implies old(dst).db.contents(
            ).contains_key(d) by {
                lemma_walk_complete(sm, *root, visited@, d);
                let j = choose|j: int| 0 <= j < visited@.len() && (#[trigger] visited@[j]).0 == d;
            }
        } else {
            let j = choose|j: int|
                0 <= j < n && !old(dst).db.contents().contains_key((#[trigger] visited@[j]).0);
            assert(reachable(sm, *root, visited@[j].0));
        }
        assert forall|d: Digest|
            (reachable(sm, *root, d) && !old(dst).db.contents().contains_key(d))
                implies #[trigger] blob_payload_synced(
            sm,
            src.payloads.contents(),
            dst.payloads.contents(),
            d,
        ) by {
            lemma_walk_complete(sm, *root, visited@, d);
            let j = choose|j: int| 0 <= j < visited@.len() && (#[trigger] visited@[j]).0 == d;
        }
    }
    Ok(SyncReport { transferred })
}


/// Whether the item at `i` is the last tag reference carrying its name.
pub open spec fn last_tag_ref(items: Seq<crate::tracking::EnvSpecItemV>, i: int) -> bool {
    &&& 0 <= i < items.len()
    &&& items[i] is TagReference
    &&& forall|j: int|
        i < j < items.len() && (#[trigger] items[j]) is TagReference ==> items[j]->TagReference_0
            != items[i]->TagReference_0
}

/// Synchronizes a whole environment: resolves the specification against
/// the source, transfers everything reachable from each resolved root, and
/// only then pushes the specification's tags to the destination — so a
/// pushed tag never points at an object the destination lacks.  A failure
/// while objects move leaves the destination's tags untouched.
#[verifier::loop_isolation(false)]
#[verifier::rlimit(100)]
pub fn sync_env(
    src: &Repository,
    dst: &mut Repository,
    env_spec: &crate::tracking::EnvSpec,
    timestamp: u64,
) -> (r: crate::Result<Vec<Digest>>)
    requires
        src.wf(),
        old(dst).wf(),
        forall|n: Seq<char>|
            #[trigger] old(dst).tags.contents().contains_key(n) ==> old(dst).tags.contents(
            )[n].len() + env_spec.items@.len() < u64::MAX,
        env_spec.items@.len() < u64::MAX,
    ensures
        final(dst).wf(),
        keys_grow(old(dst).db.contents(), final(dst).db.contents()),
        keys_grow(old(dst).payloads.contents(), final(dst).payloads.contents()),
        ({
            let views = env_spec.items@.map_values(|it: crate::tracking::EnvSpecItem| it@);
            match r {
                Ok(roots) => {
                    &&& crate::tracking::EnvSpec::resolve_env_items(src.tags.contents(), views)
                        == Some(roots@)
                    &&& forall|j: int, d: Digest|
                        0 <= j < roots@.len() && reachable(
                            src.db.contents(),
                            #[trigger] roots@[j],
                            d,
                        ) ==> #[trigger] final(dst).db.contents().contains_key(d)
                    &&& forall|i: int|
                        #[trigger] last_tag_ref(views, i) ==> crate::tag::resolve_spec(
                            final(dst).tags.contents(),
                            views[i]->TagReference_0,
                            0,
                        ) == Some(roots@[i])
                },
                Err(_) => final(dst).tags == old(dst).tags,
            }
        }),
{
    let ghost views = env_spec.items@.map_values(|it: crate::tracking::EnvSpecItem| it@);
    let roots = match env_spec.resolve(src) {
        Ok(roots) => roots,
        Err(e) => {
            return Err(e);
        },
    };
    // First the objects, so that no pushed tag can dangle.
    let n = roots.len();
    let mut i: usize = 0;
    while i < n
        invariant
            i <= n,
            n == roots@.len(),
            src.wf(),
            dst.wf(),
            dst.tags == old(dst).tags,
            keys_grow(old(dst).db.contents(), dst.db.contents()),
            keys_grow(old(dst).payloads.contents(), dst.payloads.contents()),
            forall|j: int, d: Digest|
                0 <= j < i && reachable(src.db.contents(), #[trigger] roots@[j], d)
                    ==> #[trigger] dst.db.contents().contains_key(d),
        decreases n - i,
    {
        let ghost dpre = *dst;
        match sync_object_tree(src, dst, &roots[i]) {
            Ok(_) => {},
            Err(e) => {
                return Err(e);
            },
        }
        proof {
            assert forall|j: int, d: Digest|
                0 <= j < i + 1 && reachable(src.db.contents(), #[trigger] roots@[j], d)
                    implies #[trigger] dst.db.contents().contains_key(d) by {
                if j < i {
                    assert(dpre.db.contents().contains_key(d));
                }
            }
        }
        i = i + 1;
    }
    // Then the tags: each tag reference is appended under its name,
    // pointing at the digest it resolved to.
    let ghost db_done = dst.db;
    let ghost pay_done = dst.payloads;
    let m = env_spec.items.len();
    let mut k: usize = 0;
    proof {
        assert(m == views.len());
        assert(n == m) by {
            crate::tracking::lemma_resolve_env_items_len(src.tags.contents(), views);
        }
    }
    while k < m
        invariant
            k <= m,
            m == views.len(),
            n == roots@.len(),
            n == m,
            views == env_spec.items@.map_values(|it: crate::tracking::EnvSpecItem| it@),
            dst.wf(),
            dst.db == db_done,
            dst.payloads == pay_done,
            forall|nm: Seq<char>|
                #[trigger] dst.tags.contents().contains_key(nm) ==> dst.tags.contents()[nm].len()
                    <= (if old(dst).tags.contents().contains_key(nm) {
                    old(dst).tags.contents()[nm].len()
                } else {
                    0
                }) + k,
            forall|n2: Seq<char>|
                #[trigger] old(dst).tags.contents().contains_key(n2) ==> old(dst).tags.contents(
                )[n2].len() + m < u64::MAX,
            forall|i2: int|
                0 <= i2 < k && #[trigger] last_tag_ref(views.take(k as int), i2)
                    ==> crate::tag::resolve_spec(
                    dst.tags.contents(),
                    views[i2]->TagReference_0,
                    0,
                ) == Some(roots@[i2]),
        decreases m - k,
    {
        let ghost tpre = dst.tags.contents();
        match &env_spec.items[k] {
            crate::tracking::EnvSpecItem::TagReference(name) => {
                proof {
                    assert(views[k as int] == env_spec.items@[k as int]@);
                    if dst.tags.contents().contains_key(name@) {
                        assert(dst.tags.contents()[name@].len() < u64::MAX);
                    }
                }
                let _ = dst.tags.push_tag(name.as_str(), &roots[k], timestamp);
                proof {
                    crate::tag::lemma_resolve_after_push(tpre, name@, roots@[k as int],
                        timestamp);
                }
            },
            crate::tracking::EnvSpecItem::DigestReference(_) => {},
        }
        proof {
            assert forall|i2: int|
                0 <= i2 < k + 1 && #[trigger] last_tag_ref(views.take(k + 1), i2)
                    implies crate::tag::resolve_spec(
                dst.tags.contents(),
                views[i2]->TagReference_0,
                0,
            ) == Some(roots@[i2]) by {
                assert(views.take(k + 1)[i2] == views[i2]);
                if i2 == k {
                    assert(views[k as int] is TagReference);
                } else {
                    assert(last_tag_ref(views.take(k as int), i2)) by {
                        assert forall|j: int|
                            i2 < j < k && (#[trigger] views.take(k as int)[j]) is TagReference
                                implies views.take(k as int)[j]->TagReference_0 != views.take(
                                k as int,
                            )[i2]->TagReference_0 by {
                            assert(views.take(k + 1)[j] == views[j]);
                        }
                    }
                    match views[k as int] {
                        crate::tracking::EnvSpecItemV::TagReference(nm) => {
                            assert(views.take(k + 1)[k as int] == views[k as int]);
                            assert(nm != views[i2]->TagReference_0);
                        },
                        _ => {},
                    }
                }
            }
        }
        k = k + 1;
    }
    proof {
        assert(views.take(m as int) =~= views);
    }
    Ok(roots)
}

} // verus!
