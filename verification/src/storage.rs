//! Repositories: an object database, a payload store and a tag store bound
//! together, behind one capability set with interchangeable backends.
//!
//! A pinned repository is a read-only view of another: reads pass through,
//! writes are rejected, so reproducible queries cannot disturb the store.

use vstd::prelude::*;

verus! {

use crate::db::{Database, db_insert, reachable, walk_post};
use crate::encoding::{Digest, digest_of, hex_of_bytes, enc_digest};
use crate::graph::{Object, ObjectV, object_digest, canonical_object};
use crate::tag::{Tag, TagStore, tag_push_spec, resolve_spec};
use crate::Error;

/// The contents of a digest-payload pair sequence as a map.
pub open spec fn payload_map(s: Seq<(Digest, Vec<u8>)>) -> Map<Digest, Seq<u8>>
    decreases s.len(),
{
    if s.len() == 0 {
        Map::<Digest, Seq<u8>>::empty()
    } else {
        payload_map(s.drop_last()).insert(s.last().0, s.last().1@)
    }
}

/// Whether some pair in `s` carries the key `d`.
pub open spec fn payload_has_key(s: Seq<(Digest, Vec<u8>)>, d: Digest) -> bool {
    exists|i: int| 0 <= i < s.len() && (#[trigger] s[i]).0 == d
}

/// Distinct keys throughout.
pub open spec fn payload_keys_unique(s: Seq<(Digest, Vec<u8>)>) -> bool {
    forall|i: int, j: int|
        #![trigger s[i], s[j]]
        0 <= i < j < s.len() ==> s[i].0 != s[j].0
}

proof fn lemma_payload_map_keys(s: Seq<(Digest, Vec<u8>)>)
    ensures
        forall|d: Digest| #[trigger] payload_map(s).contains_key(d) <==> payload_has_key(s, d),
    decreases s.len(),
{
    if s.len() > 0 {
        lemma_payload_map_keys(s.drop_last());
        assert forall|d: Digest| #[trigger] payload_map(s).contains_key(d) implies payload_has_key(
            s,
            d,
        ) by {
            if d == s.last().0 {
                assert(s[s.len() - 1].0 == d);
            } else {
                assert(payload_map(s.drop_last()).contains_key(d));
                assert(payload_has_key(s.drop_last(), d));
                let i = choose|i: int|
                    0 <= i < s.drop_last().len() && (#[trigger] s.drop_last()[i]).0 == d;
                assert(s[i].0 == d);
            }
        }
        assert forall|d: Digest| payload_has_key(s, d) implies #[trigger] payload_map(
            s,
        ).contains_key(d) by {
            let i = choose|i: int| 0 <= i < s.len() && (#[trigger] s[i]).0 == d;
            if i < s.len() - 1 {
                assert(s.drop_last()[i].0 == d);
                assert(payload_has_key(s.drop_last(), d));
            } else {
                assert(payload_map(s) == payload_map(s.drop_last()).insert(s.last().0,
                    s.last().1@));
            }
        }
    }
}

proof fn lemma_payload_map_index(s: Seq<(Digest, Vec<u8>)>, i: int)
    requires
        payload_keys_unique(s),
        0 <= i < s.len(),
    ensures
        payload_map(s).contains_key(s[i].0),
        payload_map(s)[s[i].0] == s[i].1@,
    decreases s.len(),
{
    if i < s.len() - 1 {
        assert(s.drop_last()[i] == s[i]);
        assert(payload_keys_unique(s.drop_last())) by {
            assert forall|x: int, y: int| 0 <= x < y < s.drop_last().len() implies (
            #[trigger] s.drop_last()[x]).0 != (#[trigger] s.drop_last()[y]).0 by {
                assert(s.drop_last()[x] == s[x] && s.drop_last()[y] == s[y]);
            }
        }
        lemma_payload_map_index(s.drop_last(), i);
        assert(s[i].0 != s.last().0);
    }
}

/// The effect of one idempotent payload write.
pub open spec fn payload_insert(m: Map<Digest, Seq<u8>>, b: Seq<u8>) -> Map<Digest, Seq<u8>> {
    if m.contains_key(digest_of(b)) {
        m
    } else {
        m.insert(digest_of(b), b)
    }
}

/// Raw blob bytes keyed by their own digest.
pub struct PayloadStore {
    pub payloads: Vec<(Digest, Vec<u8>)>,
}

impl PayloadStore {
    /// The stored payloads, by digest.
    pub open spec fn contents(self) -> Map<Digest, Seq<u8>> {
        payload_map(self.payloads@)
    }

    /// Distinct keys, each the digest of its bytes.
    pub open spec fn wf(self) -> bool {
        &&& payload_keys_unique(self.payloads@)
        &&& forall|i: int|
            0 <= i < self.payloads@.len() ==> digest_of((#[trigger] self.payloads@[i]).1@)
                == self.payloads@[i].0
    }

    /// Creates an empty payload store.
    pub fn new() -> (r: PayloadStore)
        ensures
            r.wf(),
            r.contents() == Map::<Digest, Seq<u8>>::empty(),
    {
        let r = PayloadStore { payloads: Vec::new() };
        proof {
            assert(r.contents() =~= Map::<Digest, Seq<u8>>::empty());
        }
        r
    }

    /// Whether a payload with this digest is stored.
    #[verifier::loop_isolation(false)]
    pub fn has_payload(&self, digest: &Digest) -> (r: bool)
        ensures
            r == self.contents().contains_key(*digest),
    {
        proof {
            lemma_payload_map_keys(self.payloads@);
        }
        let n = self.payloads.len();
        let mut i: usize = 0;
        while i < n
            invariant
                i <= n,
                forall|j: int| 0 <= j < i ==> (#[trigger] self.payloads@[j]).0 != *digest,
            decreases n - i,
        {
            if self.payloads[i].0 == *digest {
                return true;
            }
            i = i + 1;
        }
        proof {
            if payload_has_key(self.payloads@, *digest) {
                let j = choose|j: int|
                    0 <= j < self.payloads@.len() && (#[trigger] self.payloads@[j]).0 == *digest;
            }
        }
        false
    }

    /// Reads the payload stored under `digest`.
    #[verifier::loop_isolation(false)]
    pub fn read_payload(&self, digest: &Digest) -> (r: crate::Result<Vec<u8>>)
        requires
            self.wf(),
        ensures
            match r {
                Ok(b) => self.contents().contains_key(*digest) && b@ == self.contents()[*digest],
                Err(e) => !self.contents().contains_key(*digest) && e == Error::UnknownObject(
                    *digest,
                ),
            },
    {
        proof {
            lemma_payload_map_keys(self.payloads@);
        }
        let n = self.payloads.len();
        let mut i: usize = 0;
        while i < n
            invariant
                i <= n,
                forall|j: int| 0 <= j < i ==> (#[trigger] self.payloads@[j]).0 != *digest,
            decreases n - i,
        {
            if self.payloads[i].0 == *digest {
                proof {
                    lemma_payload_map_index(self.payloads@, i as int);
                }
                let b = vstd::slice::slice_to_vec(self.payloads[i].1.as_slice());
                return Ok(b);
            }
            i = i + 1;
        }
        proof {
            if payload_has_key(self.payloads@, *digest) {
                let j = choose|j: int|
                    0 <= j < self.payloads@.len() && (#[trigger] self.payloads@[j]).0 == *digest;
            }
        }
        Err(Error::UnknownObject(*digest))
    }

    /// Content-addressed insert of raw bytes; idempotent like object writes.
    #[verifier::loop_isolation(false)]
    pub fn write_payload(&mut self, bytes: Vec<u8>) -> (r: Digest)
        requires
            old(self).wf(),
        ensures
            final(self).wf(),
            r == digest_of(bytes@),
            final(self).contents() == payload_insert(old(self).contents(), bytes@),
    {
        let digest = crate::encoding::hash_bytes(&bytes);
        if self.has_payload(&digest) {
            return digest;
        }
        proof {
            lemma_payload_map_keys(self.payloads@);
        }
        let ghost prev = self.payloads@;
        self.payloads.push((digest, bytes));
        proof {
            assert(self.payloads@.drop_last() =~= prev);
            assert(payload_map(self.payloads@) == payload_map(prev).insert(digest,
                self.payloads@.last().1@));
            assert(payload_keys_unique(self.payloads@)) by {
                assert forall|x: int, y: int| 0 <= x < y < self.payloads@.len() implies (
                #[trigger] self.payloads@[x]).0 != (#[trigger] self.payloads@[y]).0 by {
                    if y == self.payloads@.len() - 1 {
                        assert(self.payloads@[x] == prev[x]);
                        if prev[x].0 == digest {
                            assert(payload_has_key(prev, digest));
                        }
                    } else {
                        assert(self.payloads@[x] == prev[x] && self.payloads@[y] == prev[y]);
                    }
                }
            }
        }
        digest
    }
}

/// The stored payload at one present digest hashes to that digest.
pub proof fn lemma_payload_consistent_at(ps: PayloadStore, d: Digest)
    requires
        ps.wf(),
        ps.contents().contains_key(d),
    ensures
        digest_of(ps.contents()[d]) == d,
{
    lemma_payload_map_keys(ps.payloads@);
    let i = choose|i: int| 0 <= i < ps.payloads@.len() && (#[trigger] ps.payloads@[i]).0 == d;
    lemma_payload_map_index(ps.payloads@, i);
}

/// A complete store: objects, payloads and tags behind one interface.
pub struct Repository {
    pub db: Database,
    pub payloads: PayloadStore,
    pub tags: TagStore,
}

impl Repository {
    /// All parts well formed.
    pub open spec fn wf(self) -> bool {
        self.db.wf() && self.payloads.wf() && self.tags.wf()
    }

    /// Creates an empty repository.
    pub fn new() -> (r: Repository)
        ensures
            r.wf(),
            r.db.contents() == Map::<Digest, ObjectV>::empty(),
            r.payloads.contents() == Map::<Digest, Seq<u8>>::empty(),
            r.tags.contents() == Map::<Seq<char>, Seq<Tag>>::empty(),
    {
        Repository { db: Database::new(), payloads: PayloadStore::new(), tags: TagStore::new() }
    }
}

/// A read-only view of a repository, fixed at construction.  All reads
/// resolve against the wrapped store; every write is rejected.
pub struct PinnedRepository {
    pub base: Repository,
}

impl PinnedRepository {
    /// The pinned view is well formed when its base is.
    pub open spec fn wf(self) -> bool {
        self.base.wf()
    }

    /// Pins a repository, taking a read-only snapshot of it.
    pub fn pin(base: Repository) -> (r: PinnedRepository)
        ensures
            r.base == base,
    {
        PinnedRepository { base }
    }

    /// Reads pass through to the pinned store.
    pub fn read_object(&self, digest: &Digest) -> (r: crate::Result<Object>)
        requires
            self.wf(),
        ensures
            match r {
                Ok(o) => self.base.db.contents().contains_key(*digest) && o@
                    == self.base.db.contents()[*digest],
                Err(e) => !self.base.db.contents().contains_key(*digest) && e
                    == Error::UnknownObject(*digest),
            },
    {
        self.base.db.read_object(digest)
    }

    /// Writes are rejected: the repository is pinned.
    pub fn write_object(&mut self, _obj: &Object) -> (r: crate::Result<Digest>)
        ensures
            *final(self) == *old(self),
            r is Err,
            r->Err_0 is StorageFault,
    {
        Err(Error::StorageFault("repository is pinned and read-only".to_owned()))
    }
}

/// One of the interchangeable repository backends, selected at
/// construction: a writable store, or a pinned read-only view.
pub enum RepositoryHandle {
    FS(Repository),
    Pinned(PinnedRepository),
}

impl RepositoryHandle {
    /// The objects visible through this handle.
    pub open spec fn objects(self) -> Map<Digest, ObjectV> {
        match self {
            RepositoryHandle::FS(r) => r.db.contents(),
            RepositoryHandle::Pinned(p) => p.base.db.contents(),
        }
    }

    /// The tag histories visible through this handle.
    pub open spec fn tag_contents(self) -> Map<Seq<char>, Seq<Tag>> {
        match self {
            RepositoryHandle::FS(r) => r.tags.contents(),
            RepositoryHandle::Pinned(p) => p.base.tags.contents(),
        }
    }

    /// Whether writes are accepted.
    pub open spec fn writable(self) -> bool {
        self is FS
    }

    /// Well-formedness of the selected backend.
    pub open spec fn wf(self) -> bool {
        match self {
            RepositoryHandle::FS(r) => r.wf(),
            RepositoryHandle::Pinned(p) => p.wf(),
        }
    }

    /// Reads an object from whichever backend stands behind the handle.
    pub fn read_object(&self, digest: &Digest) -> (r: crate::Result<Object>)
        requires
            self.wf(),
        ensures
            match r {
                Ok(o) => self.objects().contains_key(*digest) && o@ == self.objects()[*digest],
                Err(e) => !self.objects().contains_key(*digest) && e == Error::UnknownObject(
                    *digest,
                ),
            },
    {
        match self {
            RepositoryHandle::FS(repo) => repo.db.read_object(digest),
            RepositoryHandle::Pinned(p) => p.read_object(digest),
        }
    }

    /// Writes an object, or reports that the backend is read-only.
    pub fn write_object(&mut self, obj: &Object) -> (r: crate::Result<Digest>)
        requires
            old(self).wf(),
            canonical_object(obj@),
        ensures
            final(self).wf(),
            old(self).writable() ==> r is Ok && final(self).objects() == db_insert(
                old(self).objects(),
                obj@,
            ) && final(self).tag_contents() == old(self).tag_contents(),
            !old(self).writable() ==> r is Err && *final(self) == *old(self),
    {
        match self {
            RepositoryHandle::FS(repo) => repo.db.write_object(obj),
            RepositoryHandle::Pinned(p) => p.write_object(obj),
        }
    }

    /// Resolves a tag name against whichever backend stands behind the
    /// handle.
    pub fn resolve_tag(&self, name: &str) -> (r: crate::Result<Digest>)
        requires
            self.wf(),
        ensures
            match r {
                Ok(d) => resolve_spec(self.tag_contents(), name@, 0) == Some(d),
                Err(_) => resolve_spec(self.tag_contents(), name@, 0) is None,
            },
    {
        match self {
            RepositoryHandle::FS(repo) => repo.tags.resolve_tag(name),
            RepositoryHandle::Pinned(p) => p.base.tags.resolve_tag(name),
        }
    }
}

/// The sharded storage path of a digest: its first two hexadecimal
/// characters as the directory, the rest as the file name.
pub open spec fn digest_path_spec(d: Digest) -> Seq<char> {
    let h = hex_of_bytes(enc_digest(d));
    h.take(2) + seq!['/'] + h.skip(2)
}

/// Renders the sharded storage path of `d`.
pub fn digest_path(d: &Digest) -> (r: String)
    ensures
        r@ == digest_path_spec(*d),
{
    let h = d.to_hex();
    proof {
        crate::encoding::lemma_digest_hex_enc_len(*d);
        reveal_strlit("/");
    }
    let head = h.as_str().substring_char(0, 2).to_owned();
    let mid = head.concat("/");
    let tail = h.as_str().substring_char(2, h.unicode_len());
    let r = mid.concat(tail);
    proof {
        assert(r@ =~= digest_path_spec(*d));
    }
    r
}

} // verus!
