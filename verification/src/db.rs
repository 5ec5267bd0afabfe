//! The object database: a digest-keyed store of immutable objects, with a
//! graph walker over their references.
//!
//! Writes are idempotent by digest: writing content that is already present
//! is a successful no-op, so concurrent writers racing to create the same
//! digest both succeed and the store is left as if it were written once.

use vstd::prelude::*;

verus! {

use crate::encoding::Digest;
use crate::graph::{Object, ObjectV, object_digest, children_of, canonical_object};
use crate::Error;

/// The contents of a digest-object pair sequence as a map.
pub open spec fn db_map(s: Seq<(Digest, Object)>) -> Map<Digest, ObjectV>
    decreases s.len(),
{
    if s.len() == 0 {
        Map::<Digest, ObjectV>::empty()
    } else {
        db_map(s.drop_last()).insert(s.last().0, s.last().1@)
    }
}

/// Whether some pair in `s` carries the key `d`.
pub open spec fn db_has_key(s: Seq<(Digest, Object)>, d: Digest) -> bool {
    exists|i: int| 0 <= i < s.len() && (#[trigger] s[i]).0 == d
}

/// Distinct keys throughout.
pub open spec fn db_keys_unique(s: Seq<(Digest, Object)>) -> bool {
    forall|i: int, j: int|
        #![trigger s[i], s[j]]
        0 <= i < j < s.len() ==> s[i].0 != s[j].0
}

proof fn lemma_db_map_keys(s: Seq<(Digest, Object)>)
    ensures
        forall|d: Digest| #[trigger] db_map(s).contains_key(d) <==> db_has_key(s, d),
    decreases s.len(),
{
    if s.len() > 0 {
        lemma_db_map_keys(s.drop_last());
        assert forall|d: Digest| #[trigger] db_map(s).contains_key(d) implies db_has_key(s, d) by {
            if d == s.last().0 {
                assert(s[s.len() - 1].0 == d);
            } else {
                assert(db_map(s.drop_last()).contains_key(d));
                assert(db_has_key(s.drop_last(), d));
                let i = choose|i: int|
                    0 <= i < s.drop_last().len() && (#[trigger] s.drop_last()[i]).0 == d;
                assert(s[i].0 == d);
            }
        }
        assert forall|d: Digest| db_has_key(s, d) implies #[trigger] db_map(s).contains_key(d) by {
            let i = choose|i: int| 0 <= i < s.len() && (#[trigger] s[i]).0 == d;
            if i < s.len() - 1 {
                assert(s.drop_last()[i].0 == d);
                assert(db_has_key(s.drop_last(), d));
            } else {
                assert(db_map(s) == db_map(s.drop_last()).insert(s.last().0, s.last().1@));
            }
        }
    }
}

proof fn lemma_db_map_index(s: Seq<(Digest, Object)>, i: int)
    requires
        db_keys_unique(s),
        0 <= i < s.len(),
    ensures
        db_map(s).contains_key(s[i].0),
        db_map(s)[s[i].0] == s[i].1@,
    decreases s.len(),
{
    if i < s.len() - 1 {
        assert(s.drop_last()[i] == s[i]);
        assert(db_keys_unique(s.drop_last())) by {
            assert forall|x: int, y: int| 0 <= x < y < s.drop_last().len() implies (
            #[trigger] s.drop_last()[x]).0 != (#[trigger] s.drop_last()[y]).0 by {
                assert(s.drop_last()[x] == s[x] && s.drop_last()[y] == s[y]);
            }
        }
        lemma_db_map_index(s.drop_last(), i);
        assert(s[i].0 != s.last().0);
    }
}

proof fn lemma_db_map_push(s: Seq<(Digest, Object)>, d: Digest, o: Object)
    ensures
        db_map(s.push((d, o))) == db_map(s).insert(d, o@),
{
    assert(s.push((d, o)).drop_last() =~= s);
}

proof fn lemma_db_map_remove(s: Seq<(Digest, Object)>, i: int)
    requires
        db_keys_unique(s),
        0 <= i < s.len(),
    ensures
        db_map(s.remove(i)) == db_map(s).remove(s[i].0),
    decreases s.len(),
{
    lemma_db_map_keys(s.drop_last());
    assert(db_keys_unique(s.drop_last())) by {
        assert forall|x: int, y: int| 0 <= x < y < s.drop_last().len() implies (
        #[trigger] s.drop_last()[x]).0 != (#[trigger] s.drop_last()[y]).0 by {
            assert(s.drop_last()[x] == s[x] && s.drop_last()[y] == s[y]);
        }
    }
    if i == s.len() - 1 {
        assert(s.remove(i) =~= s.drop_last());
        assert(!db_has_key(s.drop_last(), s[i].0)) by {
            if db_has_key(s.drop_last(), s[i].0) {
                let j = choose|j: int|
                    0 <= j < s.drop_last().len() && (#[trigger] s.drop_last()[j]).0 == s[i].0;
                assert(s[j].0 == s[i].0);
            }
        }
        assert(db_map(s.remove(i)) =~= db_map(s).remove(s[i].0));
    } else {
        let t = s.remove(i);
        assert(t.last() == s.last());
        assert(t.drop_last() =~= s.drop_last().remove(i));
        assert(s.drop_last()[i] == s[i]);
        lemma_db_map_remove(s.drop_last(), i);
        assert(s[i].0 != s.last().0);
        assert(db_map(t) =~= db_map(s).remove(s[i].0));
    }
}

/// The effect of one idempotent write on the store's contents.
pub open spec fn db_insert(m: Map<Digest, ObjectV>, o: ObjectV) -> Map<Digest, ObjectV> {
    if m.contains_key(object_digest(o)) {
        m
    } else {
        m.insert(object_digest(o), o)
    }
}

/// Writing the same object twice leaves the store exactly as writing it
/// once: the second write is absorbed.
pub proof fn lemma_write_idempotent(m: Map<Digest, ObjectV>, o: ObjectV)
    ensures
        db_insert(db_insert(m, o), o) == db_insert(m, o),
{
}

/// The stored object at one present digest hashes to that digest.
pub proof fn lemma_contents_consistent_at(db: Database, d: Digest)
    requires
        db.wf(),
        db.contents().contains_key(d),
    ensures
        object_digest(db.contents()[d]) == d,
        canonical_object(db.contents()[d]),
{
    lemma_db_map_keys(db.objs@);
    let i = choose|i: int| 0 <= i < db.objs@.len() && (#[trigger] db.objs@[i]).0 == d;
    lemma_db_map_index(db.objs@, i);
}

/// An in-memory object database keyed by content digest.
pub struct Database {
    pub objs: Vec<(Digest, Object)>,
}

impl Database {
    /// The stored objects, by digest.
    pub open spec fn contents(self) -> Map<Digest, ObjectV> {
        db_map(self.objs@)
    }

    /// Every key is distinct and is the digest of the object it carries,
    /// and every stored value is in canonical form: a manifest out of
    /// canonical order can never enter the store.
    pub open spec fn wf(self) -> bool {
        &&& db_keys_unique(self.objs@)
        &&& forall|i: int|
            0 <= i < self.objs@.len() ==> object_digest((#[trigger] self.objs@[i]).1@)
                == self.objs@[i].0
        &&& forall|i: int| 0 <= i < self.objs@.len() ==> canonical_object(
            (#[trigger] self.objs@[i]).1@,
        )
    }

    /// Creates an empty database.
    pub fn new() -> (r: Database)
        ensures
            r.wf(),
            r.contents() == Map::<Digest, ObjectV>::empty(),
    {
        let r = Database { objs: Vec::new() };
        proof {
            assert(r.contents() =~= Map::<Digest, ObjectV>::empty());
        }
        r
    }

    /// Whether an object with this digest is stored.
    #[verifier::loop_isolation(false)]
    pub fn has_object(&self, digest: &Digest) -> (r: bool)
        ensures
            r == self.contents().contains_key(*digest),
    {
        proof {
            lemma_db_map_keys(self.objs@);
        }
        let n = self.objs.len();
        let mut i: usize = 0;
        while i < n
            invariant
                i <= n,
                n == self.objs@.len(),
                forall|j: int| 0 <= j < i ==> (#[trigger] self.objs@[j]).0 != *digest,
            decreases n - i,
        {
            if self.objs[i].0 == *digest {
                return true;
            }
            i = i + 1;
        }
        proof {
            if db_has_key(self.objs@, *digest) {
                let j = choose|j: int|
                    0 <= j < self.objs@.len() && (#[trigger] self.objs@[j]).0 == *digest;
            }
        }
        false
    }

    /// Reads the object stored under `digest`.  An absent digest is reported
    /// as `UnknownObject`, distinct from any storage fault.
    #[verifier::loop_isolation(false)]
    pub fn read_object(&self, digest: &Digest) -> (r: crate::Result<Object>)
        requires
            self.wf(),
        ensures
            match r {
                Ok(o) => self.contents().contains_key(*digest) && o@ == self.contents()[*digest]
                    && canonical_object(o@),
                Err(e) => !self.contents().contains_key(*digest) && e == Error::UnknownObject(
                    *digest,
                ),
            },
    {
        proof {
            lemma_db_map_keys(self.objs@);
        }
        let n = self.objs.len();
        let mut i: usize = 0;
        while i < n
            invariant
                i <= n,
                n == self.objs@.len(),
                self.wf(),
                forall|j: int| 0 <= j < i ==> (#[trigger] self.objs@[j]).0 != *digest,
            decreases n - i,
        {
            if self.objs[i].0 == *digest {
                proof {
                    lemma_db_map_index(self.objs@, i as int);
                }
                return Ok(self.objs[i].1.duplicate());
            }
            i = i + 1;
        }
        proof {
            if db_has_key(self.objs@, *digest) {
                let j = choose|j: int|
                    0 <= j < self.objs@.len() && (#[trigger] self.objs@[j]).0 == *digest;
            }
        }
        Err(Error::UnknownObject(*digest))
    }

    /// Content-addressed insert.  Writing a digest that already exists is a
    /// successful no-op, so racing writers of equal content both succeed and
    /// the operation is idempotent.
    #[verifier::loop_isolation(false)]
    pub fn write_object(&mut self, obj: &Object) -> (r: crate::Result<Digest>)
        requires
            old(self).wf(),
            canonical_object(obj@),
        ensures
            final(self).wf(),
            r is Ok,
            r->Ok_0 == object_digest(obj@),
            final(self).contents() == db_insert(old(self).contents(), obj@),
    {
        let digest = obj.digest();
        if self.has_object(&digest) {
            return Ok(digest);
        }
        proof {
            lemma_db_map_push(self.objs@, digest, *obj);
            lemma_db_map_keys(self.objs@);
        }
        let ghost prev = self.objs@;
        self.objs.push((digest, obj.duplicate()));
        proof {
            assert(self.objs@ =~= prev.push((digest, self.objs@.last().1))) by {}
            assert(db_map(self.objs@) == db_map(prev).insert(digest, obj@)) by {
                assert(self.objs@.drop_last() =~= prev);
            }
            assert(db_keys_unique(self.objs@)) by {
                assert forall|x: int, y: int| 0 <= x < y < self.objs@.len() implies (
                #[trigger] self.objs@[x]).0 != (#[trigger] self.objs@[y]).0 by {
                    if y == self.objs@.len() - 1 {
                        assert(self.objs@[x] == prev[x]);
                        if prev[x].0 == digest {
                            assert(db_has_key(prev, digest));
                        }
                    } else {
                        assert(self.objs@[x] == prev[x] && self.objs@[y] == prev[y]);
                    }
                }
            }
        }
        Ok(digest)
    }

    /// Best-effort delete: removing an absent digest is success, so that
    /// garbage collection can race with other actors.
    #[verifier::loop_isolation(false)]
    pub fn remove_object(&mut self, digest: &Digest) -> (r: crate::Result<()>)
        requires
            old(self).wf(),
        ensures
            final(self).wf(),
            r is Ok,
            final(self).contents() == old(self).contents().remove(*digest),
    {
        proof {
            lemma_db_map_keys(self.objs@);
        }
        let ghost orig = self.objs@;
        let n = self.objs.len();
        let mut i: usize = 0;
        while i < n
            invariant
                i <= n,
                n == self.objs@.len(),
                self.objs@ == orig,
                self.wf(),
                forall|j: int| 0 <= j < i ==> (#[trigger] self.objs@[j]).0 != *digest,
            decreases n - i,
        {
            if self.objs[i].0 == *digest {
                proof {
                    lemma_db_map_remove(orig, i as int);
                }
                self.objs.remove(i);
                proof {
                    assert(db_keys_unique(self.objs@)) by {
                        assert forall|x: int, y: int| 0 <= x < y < self.objs@.len() implies (
                        #[trigger] self.objs@[x]).0 != (#[trigger] self.objs@[y]).0 by {
                            let ox: int = if x < i { x } else { x + 1 };
                            let oy: int = if y < i { y } else { y + 1 };
                            assert(self.objs@[x] == orig[ox] && self.objs@[y] == orig[oy]);
                        }
                    }
                    assert forall|j: int| 0 <= j < self.objs@.len() implies object_digest((
                    #[trigger] self.objs@[j]).1@) == self.objs@[j].0 && canonical_object(
                        self.objs@[j].1@,
                    ) by {
                        let oj: int = if j < i { j } else { j + 1 };
                        assert(self.objs@[j] == orig[oj]);
                    }
                }
                return Ok(());
            }
            i = i + 1;
        }
        proof {
            if db_has_key(orig, *digest) {
                let j = choose|j: int| 0 <= j < orig.len() && (#[trigger] orig[j]).0 == *digest;
            }
            assert(self.contents() =~= old(self).contents().remove(*digest));
        }
        Ok(())
    }

    /// The number of stored objects.
    pub fn len(&self) -> (r: usize)
        ensures
            r == self.objs@.len(),
    {
        self.objs.len()
    }

    /// The stored pair at index `i`: a restartable enumeration by position.
    pub fn entry_at(&self, i: usize) -> (r: &(Digest, Object))
        requires
            i < self.objs@.len(),
    ensures
            *r == self.objs@[i as int],
            self.wf() ==> self.contents().contains_key(r.0) && self.contents()[r.0] == r.1@,
    {
        proof {
            if self.wf() {
                lemma_db_map_index(self.objs@, i as int);
            }
        }
        &self.objs[i]
    }

    /// The digests of everything currently stored, each exactly once.
    #[verifier::loop_isolation(false)]
    pub fn iter_digests(&self) -> (r: Vec<Digest>)
        requires
            self.wf(),
        ensures
            r@.len() == self.objs@.len(),
            forall|i: int| 0 <= i < r@.len() ==> r@[i] == (#[trigger] self.objs@[i]).0,
            forall|d: Digest| self.contents().contains_key(d) <==> r@.contains(d),
    {
        proof {
            lemma_db_map_keys(self.objs@);
        }
        let n = self.objs.len();
        let mut out: Vec<Digest> = Vec::new();
        let mut i: usize = 0;
        while i < n
            invariant
                i <= n,
                n == self.objs@.len(),
                out@.len() == i,
                forall|j: int| 0 <= j < i ==> out@[j] == (#[trigger] self.objs@[j]).0,
            decreases n - i,
        {
            out.push(self.objs[i].0);
            i = i + 1;
        }
        proof {
            assert forall|d: Digest| self.contents().contains_key(d) implies out@.contains(d) by {
                let j = choose|j: int|
                    0 <= j < self.objs@.len() && (#[trigger] self.objs@[j]).0 == d;
                assert(out@[j] == d);
            }
            assert forall|d: Digest| out@.contains(d) implies self.contents().contains_key(d) by {
                let j = choose|j: int| 0 <= j < out@.len() && out@[j] == d;
                assert((self.objs@[j]).0 == d);
                assert(db_has_key(self.objs@, d));
            }
        }
        out
    }
}

// ---------------------------------------------------------------------------
// The graph walker.
// ---------------------------------------------------------------------------

/// A child-following path through the stored graph: each element but the
/// last is present and lists the next as one of its references.
pub open spec fn path_ok(m: Map<Digest, ObjectV>, p: Seq<Digest>) -> bool {
    &&& p.len() > 0
    &&& forall|k: int|
        0 <= k < p.len() - 1 ==> m.contains_key(#[trigger] p[k]) && children_of(m[p[k]]).contains(
            p[k + 1],
        )
}

/// Whether `d` can be reached from `root` by following object references.
/// The root itself is always reachable, present or not.
pub open spec fn reachable(m: Map<Digest, ObjectV>, root: Digest, d: Digest) -> bool {
    exists|p: Seq<Digest>| path_ok(m, p) && p.first() == root && p.last() == d
}

/// The root reaches itself.
pub proof fn lemma_reachable_self(m: Map<Digest, ObjectV>, root: Digest)
    ensures
        reachable(m, root, root),
{
    let p = seq![root];
    assert(path_ok(m, p));
    assert(p.first() == root && p.last() == root);
}

/// Reachability steps across one stored reference.
pub proof fn lemma_reachable_step(m: Map<Digest, ObjectV>, root: Digest, a: Digest, b: Digest)
    requires
        reachable(m, root, a),
        m.contains_key(a),
        children_of(m[a]).contains(b),
    ensures
        reachable(m, root, b),
{
    let p = choose|p: Seq<Digest>| path_ok(m, p) && p.first() == root && p.last() == a;
    let q = p.push(b);
    assert(path_ok(m, q)) by {
        assert forall|k: int|
            0 <= k < q.len() - 1 implies m.contains_key(#[trigger] q[k]) && children_of(
            m[q[k]],
        ).contains(q[k + 1]) by {
            if k < p.len() - 1 {
                assert(q[k] == p[k] && q[k + 1] == p[k + 1]);
            } else {
                assert(q[k] == p.last() && q[k + 1] == b);
            }
        }
    }
    assert(q.first() == root && q.last() == b);
}

/// Whether the walk output mentions the digest `d`.
pub open spec fn walk_has(vs: Seq<(Digest, bool)>, d: Digest) -> bool {
    exists|i: int| 0 <= i < vs.len() && (#[trigger] vs[i]).0 == d
}

/// The walk output is closed under stored references: every child of a
/// visited, present digest is itself in the output.
pub open spec fn walk_closed(m: Map<Digest, ObjectV>, vs: Seq<(Digest, bool)>) -> bool {
    forall|i: int, k: int|
        #![trigger children_of(m[vs[i].0])[k]]
        0 <= i < vs.len() && vs[i].1 && 0 <= k < children_of(m[vs[i].0]).len() ==> walk_has(
            vs,
            children_of(m[vs[i].0])[k],
        )
}

/// The full contract of a finished walk from `root` over the store `m`.
pub open spec fn walk_post(m: Map<Digest, ObjectV>, root: Digest, vs: Seq<(Digest, bool)>) -> bool {
    &&& forall|i: int, j: int|
        #![trigger vs[i], vs[j]]
        0 <= i < j < vs.len() ==> vs[i].0 != vs[j].0
    &&& forall|i: int| 0 <= i < vs.len() ==> ((#[trigger] vs[i]).1 == m.contains_key(vs[i].0))
    &&& forall|i: int| 0 <= i < vs.len() ==> reachable(m, root, (#[trigger] vs[i]).0)
    &&& walk_has(vs, root)
    &&& walk_closed(m, vs)
}

/// A walk visits every digest reachable from its root: the output lists the
/// root, never repeats a digest, flags exactly the stored ones, and no
/// reachable digest is missing from it.
pub proof fn lemma_walk_complete(
    m: Map<Digest, ObjectV>,
    root: Digest,
    vs: Seq<(Digest, bool)>,
    d: Digest,
)
    requires
        walk_post(m, root, vs),
        reachable(m, root, d),
    ensures
        walk_has(vs, d),
{
    let p = choose|p: Seq<Digest>| path_ok(m, p) && p.first() == root && p.last() == d;
    lemma_walk_path(m, root, vs, p, p.len() - 1);
}

proof fn lemma_walk_path(
    m: Map<Digest, ObjectV>,
    root: Digest,
    vs: Seq<(Digest, bool)>,
    p: Seq<Digest>,
    k: int,
)
    requires
        walk_post(m, root, vs),
        path_ok(m, p),
        p.first() == root,
        0 <= k < p.len(),
    ensures
        walk_has(vs, p[k]),
    decreases k,
{
    if k == 0 {
    } else {
        lemma_walk_path(m, root, vs, p, k - 1);
        let i = choose|i: int| 0 <= i < vs.len() && (#[trigger] vs[i]).0 == p[k - 1];
        assert(m.contains_key(p[k - 1]) && children_of(m[p[k - 1]]).contains(p[k]));
        assert(vs[i].1);
        let c = choose|c: int|
            0 <= c < children_of(m[vs[i].0]).len() && children_of(m[vs[i].0])[c] == p[k];
        assert(walk_has(vs, children_of(m[vs[i].0])[c]));
    }
}

/// The flagged digests of a walk in progress.
pub open spec fn walk_flagged(vs: Seq<(Digest, bool)>) -> Set<Digest> {
    Set::new(|d: Digest| exists|i: int| 0 <= i < vs.len() && (#[trigger] vs[i]).0 == d && vs[i].1)
}

proof fn lemma_db_map_finite(s: Seq<(Digest, Object)>)
    ensures
        db_map(s).dom().finite(),
    decreases s.len(),
{
    if s.len() == 0 {
        assert(db_map(s).dom() =~= Set::<Digest>::empty());
    } else {
        lemma_db_map_finite(s.drop_last());
        assert(db_map(s).dom() =~= db_map(s.drop_last()).dom().insert(s.last().0));
    }
}

/// Whether the walk output so far mentions `d`.
fn walk_contains(vs: &Vec<(Digest, bool)>, d: &Digest) -> (r: bool)
    ensures
        r == walk_has(vs@, *d),
{
    let n = vs.len();
    let mut i: usize = 0;
    while i < n
        invariant
            i <= n,
            n == vs@.len(),
            forall|j: int| 0 <= j < i ==> (#[trigger] vs@[j]).0 != *d,
        decreases n - i,
    {
        if vs[i].0 == *d {
            return true;
        }
        i = i + 1;
    }
    proof {
        if walk_has(vs@, *d) {
            let j = choose|j: int| 0 <= j < vs@.len() && (#[trigger] vs@[j]).0 == *d;
        }
    }
    false
}

impl Database {
    /// Walks the graph from `root`, following every stored reference, and
    /// returns each visited digest exactly once together with whether it was
    /// found in the store.  A referenced object that is absent is reported
    /// (flagged false), never an abort.  The loop terminates on any store,
    /// chains of nested trees included.
    #[verifier::rlimit(100)]
    pub fn walk_objects(&self, root: &Digest) -> (r: Vec<(Digest, bool)>)
        requires
            self.wf(),
        ensures
            walk_post(self.contents(), *root, r@),
    {
        let ghost m = self.contents();
        proof {
            lemma_db_map_finite(self.objs@);
        }
        let mut visited: Vec<(Digest, bool)> = Vec::new();
        let mut pending: Vec<Digest> = Vec::new();
        pending.push(*root);
        let ghost mut found = Set::<Digest>::empty();
        proof {
            lemma_reachable_self(m, *root);
            assert(found =~= walk_flagged(visited@));
            vstd::set_lib::lemma_len_subset(found, m.dom());
            assert(pending@[0] == *root);
            assert(pending@.contains(*root));
        }
        while pending.len() > 0
            invariant
                self.wf(),
                m == self.contents(),
                m.dom().finite(),
                found == walk_flagged(visited@),
                found.subset_of(m.dom()),
                found.finite(),
                found.len() <= m.dom().len(),
                forall|i: int, j: int|
                    #![trigger visited@[i], visited@[j]]
                    0 <= i < j < visited@.len() ==> visited@[i].0 != visited@[j].0,
                forall|i: int|
                    0 <= i < visited@.len() ==> ((#[trigger] visited@[i]).1 == m.contains_key(
                        visited@[i].0,
                    )),
                forall|i: int|
                    0 <= i < visited@.len() ==> reachable(m, *root, (#[trigger] visited@[i]).0),
                forall|i: int|
                    0 <= i < pending@.len() ==> reachable(m, *root, #[trigger] pending@[i]),
                walk_has(visited@, *root) || pending@.contains(*root),
                forall|i: int, k: int|
                    #![trigger children_of(m[visited@[i].0])[k]]
                    0 <= i < visited@.len() && visited@[i].1 && 0 <= k < children_of(
                        m[visited@[i].0],
                    ).len() ==> walk_has(visited@, children_of(m[visited@[i].0])[k])
                        || pending@.contains(children_of(m[visited@[i].0])[k]),
            decreases m.dom().len() - found.len(), pending@.len(),
        {
            let ghost pending_prev = pending@;
            let d = match pending.pop() {
                Some(d) => d,
                None => {
                    proof {
                        assert(false);
                    }
                    continue ;
                },
            };
            proof {
                assert(pending_prev.drop_last() =~= pending@);
                assert(d == pending_prev.last());
                assert(reachable(m, *root, d));
            }
            if walk_contains(&visited, &d) {
                proof {
                    assert forall|i: int, k: int|
                        #![trigger children_of(m[visited@[i].0])[k]]
                        0 <= i < visited@.len() && visited@[i].1 && 0 <= k < children_of(
                            m[visited@[i].0],
                        ).len() implies walk_has(visited@, children_of(m[visited@[i].0])[k])
                        || pending@.contains(children_of(m[visited@[i].0])[k]) by {
                        let c = children_of(m[visited@[i].0])[k];
                        if !walk_has(visited@, c) {
                            let j = choose|j: int|
                                0 <= j < pending_prev.len() && pending_prev[j] == c;
                            assert(c == d || pending@[j] == c);
                        }
                    }
                    if !walk_has(visited@, *root) {
                        let j = choose|j: int|
                            0 <= j < pending_prev.len() && pending_prev[j] == *root;
                        assert(*root == d || pending@[j] == *root);
                    }
                }
                continue ;
            }
            let ghost visited_prev = visited@;
            match self.read_object(&d) {
                Ok(o) => {
                    visited.push((d, true));
                    proof {
                        assert(m.contains_key(d));
                        assert(!found.contains(d));
                        found = found.insert(d);
                        assert(found =~= walk_flagged(visited@)) by {
                            assert forall|x: Digest| walk_flagged(visited@).contains(x) implies
                                found.contains(x) by {
                                let i = choose|i: int|
                                    0 <= i < visited@.len() && (#[trigger] visited@[i]).0 == x
                                        && visited@[i].1;
                                if i < visited_prev.len() {
                                    assert(walk_flagged(visited_prev).contains(x));
                                }
                            }
                            assert forall|x: Digest| found.contains(x) implies walk_flagged(
                                visited@,
                            ).contains(x) by {
                                if x != d {
                                    let i = choose|i: int|
                                        0 <= i < visited_prev.len() && (
                                        #[trigger] visited_prev[i]).0 == x && visited_prev[i].1;
                                    assert(visited@[i].0 == x && visited@[i].1);
                                } else {
                                    assert(visited@[visited@.len() - 1].0 == d
                                        && visited@[visited@.len() - 1].1);
                                }
                            }
                        }
                        vstd::set_lib::lemma_len_subset(found, m.dom());
                    }
                    let ch = o.children();
                    let cn = ch.len();
                    let mut k: usize = 0;
                    while k < cn
                        invariant
                            cn == ch@.len(),
                            k <= cn,
                            ch@ == children_of(m[d]),
                            m.contains_key(d),
                            reachable(m, *root, d),
                            forall|j: int|
                                0 <= j < pending@.len() ==> reachable(
                                    m,
                                    *root,
                                    #[trigger] pending@[j],
                                ),
                            forall|j: int| 0 <= j < k ==> pending@.contains(#[trigger] ch@[j]),
                            forall|c: Digest| pending_prev.drop_last().contains(c)
                                ==> pending@.contains(c),
                        decreases cn - k,
                    {
                        let ghost pp = pending@;
                        pending.push(ch[k]);
                        proof {
                            lemma_reachable_step(m, *root, d, ch@[k as int]);
                            assert(pending@[pending@.len() - 1] == ch@[k as int]);
                            assert forall|j: int| 0 <= j < k + 1 implies pending@.contains(
                                #[trigger] ch@[j],
                            ) by {
                                if j < k {
                                    let x = choose|x: int| 0 <= x < pp.len() && pp[x] == ch@[j];
                                    assert(pending@[x] == ch@[j]);
                                }
                            }
                            assert forall|c: Digest| pending_prev.drop_last().contains(c) implies
                                pending@.contains(c) by {
                                let x = choose|x: int|
                                    0 <= x < pp.len() && pp[x] == c;
                                assert(pending@[x] == c);
                            }
                        }
                        k = k + 1;
                    }
                    proof {
                        assert forall|i: int, kk: int|
                            #![trigger children_of(m[visited@[i].0])[kk]]
                            0 <= i < visited@.len() && visited@[i].1 && 0 <= kk < children_of(
                                m[visited@[i].0],
                            ).len() implies walk_has(visited@, children_of(m[visited@[i].0])[kk])
                            || pending@.contains(children_of(m[visited@[i].0])[kk]) by {
                            let c = children_of(m[visited@[i].0])[kk];
                            if i < visited_prev.len() {
                                assert(visited_prev[i] == visited@[i]);
                                if walk_has(visited_prev, c) {
                                    let j = choose|j: int|
                                        0 <= j < visited_prev.len() && (
                                        #[trigger] visited_prev[j]).0 == c;
                                    assert(visited@[j].0 == c);
                                } else if !walk_has(visited@, c) {
                                    let j = choose|j: int|
                                        0 <= j < pending_prev.len() && pending_prev[j] == c;
                                    if j < pending_prev.len() - 1 {
                                        assert(pending_prev.drop_last()[j] == c);
                                    } else {
                                        assert(c == d);
                                        assert(visited@[visited@.len() - 1].0 == d);
                                    }
                                }
                            } else {
                                assert(visited@[i].0 == d);
                                assert(children_of(m[d])[kk] == c);
                                assert(pending@.contains(c));
                            }
                        }
                        if !walk_has(visited@, *root) {
                            if walk_has(visited_prev, *root) {
                                let j = choose|j: int|
                                    0 <= j < visited_prev.len() && (#[trigger] visited_prev[j]).0
                                        == *root;
                                assert(visited@[j].0 == *root);
                            } else {
                                let j = choose|j: int|
                                    0 <= j < pending_prev.len() && pending_prev[j] == *root;
                                if j < pending_prev.len() - 1 {
                                    assert(pending_prev.drop_last()[j] == *root);
                                    assert(pending@.contains(*root));
                                } else {
                                    assert(*root == d);
                                    assert(visited@[visited@.len() - 1].0 == d);
                                }
                            }
                        }
                        assert forall|i: int, j: int|
                            #![trigger visited@[i], visited@[j]]
                            0 <= i < j < visited@.len() implies visited@[i].0 != visited@[j].0 by {
                            if j == visited@.len() - 1 {
                                if visited@[i].0 == d {
                                    assert(walk_has(visited_prev, d));
                                }
                            }
                        }
                    }
                },
                Err(_) => {
                    visited.push((d, false));
                    proof {
                        assert(!m.contains_key(d));
                        assert(found =~= walk_flagged(visited@)) by {
                            assert forall|x: Digest| walk_flagged(visited@).contains(x) implies
                                found.contains(x) by {
                                let i = choose|i: int|
                                    0 <= i < visited@.len() && (#[trigger] visited@[i]).0 == x
                                        && visited@[i].1;
                                assert(i < visited_prev.len());
                                assert(walk_flagged(visited_prev).contains(x));
                            }
                            assert forall|x: Digest| found.contains(x) implies walk_flagged(
                                visited@,
                            ).contains(x) by {
                                let i = choose|i: int|
                                    0 <= i < visited_prev.len() && (#[trigger] visited_prev[i]).0
                                        == x && visited_prev[i].1;
                                assert(visited@[i].0 == x && visited@[i].1);
                            }
                        }
                        assert forall|i: int, kk: int|
                            #![trigger children_of(m[visited@[i].0])[kk]]
                            0 <= i < visited@.len() && visited@[i].1 && 0 <= kk < children_of(
                                m[visited@[i].0],
                            ).len() implies walk_has(visited@, children_of(m[visited@[i].0])[kk])
                            || pending@.contains(children_of(m[visited@[i].0])[kk]) by {
                            let c = children_of(m[visited@[i].0])[kk];
                            assert(i < visited_prev.len());
                            assert(visited_prev[i] == visited@[i]);
                            if walk_has(visited_prev, c) {
                                let j = choose|j: int|
                                    0 <= j < visited_prev.len() && (#[trigger] visited_prev[j]).0
                                        == c;
                                assert(visited@[j].0 == c);
                            } else if !walk_has(visited@, c) {
                                let j = choose|j: int|
                                    0 <= j < pending_prev.len() && pending_prev[j] == c;
                                if j < pending_prev.len() - 1 {
                                    assert(pending_prev.drop_last()[j] == c);
                                } else {
                                    assert(c == d);
                                    assert(visited@[visited@.len() - 1].0 == d);
                                }
                            }
                        }
                        if !walk_has(visited@, *root) {
                            if walk_has(visited_prev, *root) {
                                let j = choose|j: int|
                                    0 <= j < visited_prev.len() && (#[trigger] visited_prev[j]).0
                                        == *root;
                                assert(visited@[j].0 == *root);
                            } else {
                                let j = choose|j: int|
                                    0 <= j < pending_prev.len() && pending_prev[j] == *root;
                                if j < pending_prev.len() - 1 {
                                    assert(pending_prev.drop_last()[j] == *root);
                                    assert(pending@.contains(*root));
                                } else {
                                    assert(*root == d);
                                    assert(visited@[visited@.len() - 1].0 == d);
                                }
                            }
                        }
                        assert forall|i: int, j: int|
                            #![trigger visited@[i], visited@[j]]
                            0 <= i < j < visited@.len() implies visited@[i].0 != visited@[j].0 by {
                            if j == visited@.len() - 1 {
                                if visited@[i].0 == d {
                                    assert(walk_has(visited_prev, d));
                                }
                            }
                        }
                    }
                },
            }
        }
        visited
    }
}

} // verus!
