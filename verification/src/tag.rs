//! The tag store: mutable, named, path-like pointers with an append-only
//! version history.
//!
//! Each `push` appends a new version under the name rather than overwriting;
//! resolution picks the latest by default or the Nth-previous on request.
//! An unknown name, or a version further back than the history reaches, is a
//! "not found" condition distinct from any storage fault.

use vstd::prelude::*;

verus! {

use crate::encoding::Digest;
use crate::graph::str_eq;
use crate::Error;

/// One version in a tag's history.
#[derive(Clone, Copy, Debug, PartialEq, Eq, Structural)]
pub struct Tag {
    pub target: Digest,
    pub sequence: u64,
    pub timestamp: u64,
}

/// The stored history of one name.
pub struct TagHistory {
    pub name: String,
    pub versions: Vec<Tag>,
}

/// The contents of a history sequence as a map from name to versions.
pub open spec fn tag_map(s: Seq<TagHistory>) -> Map<Seq<char>, Seq<Tag>>
    decreases s.len(),
{
    if s.len() == 0 {
        Map::<Seq<char>, Seq<Tag>>::empty()
    } else {
        tag_map(s.drop_last()).insert(s.last().name@, s.last().versions@)
    }
}

/// Whether some history in `s` carries the name `n`.
pub open spec fn tag_has_name(s: Seq<TagHistory>, n: Seq<char>) -> bool {
    exists|i: int| 0 <= i < s.len() && (#[trigger] s[i]).name@ == n
}

/// Distinct names throughout.
pub open spec fn tag_names_unique(s: Seq<TagHistory>) -> bool {
    forall|i: int, j: int|
        #![trigger s[i], s[j]]
        0 <= i < j < s.len() ==> s[i].name@ != s[j].name@
}

proof fn lemma_tag_map_keys(s: Seq<TagHistory>)
    ensures
        forall|n: Seq<char>| #[trigger] tag_map(s).contains_key(n) <==> tag_has_name(s, n),
    decreases s.len(),
{
    if s.len() > 0 {
        lemma_tag_map_keys(s.drop_last());
        assert forall|n: Seq<char>| #[trigger] tag_map(s).contains_key(n) implies tag_has_name(
            s,
            n,
        ) by {
            if n == s.last().name@ {
                assert(s[s.len() - 1].name@ == n);
            } else {
                assert(tag_map(s.drop_last()).contains_key(n));
                assert(tag_has_name(s.drop_last(), n));
                let i = choose|i: int|
                    0 <= i < s.drop_last().len() && (#[trigger] s.drop_last()[i]).name@ == n;
                assert(s[i].name@ == n);
            }
        }
        assert forall|n: Seq<char>| tag_has_name(s, n) implies #[trigger] tag_map(
            s,
        ).contains_key(n) by {
            let i = choose|i: int| 0 <= i < s.len() && (#[trigger] s[i]).name@ == n;
            if i < s.len() - 1 {
                assert(s.drop_last()[i].name@ == n);
                assert(tag_has_name(s.drop_last(), n));
            } else {
                assert(tag_map(s) == tag_map(s.drop_last()).insert(s.last().name@,
                    s.last().versions@));
            }
        }
    }
}

proof fn lemma_tag_map_index(s: Seq<TagHistory>, i: int)
    requires
        tag_names_unique(s),
        0 <= i < s.len(),
    ensures
        tag_map(s).contains_key(s[i].name@),
        tag_map(s)[s[i].name@] == s[i].versions@,
    decreases s.len(),
{
    if i < s.len() - 1 {
        assert(s.drop_last()[i] == s[i]);
        assert(tag_names_unique(s.drop_last())) by {
            assert forall|x: int, y: int| 0 <= x < y < s.drop_last().len() implies (
            #[trigger] s.drop_last()[x]).name@ != (#[trigger] s.drop_last()[y]).name@ by {
                assert(s.drop_last()[x] == s[x] && s.drop_last()[y] == s[y]);
            }
        }
        lemma_tag_map_index(s.drop_last(), i);
        assert(s[i].name@ != s.last().name@);
    }
}

/// The contents of a tag store after appending one version.
pub open spec fn tag_push_spec(
    m: Map<Seq<char>, Seq<Tag>>,
    name: Seq<char>,
    target: Digest,
    timestamp: u64,
) -> Map<Seq<char>, Seq<Tag>> {
    let history = if m.contains_key(name) {
        m[name]
    } else {
        Seq::<Tag>::empty()
    };
    m.insert(
        name,
        history.push(Tag { target, sequence: history.len() as u64, timestamp }),
    )
}

/// What resolving a name to its Nth-previous version yields.
pub open spec fn resolve_spec(m: Map<Seq<char>, Seq<Tag>>, name: Seq<char>, back: nat) -> Option<
    Digest,
> {
    if m.contains_key(name) && back < m[name].len() {
        Some(m[name][m[name].len() - 1 - back].target)
    } else {
        None
    }
}

/// After a push, the latest version is the pushed digest, and each earlier
/// lookup shifts back by exactly one: what was latest is now one-previous.
pub proof fn lemma_resolve_after_push(
    m: Map<Seq<char>, Seq<Tag>>,
    name: Seq<char>,
    target: Digest,
    timestamp: u64,
)
    ensures
        resolve_spec(tag_push_spec(m, name, target, timestamp), name, 0) == Some(target),
        forall|k: nat|
            resolve_spec(tag_push_spec(m, name, target, timestamp), name, k + 1) == resolve_spec(
                m,
                name,
                k,
            ),
{
    let m2 = tag_push_spec(m, name, target, timestamp);
    assert forall|k: nat|
        resolve_spec(m2, name, k + 1) == resolve_spec(m, name, k) by {
        if m.contains_key(name) {
            assert(m2[name] == m[name].push(
                Tag { target, sequence: m[name].len() as u64, timestamp },
            ));
            if k < m[name].len() {
                assert(m2[name][m2[name].len() - 2 - k] == m[name][m[name].len() - 1 - k]);
            }
        }
    }
}

/// An append-only named-reference history store.
pub struct TagStore {
    pub tags: Vec<TagHistory>,
}

impl TagStore {
    /// The stored histories, by name, each oldest first.
    pub open spec fn contents(self) -> Map<Seq<char>, Seq<Tag>> {
        tag_map(self.tags@)
    }

    /// Names are distinct, versions are numbered by their position.
    pub open spec fn wf(self) -> bool {
        &&& tag_names_unique(self.tags@)
        &&& forall|i: int, k: int|
            #![trigger self.tags@[i].versions@[k]]
            0 <= i < self.tags@.len() && 0 <= k < self.tags@[i].versions@.len()
                ==> self.tags@[i].versions@[k].sequence == k
    }

    /// Creates an empty tag store.
    pub fn new() -> (r: TagStore)
        ensures
            r.wf(),
            r.contents() == Map::<Seq<char>, Seq<Tag>>::empty(),
    {
        let r = TagStore { tags: Vec::new() };
        proof {
            assert(r.contents() =~= Map::<Seq<char>, Seq<Tag>>::empty());
        }
        r
    }

    /// Appends a new version of `name` pointing at `target`.  History is
    /// never edited in place: the new version carries the next sequence
    /// number and the given timestamp.
    #[verifier::loop_isolation(false)]
    #[verifier::rlimit(60)]
    pub fn push_tag(&mut self, name: &str, target: &Digest, timestamp: u64) -> (r: Tag)
        requires
            old(self).wf(),
            old(self).contents().contains_key(name@) ==> old(self).contents()[name@].len()
                < u64::MAX,
        ensures
            final(self).wf(),
            final(self).contents() == tag_push_spec(
                old(self).contents(),
                name@,
                *target,
                timestamp,
            ),
            r.target == *target,
    {
        proof {
            lemma_tag_map_keys(self.tags@);
        }
        let ghost orig = self.tags@;
        let n = self.tags.len();
        let mut i: usize = 0;
        while i < n
            invariant
                i <= n,
                forall|j: int| 0 <= j < i ==> (#[trigger] self.tags@[j]).name@ != name@,
                self.tags@ == orig,
            decreases n - i,
        {
            if str_eq(self.tags[i].name.as_str(), name) {
                proof {
                    lemma_tag_map_index(orig, i as int);
                }
                let hist = &mut self.tags[i].versions;
                let seqno = hist.len() as u64;
                let tag = Tag { target: *target, sequence: seqno, timestamp };
                hist.push(tag);
                proof {
                    let now = self.tags@;
                    assert(now[i as int].name@ == name@);
                    assert(now[i as int].versions@ == orig[i as int].versions@.push(tag));
                    assert forall|j: int| 0 <= j < now.len() && j != i implies now[j]
                        == orig[j] by {}
                    lemma_tag_map_replace(orig, now, i as int);
                    assert(self.contents() =~= tag_push_spec(tag_map(orig), name@, *target,
                        timestamp));
                }
                return tag;
            }
            i = i + 1;
        }
        proof {
            if tag_has_name(orig, name@) {
                let j = choose|j: int| 0 <= j < orig.len() && (#[trigger] orig[j]).name@ == name@;
            }
            assert(!self.contents().contains_key(name@));
        }
        let tag = Tag { target: *target, sequence: 0, timestamp };
        let mut versions: Vec<Tag> = Vec::new();
        versions.push(tag);
        let ghost prev = self.tags@;
        self.tags.push(TagHistory { name: name.to_owned(), versions });
        proof {
            assert(self.tags@.drop_last() =~= prev);
            assert(self.tags@.last().name@ == name@);
            assert(self.tags@.last().versions@ =~= Seq::<Tag>::empty().push(tag));
            assert(self.contents() =~= tag_push_spec(tag_map(prev), name@, *target, timestamp));
            assert(tag_names_unique(self.tags@)) by {
                assert forall|x: int, y: int| 0 <= x < y < self.tags@.len() implies (
                #[trigger] self.tags@[x]).name@ != (#[trigger] self.tags@[y]).name@ by {
                    if y == self.tags@.len() - 1 {
                        assert(self.tags@[x] == prev[x]);
                        if prev[x].name@ == name@ {
                            assert(tag_has_name(prev, name@));
                        }
                    } else {
                        assert(self.tags@[x] == prev[x] && self.tags@[y] == prev[y]);
                    }
                }
            }
            assert forall|i2: int, k: int|
                #![trigger self.tags@[i2].versions@[k]]
                0 <= i2 < self.tags@.len() && 0 <= k < self.tags@[i2].versions@.len()
                    implies self.tags@[i2].versions@[k].sequence == k by {
                if i2 < self.tags@.len() - 1 {
                    assert(self.tags@[i2] == prev[i2]);
                }
            }
        }
        tag
    }

    /// Resolves `name` to the digest of its latest version, or of the
    /// version `back` steps earlier.  An unknown name is `UnknownTag`; a
    /// history that does not reach that far back is `EmptyHistory`.
    #[verifier::loop_isolation(false)]
    pub fn resolve_tag_at(&self, name: &str, back: usize) -> (r: crate::Result<Digest>)
        requires
            self.wf(),
        ensures
            match r {
                Ok(d) => resolve_spec(self.contents(), name@, back as nat) == Some(d),
                Err(e) => {
                    &&& resolve_spec(self.contents(), name@, back as nat) is None
                    &&& (e is UnknownTag <==> !self.contents().contains_key(name@))
                    &&& (e is EmptyHistory <==> self.contents().contains_key(name@))
                },
            },
    {
        proof {
            lemma_tag_map_keys(self.tags@);
        }
        let n = self.tags.len();
        let mut i: usize = 0;
        while i < n
            invariant
                i <= n,
                forall|j: int| 0 <= j < i ==> (#[trigger] self.tags@[j]).name@ != name@,
            decreases n - i,
        {
            if str_eq(self.tags[i].name.as_str(), name) {
                proof {
                    lemma_tag_map_index(self.tags@, i as int);
                }
                let hist = &self.tags[i].versions;
                if back < hist.len() {
                    let idx = hist.len() - 1 - back;
                    return Ok(hist[idx].target);
                }
                return Err(Error::EmptyHistory(name.to_owned()));
            }
            i = i + 1;
        }
        proof {
            if tag_has_name(self.tags@, name@) {
                let j = choose|j: int|
                    0 <= j < self.tags@.len() && (#[trigger] self.tags@[j]).name@ == name@;
            }
        }
        Err(Error::UnknownTag(name.to_owned()))
    }

    /// Resolves `name` to its latest version.
    pub fn resolve_tag(&self, name: &str) -> (r: crate::Result<Digest>)
        requires
            self.wf(),
        ensures
            match r {
                Ok(d) => resolve_spec(self.contents(), name@, 0) == Some(d),
                Err(e) => {
                    &&& resolve_spec(self.contents(), name@, 0) is None
                    &&& (e is UnknownTag <==> !self.contents().contains_key(name@))
                    &&& (e is EmptyHistory <==> self.contents().contains_key(name@))
                },
            },
    {
        self.resolve_tag_at(name, 0)
    }

    /// The history of `name`, newest first.
    #[verifier::loop_isolation(false)]
    pub fn iter_tag_history(&self, name: &str) -> (r: crate::Result<Vec<Tag>>)
        requires
            self.wf(),
        ensures
            match r {
                Ok(tags) => {
                    &&& self.contents().contains_key(name@)
                    &&& tags@.len() == self.contents()[name@].len()
                    &&& forall|k: int|
                        0 <= k < tags@.len() ==> #[trigger] tags@[k] == self.contents()[name@][
                            tags@.len() - 1 - k]
                },
                Err(e) => !self.contents().contains_key(name@) && e is UnknownTag,
            },
    {
        proof {
            lemma_tag_map_keys(self.tags@);
        }
        let n = self.tags.len();
        let mut i: usize = 0;
        while i < n
            invariant
                i <= n,
                forall|j: int| 0 <= j < i ==> (#[trigger] self.tags@[j]).name@ != name@,
            decreases n - i,
        {
            if str_eq(self.tags[i].name.as_str(), name) {
                proof {
                    lemma_tag_map_index(self.tags@, i as int);
                }
                let hist = &self.tags[i].versions;
                let hn = hist.len();
                let mut out: Vec<Tag> = Vec::new();
                let mut k: usize = 0;
                while k < hn
                    invariant
                        k <= hn,
                        hn == hist@.len(),
                        hist@ == self.tags@[i as int].versions@,
                        out@.len() == k,
                        forall|x: int| 0 <= x < k ==> #[trigger] out@[x] == hist@[hn - 1 - x],
                    decreases hn - k,
                {
                    out.push(hist[hn - 1 - k]);
                    k = k + 1;
                }
                return Ok(out);
            }
            i = i + 1;
        }
        proof {
            if tag_has_name(self.tags@, name@) {
                let j = choose|j: int|
                    0 <= j < self.tags@.len() && (#[trigger] self.tags@[j]).name@ == name@;
            }
        }
        Err(Error::UnknownTag(name.to_owned()))
    }
}

/// Replacing one history, leaving every other untouched, updates exactly
/// that name in the map.
proof fn lemma_tag_map_replace(orig: Seq<TagHistory>, now: Seq<TagHistory>, i: int)
    requires
        tag_names_unique(orig),
        0 <= i < orig.len(),
        now.len() == orig.len(),
        now[i].name@ == orig[i].name@,
        forall|j: int| 0 <= j < now.len() && j != i ==> now[j] == orig[j],
    ensures
        tag_map(now) == tag_map(orig).insert(orig[i].name@, now[i].versions@),
        tag_names_unique(now),
    decreases orig.len(),
{
    assert(tag_names_unique(now)) by {
        assert forall|x: int, y: int| 0 <= x < y < now.len() implies (#[trigger] now[x]).name@ != (
        #[trigger] now[y]).name@ by {
            assert(now[x].name@ == orig[x].name@ && now[y].name@ == orig[y].name@);
        }
    }
    if i == orig.len() - 1 {
        assert(now.drop_last() =~= orig.drop_last());
        assert(tag_map(now) =~= tag_map(orig).insert(orig[i].name@, now[i].versions@));
    } else {
        assert(now.last() == orig.last());
        assert(tag_names_unique(orig.drop_last())) by {
            assert forall|x: int, y: int| 0 <= x < y < orig.drop_last().len() implies (
            #[trigger] orig.drop_last()[x]).name@ != (#[trigger] orig.drop_last()[y]).name@ by {
                assert(orig.drop_last()[x] == orig[x] && orig.drop_last()[y] == orig[y]);
            }
        }
        assert(now.drop_last()[i] == now[i]);
        assert(forall|j: int|
            0 <= j < now.drop_last().len() && j != i ==> #[trigger] now.drop_last()[j]
                == orig.drop_last()[j]);
        lemma_tag_map_replace(orig.drop_last(), now.drop_last(), i);
        assert(orig[i].name@ != orig.last().name@);
        assert(tag_map(now) =~= tag_map(orig).insert(orig[i].name@, now[i].versions@));
    }
}


/// Whether `name` lies under the path `prefix`: an empty prefix covers
/// every tag, otherwise the name continues the prefix across a separator.
pub open spec fn under_path(name: Seq<char>, prefix: Seq<char>) -> bool {
    if prefix.len() == 0 {
        true
    } else {
        name.len() > prefix.len() + 1 && name.take(prefix.len() as int) == prefix && name[
            prefix.len() as int] == '/'
    }
}

/// Whether the tag name continues the prefix across a `/` separator.
fn starts_under(name: &str, prefix: &str) -> (r: bool)
    ensures
        r == under_path(name@, prefix@),
{
    let pl = prefix.unicode_len();
    if pl == 0 {
        return true;
    }
    let nl = name.unicode_len();
    if nl <= pl || nl - pl <= 1 {
        return false;
    }
    if name.get_char(pl) != '/' {
        return false;
    }
    let mut i: usize = 0;
    while i < pl
        invariant
            i <= pl,
            pl == prefix@.len(),
            nl == name@.len(),
            nl > pl + 1,
            forall|j: int| 0 <= j < i ==> name@[j] == prefix@[j],
        decreases pl - i,
    {
        if name.get_char(i) != prefix.get_char(i) {
            proof {
                assert(name@.take(pl as int)[i as int] != prefix@[i as int]);
            }
            return false;
        }
        i = i + 1;
    }
    proof {
        assert(name@.take(pl as int) =~= prefix@);
    }
    true
}

/// The contract of a tag listing: sound (every answer is a stored tag
/// under the path) and complete (every stored tag under the path is
/// answered).
pub open spec fn ls_post(m: Map<Seq<char>, Seq<Tag>>, path: Seq<char>, entries: Seq<String>) -> bool {
    &&& forall|i: int|
        0 <= i < entries.len() ==> m.contains_key((#[trigger] entries[i])@) && under_path(
            entries[i]@,
            path,
        )
    &&& forall|n: Seq<char>|
        #[trigger] m.contains_key(n) && under_path(n, path) ==> exists|i: int|
            0 <= i < entries.len() && entries[i]@ == n
}

impl TagStore {
    /// Lists every tag name stored under the given path prefix.
    #[verifier::loop_isolation(false)]
    pub fn ls_tags(&self, path: &str) -> (r: Vec<String>)
        requires
            self.wf(),
        ensures
            ls_post(self.contents(), path@, r@),
    {
        proof {
            lemma_tag_map_keys(self.tags@);
        }
        let n = self.tags.len();
        let mut out: Vec<String> = Vec::new();
        let mut i: usize = 0;
        while i < n
            invariant
                i <= n,
                forall|x: int|
                    0 <= x < out@.len() ==> self.contents().contains_key((#[trigger] out@[x])@)
                        && under_path(out@[x]@, path@),
                forall|j: int|
                    0 <= j < i && under_path((#[trigger] self.tags@[j]).name@, path@)
                        ==> exists|x: int| 0 <= x < out@.len() && out@[x]@ == self.tags@[j].name@,
            decreases n - i,
        {
            if starts_under(self.tags[i].name.as_str(), path) {
                let ghost prev = out@;
                out.push(self.tags[i].name.clone());
                proof {
                    lemma_tag_map_index(self.tags@, i as int);
                    assert(out@[out@.len() - 1]@ == self.tags@[i as int].name@);
                    assert forall|j: int|
                        0 <= j < i + 1 && under_path((#[trigger] self.tags@[j]).name@, path@)
                            implies exists|x: int|
                            0 <= x < out@.len() && out@[x]@ == self.tags@[j].name@ by {
                        if j < i {
                            let x = choose|x: int|
                                0 <= x < prev.len() && prev[x]@ == self.tags@[j].name@;
                            assert(out@[x]@ == self.tags@[j].name@);
                        } else {
                            assert(out@[out@.len() - 1]@ == self.tags@[j].name@);
                        }
                    }
                }
            } else {
                proof {
                    assert forall|j: int|
                        0 <= j < i + 1 && under_path((#[trigger] self.tags@[j]).name@, path@)
                            implies exists|x: int|
                            0 <= x < out@.len() && out@[x]@ == self.tags@[j].name@ by {
                        if j < i {
                        }
                    }
                }
            }
            i = i + 1;
        }
        proof {
            assert forall|nm: Seq<char>|
                #[trigger] self.contents().contains_key(nm) && under_path(nm, path@)
                    implies exists|x: int| 0 <= x < out@.len() && out@[x]@ == nm by {
                let j = choose|j: int|
                    0 <= j < self.tags@.len() && (#[trigger] self.tags@[j]).name@ == nm;
            }
        }
        out
    }
}


/// Whether `needle` occurs contiguously inside `hay`.
pub open spec fn contains_sub(hay: Seq<char>, needle: Seq<char>) -> bool {
    exists|i: int|
        0 <= i && i + needle.len() <= hay.len() && #[trigger] hay.subrange(i, i + needle.len())
            == needle
}

/// Whether `needle` occurs contiguously inside `hay`.
#[verifier::loop_isolation(false)]
pub fn str_contains(hay: &str, needle: &str) -> (r: bool)
    ensures
        r == contains_sub(hay@, needle@),
{
    let hl = hay.unicode_len();
    let nl = needle.unicode_len();
    if nl > hl {
        proof {
            if contains_sub(hay@, needle@) {
                let i = choose|i: int|
                    0 <= i && i + needle@.len() <= hay@.len() && #[trigger] hay@.subrange(
                        i,
                        i + needle@.len(),
                    ) == needle@;
            }
        }
        return false;
    }
    let mut start: usize = 0;
    while start <= hl - nl
        invariant
            start <= hl - nl + 1,
            nl <= hl,
            hl == hay@.len(),
            nl == needle@.len(),
            forall|i: int| 0 <= i < start ==> #[trigger] hay@.subrange(i, i + needle@.len())
                != needle@,
        decreases hl + 1 - start,
    {
        let mut j: usize = 0;
        let mut hit = true;
        while j < nl
            invariant
                j <= nl,
                start + nl <= hl,
                hit ==> forall|x: int| 0 <= x < j ==> hay@[start + x] == needle@[x],
                !hit ==> hay@.subrange(start as int, start + needle@.len()) != needle@,
            decreases nl - j,
        {
            if hay.get_char(start + j) != needle.get_char(j) {
                proof {
                    assert(hay@.subrange(start as int, start + needle@.len())[j as int]
                        != needle@[j as int]);
                }
                hit = false;
                break ;
            }
            j = j + 1;
        }
        if hit {
            proof {
                assert(hay@.subrange(start as int, start + needle@.len()) =~= needle@);
            }
            return true;
        }
        proof {
            assert(hay@.subrange(start as int, start + needle@.len()) != needle@);
            if nl == 0 {
                assert(hay@.subrange(start as int, start as int) =~= needle@);
            }
        }
        start = start + 1;
    }
    proof {
        if contains_sub(hay@, needle@) {
            let i = choose|i: int|
                0 <= i && i + needle@.len() <= hay@.len() && #[trigger] hay@.subrange(
                    i,
                    i + needle@.len(),
                ) == needle@;
        }
    }
    false
}

/// The contract of a tag search: sound (every answer is a stored tag whose
/// name holds the substring) and complete (every such tag is answered).
pub open spec fn find_post(
    m: Map<Seq<char>, Seq<Tag>>,
    needle: Seq<char>,
    entries: Seq<String>,
) -> bool {
    &&& forall|i: int|
        0 <= i < entries.len() ==> m.contains_key((#[trigger] entries[i])@) && contains_sub(
            entries[i]@,
            needle,
        )
    &&& forall|n: Seq<char>|
        #[trigger] m.contains_key(n) && contains_sub(n, needle) ==> exists|i: int|
            0 <= i < entries.len() && entries[i]@ == n
}

impl TagStore {
    /// Lists every tag whose name holds the given substring.
    #[verifier::loop_isolation(false)]
    pub fn find_tags(&self, needle: &str) -> (r: Vec<String>)
        requires
            self.wf(),
        ensures
            find_post(self.contents(), needle@, r@),
    {
        proof {
            lemma_tag_map_keys(self.tags@);
        }
        let n = self.tags.len();
        let mut out: Vec<String> = Vec::new();
        let mut i: usize = 0;
        while i < n
            invariant
                i <= n,
                forall|x: int|
                    0 <= x < out@.len() ==> self.contents().contains_key((#[trigger] out@[x])@)
                        && contains_sub(out@[x]@, needle@),
                forall|j: int|
                    0 <= j < i && contains_sub((#[trigger] self.tags@[j]).name@, needle@)
                        ==> exists|x: int| 0 <= x < out@.len() && out@[x]@ == self.tags@[j].name@,
            decreases n - i,
        {
            if str_contains(self.tags[i].name.as_str(), needle) {
                let ghost prev = out@;
                out.push(self.tags[i].name.clone());
                proof {
                    lemma_tag_map_index(self.tags@, i as int);
                    assert(out@[out@.len() - 1]@ == self.tags@[i as int].name@);
                    assert forall|j: int|
                        0 <= j < i + 1 && contains_sub(
                            (#[trigger] self.tags@[j]).name@,
                            needle@,
                        ) implies exists|x: int|
                        0 <= x < out@.len() && out@[x]@ == self.tags@[j].name@ by {
                        if j < i {
                            let x = choose|x: int|
                                0 <= x < prev.len() && prev[x]@ == self.tags@[j].name@;
                            assert(out@[x]@ == self.tags@[j].name@);
                        } else {
                            assert(out@[out@.len() - 1]@ == self.tags@[j].name@);
                        }
                    }
                }
            } else {
                proof {
                    assert forall|j: int|
                        0 <= j < i + 1 && contains_sub(
                            (#[trigger] self.tags@[j]).name@,
                            needle@,
                        ) implies exists|x: int|
                        0 <= x < out@.len() && out@[x]@ == self.tags@[j].name@ by {
                        if j < i {
                        }
                    }
                }
            }
            i = i + 1;
        }
        proof {
            assert forall|nm: Seq<char>|
                #[trigger] self.contents().contains_key(nm) && contains_sub(nm, needle@)
                    implies exists|x: int| 0 <= x < out@.len() && out@[x]@ == nm by {
                let j = choose|j: int|
                    0 <= j < self.tags@.len() && (#[trigger] self.tags@[j]).name@ == nm;
            }
        }
        out
    }
}

} // verus!
