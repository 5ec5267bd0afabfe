//! Tracking of filesystem state: entry kinds, path patterns and environment
//! specifications.

use vstd::prelude::*;

verus! {

/// The kind of a manifest entry: a file's contents or a nested tree.
#[derive(Clone, Copy, Debug, Hash, PartialEq, Eq, Structural)]
pub enum EntryKind {
    Blob,
    Tree,
}

/// The canonical sort rank of an entry kind: blobs order before trees.
pub open spec fn kind_rank(k: EntryKind) -> int {
    match k {
        EntryKind::Blob => 0,
        EntryKind::Tree => 1,
    }
}

impl EntryKind {
    /// The canonical one-byte encoding of this kind.
    pub fn rank(&self) -> (r: u8)
        ensures
            r as int == kind_rank(*self),
    {
        match self {
            EntryKind::Blob => 0,
            EntryKind::Tree => 1,
        }
    }
}

// ---------------------------------------------------------------------------
// Glob patterns.
//
// A pattern matches a path character by character; `*` matches any (possibly
// empty) run of characters and `?` matches exactly one.
// ---------------------------------------------------------------------------

/// Whether the glob pattern `pat` matches all of `text`.
pub open spec fn glob_matches(pat: Seq<char>, text: Seq<char>) -> bool
    decreases pat.len() + text.len(),
{
    if pat.len() == 0 {
        text.len() == 0
    } else if pat[0] == '*' {
        glob_matches(pat.drop_first(), text) || (text.len() > 0 && glob_matches(
            pat,
            text.drop_first(),
        ))
    } else if text.len() == 0 {
        false
    } else {
        (pat[0] == '?' || pat[0] == text[0]) && glob_matches(pat.drop_first(), text.drop_first())
    }
}

/// Matches the suffixes of `pat` and `text` beginning at `pi` and `ti`.
fn glob_match_at(pat: &str, pl: usize, pi: usize, text: &str, tl: usize, ti: usize) -> (r: bool)
    requires
        pl == pat@.len(),
        tl == text@.len(),
        pi <= pl,
        ti <= tl,
    ensures
        r == glob_matches(pat@.skip(pi as int), text@.skip(ti as int)),
    decreases pl - pi + (tl - ti),
{
    proof {
        if pi < pl {
            assert(pat@.skip(pi as int)[0] == pat@[pi as int]);
            assert(pat@.skip(pi as int).drop_first() =~= pat@.skip(pi + 1));
        }
        if ti < tl {
            assert(text@.skip(ti as int)[0] == text@[ti as int]);
            assert(text@.skip(ti as int).drop_first() =~= text@.skip(ti + 1));
        }
    }
    if pi == pl {
        ti == tl
    } else {
        let pc = pat.get_char(pi);
        if pc == '*' {
            if glob_match_at(pat, pl, pi + 1, text, tl, ti) {
                true
            } else if ti < tl {
                glob_match_at(pat, pl, pi, text, tl, ti + 1)
            } else {
                false
            }
        } else if ti == tl {
            false
        } else {
            let tc = text.get_char(ti);
            if pc == '?' || pc == tc {
                glob_match_at(pat, pl, pi + 1, text, tl, ti + 1)
            } else {
                false
            }
        }
    }
}

/// Whether the glob pattern `pat` matches the path `text`.
pub fn glob_match(pat: &str, text: &str) -> (r: bool)
    ensures
        r == glob_matches(pat@, text@),
{
    let pl = pat.unicode_len();
    let tl = text.unicode_len();
    proof {
        assert(pat@.skip(0) =~= pat@);
        assert(text@.skip(0) =~= text@);
    }
    glob_match_at(pat, pl, 0, text, tl, 0)
}

/// Whether any of the glob patterns matches the path.
pub open spec fn any_glob_matches(pats: Seq<Seq<char>>, text: Seq<char>) -> bool {
    exists|k: int| 0 <= k < pats.len() && glob_matches(pats[k], text)
}

/// Whether any of the given glob patterns matches the path `text`.
pub fn any_glob_match(pats: &Vec<String>, text: &str) -> (r: bool)
    ensures
        r == any_glob_matches(pats@.map_values(|p: String| p@), text@),
{
    let ghost views = pats@.map_values(|p: String| p@);
    let mut k: usize = 0;
    while k < pats.len()
        invariant
            k <= pats.len(),
            views == pats@.map_values(|p: String| p@),
            forall|j: int| 0 <= j < k ==> !glob_matches(views[j], text@),
        decreases pats.len() - k,
    {
        if glob_match(pats[k].as_str(), text) {
            proof {
                assert(views[k as int] == pats@[k as int]@);
            }
            return true;
        }
        k = k + 1;
    }
    false
}

// ---------------------------------------------------------------------------
// Environment specifications.
//
// A reference names either a tag or a digest; several references joined by
// `+` compose into one environment.  Resolving a specification against a
// repository yields the stack of digests it denotes.
// ---------------------------------------------------------------------------

use crate::encoding::{Digest, digest_from_hex};
use crate::tag::resolve_spec;
use crate::Error;

/// One reference in an environment specification.
#[derive(Clone, Debug)]
pub enum EnvSpecItem {
    /// A tag name, resolved against a repository's tag store.
    TagReference(String),
    /// A literal digest, written as 64 hexadecimal characters.
    DigestReference(Digest),
}

/// The value of one reference.
pub enum EnvSpecItemV {
    TagReference(Seq<char>),
    DigestReference(Digest),
}

impl View for EnvSpecItem {
    type V = EnvSpecItemV;

    open spec fn view(&self) -> EnvSpecItemV {
        match self {
            EnvSpecItem::TagReference(n) => EnvSpecItemV::TagReference(n@),
            EnvSpecItem::DigestReference(d) => EnvSpecItemV::DigestReference(*d),
        }
    }
}

/// What one reference segment denotes: a digest when it reads as one, else
/// a tag name; an empty segment denotes nothing.
pub open spec fn item_of(seg: Seq<char>) -> Option<EnvSpecItemV> {
    match digest_from_hex(seg) {
        Some(d) => Some(EnvSpecItemV::DigestReference(d)),
        None => if seg.len() > 0 {
            Some(EnvSpecItemV::TagReference(seg))
        } else {
            None
        },
    }
}

/// The position of the first `+`, if any.
pub open spec fn first_plus(s: Seq<char>) -> Option<int>
    decreases s.len(),
{
    if s.len() == 0 {
        None
    } else if s[0] == '+' {
        Some(0)
    } else {
        match first_plus(s.drop_first()) {
            Some(k) => Some(k + 1),
            None => None,
        }
    }
}

proof fn lemma_first_plus_at(s: Seq<char>, j: int)
    requires
        0 <= j <= s.len(),
        forall|x: int| 0 <= x < j ==> s[x] != '+',
        j < s.len() ==> s[j] == '+',
    ensures
        first_plus(s) == if j == s.len() {
            Option::<int>::None
        } else {
            Option::<int>::Some(j)
        },
    decreases j,
{
    if s.len() > 0 {
        if j == 0 {
        } else {
            assert(s[0] != '+');
            assert forall|x: int| 0 <= x < j - 1 implies s.drop_first()[x] != '+' by {
                assert(s.drop_first()[x] == s[x + 1]);
            }
            if j - 1 < s.drop_first().len() {
                assert(s.drop_first()[j - 1] == s[j]);
            }
            lemma_first_plus_at(s.drop_first(), j - 1);
        }
    }
}

/// The references a specification string denotes: `+`-separated segments,
/// each a digest or a non-empty tag name.
pub open spec fn parse_env_items(s: Seq<char>) -> Option<Seq<EnvSpecItemV>>
    decreases s.len(),
{
    match first_plus(s) {
        None => match item_of(s) {
            Some(item) => Some(seq![item]),
            None => None,
        },
        Some(k) => if 0 <= k < s.len() {
            match item_of(s.take(k)) {
                Some(item) => match parse_env_items(s.skip(k + 1)) {
                    Some(rest) => Some(seq![item] + rest),
                    None => None,
                },
                None => None,
            }
        } else {
            None
        },
    }
}

/// The first `+` always lies inside the sequence.
proof fn lemma_first_plus_range(s: Seq<char>)
    ensures
        match first_plus(s) {
            Some(k) => 0 <= k < s.len() && s[k] == '+',
            None => true,
        },
    decreases s.len(),
{
    if s.len() > 0 && s[0] != '+' {
        lemma_first_plus_range(s.drop_first());
        match first_plus(s.drop_first()) {
            Some(k) => {
                assert(s.drop_first()[k] == s[k + 1]);
            },
            None => {},
        }
    }
}

/// A resolved item list has one digest per item.
pub proof fn lemma_resolve_env_items_len(
    tags: Map<Seq<char>, Seq<crate::tag::Tag>>,
    items: Seq<EnvSpecItemV>,
)
    ensures
        match EnvSpec::resolve_env_items(tags, items) {
            Some(ds) => ds.len() == items.len(),
            None => true,
        },
    decreases items.len(),
{
    if items.len() > 0 {
        lemma_resolve_env_items_len(tags, items.drop_first());
    }
}

/// A parsed, ordered list of references that resolves to a stack of
/// digests.
#[derive(Clone, Debug)]
pub struct EnvSpec {
    pub items: Vec<EnvSpecItem>,
}

/// Classifies one reference segment.
fn parse_item(seg: &str) -> (r: crate::Result<EnvSpecItem>)
    ensures
        match r {
            Ok(item) => item_of(seg@) == Some(item@),
            Err(e) => item_of(seg@) is None && e is String,
        },
{
    match Digest::from_hex(seg) {
        Some(d) => Ok(EnvSpecItem::DigestReference(d)),
        None => {
            if seg.unicode_len() > 0 {
                Ok(EnvSpecItem::TagReference(seg.to_owned()))
            } else {
                Err(Error::String("empty reference in environment spec".to_owned()))
            }
        },
    }
}

impl EnvSpec {
    /// Parses a specification string: references joined by `+`, each a
    /// digest in hexadecimal form or a non-empty tag name.
    #[verifier::loop_isolation(false)]
    #[verifier::rlimit(60)]
    pub fn parse(s: &str) -> (r: crate::Result<EnvSpec>)
        ensures
            match r {
                Ok(spec) => parse_env_items(s@) == Some(
                    spec.items@.map_values(|it: EnvSpecItem| it@),
                ),
                Err(_) => parse_env_items(s@) is None,
            },
    {
        let n = s.unicode_len();
        let mut items: Vec<EnvSpecItem> = Vec::new();
        let mut start: usize = 0;
        proof {
            assert(s@.skip(0) =~= s@);
            match parse_env_items(s@) {
                Some(iv) => {
                    assert(items@.map_values(|it: EnvSpecItem| it@) + iv =~= iv);
                },
                None => {},
            }
        }
        loop
            invariant
                start <= n,
                n == s@.len(),
                match parse_env_items(s@.skip(start as int)) {
                    Some(items_v) => parse_env_items(s@) == Some(
                        items@.map_values(|it: EnvSpecItem| it@) + items_v,
                    ),
                    None => parse_env_items(s@) is None,
                },
            decreases n - start,
        {
            // Find the end of this segment.
            let mut j: usize = start;
            while j < n
                invariant
                    start <= j <= n,
                    forall|x: int| start <= x < j ==> s@[x] != '+',
                decreases n - j,
            {
                if s.get_char(j) == '+' {
                    break ;
                }
                j = j + 1;
            }
            proof {
                let rem = s@.skip(start as int);
                assert forall|x: int| 0 <= x < j - start implies rem[x] != '+' by {
                    assert(rem[x] == s@[x + start]);
                }
                if j < n {
                    assert(rem[j - start] == s@[j as int]);
                }
                lemma_first_plus_at(rem, j - start);
            }
            let seg = s.substring_char(start, j);
            proof {
                assert(seg@ =~= s@.skip(start as int).take(j - start));
                if j == n {
                    assert(s@.skip(start as int).take(j - start) =~= s@.skip(start as int));
                }
            }
            let item = match parse_item(seg) {
                Ok(item) => item,
                Err(e) => {
                    return Err(e);
                },
            };
            let ghost prev = items@;
            items.push(item);
            proof {
                assert(items@.map_values(|it: EnvSpecItem| it@) =~= prev.map_values(
                    |it: EnvSpecItem| it@,
                ).push(item@));
            }
            if j == n {
                proof {
                    assert(parse_env_items(s@.skip(start as int)) == Some(seq![item@]));
                    assert(prev.map_values(|it: EnvSpecItem| it@) + seq![item@]
                        =~= items@.map_values(|it: EnvSpecItem| it@));
                }
                return Ok(EnvSpec { items });
            }
            proof {
                let rem = s@.skip(start as int);
                assert(rem.skip(j - start + 1) =~= s@.skip(j + 1));
                match parse_env_items(s@.skip(j + 1)) {
                    Some(items_v) => {
                        assert(parse_env_items(rem) == Some(seq![item@] + items_v));
                        assert(prev.map_values(|it: EnvSpecItem| it@) + (seq![item@] + items_v)
                            =~= items@.map_values(|it: EnvSpecItem| it@) + items_v);
                    },
                    None => {
                        assert(parse_env_items(rem) is None);
                    },
                }
            }
            start = j + 1;
        }
    }

    /// What one item denotes against the given tag histories.
    pub open spec fn item_target(
        tags: Map<Seq<char>, Seq<crate::tag::Tag>>,
        item: EnvSpecItemV,
    ) -> Option<Digest> {
        match item {
            EnvSpecItemV::TagReference(n) => resolve_spec(tags, n, 0),
            EnvSpecItemV::DigestReference(d) => Some(d),
        }
    }

    /// What a whole item list denotes: each item's target in order, or
    /// nothing when any item fails to resolve.
    pub open spec fn resolve_env_items(
        tags: Map<Seq<char>, Seq<crate::tag::Tag>>,
        items: Seq<EnvSpecItemV>,
    ) -> Option<Seq<Digest>>
        decreases items.len(),
    {
        if items.len() == 0 {
            Some(Seq::<Digest>::empty())
        } else {
            match EnvSpec::item_target(tags, items[0]) {
                Some(d) => match EnvSpec::resolve_env_items(tags, items.drop_first()) {
                    Some(ds) => Some(seq![d] + ds),
                    None => None,
                },
                None => None,
            }
        }
    }

    /// Resolves the specification against a repository into the concrete
    /// stack of digests it denotes, in order.
    #[verifier::loop_isolation(false)]
    pub fn resolve(&self, repo: &crate::storage::Repository) -> (r: crate::Result<Vec<Digest>>)
        requires
            repo.wf(),
        ensures
            ({
                let views = self.items@.map_values(|it: EnvSpecItem| it@);
                match r {
                    Ok(ds) => EnvSpec::resolve_env_items(repo.tags.contents(), views) == Some(
                        ds@,
                    ),
                    Err(_) => EnvSpec::resolve_env_items(repo.tags.contents(), views) is None,
                }
            }),
    {
        let ghost views = self.items@.map_values(|it: EnvSpecItem| it@);
        let ghost tags = repo.tags.contents();
        let n = self.items.len();
        let mut out: Vec<Digest> = Vec::new();
        let mut i: usize = 0;
        proof {
            assert(views.skip(0) =~= views);
            match EnvSpec::resolve_env_items(tags, views) {
                Some(ds) => {
                    assert(out@ + ds =~= ds);
                },
                None => {},
            }
        }
        while i < n
            invariant
                i <= n,
                n == self.items@.len(),
                views == self.items@.map_values(|it: EnvSpecItem| it@),
                tags == repo.tags.contents(),
                out@.len() == i,
                match EnvSpec::resolve_env_items(tags, views.skip(i as int)) {
                    Some(ds) => EnvSpec::resolve_env_items(tags, views) == Some(out@ + ds),
                    None => EnvSpec::resolve_env_items(tags, views) is None,
                },
            decreases n - i,
        {
            proof {
                let rem = views.skip(i as int);
                assert(rem[0] == views[i as int]);
                assert(views[i as int] == self.items@[i as int]@);
                assert(rem.drop_first() =~= views.skip(i + 1));
            }
            let ghost prev = out@;
            match &self.items[i] {
                EnvSpecItem::TagReference(name) => {
                    match repo.tags.resolve_tag(name.as_str()) {
                        Ok(d) => {
                            out.push(d);
                        },
                        Err(_) => {
                            proof {
                                assert(EnvSpec::item_target(tags, views[i as int]) is None);
                            }
                            return Err(Error::UnknownTag(name.clone()));
                        },
                    }
                },
                EnvSpecItem::DigestReference(d) => {
                    out.push(*d);
                },
            }
            proof {
                let rem = views.skip(i as int);
                match EnvSpec::resolve_env_items(tags, views.skip(i + 1)) {
                    Some(ds) => {
                        assert(EnvSpec::resolve_env_items(tags, rem) == Some(
                            seq![out@.last()] + ds,
                        ));
                        assert(prev + (seq![out@.last()] + ds) =~= out@ + ds);
                    },
                    None => {},
                }
            }
            i = i + 1;
        }
        proof {
            assert(views.skip(n as int).len() == 0);
            assert(out@ + Seq::<Digest>::empty() =~= out@);
        }
        Ok(out)
    }
}

} // verus!
