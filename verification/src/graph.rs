//! The object graph: manifest entries, manifests and the typed object
//! variants.
//!
//! A manifest is a directory snapshot: a sequence of entries held in one
//! canonical order (kind first, blobs before trees, then name ascending) with
//! no name repeated.  Two manifests holding the same content therefore have
//! equal entry sequences, equal encodings, and equal digests, however they
//! were built.

use vstd::prelude::*;

verus! {

use core::cmp::Ordering;
use crate::encoding::{Digest, enc_u8, enc_u32, enc_u64, enc_digest, enc_str, parse_u8, parse_u32,
    parse_u64, parse_digest, parse_str, lemma_parse_u8_enc, lemma_parse_u32_enc,
    lemma_parse_u64_enc, lemma_parse_digest_enc};
use crate::tracking::{EntryKind, kind_rank};

/// One component of a manifest: a named file or subtree reference.
#[derive(Clone, Debug)]
pub struct Entry {
    pub name: String,
    pub kind: EntryKind,
    pub mode: u32,
    pub object: Digest,
    pub size: u64,
}

// ---------------------------------------------------------------------------
// The canonical entry order.
// ---------------------------------------------------------------------------

/// Lexicographic comparison of character sequences by code point.
pub open spec fn lex_cmp_chars(a: Seq<char>, b: Seq<char>) -> Ordering
    decreases a.len() + b.len(),
{
    if a.len() == 0 && b.len() == 0 {
        Ordering::Equal
    } else if a.len() == 0 {
        Ordering::Less
    } else if b.len() == 0 {
        Ordering::Greater
    } else if (a[0] as u32) < (b[0] as u32) {
        Ordering::Less
    } else if (b[0] as u32) < (a[0] as u32) {
        Ordering::Greater
    } else {
        lex_cmp_chars(a.drop_first(), b.drop_first())
    }
}

/// The canonical entry comparison: kind first (blobs before trees), then
/// name, ascending.
pub open spec fn entry_cmp(a: Entry, b: Entry) -> Ordering {
    if kind_rank(a.kind) < kind_rank(b.kind) {
        Ordering::Less
    } else if kind_rank(b.kind) < kind_rank(a.kind) {
        Ordering::Greater
    } else {
        lex_cmp_chars(a.name@, b.name@)
    }
}

/// Comparing a sequence with itself yields equality.
pub proof fn lemma_lex_cmp_refl(a: Seq<char>)
    ensures
        lex_cmp_chars(a, a) == Ordering::Equal,
    decreases a.len(),
{
    if a.len() > 0 {
        lemma_lex_cmp_refl(a.drop_first());
    }
}

/// Lexicographic equality is sequence equality.
pub proof fn lemma_lex_cmp_eq(a: Seq<char>, b: Seq<char>)
    ensures
        lex_cmp_chars(a, b) == Ordering::Equal <==> a == b,
    decreases a.len() + b.len(),
{
    if a == b {
        lemma_lex_cmp_refl(a);
    }
    if a.len() == 0 && b.len() == 0 {
        assert(a =~= b);
    }
    if a.len() > 0 && b.len() > 0 {
        lemma_lex_cmp_eq(a.drop_first(), b.drop_first());
        if lex_cmp_chars(a, b) == Ordering::Equal {
            vstd::utf8::char_u32_cast(a[0], a[0] as u32);
            vstd::utf8::char_u32_cast(b[0], b[0] as u32);
            assert(a[0] == b[0]);
            assert(a =~= seq![a[0]] + a.drop_first());
            assert(b =~= seq![b[0]] + b.drop_first());
        }
    }
}

/// The order is antisymmetric: swapping the arguments flips the outcome.
pub proof fn lemma_lex_cmp_antisym(a: Seq<char>, b: Seq<char>)
    ensures
        lex_cmp_chars(a, b) == Ordering::Less <==> lex_cmp_chars(b, a) == Ordering::Greater,
    decreases a.len() + b.len(),
{
    if a.len() > 0 && b.len() > 0 {
        lemma_lex_cmp_antisym(a.drop_first(), b.drop_first());
    }
}

/// The order is transitive.
pub proof fn lemma_lex_cmp_trans(a: Seq<char>, b: Seq<char>, c: Seq<char>)
    requires
        lex_cmp_chars(a, b) == Ordering::Less,
        lex_cmp_chars(b, c) == Ordering::Less,
    ensures
        lex_cmp_chars(a, c) == Ordering::Less,
    decreases a.len() + b.len() + c.len(),
{
    if a.len() > 0 && b.len() > 0 && c.len() > 0 {
        if (a[0] as u32) == (b[0] as u32) && (b[0] as u32) == (c[0] as u32) {
            lemma_lex_cmp_trans(a.drop_first(), b.drop_first(), c.drop_first());
        }
    }
}

/// The entry order is total: every pair compares, the outcome flips with the
/// arguments, and equality means equal kind and name.  Together with
/// transitivity this makes the canonical manifest order unambiguous.
pub proof fn lemma_entry_order_total(a: Entry, b: Entry)
    ensures
        entry_cmp(a, b) == Ordering::Less <==> entry_cmp(b, a) == Ordering::Greater,
        entry_cmp(a, b) == Ordering::Equal <==> (a.kind == b.kind && a.name@ == b.name@),
        entry_cmp(a, b) is Less || entry_cmp(a, b) is Equal || entry_cmp(a, b) is Greater,
{
    lemma_lex_cmp_antisym(a.name@, b.name@);
    lemma_lex_cmp_eq(a.name@, b.name@);
    lemma_lex_cmp_refl(a.name@);
}

/// The entry order is transitive.
pub proof fn lemma_entry_order_trans(a: Entry, b: Entry, c: Entry)
    requires
        entry_cmp(a, b) == Ordering::Less,
        entry_cmp(b, c) == Ordering::Less,
    ensures
        entry_cmp(a, c) == Ordering::Less,
{
    if kind_rank(a.kind) == kind_rank(b.kind) && kind_rank(b.kind) == kind_rank(c.kind) {
        lemma_lex_cmp_trans(a.name@, b.name@, c.name@);
    }
}

// ---------------------------------------------------------------------------
// Executable comparison, and the standard comparison traits.
// ---------------------------------------------------------------------------

/// Compares two strings in the canonical lexicographic order.
fn lex_cmp(a: &str, b: &str) -> (r: Ordering)
    ensures
        r == lex_cmp_chars(a@, b@),
{
    let al = a.unicode_len();
    let bl = b.unicode_len();
    let mut i: usize = 0;
    proof {
        assert(a@.skip(0) =~= a@);
        assert(b@.skip(0) =~= b@);
    }
    while i < al && i < bl
        invariant
            i <= al,
            i <= bl,
            al == a@.len(),
            bl == b@.len(),
            lex_cmp_chars(a@, b@) == lex_cmp_chars(a@.skip(i as int), b@.skip(i as int)),
        decreases al - i,
    {
        let ca = a.get_char(i);
        let cb = b.get_char(i);
        proof {
            let ra = a@.skip(i as int);
            let rb = b@.skip(i as int);
            assert(ra[0] == a@[i as int] && rb[0] == b@[i as int]);
            assert(ra.drop_first() =~= a@.skip(i + 1));
            assert(rb.drop_first() =~= b@.skip(i + 1));
        }
        if (ca as u32) < (cb as u32) {
            return Ordering::Less;
        }
        if (cb as u32) < (ca as u32) {
            return Ordering::Greater;
        }
        i = i + 1;
    }
    if i < bl {
        Ordering::Less
    } else if i < al {
        Ordering::Greater
    } else {
        Ordering::Equal
    }
}

/// Compares two entries in the canonical manifest order.
pub fn entry_compare(a: &Entry, b: &Entry) -> (r: Ordering)
    ensures
        r == entry_cmp(*a, *b),
{
    let ra = a.kind.rank();
    let rb = b.kind.rank();
    if ra < rb {
        Ordering::Less
    } else if rb < ra {
        Ordering::Greater
    } else {
        lex_cmp(a.name.as_str(), b.name.as_str())
    }
}

/// Whether two strings hold the same characters.
pub fn str_eq(a: &str, b: &str) -> (r: bool)
    ensures
        r == (a@ == b@),
{
    proof {
        lemma_lex_cmp_eq(a@, b@);
    }
    match lex_cmp(a, b) {
        Ordering::Equal => true,
        _ => false,
    }
}

impl PartialEq for Entry {
    fn eq(&self, other: &Entry) -> (r: bool) {
        self.name == other.name && self.kind == other.kind && self.mode == other.mode
            && self.object == other.object && self.size == other.size
    }
}

impl vstd::std_specs::cmp::PartialEqSpecImpl for Entry {
    open spec fn obeys_eq_spec() -> bool {
        true
    }

    open spec fn eq_spec(&self, other: &Entry) -> bool {
        self.name@ == other.name@ && self.kind == other.kind && self.mode == other.mode
            && self.object == other.object && self.size == other.size
    }
}

impl PartialOrd for Entry {
    fn partial_cmp(&self, other: &Entry) -> (r: Option<Ordering>) {
        Some(entry_compare(self, other))
    }
}

impl vstd::std_specs::cmp::PartialOrdSpecImpl for Entry {
    open spec fn obeys_partial_cmp_spec() -> bool {
        true
    }

    open spec fn partial_cmp_spec(&self, other: &Entry) -> Option<Ordering> {
        Some(entry_cmp(*self, *other))
    }
}

// ---------------------------------------------------------------------------
// Manifests.
// ---------------------------------------------------------------------------

/// Adjacent entries stand in strictly ascending canonical order.
pub open spec fn entries_sorted(s: Seq<Entry>) -> bool {
    forall|i: int| 0 <= i < s.len() - 1 ==> #[trigger] entry_cmp(s[i], s[i + 1]) == Ordering::Less
}

/// No two entries carry the same name.
pub open spec fn names_unique(s: Seq<Entry>) -> bool {
    forall|i: int, j: int|
        #![trigger s[i].name@, s[j].name@]
        0 <= i < j < s.len() ==> s[i].name@ != s[j].name@
}

/// The contents of an entry sequence as a map from name to entry.
pub open spec fn map_of(s: Seq<Entry>) -> Map<Seq<char>, Entry>
    decreases s.len(),
{
    if s.len() == 0 {
        Map::<Seq<char>, Entry>::empty()
    } else {
        map_of(s.drop_last()).insert(s.last().name@, s.last())
    }
}

/// A sorted sequence is strictly ascending between any two positions.
pub proof fn lemma_sorted_pairwise(s: Seq<Entry>, i: int, j: int)
    requires
        entries_sorted(s),
        0 <= i < j < s.len(),
    ensures
        entry_cmp(s[i], s[j]) == Ordering::Less,
    decreases j - i,
{
    if i + 1 < j {
        lemma_sorted_pairwise(s, i + 1, j);
        lemma_entry_order_trans(s[i], s[i + 1], s[j]);
    }
}
/// Whether some entry in `s` carries the name `n`.
pub open spec fn has_name(s: Seq<Entry>, n: Seq<char>) -> bool {
    exists|i: int| 0 <= i < s.len() && #[trigger] s[i].name@ == n
}

/// The map's keys are exactly the entry names.
proof fn lemma_map_of_keys(s: Seq<Entry>)
    ensures
        forall|n: Seq<char>| #[trigger] map_of(s).contains_key(n) <==> has_name(s, n),
    decreases s.len(),
{
    if s.len() > 0 {
        lemma_map_of_keys(s.drop_last());
        assert forall|n: Seq<char>| #[trigger] map_of(s).contains_key(n) implies has_name(s, n) by {
            if n == s.last().name@ {
                assert(s[s.len() - 1].name@ == n);
            } else {
                assert(map_of(s.drop_last()).contains_key(n));
                let i = choose|i: int|
                    0 <= i < s.drop_last().len() && #[trigger] s.drop_last()[i].name@ == n;
                assert(s[i].name@ == n);
            }
        }
        assert forall|n: Seq<char>| has_name(s, n) implies #[trigger] map_of(s).contains_key(n) by {
            let i = choose|i: int| 0 <= i < s.len() && #[trigger] s[i].name@ == n;
            if i < s.len() - 1 {
                assert(s.drop_last()[i].name@ == n);
                assert(has_name(s.drop_last(), n));
                assert(map_of(s.drop_last()).contains_key(n));
                assert(map_of(s).contains_key(n));
            } else {
                assert(s[i] == s.last());
                assert(map_of(s) == map_of(s.drop_last()).insert(s.last().name@, s.last()));
                assert(map_of(s).contains_key(s.last().name@));
            }
        }
    }
}

/// With unique names, the map sends each entry's name to that entry.
proof fn lemma_map_of_index(s: Seq<Entry>, i: int)
    requires
        names_unique(s),
        0 <= i < s.len(),
    ensures
        map_of(s).contains_key(s[i].name@),
        map_of(s)[s[i].name@] == s[i],
    decreases s.len(),
{
    if i < s.len() - 1 {
        assert(s.drop_last()[i] == s[i]);
        lemma_map_of_index(s.drop_last(), i);
        assert(s[i].name@ != s.last().name@);
    }
}

/// Inserting an entry whose name is absent extends the map pointwise.
proof fn lemma_map_of_insert(s: Seq<Entry>, p: int, e: Entry)
    requires
        0 <= p <= s.len(),
        !has_name(s, e.name@),
    ensures
        map_of(s.insert(p, e)) == map_of(s).insert(e.name@, e),
    decreases s.len(),
{
    let t = s.insert(p, e);
    if p == s.len() {
        assert(t.drop_last() =~= s);
        assert(t.last() == e);
    } else {
        assert(t.last() == s.last());
        assert(t.drop_last() =~= s.drop_last().insert(p, e));
        assert(!has_name(s.drop_last(), e.name@)) by {
            if has_name(s.drop_last(), e.name@) {
                let i = choose|i: int|
                    0 <= i < s.drop_last().len() && #[trigger] s.drop_last()[i].name@ == e.name@;
                assert(s[i].name@ == e.name@);
            }
        }
        lemma_map_of_insert(s.drop_last(), p, e);
        assert(s[s.len() - 1].name@ != e.name@);
        assert(map_of(t) =~= map_of(s).insert(e.name@, e));
    }
}

/// Removing an entry removes exactly its name from the map.
proof fn lemma_map_of_remove(s: Seq<Entry>, i: int)
    requires
        names_unique(s),
        0 <= i < s.len(),
    ensures
        map_of(s.remove(i)) == map_of(s).remove(s[i].name@),
    decreases s.len(),
{
    lemma_map_of_keys(s.drop_last());
    if i == s.len() - 1 {
        assert(s.remove(i) =~= s.drop_last());
        assert(!has_name(s.drop_last(), s[i].name@)) by {
            if has_name(s.drop_last(), s[i].name@) {
                let j = choose|j: int|
                    0 <= j < s.drop_last().len() && #[trigger] s.drop_last()[j].name@
                        == s[i].name@;
                assert(s[j].name@ == s[i].name@);
            }
        }
        assert(map_of(s.remove(i)) =~= map_of(s).remove(s[i].name@));
    } else {
        let t = s.remove(i);
        assert(t.last() == s.last());
        assert(t.drop_last() =~= s.drop_last().remove(i));
        assert(s.drop_last()[i] == s[i]);
        assert(names_unique(s.drop_last())) by {
            assert forall|x: int, y: int| 0 <= x < y < s.drop_last().len() implies s.drop_last()[x].name@
                != s.drop_last()[y].name@ by {
                assert(s.drop_last()[x] == s[x] && s.drop_last()[y] == s[y]);
            }
        }
        lemma_map_of_remove(s.drop_last(), i);
        assert(s[i].name@ != s.last().name@);
        assert(map_of(t) =~= map_of(s).remove(s[i].name@));
    }
}

/// Removing an index of a well-formed entry sequence keeps it well formed,
/// and removes the only occurrence of that name.
proof fn lemma_remove_wf(s: Seq<Entry>, k: int)
    requires
        entries_sorted(s),
        names_unique(s),
        0 <= k < s.len(),
    ensures
        entries_sorted(s.remove(k)),
        names_unique(s.remove(k)),
        !has_name(s.remove(k), s[k].name@),
    decreases s.len(),
{
    let t = s.remove(k);
    assert(entries_sorted(t)) by {
        assert forall|j: int| 0 <= j < t.len() - 1 implies #[trigger] entry_cmp(t[j], t[j + 1])
            == Ordering::Less by {
            if j + 1 < k {
                assert(t[j] == s[j] && t[j + 1] == s[j + 1]);
                assert(entry_cmp(s[j], s[j + 1]) == Ordering::Less);
            } else if j + 1 == k {
                assert(t[j] == s[j] && t[j + 1] == s[j + 2]);
                lemma_sorted_pairwise(s, j, j + 2);
            } else {
                assert(t[j] == s[j + 1] && t[j + 1] == s[j + 2]);
                lemma_sorted_pairwise(s, j + 1, j + 2);
            }
        }
    }
    assert(names_unique(t)) by {
        assert forall|x: int, y: int| 0 <= x < y < t.len() implies t[x].name@ != t[y].name@ by {
            let ox: int = if x < k { x } else { x + 1 };
            let oy: int = if y < k { y } else { y + 1 };
            assert(t[x] == s[ox] && t[y] == s[oy]);
        }
    }
    assert(!has_name(t, s[k].name@)) by {
        if has_name(t, s[k].name@) {
            let i = choose|i: int| 0 <= i < t.len() && #[trigger] t[i].name@ == s[k].name@;
            let oi: int = if i < k { i } else { i + 1 };
            assert(t[i] == s[oi]);
            assert(s[oi].name@ == s[k].name@ && oi != k);
        }
    }
}

/// Inserting at the canonical position keeps the sequence well formed.
proof fn lemma_insert_wf(s: Seq<Entry>, p: int, e: Entry)
    requires
        entries_sorted(s),
        names_unique(s),
        0 <= p <= s.len(),
        !has_name(s, e.name@),
        forall|j: int| 0 <= j < p ==> entry_cmp(#[trigger] s[j], e) == Ordering::Less,
        p < s.len() ==> entry_cmp(s[p], e) != Ordering::Less,
    ensures
        entries_sorted(s.insert(p, e)),
        names_unique(s.insert(p, e)),
    decreases s.len(),
{
    let t = s.insert(p, e);
    if p < s.len() {
        lemma_entry_order_total(s[p], e);
        lemma_entry_order_total(e, s[p]);
        if s[p].name@ == e.name@ {
            assert(has_name(s, e.name@));
        }
        assert(entry_cmp(e, s[p]) == Ordering::Less);
    }
    assert(entries_sorted(t)) by {
        assert forall|j: int| 0 <= j < t.len() - 1 implies #[trigger] entry_cmp(t[j], t[j + 1])
            == Ordering::Less by {
            if j + 1 < p {
                assert(t[j] == s[j] && t[j + 1] == s[j + 1]);
                assert(entry_cmp(s[j], s[j + 1]) == Ordering::Less);
            } else if j + 1 == p {
                assert(t[j] == s[j] && t[j + 1] == e);
                assert(entry_cmp(s[j], e) == Ordering::Less);
            } else if j == p {
                assert(t[j] == e && t[j + 1] == s[j]);
            } else {
                assert(t[j] == s[j - 1] && t[j + 1] == s[j]);
                lemma_sorted_pairwise(s, j - 1, j);
            }
        }
    }
    assert(names_unique(t)) by {
        assert forall|x: int, y: int| 0 <= x < y < t.len() implies t[x].name@ != t[y].name@ by {
            if x != p && y != p {
                let ox: int = if x < p { x } else { x - 1 };
                let oy: int = if y < p { y } else { y - 1 };
                assert(t[x] == s[ox] && t[y] == s[oy]);
            } else if x == p {
                assert(t[y] == s[y - 1]);
                if s[y - 1].name@ == e.name@ {
                    assert(has_name(s, e.name@));
                }
            } else {
                assert(t[x] == s[x]);
                if s[x].name@ == e.name@ {
                    assert(has_name(s, e.name@));
                }
            }
        }
    }
}

/// A directory snapshot: entries in canonical order, one per name.
#[derive(Clone, Debug)]
pub struct Manifest {
    pub entries: Vec<Entry>,
}

impl View for Manifest {
    type V = Map<Seq<char>, Entry>;

    open spec fn view(&self) -> Map<Seq<char>, Entry> {
        map_of(self.entries@)
    }
}

impl Manifest {
    /// The entries in their canonical order.
    pub open spec fn entry_seq(self) -> Seq<Entry> {
        self.entries@
    }

    /// Canonical form: strictly sorted, no name twice.
    pub open spec fn wf(self) -> bool {
        entries_sorted(self.entries@) && names_unique(self.entries@)
    }

    /// Creates an empty manifest.
    pub fn new() -> (r: Manifest)
        ensures
            r.wf(),
            r@ == Map::<Seq<char>, Entry>::empty(),
            r.entry_seq() == Seq::<Entry>::empty(),
    {
        let r = Manifest { entries: Vec::new() };
        proof {
            assert(r@ =~= Map::<Seq<char>, Entry>::empty());
        }
        r
    }

    /// The number of entries.
    pub fn len(&self) -> (r: usize)
        ensures
            r == self.entry_seq().len(),
    {
        self.entries.len()
    }

    /// Inserts `e`, replacing any entry of the same name, and keeps the
    /// canonical order.
    pub fn insert(&mut self, e: Entry)
        requires
            old(self).wf(),
        ensures
            final(self).wf(),
            final(self)@ == old(self)@.insert(e.name@, e),
    {
        let ghost orig = self.entries@;
        // Drop an existing entry of the same name, if any.
        let n = self.entries.len();
        let mut found: Option<usize> = None;
        let mut i: usize = 0;
        while i < n
            invariant
                i <= n,
                n == self.entries@.len(),
                self.entries@ == orig,
                match found {
                    Some(k) => k < n && orig[k as int].name@ == e.name@,
                    None => forall|j: int| 0 <= j < i ==> orig[j].name@ != e.name@,
                },
            decreases n - i,
        {
            if found.is_none() && self.entries[i].name == e.name {
                found = Some(i);
            }
            i = i + 1;
        }
        let ghost mid: Seq<Entry>;
        match found {
            Some(k) => {
                proof {
                    lemma_map_of_remove(orig, k as int);
                    lemma_remove_wf(orig, k as int);
                }
                self.entries.remove(k);
                proof {
                    mid = self.entries@;
                }
            },
            None => {
                proof {
                    mid = self.entries@;
                    lemma_map_of_keys(orig);
                    assert(!has_name(orig, e.name@)) by {
                        if has_name(orig, e.name@) {
                            let j = choose|j: int|
                                0 <= j < orig.len() && #[trigger] orig[j].name@ == e.name@;
                        }
                    }
                    assert(map_of(mid) =~= map_of(orig).remove(e.name@));
                }
            },
        }
        proof {
            assert(entries_sorted(mid) && names_unique(mid) && !has_name(mid, e.name@));
            assert(map_of(mid) == map_of(orig).remove(e.name@));
        }
        // Find the canonical position and insert there.
        let n2 = self.entries.len();
        let mut p: usize = 0;
        loop
            invariant
                p <= n2,
                n2 == self.entries@.len(),
                self.entries@ == mid,
                entries_sorted(mid),
                names_unique(mid),
                !has_name(mid, e.name@),
                map_of(mid) == map_of(orig).remove(e.name@),
                forall|j: int| 0 <= j < p ==> entry_cmp(#[trigger] mid[j], e) == Ordering::Less,
            ensures
                self.entries@ == mid,
                p <= n2,
                forall|j: int| 0 <= j < p ==> entry_cmp(#[trigger] mid[j], e) == Ordering::Less,
                p < n2 ==> entry_cmp(mid[p as int], e) != Ordering::Less,
            decreases n2 - p,
        {
            if p == n2 {
                break;
            }
            match entry_compare(&self.entries[p], &e) {
                Ordering::Less => {
                    p = p + 1;
                },
                _ => {
                    break;
                },
            }
        }
        proof {
            lemma_map_of_insert(mid, p as int, e);
            lemma_insert_wf(mid, p as int, e);
        }
        self.entries.insert(p, e);
        proof {
            assert(map_of(self.entries@) =~= map_of(orig).insert(e.name@, e));
        }
    }

    /// Looks up the entry carrying `name`.
    pub fn get(&self, name: &str) -> (r: Option<&Entry>)
        requires
            self.wf(),
        ensures
            match r {
                Some(e) => self@.contains_key(name@) && *e == self@[name@],
                None => !self@.contains_key(name@),
            },
    {
        let n = self.entries.len();
        let mut i: usize = 0;
        while i < n
            invariant
                i <= n,
                n == self.entries@.len(),
                self.wf(),
                forall|j: int| 0 <= j < i ==> self.entries@[j].name@ != name@,
            decreases n - i,
        {
            if str_eq(self.entries[i].name.as_str(), name) {
                proof {
                    lemma_map_of_index(self.entries@, i as int);
                }
                return Some(&self.entries[i]);
            }
            i = i + 1;
        }
        proof {
            lemma_map_of_keys(self.entries@);
            assert(!has_name(self.entries@, name@)) by {
                if has_name(self.entries@, name@) {
                    let j = choose|j: int|
                        0 <= j < self.entries@.len() && #[trigger] self.entries@[j].name@
                            == name@;
                }
            }
        }
        None
    }
}

/// Canonical form is unique: two well-formed manifests holding the same
/// contents hold exactly the same entry sequence, however they were built.
pub proof fn lemma_manifest_canonical(a: Seq<Entry>, b: Seq<Entry>)
    requires
        entries_sorted(a),
        names_unique(a),
        entries_sorted(b),
        names_unique(b),
        map_of(a) == map_of(b),
    ensures
        a == b,
    decreases a.len(),
{
    lemma_map_of_keys(a);
    lemma_map_of_keys(b);
    if a.len() == 0 {
        if b.len() > 0 {
            assert(b[b.len() - 1].name@ == b.last().name@);
            assert(map_of(b).contains_key(b.last().name@));
        }
        assert(a =~= b);
    } else if b.len() == 0 {
        assert(a[a.len() - 1].name@ == a.last().name@);
        assert(map_of(a).contains_key(a.last().name@));
    } else {
        let la = a.last();
        let lb = b.last();
        lemma_map_of_index(a, a.len() - 1);
        lemma_map_of_index(b, b.len() - 1);
        // The last entry of each sequence appears in the other.
        assert(has_name(b, la.name@));
        let ja = choose|j: int| 0 <= j < b.len() && #[trigger] b[j].name@ == la.name@;
        lemma_map_of_index(b, ja);
        assert(b[ja] == la);
        assert(has_name(a, lb.name@));
        let jb = choose|j: int| 0 <= j < a.len() && #[trigger] a[j].name@ == lb.name@;
        lemma_map_of_index(a, jb);
        assert(a[jb] == lb);
        // Each last entry is maximal, so the two are equal.
        lemma_entry_order_total(la, lb);
        if ja < b.len() - 1 {
            lemma_sorted_pairwise(b, ja, b.len() - 1);
        }
        if jb < a.len() - 1 {
            lemma_sorted_pairwise(a, jb, a.len() - 1);
        }
        assert(la == lb);
        // The maps agree after dropping the shared maximum; induct.
        lemma_remove_wf(a, a.len() - 1);
        lemma_remove_wf(b, b.len() - 1);
        assert(a.remove(a.len() - 1) =~= a.drop_last());
        assert(b.remove(b.len() - 1) =~= b.drop_last());
        lemma_map_of_keys(a.drop_last());
        lemma_map_of_keys(b.drop_last());
        assert(map_of(a.drop_last()) =~= map_of(a).remove(la.name@));
        assert(map_of(b.drop_last()) =~= map_of(b).remove(lb.name@));
        lemma_manifest_canonical(a.drop_last(), b.drop_last());
        assert(a.len() == b.len());
        assert forall|i: int| 0 <= i < a.len() implies a[i] == b[i] by {
            if i < a.len() - 1 {
                assert(a.drop_last()[i] == b.drop_last()[i]);
            }
        }
        assert(a =~= b);
    }
}

// ---------------------------------------------------------------------------
// The typed object variants.
// ---------------------------------------------------------------------------

/// A stored payload reference: the digest of the raw bytes and their size.
#[derive(Clone, Copy, Debug, PartialEq, Eq, Structural)]
pub struct Blob {
    pub payload: Digest,
    pub size: u64,
}

/// One filesystem snapshot: wraps exactly one manifest digest.
#[derive(Clone, Copy, Debug, PartialEq, Eq, Structural)]
pub struct Layer {
    pub manifest: Digest,
}

/// A composed environment: an ordered stack of layer digests.
#[derive(Clone, Debug)]
pub struct Platform {
    pub layers: Vec<Digest>,
}

/// An immutable, content-addressed node of the object graph.
#[derive(Clone, Debug)]
pub enum Object {
    Blob(Blob),
    Manifest(Manifest),
    Layer(Layer),
    Platform(Platform),
}

/// The mathematical value of an entry: its name as characters.
pub struct EntryV {
    pub name: Seq<char>,
    pub kind: EntryKind,
    pub mode: u32,
    pub object: Digest,
    pub size: u64,
}

impl View for Entry {
    type V = EntryV;

    open spec fn view(&self) -> EntryV {
        EntryV {
            name: self.name@,
            kind: self.kind,
            mode: self.mode,
            object: self.object,
            size: self.size,
        }
    }
}

/// The mathematical value of an object.
pub enum ObjectV {
    Blob(Blob),
    Manifest(Seq<EntryV>),
    Layer(Layer),
    Platform(Seq<Digest>),
}

impl View for Object {
    type V = ObjectV;

    open spec fn view(&self) -> ObjectV {
        match self {
            Object::Blob(b) => ObjectV::Blob(*b),
            Object::Manifest(m) => ObjectV::Manifest(m.entries@.map_values(|e: Entry| e@)),
            Object::Layer(l) => ObjectV::Layer(*l),
            Object::Platform(p) => ObjectV::Platform(p.layers@),
        }
    }
}

/// The canonical entry comparison over entry values.
pub open spec fn entry_cmp_v(a: EntryV, b: EntryV) -> Ordering {
    if kind_rank(a.kind) < kind_rank(b.kind) {
        Ordering::Less
    } else if kind_rank(b.kind) < kind_rank(a.kind) {
        Ordering::Greater
    } else {
        lex_cmp_chars(a.name, b.name)
    }
}

/// Canonical order over entry values.
pub open spec fn sorted_v(s: Seq<EntryV>) -> bool {
    forall|i: int| 0 <= i < s.len() - 1 ==> #[trigger] entry_cmp_v(s[i], s[i + 1]) == Ordering::Less
}

/// Name uniqueness over entry values.
pub open spec fn unique_v(s: Seq<EntryV>) -> bool {
    forall|i: int, j: int|
        #![trigger s[i].name, s[j].name]
        0 <= i < j < s.len() ==> s[i].name != s[j].name
}

/// An entry sequence is canonical exactly when its value sequence is.
pub proof fn lemma_entries_view_canonical(s: Seq<Entry>)
    ensures
        entries_sorted(s) <==> sorted_v(s.map_values(|e: Entry| e@)),
        names_unique(s) <==> unique_v(s.map_values(|e: Entry| e@)),
{
    let vs = s.map_values(|e: Entry| e@);
    assert(forall|i: int| 0 <= i < s.len() ==> #[trigger] vs[i] == s[i]@);
    assert forall|i: int| 0 <= i < s.len() - 1 implies #[trigger] entry_cmp_v(vs[i], vs[i + 1])
        == entry_cmp(s[i], s[i + 1]) by {}
    if sorted_v(vs) {
        assert forall|i: int| 0 <= i < s.len() - 1 implies #[trigger] entry_cmp(s[i], s[i + 1])
            == Ordering::Less by {
            assert(entry_cmp_v(vs[i], vs[i + 1]) == Ordering::Less);
        }
    }
    if entries_sorted(s) {
        assert forall|i: int| 0 <= i < vs.len() - 1 implies #[trigger] entry_cmp_v(vs[i], vs[i + 1])
            == Ordering::Less by {
            assert(entry_cmp(s[i], s[i + 1]) == Ordering::Less);
        }
    }
    if unique_v(vs) {
        assert forall|i: int, j: int|
            #![trigger s[i].name@, s[j].name@]
            0 <= i < j < s.len() implies s[i].name@ != s[j].name@ by {
            assert(vs[i].name != vs[j].name);
        }
    }
    if names_unique(s) {
        assert forall|i: int, j: int|
            #![trigger vs[i].name, vs[j].name]
            0 <= i < j < vs.len() implies vs[i].name != vs[j].name by {
            assert(s[i].name@ != s[j].name@);
        }
    }
}

// ---------------------------------------------------------------------------
// Canonical object encoding.
// ---------------------------------------------------------------------------

pub const TAG_BLOB: u8 = 0;

pub const TAG_MANIFEST: u8 = 1;

pub const TAG_LAYER: u8 = 2;

pub const TAG_PLATFORM: u8 = 3;

/// Canonical encoding of one entry.
#[verifier::opaque]
pub open spec fn enc_entry(e: EntryV) -> Seq<u8> {
    enc_u8(kind_rank(e.kind) as u8) + enc_u32(e.mode) + enc_u64(e.size) + enc_digest(e.object)
        + enc_str(e.name)
}

/// Canonical encoding of a sequence of entries, in order.
pub open spec fn enc_entries(s: Seq<EntryV>) -> Seq<u8>
    decreases s.len(),
{
    if s.len() == 0 {
        Seq::<u8>::empty()
    } else {
        enc_entry(s[0]) + enc_entries(s.drop_first())
    }
}

/// Canonical encoding of a sequence of digests, in order.
pub open spec fn enc_digest_seq(s: Seq<Digest>) -> Seq<u8>
    decreases s.len(),
{
    if s.len() == 0 {
        Seq::<u8>::empty()
    } else {
        enc_digest(s[0]) + enc_digest_seq(s.drop_first())
    }
}

/// The canonical, self-describing encoding of an object: a variant tag, then
/// the variant's fields, counted sequences length prefixed.
pub open spec fn enc_object(o: ObjectV) -> Seq<u8> {
    match o {
        ObjectV::Blob(b) => enc_u8(TAG_BLOB) + enc_digest(b.payload) + enc_u64(b.size),
        ObjectV::Manifest(es) => enc_u8(TAG_MANIFEST) + enc_u64(es.len() as u64) + enc_entries(es),
        ObjectV::Layer(l) => enc_u8(TAG_LAYER) + enc_digest(l.manifest),
        ObjectV::Platform(ds) => enc_u8(TAG_PLATFORM) + enc_u64(ds.len() as u64) + enc_digest_seq(
            ds,
        ),
    }
}

/// Whether an entry's name fits the length prefix of its encoding.
pub open spec fn name_fits(e: EntryV) -> bool {
    vstd::utf8::encode_utf8(e.name).len() <= u64::MAX
}

/// The identity of an object: the digest of its canonical encoding.
/// Determinism is inherent: the digest is a function of the value alone, so
/// equal content always produces an equal digest.
pub open spec fn object_digest(o: ObjectV) -> Digest {
    crate::encoding::digest_of(enc_object(o))
}

/// The data-model invariant of stored values: a manifest's entries stand
/// in canonical order with no name repeated.  Other variants carry no
/// internal constraint.
pub open spec fn canonical_object(o: ObjectV) -> bool {
    match o {
        ObjectV::Manifest(es) => sorted_v(es) && unique_v(es),
        _ => true,
    }
}

/// Structural bounds needed for an object's encoding to read back: counted
/// sequences fit their length prefix, and a manifest is canonical.
pub open spec fn wf_object(o: ObjectV) -> bool {
    match o {
        ObjectV::Blob(_) => true,
        ObjectV::Manifest(es) => {
            &&& es.len() <= u64::MAX
            &&& sorted_v(es)
            &&& unique_v(es)
            &&& forall|i: int| 0 <= i < es.len() ==> name_fits(#[trigger] es[i])
        },
        ObjectV::Layer(_) => true,
        ObjectV::Platform(ds) => ds.len() <= u64::MAX,
    }
}

/// Reads one entry.
#[verifier::opaque]
pub open spec fn parse_entry(s: Seq<u8>) -> Option<(EntryV, Seq<u8>)> {
    match parse_u8(s) {
        Some((k, s)) => if k > 1 {
            None
        } else {
            let kind = if k == 0 {
                EntryKind::Blob
            } else {
                EntryKind::Tree
            };
            match parse_u32(s) {
                Some((mode, s)) => match parse_u64(s) {
                    Some((size, s)) => match parse_digest(s) {
                        Some((object, s)) => match parse_str(s) {
                            Some((name, s)) => Some(
                                (EntryV { name, kind, mode, object, size }, s),
                            ),
                            None => None,
                        },
                        None => None,
                    },
                    None => None,
                },
                None => None,
            }
        },
        None => None,
    }
}

/// Reads `n` entries in sequence.
pub open spec fn parse_entries(s: Seq<u8>, n: nat) -> Option<(Seq<EntryV>, Seq<u8>)>
    decreases n,
{
    if n == 0 {
        Some((Seq::<EntryV>::empty(), s))
    } else {
        match parse_entry(s) {
            Some((e, s)) => match parse_entries(s, (n - 1) as nat) {
                Some((es, s)) => Some((seq![e] + es, s)),
                None => None,
            },
            None => None,
        }
    }
}

/// Reads `n` digests in sequence.
pub open spec fn parse_digest_seq(s: Seq<u8>, n: nat) -> Option<(Seq<Digest>, Seq<u8>)>
    decreases n,
{
    if n == 0 {
        Some((Seq::<Digest>::empty(), s))
    } else {
        match parse_digest(s) {
            Some((d, s)) => match parse_digest_seq(s, (n - 1) as nat) {
                Some((ds, s)) => Some((seq![d] + ds, s)),
                None => None,
            },
            None => None,
        }
    }
}

/// Reads one object.  A manifest that is not in canonical form is rejected:
/// no object is considered valid without passing this check.
pub open spec fn parse_object(s: Seq<u8>) -> Option<(ObjectV, Seq<u8>)> {
    match parse_u8(s) {
        Some((tag, s)) => if tag == TAG_BLOB {
            match parse_digest(s) {
                Some((payload, s)) => match parse_u64(s) {
                    Some((size, s)) => Some((ObjectV::Blob(Blob { payload, size }), s)),
                    None => None,
                },
                None => None,
            }
        } else if tag == TAG_MANIFEST {
            match parse_u64(s) {
                Some((n, s)) => match parse_entries(s, n as nat) {
                    Some((es, s)) => if sorted_v(es) && unique_v(es) {
                        Some((ObjectV::Manifest(es), s))
                    } else {
                        None
                    },
                    None => None,
                },
                None => None,
            }
        } else if tag == TAG_LAYER {
            match parse_digest(s) {
                Some((manifest, s)) => Some((ObjectV::Layer(Layer { manifest }), s)),
                None => None,
            }
        } else if tag == TAG_PLATFORM {
            match parse_u64(s) {
                Some((n, s)) => match parse_digest_seq(s, n as nat) {
                    Some((ds, s)) => Some((ObjectV::Platform(ds), s)),
                    None => None,
                },
                None => None,
            }
        } else {
            None
        },
        None => None,
    }
}

/// Parsing a canonically encoded entry yields it back.
#[verifier::rlimit(100)]
proof fn lemma_parse_entry_enc(e: EntryV, rest: Seq<u8>)
    requires
        name_fits(e),
    ensures
        parse_entry(enc_entry(e) + rest) == Some((e, rest)),
{
    reveal(enc_entry);
    reveal(parse_entry);
    let k = kind_rank(e.kind) as u8;
    let s1 = enc_u32(e.mode) + (enc_u64(e.size) + (enc_digest(e.object) + (enc_str(e.name)
        + rest)));
    assert(enc_entry(e) + rest =~= enc_u8(k) + s1);
    lemma_parse_u8_enc(k, s1);
    let s2 = enc_u64(e.size) + (enc_digest(e.object) + (enc_str(e.name) + rest));
    lemma_parse_u32_enc(e.mode, s2);
    let s3 = enc_digest(e.object) + (enc_str(e.name) + rest);
    lemma_parse_u64_enc(e.size, s3);
    let s4 = enc_str(e.name) + rest;
    lemma_parse_digest_enc(e.object, s4);
    crate::encoding::lemma_parse_str_enc(e.name, rest);
}

/// Parsing a canonically encoded entry sequence yields it back.
#[verifier::rlimit(100)]
proof fn lemma_parse_entries_enc(es: Seq<EntryV>, rest: Seq<u8>)
    requires
        forall|i: int| 0 <= i < es.len() ==> name_fits(#[trigger] es[i]),
    ensures
        parse_entries(enc_entries(es) + rest, es.len()) == Some((es, rest)),
    decreases es.len(),
{
    if es.len() == 0 {
        assert(enc_entries(es) + rest =~= rest);
        assert(Seq::<EntryV>::empty() =~= es);
    } else {
        let tail = es.drop_first();
        let bytes = enc_entries(es) + rest;
        let tailbytes = enc_entries(tail) + rest;
        assert(bytes =~= enc_entry(es[0]) + tailbytes);
        lemma_parse_entry_enc(es[0], tailbytes);
        assert(parse_entry(bytes) == Some((es[0], tailbytes)));
        assert forall|i: int| 0 <= i < tail.len() implies name_fits(#[trigger] tail[i]) by {
            assert(tail[i] == es[i + 1]);
        }
        lemma_parse_entries_enc(tail, rest);
        assert(parse_entries(tailbytes, tail.len()) == Some((tail, rest)));
        assert(seq![es[0]] + tail =~= es);
        assert(parse_entries(bytes, es.len()) == Some((es, rest)));
    }
}

/// Parsing a canonically encoded digest sequence yields it back.
#[verifier::rlimit(100)]
pub proof fn lemma_parse_digest_seq_enc(ds: Seq<Digest>, rest: Seq<u8>)
    ensures
        parse_digest_seq(enc_digest_seq(ds) + rest, ds.len()) == Some((ds, rest)),
    decreases ds.len(),
{
    if ds.len() == 0 {
        assert(enc_digest_seq(ds) + rest =~= rest);
        assert(Seq::<Digest>::empty() =~= ds);
    } else {
        let tail = ds.drop_first();
        assert(enc_digest_seq(ds) + rest =~= enc_digest(ds[0]) + (enc_digest_seq(tail) + rest));
        lemma_parse_digest_enc(ds[0], enc_digest_seq(tail) + rest);
        lemma_parse_digest_seq_enc(tail, rest);
        assert(seq![ds[0]] + tail =~= ds);
    }
}

/// Decoding inverts encoding: reading back the canonical encoding of any
/// well-formed object yields that object, whatever follows it.  With the
/// digest a pure function of the encoding, this is the round-trip contract
/// of the store: `decode(encode(o)) == o`, and the digest of `o` is stable
/// across repeated encodings.
#[verifier::rlimit(100)]
pub proof fn lemma_object_round_trip(o: ObjectV, rest: Seq<u8>)
    requires
        wf_object(o),
    ensures
        parse_object(enc_object(o) + rest) == Some((o, rest)),
{
    match o {
        ObjectV::Blob(b) => {
            let s1 = enc_digest(b.payload) + (enc_u64(b.size) + rest);
            assert(enc_object(o) + rest =~= enc_u8(TAG_BLOB) + s1);
            lemma_parse_u8_enc(TAG_BLOB, s1);
            lemma_parse_digest_enc(b.payload, enc_u64(b.size) + rest);
            lemma_parse_u64_enc(b.size, rest);
        },
        ObjectV::Manifest(es) => {
            let s1 = enc_u64(es.len() as u64) + (enc_entries(es) + rest);
            assert(enc_object(o) + rest =~= enc_u8(TAG_MANIFEST) + s1);
            lemma_parse_u8_enc(TAG_MANIFEST, s1);
            lemma_parse_u64_enc(es.len() as u64, enc_entries(es) + rest);
            lemma_parse_entries_enc(es, rest);
        },
        ObjectV::Layer(l) => {
            let s1 = enc_digest(l.manifest) + rest;
            assert(enc_object(o) + rest =~= enc_u8(TAG_LAYER) + s1);
            lemma_parse_u8_enc(TAG_LAYER, s1);
            lemma_parse_digest_enc(l.manifest, rest);
        },
        ObjectV::Platform(ds) => {
            let s1 = enc_u64(ds.len() as u64) + (enc_digest_seq(ds) + rest);
            assert(enc_object(o) + rest =~= enc_u8(TAG_PLATFORM) + s1);
            lemma_parse_u8_enc(TAG_PLATFORM, s1);
            lemma_parse_u64_enc(ds.len() as u64, enc_digest_seq(ds) + rest);
            lemma_parse_digest_seq_enc(ds, rest);
        },
    }
}

// ---------------------------------------------------------------------------
// Executable encoding and decoding.
// ---------------------------------------------------------------------------

use crate::encoding::{write_u8, write_u32, write_u64, write_digest, write_str, read_u8, read_u32,
    read_u64, read_digest, read_string};

/// Appends the canonical encoding of one entry.
fn write_entry(out: &mut Vec<u8>, e: &Entry)
    ensures
        final(out)@ == old(out)@ + enc_entry(e@),
{
    proof {
        reveal(enc_entry);
    }
    write_u8(out, e.kind.rank());
    write_u32(out, e.mode);
    write_u64(out, e.size);
    write_digest(out, &e.object);
    write_str(out, e.name.as_str());
    proof {
        assert(final(out)@ =~= old(out)@ + enc_entry(e@));
    }
}

/// Reads one entry at `pos`.
fn read_entry(bytes: &Vec<u8>, pos: usize) -> (r: Option<(Entry, usize)>)
    requires
        pos <= bytes.len(),
    ensures
        match r {
            Some((e, p2)) => {
                &&& parse_entry(bytes@.skip(pos as int)) is Some
                &&& e@ == parse_entry(bytes@.skip(pos as int))->Some_0.0
                &&& pos <= p2 <= bytes.len()
                &&& bytes@.skip(p2 as int) == parse_entry(bytes@.skip(pos as int))->Some_0.1
                &&& name_fits(e@)
            },
            None => parse_entry(bytes@.skip(pos as int)) is None,
        },
{
    proof {
        reveal(parse_entry);
    }
    let (k, pos) = match read_u8(bytes, pos) {
        Some(v) => v,
        None => {
            return None;
        },
    };
    if k > 1 {
        return None;
    }
    let kind = if k == 0 {
        EntryKind::Blob
    } else {
        EntryKind::Tree
    };
    let (mode, pos) = match read_u32(bytes, pos) {
        Some(v) => v,
        None => {
            return None;
        },
    };
    let (size, pos) = match read_u64(bytes, pos) {
        Some(v) => v,
        None => {
            return None;
        },
    };
    let (object, pos) = match read_digest(bytes, pos) {
        Some(v) => v,
        None => {
            return None;
        },
    };
    let (name, pos) = match read_string(bytes, pos) {
        Some(v) => v,
        None => {
            return None;
        },
    };
    Some((Entry { name, kind, mode, object, size }, pos))
}

/// Joins a parsed prefix onto the rest of an entry-sequence parse.
pub open spec fn entries_cons(
    prefix: Seq<EntryV>,
    r: Option<(Seq<EntryV>, Seq<u8>)>,
) -> Option<(Seq<EntryV>, Seq<u8>)> {
    match r {
        Some((es, rest)) => Some((prefix + es, rest)),
        None => None,
    }
}

/// Joins a parsed prefix onto the rest of a digest-sequence parse.
pub open spec fn digests_cons(
    prefix: Seq<Digest>,
    r: Option<(Seq<Digest>, Seq<u8>)>,
) -> Option<(Seq<Digest>, Seq<u8>)> {
    match r {
        Some((ds, rest)) => Some((prefix + ds, rest)),
        None => None,
    }
}

/// What a full buffer decodes to: the one object its bytes canonically
/// encode, with nothing left over.
pub open spec fn decode_spec(s: Seq<u8>) -> Option<ObjectV> {
    match parse_object(s) {
        Some((ov, rest)) => if rest.len() == 0 {
            Some(ov)
        } else {
            None
        },
        None => None,
    }
}

/// Whether all entries of a manifest are in canonical form.
fn entries_canonical(entries: &Vec<Entry>) -> (r: bool)
    ensures
        r == (entries_sorted(entries@) && names_unique(entries@)),
{
    let n = entries.len();
    let mut i: usize = 1;
    while i < n
        invariant
            n == entries@.len(),
            1 <= i,
            i <= n || n == 0,
            forall|j: int| 0 <= j < i - 1 ==> #[trigger] entry_cmp(entries@[j], entries@[j + 1])
                == Ordering::Less,
        decreases n - i,
    {
        match entry_compare(&entries[i - 1], &entries[i]) {
            Ordering::Less => {},
            _ => {
                proof {
                    if entries_sorted(entries@) {
                        lemma_sorted_pairwise(entries@, i - 1, i as int);
                    }
                }
                return false;
            },
        }
        i = i + 1;
    }
    let mut a: usize = 0;
    while a < n
        invariant
            n == entries@.len(),
            a <= n,
            entries_sorted(entries@),
            forall|x: int, y: int|
                #![trigger entries@[x].name@, entries@[y].name@]
                0 <= x < y < entries@.len() && x < a ==> entries@[x].name@ != entries@[y].name@,
        decreases n - a,
    {
        let mut b: usize = a + 1;
        while b < n
            invariant
                n == entries@.len(),
                a < b <= n || n == 0,
                a < n,
                forall|y: int| a < y < b ==> entries@[a as int].name@ != #[trigger] entries@[y].name@,
            decreases n - b,
        {
            if str_eq(entries[a].name.as_str(), entries[b].name.as_str()) {
                return false;
            }
            b = b + 1;
        }
        a = a + 1;
    }
    true
}

impl Object {
    /// Appends this object's canonical encoding to `out`.
    pub fn encode(&self, out: &mut Vec<u8>)
        ensures
            final(out)@ == old(out)@ + enc_object(self@),
    {
        match self {
            Object::Blob(b) => {
                write_u8(out, TAG_BLOB);
                write_digest(out, &b.payload);
                write_u64(out, b.size);
                proof {
                    assert(final(out)@ =~= old(out)@ + enc_object(self@));
                }
            },
            Object::Manifest(m) => {
                write_u8(out, TAG_MANIFEST);
                write_u64(out, m.entries.len() as u64);
                let ghost base = out@;
                let ghost es = m.entries@.map_values(|e: Entry| e@);
                let n = m.entries.len();
                let mut i: usize = 0;
                proof {
                    assert(es.skip(0) =~= es);
                    assert(base + Seq::<u8>::empty() =~= base);
                }
                while i < n
                    invariant
                        i <= n,
                        n == m.entries@.len(),
                        es == m.entries@.map_values(|e: Entry| e@),
                        out@ + enc_entries(es.skip(i as int)) == base + enc_entries(es),
                    decreases n - i,
                {
                    proof {
                        let rem = es.skip(i as int);
                        assert(rem[0] == es[i as int]);
                        assert(es[i as int] == m.entries@[i as int]@);
                        assert(rem.drop_first() =~= es.skip(i + 1));
                    }
                    write_entry(out, &m.entries[i]);
                    proof {
                        assert(out@ + enc_entries(es.skip(i + 1)) =~= base + enc_entries(es));
                    }
                    i = i + 1;
                }
                proof {
                    assert(es.skip(n as int).len() == 0);
                    assert(enc_entries(es.skip(n as int)) =~= Seq::<u8>::empty());
                    assert(out@ + Seq::<u8>::empty() =~= out@);
                    assert(final(out)@ =~= old(out)@ + enc_object(self@));
                }
            },
            Object::Layer(l) => {
                write_u8(out, TAG_LAYER);
                write_digest(out, &l.manifest);
                proof {
                    assert(final(out)@ =~= old(out)@ + enc_object(self@));
                }
            },
            Object::Platform(p) => {
                write_u8(out, TAG_PLATFORM);
                write_u64(out, p.layers.len() as u64);
                let ghost base = out@;
                let ghost ds = p.layers@;
                let n = p.layers.len();
                let mut i: usize = 0;
                proof {
                    assert(ds.skip(0) =~= ds);
                    assert(base + Seq::<u8>::empty() =~= base);
                }
                while i < n
                    invariant
                        i <= n,
                        n == p.layers@.len(),
                        ds == p.layers@,
                        out@ + enc_digest_seq(ds.skip(i as int)) == base + enc_digest_seq(ds),
                    decreases n - i,
                {
                    proof {
                        let rem = ds.skip(i as int);
                        assert(rem[0] == ds[i as int]);
                        assert(rem.drop_first() =~= ds.skip(i + 1));
                    }
                    write_digest(out, &p.layers[i]);
                    proof {
                        assert(out@ + enc_digest_seq(ds.skip(i + 1)) =~= base + enc_digest_seq(
                            ds,
                        ));
                    }
                    i = i + 1;
                }
                proof {
                    assert(ds.skip(n as int).len() == 0);
                    assert(enc_digest_seq(ds.skip(n as int)) =~= Seq::<u8>::empty());
                    assert(out@ + Seq::<u8>::empty() =~= out@);
                    assert(final(out)@ =~= old(out)@ + enc_object(self@));
                }
            },
        }
    }

    /// The canonical encoding of this object as a fresh buffer.
    pub fn to_bytes(&self) -> (r: Vec<u8>)
        ensures
            r@ == enc_object(self@),
    {
        let mut out: Vec<u8> = Vec::new();
        self.encode(&mut out);
        proof {
            assert(out@ =~= enc_object(self@));
        }
        out
    }

    /// This object's identity: the digest of its canonical encoding.  Two
    /// calls on equal objects always return the same digest.
    pub fn digest(&self) -> (r: Digest)
        ensures
            r == object_digest(self@),
    {
        let buf = self.to_bytes();
        crate::encoding::hash_bytes(&buf)
    }

    /// Decodes one object from a full buffer.  Trailing bytes, a truncated
    /// stream, an unknown tag, or a manifest out of canonical form are all
    /// rejected: no object is valid without passing this check.
    #[verifier::loop_isolation(false)]
    #[verifier::rlimit(100)]
    pub fn decode(bytes: &Vec<u8>) -> (r: crate::Result<Object>)
        ensures
            match r {
                Ok(o) => decode_spec(bytes@) == Some(o@) && wf_object(o@),
                Err(e) => decode_spec(bytes@) is None && e is EncodingError,
            },
    {
        proof {
            assert(bytes@.skip(0) =~= bytes@);
        }
        let (tag, pos) = match read_u8(bytes, 0) {
            Some(v) => v,
            None => {
                return Err(crate::Error::EncodingError("invalid object encoding".to_owned()));
            },
        };
        if tag == TAG_BLOB {
            let (payload, pos) = match read_digest(bytes, pos) {
                Some(v) => v,
                None => {
                    return Err(crate::Error::EncodingError("invalid object encoding".to_owned()));
                },
            };
            let (size, pos) = match read_u64(bytes, pos) {
                Some(v) => v,
                None => {
                    return Err(crate::Error::EncodingError("invalid object encoding".to_owned()));
                },
            };
            if pos != bytes.len() {
                proof {
                    assert(bytes@.skip(pos as int).len() != 0);
                }
                return Err(crate::Error::EncodingError("invalid object encoding".to_owned()));
            }
            proof {
                assert(bytes@.skip(pos as int).len() == 0);
            }
            Ok(Object::Blob(Blob { payload, size }))
        } else if tag == TAG_MANIFEST {
            let (count, pos) = match read_u64(bytes, pos) {
                Some(v) => v,
                None => {
                    return Err(crate::Error::EncodingError("invalid object encoding".to_owned()));
                },
            };
            let ghost pos0 = pos as int;
            let mut entries: Vec<Entry> = Vec::new();
            let mut pos = pos;
            let mut i: u64 = 0;
            proof {
                assert(entries@.map_values(|e: Entry| e@) + Seq::<EntryV>::empty()
                    =~= Seq::<EntryV>::empty());
            }
            while i < count
                invariant
                    i <= count,
                    pos <= bytes.len(),
                    parse_entries(bytes@.skip(pos0), count as nat) == entries_cons(
                        entries@.map_values(|e: Entry| e@),
                        parse_entries(bytes@.skip(pos as int), (count - i) as nat),
                    ),
                    forall|j: int| 0 <= j < entries@.len() ==> name_fits(#[trigger] entries@[j]@),
                    entries@.len() <= i,
                decreases count - i,
            {
                let ghost prefix = entries@.map_values(|e: Entry| e@);
                let e = match read_entry(bytes, pos) {
                    Some(v) => v,
                    None => {
                        proof {
                            assert((count - i) as nat != 0);
                            assert(parse_entries(bytes@.skip(pos as int), (count - i) as nat)
                                is None);
                            assert(parse_entries(bytes@.skip(pos0), count as nat) is None);
                            let r1 = parse_u8(bytes@);
                            assert(r1 is Some && r1->Some_0.0 == TAG_MANIFEST);
                            let r2 = parse_u64(r1->Some_0.1);
                            assert(r2 is Some && r2->Some_0.0 == count);
                            assert(r2->Some_0.1 == bytes@.skip(pos0));
                            assert(parse_entries(r2->Some_0.1, count as nat) is None);
                            assert(parse_object(bytes@) is None);
                            assert(decode_spec(bytes@) is None);
                        }
                        return Err(crate::Error::EncodingError(
                            "invalid object encoding".to_owned(),
                        ));
                    },
                };
                let (e, pos2) = e;
                proof {
                    let tailr = parse_entries(bytes@.skip(pos2 as int), (count - i - 1) as nat);
                    assert(parse_entries(bytes@.skip(pos as int), (count - i) as nat)
                        == entries_cons(seq![e@], tailr));
                    match tailr {
                        Some((ts, rr)) => {
                            assert(prefix + (seq![e@] + ts) =~= (prefix + seq![e@]) + ts);
                        },
                        None => {},
                    }
                }
                entries.push(e);
                proof {
                    assert(entries@.map_values(|x: Entry| x@) =~= prefix + seq![e@]);
                }
                pos = pos2;
                i = i + 1;
            }
            proof {
                let vs = entries@.map_values(|e: Entry| e@);
                assert(parse_entries(bytes@.skip(pos as int), 0) == Some((
                    Seq::<EntryV>::empty(),
                    bytes@.skip(pos as int),
                )));
                assert(vs + Seq::<EntryV>::empty() =~= vs);
                assert(parse_entries(bytes@.skip(pos0), count as nat) == Some((
                    vs,
                    bytes@.skip(pos as int),
                )));
            }
            if !entries_canonical(&entries) {
                proof {
                    lemma_entries_view_canonical(entries@);
                }
                return Err(crate::Error::EncodingError("invalid object encoding".to_owned()));
            }
            if pos != bytes.len() {
                proof {
                    lemma_entries_view_canonical(entries@);
                    assert(bytes@.skip(pos as int).len() != 0);
                }
                return Err(crate::Error::EncodingError("invalid object encoding".to_owned()));
            }
            proof {
                lemma_entries_view_canonical(entries@);
                assert(bytes@.skip(pos as int).len() == 0);
            }
            Ok(Object::Manifest(Manifest { entries }))
        } else if tag == TAG_LAYER {
            let (manifest, pos) = match read_digest(bytes, pos) {
                Some(v) => v,
                None => {
                    return Err(crate::Error::EncodingError("invalid object encoding".to_owned()));
                },
            };
            if pos != bytes.len() {
                proof {
                    assert(bytes@.skip(pos as int).len() != 0);
                }
                return Err(crate::Error::EncodingError("invalid object encoding".to_owned()));
            }
            proof {
                assert(bytes@.skip(pos as int).len() == 0);
            }
            Ok(Object::Layer(Layer { manifest }))
        } else if tag == TAG_PLATFORM {
            let (count, pos) = match read_u64(bytes, pos) {
                Some(v) => v,
                None => {
                    return Err(crate::Error::EncodingError("invalid object encoding".to_owned()));
                },
            };
            let ghost pos0 = pos as int;
            let mut layers: Vec<Digest> = Vec::new();
            let mut pos = pos;
            let mut i: u64 = 0;
            while i < count
                invariant
                    i <= count,
                    pos <= bytes.len(),
                    parse_digest_seq(bytes@.skip(pos0), count as nat) == digests_cons(
                        layers@,
                        parse_digest_seq(bytes@.skip(pos as int), (count - i) as nat),
                    ),
                    layers@.len() <= i,
                decreases count - i,
            {
                let ghost prefix = layers@;
                let d = match read_digest(bytes, pos) {
                    Some(v) => v,
                    None => {
                        proof {
                            assert((count - i) as nat != 0);
                            assert(parse_digest_seq(bytes@.skip(pos as int), (count - i) as nat)
                                is None);
                            assert(parse_digest_seq(bytes@.skip(pos0), count as nat) is None);
                            let r1 = parse_u8(bytes@);
                            assert(r1 is Some && r1->Some_0.0 == TAG_PLATFORM);
                            let r2 = parse_u64(r1->Some_0.1);
                            assert(r2 is Some && r2->Some_0.0 == count);
                            assert(r2->Some_0.1 == bytes@.skip(pos0));
                            assert(parse_digest_seq(r2->Some_0.1, count as nat) is None);
                            assert(parse_object(bytes@) is None);
                            assert(decode_spec(bytes@) is None);
                        }
                        return Err(crate::Error::EncodingError(
                            "invalid object encoding".to_owned(),
                        ));
                    },
                };
                let (d, pos2) = d;
                proof {
                    let tailr = parse_digest_seq(bytes@.skip(pos2 as int), (count - i - 1) as nat);
                    match tailr {
                        Some((ts, rr)) => {
                            assert(prefix + (seq![d] + ts) =~= (prefix + seq![d]) + ts);
                        },
                        None => {},
                    }
                }
                layers.push(d);
                proof {
                    assert(layers@ =~= prefix + seq![d]);
                }
                pos = pos2;
                i = i + 1;
            }
            proof {
                assert(parse_digest_seq(bytes@.skip(pos as int), 0) == Some((
                    Seq::<Digest>::empty(),
                    bytes@.skip(pos as int),
                )));
                assert(layers@ + Seq::<Digest>::empty() =~= layers@);
            }
            if pos != bytes.len() {
                proof {
                    assert(bytes@.skip(pos as int).len() != 0);
                }
                return Err(crate::Error::EncodingError("invalid object encoding".to_owned()));
            }
            proof {
                assert(bytes@.skip(pos as int).len() == 0);
            }
            Ok(Object::Platform(Platform { layers }))
        } else {
            Err(crate::Error::EncodingError("invalid object encoding".to_owned()))
        }
    }
}

/// The digests an object refers to: its outgoing edges in the graph.
pub open spec fn children_of(o: ObjectV) -> Seq<Digest> {
    match o {
        ObjectV::Blob(_) => Seq::<Digest>::empty(),
        ObjectV::Manifest(es) => es.map_values(|e: EntryV| e.object),
        ObjectV::Layer(l) => seq![l.manifest],
        ObjectV::Platform(ds) => ds,
    }
}

impl Object {
    /// The digests this object refers to, in encoding order.
    pub fn children(&self) -> (r: Vec<Digest>)
        ensures
            r@ == children_of(self@),
    {
        match self {
            Object::Blob(_) => Vec::new(),
            Object::Manifest(m) => {
                let mut out: Vec<Digest> = Vec::new();
                let n = m.entries.len();
                let mut i: usize = 0;
                while i < n
                    invariant
                        i <= n,
                        n == m.entries@.len(),
                        out@ == m.entries@.take(i as int).map_values(|e: Entry| e@).map_values(
                            |e: EntryV| e.object,
                        ),
                    decreases n - i,
                {
                    out.push(m.entries[i].object);
                    proof {
                        assert(out@ =~= m.entries@.take(i + 1).map_values(|e: Entry| e@)
                            .map_values(|e: EntryV| e.object));
                    }
                    i = i + 1;
                }
                proof {
                    assert(m.entries@.take(n as int) =~= m.entries@);
                    assert(out@ =~= children_of(self@));
                }
                out
            },
            Object::Layer(l) => {
                let mut out: Vec<Digest> = Vec::new();
                out.push(l.manifest);
                proof {
                    assert(out@ =~= children_of(self@));
                }
                out
            },
            Object::Platform(p) => {
                let mut out: Vec<Digest> = Vec::new();
                let n = p.layers.len();
                let mut i: usize = 0;
                while i < n
                    invariant
                        i <= n,
                        n == p.layers@.len(),
                        out@ == p.layers@.take(i as int),
                    decreases n - i,
                {
                    out.push(p.layers[i]);
                    proof {
                        assert(out@ =~= p.layers@.take(i + 1));
                    }
                    i = i + 1;
                }
                proof {
                    assert(p.layers@.take(n as int) =~= p.layers@);
                }
                out
            },
        }
    }
}

impl Entry {
    /// A copy holding the same value.
    pub fn duplicate(&self) -> (r: Entry)
        ensures
            r@ == self@,
    {
        Entry {
            name: self.name.clone(),
            kind: self.kind,
            mode: self.mode,
            object: self.object,
            size: self.size,
        }
    }
}

impl Object {
    /// A copy holding the same value.
    pub fn duplicate(&self) -> (r: Object)
        ensures
            r@ == self@,
    {
        match self {
            Object::Blob(b) => Object::Blob(*b),
            Object::Manifest(m) => {
                let mut entries: Vec<Entry> = Vec::new();
                let n = m.entries.len();
                let mut i: usize = 0;
                while i < n
                    invariant
                        i <= n,
                        n == m.entries@.len(),
                        entries@.len() == i,
                        forall|j: int| 0 <= j < i ==> #[trigger] entries@[j]@ == m.entries@[j]@,
                    decreases n - i,
                {
                    entries.push(m.entries[i].duplicate());
                    i = i + 1;
                }
                let r = Object::Manifest(Manifest { entries });
                proof {
                    assert(entries@.map_values(|e: Entry| e@) =~= m.entries@.map_values(
                        |e: Entry| e@,
                    ));
                }
                r
            },
            Object::Layer(l) => Object::Layer(*l),
            Object::Platform(p) => {
                let mut layers: Vec<Digest> = Vec::new();
                let n = p.layers.len();
                let mut i: usize = 0;
                while i < n
                    invariant
                        i <= n,
                        n == p.layers@.len(),
                        layers@ == p.layers@.take(i as int),
                    decreases n - i,
                {
                    layers.push(p.layers[i]);
                    proof {
                        assert(layers@ =~= p.layers@.take(i + 1));
                    }
                    i = i + 1;
                }
                proof {
                    assert(p.layers@.take(n as int) =~= p.layers@);
                }
                Object::Platform(Platform { layers })
            },
        }
    }
}

} // verus!
