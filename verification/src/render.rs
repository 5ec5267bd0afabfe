//! Rendering manifests into directory listings and capturing them back.
//!
//! Rendering writes a manifest's entries out as a directory; capturing reads
//! a directory back into a manifest in canonical form.  Because canonical
//! form is unique, re-capturing a rendered manifest reproduces its digest
//! exactly: content is a fixed point of render-then-capture.

use vstd::prelude::*;

verus! {

use core::cmp::Ordering;
use crate::graph::{Entry, EntryV, Manifest, Object, map_of, sorted_v, unique_v, entry_cmp_v,
    lemma_lex_cmp_refl, lemma_lex_cmp_eq, lemma_lex_cmp_antisym, lemma_lex_cmp_trans,
    lemma_entries_view_canonical, object_digest, enc_object};

/// The contents of an entry-value sequence as a map from name to value.
pub open spec fn vmap_of(s: Seq<EntryV>) -> Map<Seq<char>, EntryV>
    decreases s.len(),
{
    if s.len() == 0 {
        Map::<Seq<char>, EntryV>::empty()
    } else {
        vmap_of(s.drop_last()).insert(s.last().name, s.last())
    }
}

/// Whether some entry value in `s` carries the name `n`.
pub open spec fn vhas_name(s: Seq<EntryV>, n: Seq<char>) -> bool {
    exists|i: int| 0 <= i < s.len() && (#[trigger] s[i]).name == n
}

proof fn lemma_vmap_keys(s: Seq<EntryV>)
    ensures
        forall|n: Seq<char>| #[trigger] vmap_of(s).contains_key(n) <==> vhas_name(s, n),
    decreases s.len(),
{
    if s.len() > 0 {
        lemma_vmap_keys(s.drop_last());
        assert forall|n: Seq<char>| #[trigger] vmap_of(s).contains_key(n) implies vhas_name(
            s,
            n,
        ) by {
            if n == s.last().name {
                assert(s[s.len() - 1].name == n);
            } else {
                assert(vmap_of(s.drop_last()).contains_key(n));
                assert(vhas_name(s.drop_last(), n));
                let i = choose|i: int|
                    0 <= i < s.drop_last().len() && (#[trigger] s.drop_last()[i]).name == n;
                assert(s[i].name == n);
            }
        }
        assert forall|n: Seq<char>| vhas_name(s, n) implies #[trigger] vmap_of(s).contains_key(
            n,
        ) by {
            let i = choose|i: int| 0 <= i < s.len() && (#[trigger] s[i]).name == n;
            if i < s.len() - 1 {
                assert(s.drop_last()[i].name == n);
                assert(vhas_name(s.drop_last(), n));
            } else {
                assert(vmap_of(s) == vmap_of(s.drop_last()).insert(s.last().name, s.last()));
            }
        }
    }
}

proof fn lemma_vmap_index(s: Seq<EntryV>, i: int)
    requires
        unique_v(s),
        0 <= i < s.len(),
    ensures
        vmap_of(s).contains_key(s[i].name),
        vmap_of(s)[s[i].name] == s[i],
    decreases s.len(),
{
    if i < s.len() - 1 {
        assert(s.drop_last()[i] == s[i]);
        assert(unique_v(s.drop_last())) by {
            assert forall|x: int, y: int| 0 <= x < y < s.drop_last().len() implies (
            #[trigger] s.drop_last()[x]).name != (#[trigger] s.drop_last()[y]).name by {
                assert(s.drop_last()[x] == s[x] && s.drop_last()[y] == s[y]);
            }
        }
        lemma_vmap_index(s.drop_last(), i);
        assert(s[i].name != s.last().name);
    }
}

proof fn lemma_sorted_v_pairwise(s: Seq<EntryV>, i: int, j: int)
    requires
        sorted_v(s),
        0 <= i < j < s.len(),
    ensures
        entry_cmp_v(s[i], s[j]) == Ordering::Less,
    decreases j - i,
{
    if i + 1 < j {
        lemma_sorted_v_pairwise(s, i + 1, j);
        if s[i].kind == s[i + 1].kind && s[i + 1].kind == s[j].kind {
            lemma_lex_cmp_trans(s[i].name, s[i + 1].name, s[j].name);
        }
    }
}

/// Canonical form is unique at the level of entry values: two canonical
/// sequences with the same contents are the same sequence.
pub proof fn lemma_canonical_v(a: Seq<EntryV>, b: Seq<EntryV>)
    requires
        sorted_v(a),
        unique_v(a),
        sorted_v(b),
        unique_v(b),
        vmap_of(a) == vmap_of(b),
    ensures
        a == b,
    decreases a.len(),
{
    lemma_vmap_keys(a);
    lemma_vmap_keys(b);
    if a.len() == 0 {
        if b.len() > 0 {
            assert(b[b.len() - 1].name == b.last().name);
            assert(vmap_of(b).contains_key(b.last().name));
        }
        assert(a =~= b);
    } else if b.len() == 0 {
        assert(a[a.len() - 1].name == a.last().name);
        assert(vmap_of(a).contains_key(a.last().name));
    } else {
        let la = a.last();
        let lb = b.last();
        lemma_vmap_index(a, a.len() - 1);
        lemma_vmap_index(b, b.len() - 1);
        assert(vhas_name(b, la.name));
        let ja = choose|j: int| 0 <= j < b.len() && (#[trigger] b[j]).name == la.name;
        lemma_vmap_index(b, ja);
        assert(b[ja] == la);
        assert(vhas_name(a, lb.name));
        let jb = choose|j: int| 0 <= j < a.len() && (#[trigger] a[j]).name == lb.name;
        lemma_vmap_index(a, jb);
        assert(a[jb] == lb);
        lemma_lex_cmp_antisym(la.name, lb.name);
        lemma_lex_cmp_eq(la.name, lb.name);
        lemma_lex_cmp_refl(la.name);
        if ja < b.len() - 1 {
            lemma_sorted_v_pairwise(b, ja, b.len() - 1);
        }
        if jb < a.len() - 1 {
            lemma_sorted_v_pairwise(a, jb, a.len() - 1);
        }
        assert(la == lb);
        assert(!vmap_of(a.drop_last()).contains_key(la.name)) by {
            lemma_vmap_keys(a.drop_last());
            if vhas_name(a.drop_last(), la.name) {
                let j = choose|j: int|
                    0 <= j < a.drop_last().len() && (#[trigger] a.drop_last()[j]).name == la.name;
                assert(a[j].name == la.name);
            }
        }
        assert(!vmap_of(b.drop_last()).contains_key(lb.name)) by {
            lemma_vmap_keys(b.drop_last());
            if vhas_name(b.drop_last(), lb.name) {
                let j = choose|j: int|
                    0 <= j < b.drop_last().len() && (#[trigger] b.drop_last()[j]).name == lb.name;
                assert(b[j].name == lb.name);
            }
        }
        assert(vmap_of(a.drop_last()) =~= vmap_of(a).remove(la.name));
        assert(vmap_of(b.drop_last()) =~= vmap_of(b).remove(lb.name));
        assert(sorted_v(a.drop_last()) && unique_v(a.drop_last())) by {
            assert forall|x: int| 0 <= x < a.drop_last().len() implies #[trigger] a.drop_last()[x]
                == a[x] by {}
        }
        assert(sorted_v(b.drop_last()) && unique_v(b.drop_last())) by {
            assert forall|x: int| 0 <= x < b.drop_last().len() implies #[trigger] b.drop_last()[x]
                == b[x] by {}
        }
        lemma_canonical_v(a.drop_last(), b.drop_last());
        assert(a.len() == b.len());
        assert forall|i: int| 0 <= i < a.len() implies a[i] == b[i] by {
            if i < a.len() - 1 {
                assert(a.drop_last()[i] == b.drop_last()[i]);
            }
        }
        assert(a =~= b);
    }
}

/// The entry-value map of an entry sequence is its entry map, viewed.
pub proof fn lemma_map_view(s: Seq<Entry>)
    ensures
        forall|n: Seq<char>|
            vmap_of(s.map_values(|e: Entry| e@)).contains_key(n) <==> #[trigger] map_of(
                s,
            ).contains_key(n),
        forall|n: Seq<char>|
            #[trigger] map_of(s).contains_key(n) ==> vmap_of(s.map_values(|e: Entry| e@))[n]
                == map_of(s)[n]@,
    decreases s.len(),
{
    let vs = s.map_values(|e: Entry| e@);
    if s.len() > 0 {
        let dl = s.drop_last();
        let vdl = dl.map_values(|e: Entry| e@);
        lemma_map_view(dl);
        assert(vdl =~= vs.drop_last());
        assert(vs.last() == s.last()@);
        assert(vmap_of(vs) == vmap_of(vdl).insert(s.last().name@, s.last()@));
        assert(map_of(s) == map_of(dl).insert(s.last().name@, s.last()));
        assert forall|n: Seq<char>|
            vmap_of(vs).contains_key(n) <==> #[trigger] map_of(s).contains_key(n) by {
            if n != s.last().name@ {
                assert(map_of(s).contains_key(n) <==> map_of(dl).contains_key(n));
                assert(vmap_of(vs).contains_key(n) <==> vmap_of(vdl).contains_key(n));
            }
        }
        assert forall|n: Seq<char>| #[trigger] map_of(s).contains_key(n) implies vmap_of(vs)[n]
            == map_of(s)[n]@ by {
            if n != s.last().name@ {
                assert(map_of(s)[n] == map_of(dl)[n]);
                assert(vmap_of(vs)[n] == vmap_of(vdl)[n]);
            }
        }
    }
}

/// Two canonical manifests holding the same content encode identically and
/// therefore carry the same digest, however each was built: rendering one
/// into a directory and capturing the directory back reproduces the digest.
pub proof fn lemma_manifest_digest_canonical(a: Manifest, b: Manifest)
    requires
        a.wf(),
        b.wf(),
        vmap_of(a.entries@.map_values(|e: Entry| e@)) == vmap_of(
            b.entries@.map_values(|e: Entry| e@),
        ),
    ensures
        a.entries@.map_values(|e: Entry| e@) == b.entries@.map_values(|e: Entry| e@),
        enc_object(Object::Manifest(a)@) == enc_object(Object::Manifest(b)@),
        object_digest(Object::Manifest(a)@) == object_digest(Object::Manifest(b)@),
{
    lemma_entries_view_canonical(a.entries@);
    lemma_entries_view_canonical(b.entries@);
    lemma_canonical_v(
        a.entries@.map_values(|e: Entry| e@),
        b.entries@.map_values(|e: Entry| e@),
    );
}

/// Entry sequences holding equal contents hold equal contents of entry
/// values too.
pub proof fn lemma_vmap_of_equal_maps(a: Seq<Entry>, b: Seq<Entry>)
    requires
        map_of(a) == map_of(b),
    ensures
        vmap_of(a.map_values(|e: Entry| e@)) == vmap_of(b.map_values(|e: Entry| e@)),
{
    lemma_map_view(a);
    lemma_map_view(b);
    let va = a.map_values(|e: Entry| e@);
    let vb = b.map_values(|e: Entry| e@);
    assert(vmap_of(va) =~= vmap_of(vb)) by {
        assert forall|n: Seq<char>| vmap_of(va).contains_key(n) <==> vmap_of(vb).contains_key(
            n,
        ) by {
            assert(vmap_of(va).contains_key(n) <==> map_of(a).contains_key(n));
            assert(vmap_of(vb).contains_key(n) <==> map_of(b).contains_key(n));
        }
        assert forall|n: Seq<char>| vmap_of(va).contains_key(n) implies vmap_of(va)[n]
            == vmap_of(vb)[n] by {
            assert(map_of(a).contains_key(n));
            assert(vmap_of(va)[n] == map_of(a)[n]@);
            assert(vmap_of(vb)[n] == map_of(b)[n]@);
        }
    }
}

/// The render/capture round trip is a content fixed point: rendering a
/// canonical manifest as a directory listing and capturing that listing
/// back yields a manifest with exactly the original digest, given unchanged
/// names, kinds, modes, digests and sizes.
pub proof fn lemma_render_capture_round_trip(m: Manifest, listing: Seq<Entry>, c: Manifest)
    requires
        m.wf(),
        c.wf(),
        listing.map_values(|e: Entry| e@) == m.entries@.map_values(|e: Entry| e@),
        map_of(c.entries@) == map_of(listing),
    ensures
        object_digest(Object::Manifest(c)@) == object_digest(Object::Manifest(m)@),
{
    lemma_map_view(c.entries@);
    lemma_map_view(listing);
    let vc = c.entries@.map_values(|e: Entry| e@);
    let vl = listing.map_values(|e: Entry| e@);
    let vm = m.entries@.map_values(|e: Entry| e@);
    assert(vmap_of(vc) =~= vmap_of(vl)) by {
        assert forall|n: Seq<char>| vmap_of(vc).contains_key(n) <==> vmap_of(vl).contains_key(
            n,
        ) by {
            assert(vmap_of(vc).contains_key(n) <==> map_of(c.entries@).contains_key(n));
            assert(vmap_of(vl).contains_key(n) <==> map_of(listing).contains_key(n));
        }
        assert forall|n: Seq<char>| vmap_of(vc).contains_key(n) implies vmap_of(vc)[n]
            == vmap_of(vl)[n] by {
            assert(map_of(c.entries@).contains_key(n));
            assert(vmap_of(vc)[n] == map_of(c.entries@)[n]@);
            assert(vmap_of(vl)[n] == map_of(listing)[n]@);
        }
    }
    assert(vmap_of(vl) == vmap_of(vm));
    lemma_manifest_digest_canonical(c, m);
}

/// Renders a manifest as a directory listing: one entry per file or
/// subtree, carrying the same names, kinds, modes, digests and sizes.
pub fn render_manifest(m: &Manifest) -> (r: Vec<Entry>)
    ensures
        r@.map_values(|e: Entry| e@) == m.entries@.map_values(|e: Entry| e@),
{
    let mut out: Vec<Entry> = Vec::new();
    let n = m.entries.len();
    let mut i: usize = 0;
    while i < n
        invariant
            i <= n,
            n == m.entries@.len(),
            out@.len() == i,
            forall|j: int| 0 <= j < i ==> #[trigger] out@[j]@ == m.entries@[j]@,
        decreases n - i,
    {
        out.push(m.entries[i].duplicate());
        i = i + 1;
    }
    proof {
        assert(out@.map_values(|e: Entry| e@) =~= m.entries@.map_values(|e: Entry| e@));
    }
    out
}

/// Captures a directory listing as a canonical manifest.  The listing's
/// order does not matter: a later entry for the same name overrides an
/// earlier one, and the result is in canonical form.
pub fn capture_dir(listing: Vec<Entry>) -> (r: Manifest)
    ensures
        r.wf(),
        r@ == map_of(listing@),
{
    let ghost orig = listing@;
    let mut listing = listing;
    let mut man = Manifest::new();
    let ghost mut i: int = 0;
    proof {
        assert(orig.take(0) =~= Seq::<Entry>::empty());
        assert(orig.skip(0) =~= orig);
        assert(man@ =~= map_of(orig.take(0)));
    }
    while listing.len() > 0
        invariant
            0 <= i <= orig.len(),
            listing@ == orig.skip(i),
            man.wf(),
            man@ == map_of(orig.take(i)),
        decreases listing@.len(),
    {
        let e = listing.remove(0);
        proof {
            assert(orig.skip(i)[0] == orig[i]);
            assert(orig.skip(i).remove(0) =~= orig.skip(i + 1));
            assert(orig.take(i + 1).drop_last() =~= orig.take(i));
            assert(orig.take(i + 1).last() == orig[i]);
        }
        man.insert(e);
        proof {
            i = i + 1;
        }
    }
    proof {
        assert(orig.take(orig.len() as int) =~= orig);
    }
    man
}

/// The contents of a composed stack of manifests, bottom first: each
/// higher layer's entries override lower entries of the same name.
pub open spec fn flatten_contents(layers: Seq<Manifest>) -> Map<Seq<char>, EntryV>
    decreases layers.len(),
{
    if layers.len() == 0 {
        Map::<Seq<char>, EntryV>::empty()
    } else {
        flatten_contents(layers.drop_last()).union_prefer_right(
            vmap_of(layers.last().entries@.map_values(|e: Entry| e@)),
        )
    }
}

/// An entry-map insert lifts to an entry-value-map insert.
proof fn lemma_vmap_insert(prev: Seq<Entry>, now: Seq<Entry>, e: Entry)
    requires
        map_of(now) == map_of(prev).insert(e.name@, e),
    ensures
        vmap_of(now.map_values(|x: Entry| x@)) == vmap_of(prev.map_values(|x: Entry| x@)).insert(
            e.name@,
            e@,
        ),
{
    lemma_map_view(prev);
    lemma_map_view(now);
    let vp = prev.map_values(|x: Entry| x@);
    let vn = now.map_values(|x: Entry| x@);
    assert(vmap_of(vn) =~= vmap_of(vp).insert(e.name@, e@)) by {
        assert forall|n: Seq<char>| vmap_of(vn).contains_key(n) <==> vmap_of(vp).insert(
            e.name@,
            e@,
        ).contains_key(n) by {
            assert(vmap_of(vn).contains_key(n) <==> map_of(now).contains_key(n));
            assert(vmap_of(vp).contains_key(n) <==> map_of(prev).contains_key(n));
        }
        assert forall|n: Seq<char>| vmap_of(vn).contains_key(n) implies vmap_of(vn)[n]
            == vmap_of(vp).insert(e.name@, e@)[n] by {
            assert(map_of(now).contains_key(n));
            assert(vmap_of(vn)[n] == map_of(now)[n]@);
            if n != e.name@ {
                assert(map_of(now)[n] == map_of(prev)[n]);
                assert(vmap_of(vp)[n] == map_of(prev)[n]@);
            }
        }
    }
}

/// Flattens a stack of manifests, bottom first, into one composed
/// directory in canonical form: its contents are exactly the union of the
/// layers' contents, each higher layer's entry overriding a lower entry of
/// the same name.
#[verifier::loop_isolation(false)]
pub fn flatten_stack(layers: &Vec<Manifest>) -> (r: Manifest)
    ensures
        r.wf(),
        vmap_of(r.entries@.map_values(|e: Entry| e@)) == flatten_contents(layers@),
{
    let mut man = Manifest::new();
    proof {
        assert(vmap_of(man.entries@.map_values(|e: Entry| e@)) =~= flatten_contents(
            layers@.take(0),
        ));
    }
    let n = layers.len();
    let mut i: usize = 0;
    while i < n
        invariant
            i <= n,
            man.wf(),
            vmap_of(man.entries@.map_values(|e: Entry| e@)) == flatten_contents(
                layers@.take(i as int),
            ),
        decreases n - i,
    {
        let ghost layer_v = layers@[i as int].entries@.map_values(|e: Entry| e@);
        let en = layers[i].entries.len();
        let mut k: usize = 0;
        proof {
            assert(layer_v.take(0) =~= Seq::<EntryV>::empty());
            assert(flatten_contents(layers@.take(i as int)).union_prefer_right(
                vmap_of(layer_v.take(0)),
            ) =~= flatten_contents(layers@.take(i as int)));
        }
        while k < en
            invariant
                k <= en,
                i < n,
                en == layers@[i as int].entries@.len(),
                layer_v == layers@[i as int].entries@.map_values(|e: Entry| e@),
                man.wf(),
                vmap_of(man.entries@.map_values(|e: Entry| e@)) == flatten_contents(
                    layers@.take(i as int),
                ).union_prefer_right(vmap_of(layer_v.take(k as int))),
            decreases en - k,
        {
            let ghost prev = man.entries@;
            let e = layers[i].entries[k].duplicate();
            man.insert(e);
            proof {
                lemma_vmap_insert(prev, man.entries@, e);
                assert(e@ == layer_v[k as int]);
                assert(layer_v.take(k + 1).drop_last() =~= layer_v.take(k as int));
                assert(vmap_of(layer_v.take(k + 1)) == vmap_of(layer_v.take(k as int)).insert(
                    e.name@,
                    e@,
                ));
                assert(flatten_contents(layers@.take(i as int)).union_prefer_right(
                    vmap_of(layer_v.take(k + 1)),
                ) =~= flatten_contents(layers@.take(i as int)).union_prefer_right(
                    vmap_of(layer_v.take(k as int)),
                ).insert(e.name@, e@));
            }
            k = k + 1;
        }
        proof {
            assert(layer_v.take(en as int) =~= layer_v);
            assert(layers@.take(i + 1).drop_last() =~= layers@.take(i as int));
            assert(layers@.take(i + 1).last() == layers@[i as int]);
        }
        i = i + 1;
    }
    proof {
        assert(layers@.take(n as int) =~= layers@);
    }
    man
}

} // verus!
