//! The active environment: a stack of snapshot digests, an editable flag,
//! and the uncommitted edits of the upper layer.
//!
//! Mutating the stack or the flag and re-applying them to the live mount
//! are two separate steps: every mutation marks the runtime as owing a
//! remount, and the caller re-applies the state and clears the mark.  A
//! crash between the two leaves the persisted state authoritative and the
//! live mount stale, which the mark makes visible.

use vstd::prelude::*;

verus! {

use crate::encoding::{Digest, enc_u8, enc_u64, enc_digest, parse_u8, parse_u64, parse_digest,
    write_u8, write_u64, write_digest, read_u8, read_u64, read_digest, lemma_parse_u8_enc,
    lemma_parse_u64_enc, lemma_parse_digest_enc};
use crate::graph::{Manifest, Object, Layer, object_digest};
use crate::storage::Repository;
use crate::tracking::{EntryKind, glob_matches, any_glob_matches, any_glob_match};
use crate::Error;

/// One uncommitted change in the upper, writable layer.
#[derive(Clone, Debug)]
pub struct Edit {
    pub path: String,
    pub kind: EntryKind,
    pub mode: u32,
    pub object: Digest,
    pub size: u64,
}

/// The edits kept by a reset: those matching no given pattern.
pub open spec fn kept_edits(s: Seq<Edit>, pats: Seq<Seq<char>>) -> Seq<Edit>
    decreases s.len(),
{
    if s.len() == 0 {
        s
    } else if any_glob_matches(pats, s.last().path@) {
        kept_edits(s.drop_last(), pats)
    } else {
        kept_edits(s.drop_last(), pats).push(s.last())
    }
}

/// One locally active environment.
pub struct Runtime {
    pub name: String,
    pub stack: Vec<Digest>,
    pub editable: bool,
    pub edits: Vec<Edit>,
    /// True when the stack or flag changed since the live mount was last
    /// re-applied.
    pub pending_remount: bool,
}

impl Runtime {
    /// Creates a fresh, inactive runtime with an empty stack.
    pub fn new(name: String) -> (r: Runtime)
        ensures
            r.name == name,
            r.stack@ == Seq::<Digest>::empty(),
            r.editable == false,
            r.edits@ == Seq::<Edit>::empty(),
            r.pending_remount == false,
    {
        Runtime {
            name,
            stack: Vec::new(),
            editable: false,
            edits: Vec::new(),
            pending_remount: false,
        }
    }

    /// The composed stack, bottom first; the last digest has the highest
    /// priority.
    pub fn get_stack(&self) -> (r: Vec<Digest>)
        ensures
            r@ == self.stack@,
    {
        let mut out: Vec<Digest> = Vec::new();
        let n = self.stack.len();
        let mut i: usize = 0;
        while i < n
            invariant
                i <= n,
                n == self.stack@.len(),
                out@ == self.stack@.take(i as int),
            decreases n - i,
        {
            out.push(self.stack[i]);
            proof {
                assert(out@ =~= self.stack@.take(i + 1));
            }
            i = i + 1;
        }
        proof {
            assert(self.stack@.take(n as int) =~= self.stack@);
        }
        out
    }

    /// Pushes one more snapshot digest on top of the stack.
    pub fn push_digest(&mut self, digest: &Digest)
        ensures
            final(self).stack@ == old(self).stack@.push(*digest),
            final(self).edits == old(self).edits,
            final(self).editable == old(self).editable,
            final(self).name == old(self).name,
            final(self).pending_remount,
    {
        self.stack.push(*digest);
        self.pending_remount = true;
    }

    /// Empties the stack.
    pub fn reset_stack(&mut self)
        ensures
            final(self).stack@ == Seq::<Digest>::empty(),
            final(self).edits == old(self).edits,
            final(self).editable == old(self).editable,
            final(self).name == old(self).name,
            final(self).pending_remount,
    {
        self.stack.clear();
        self.pending_remount = true;
    }

    /// Makes the runtime editable or read-only.
    pub fn set_editable(&mut self, editable: bool)
        ensures
            final(self).editable == editable,
            final(self).stack == old(self).stack,
            final(self).edits == old(self).edits,
            final(self).name == old(self).name,
            final(self).pending_remount,
    {
        self.editable = editable;
        self.pending_remount = true;
    }

    /// Discards the edits whose paths match any of the given glob
    /// patterns — or every edit when no pattern is given — leaving the
    /// stack untouched.
    #[verifier::loop_isolation(false)]
    pub fn reset(&mut self, paths: &Vec<String>)
        ensures
            final(self).edits@ == if paths@.len() == 0 {
                Seq::<Edit>::empty()
            } else {
                kept_edits(old(self).edits@, paths@.map_values(|p: String| p@))
            },
            final(self).stack == old(self).stack,
            final(self).editable == old(self).editable,
            final(self).name == old(self).name,
            final(self).pending_remount == old(self).pending_remount,
    {
        if paths.len() == 0 {
            self.edits.clear();
            return ;
        }
        let ghost pats = paths@.map_values(|p: String| p@);
        let ghost orig = self.edits@;
        let mut kept: Vec<Edit> = Vec::new();
        let ghost mut i: int = 0;
        proof {
            assert(orig.take(0) =~= Seq::<Edit>::empty());
            assert(orig.skip(0) =~= orig);
        }
        while self.edits.len() > 0
            invariant
                0 <= i <= orig.len(),
                self.edits@ == orig.skip(i),
                kept@ == kept_edits(orig.take(i), pats),
                self.stack == old(self).stack,
                self.editable == old(self).editable,
                self.name == old(self).name,
                self.pending_remount == old(self).pending_remount,
            decreases self.edits@.len(),
        {
            let e = self.edits.remove(0);
            proof {
                assert(orig.skip(i)[0] == orig[i]);
                assert(orig.skip(i).remove(0) =~= orig.skip(i + 1));
                assert(orig.take(i + 1).drop_last() =~= orig.take(i));
                assert(orig.take(i + 1).last() == orig[i]);
            }
            if !any_glob_match(paths, e.path.as_str()) {
                kept.push(e);
            }
            proof {
                i = i + 1;
            }
        }
        proof {
            assert(orig.take(orig.len() as int) =~= orig);
        }
        self.edits = kept;
    }
}

impl Runtime {
    /// Discards every edit, leaving the stack unchanged.
    pub fn reset_all(&mut self)
        ensures
            final(self).edits@ == Seq::<Edit>::empty(),
            final(self).stack == old(self).stack,
            final(self).editable == old(self).editable,
            final(self).name == old(self).name,
            final(self).pending_remount == old(self).pending_remount,
    {
        self.edits.clear();
    }

    /// Records that the live mount now reflects the saved state.
    pub fn mark_remounted(&mut self)
        ensures
            final(self).pending_remount == false,
            final(self).stack == old(self).stack,
            final(self).edits == old(self).edits,
            final(self).editable == old(self).editable,
            final(self).name == old(self).name,
    {
        self.pending_remount = false;
    }

    /// Reconfigures the runtime in one sweep: discards the chosen edits
    /// (all of them when no patterns are given), rebuilds the stack from
    /// the given digests (empty when none are given), and sets the
    /// editable flag (left editable when none is given).  The caller owes
    /// a remount afterwards.
    #[verifier::loop_isolation(false)]
    pub fn reconfigure(
        &mut self,
        editable: Option<bool>,
        reset_paths: Option<&Vec<String>>,
        stack: Option<&Vec<Digest>>,
    )
        ensures
            final(self).edits@ == match reset_paths {
                Some(p) => if p@.len() == 0 {
                    Seq::<Edit>::empty()
                } else {
                    kept_edits(old(self).edits@, p@.map_values(|q: String| q@))
                },
                None => Seq::<Edit>::empty(),
            },
            final(self).stack@ == match stack {
                Some(s) => s@,
                None => Seq::<Digest>::empty(),
            },
            final(self).editable == match editable {
                Some(e) => e,
                None => true,
            },
            final(self).name == old(self).name,
            final(self).pending_remount,
    {
        self.set_editable(true);
        match editable {
            Some(e) => self.set_editable(e),
            None => {},
        }
        match reset_paths {
            Some(p) => self.reset(p),
            None => self.reset_all(),
        }
        self.reset_stack();
        match stack {
            Some(s) => {
                let ghost edits_snap = self.edits;
                let ghost ed_snap = self.editable;
                let n = s.len();
                let mut i: usize = 0;
                while i < n
                    invariant
                        i <= n,
                        n == s@.len(),
                        self.stack@ == s@.take(i as int),
                        self.edits == edits_snap,
                        self.editable == ed_snap,
                        self.name == old(self).name,
                        self.pending_remount,
                    decreases n - i,
                {
                    self.push_digest(&s[i]);
                    proof {
                        assert(self.stack@ =~= s@.take(i + 1));
                    }
                    i = i + 1;
                }
                proof {
                    assert(s@.take(n as int) =~= s@);
                }
            },
            None => {},
        }
    }
}

// ---------------------------------------------------------------------------
// Persisted runtime state.
// ---------------------------------------------------------------------------

/// The canonical encoding of the persisted state: the editable flag, then
/// the counted stack of digests, bottom first.
pub open spec fn enc_state(editable: bool, stack: Seq<Digest>) -> Seq<u8> {
    enc_u8(if editable { 1u8 } else { 0u8 }) + enc_u64(stack.len() as u64)
        + crate::graph::enc_digest_seq(stack)
}

/// What a state buffer decodes to.
pub open spec fn parse_state(s: Seq<u8>) -> Option<(bool, Seq<Digest>)> {
    match parse_u8(s) {
        Some((flag, s)) => if flag > 1 {
            None
        } else {
            match parse_u64(s) {
                Some((n, s)) => match crate::graph::parse_digest_seq(s, n as nat) {
                    Some((ds, s)) => if s.len() == 0 {
                        Some((flag == 1, ds))
                    } else {
                        None
                    },
                    None => None,
                },
                None => None,
            }
        },
        None => None,
    }
}

/// Reading a saved state buffer back yields the saved stack and flag.
pub proof fn lemma_state_round_trip(editable: bool, stack: Seq<Digest>)
    requires
        stack.len() <= u64::MAX,
    ensures
        parse_state(enc_state(editable, stack)) == Some((editable, stack)),
{
    let flag: u8 = if editable { 1u8 } else { 0u8 };
    let s1 = enc_u64(stack.len() as u64) + crate::graph::enc_digest_seq(stack);
    assert(enc_state(editable, stack) =~= enc_u8(flag) + s1);
    lemma_parse_u8_enc(flag, s1);
    lemma_parse_u64_enc(stack.len() as u64, crate::graph::enc_digest_seq(stack));
    assert(crate::graph::enc_digest_seq(stack) + Seq::<u8>::empty() =~= crate::graph::enc_digest_seq(
        stack,
    ));
    crate::graph::lemma_parse_digest_seq_enc(stack, Seq::<u8>::empty());
}

impl Runtime {
    /// Renders the runtime's persistent state: the stack and the editable
    /// flag, rewritten whole after every mutation.
    pub fn save_state(&self) -> (r: Vec<u8>)
        ensures
            r@ == enc_state(self.editable, self.stack@),
    {
        let mut out: Vec<u8> = Vec::new();
        write_u8(&mut out, if self.editable { 1 } else { 0 });
        write_u64(&mut out, self.stack.len() as u64);
        let ghost base = out@;
        let ghost ds = self.stack@;
        let n = self.stack.len();
        let mut i: usize = 0;
        proof {
            assert(ds.skip(0) =~= ds);
            assert(base + Seq::<u8>::empty() =~= base);
        }
        while i < n
            invariant
                i <= n,
                n == self.stack@.len(),
                ds == self.stack@,
                out@ + crate::graph::enc_digest_seq(ds.skip(i as int)) == base
                    + crate::graph::enc_digest_seq(ds),
            decreases n - i,
        {
            proof {
                let rem = ds.skip(i as int);
                assert(rem[0] == ds[i as int]);
                assert(rem.drop_first() =~= ds.skip(i + 1));
            }
            write_digest(&mut out, &self.stack[i]);
            proof {
                assert(out@ + crate::graph::enc_digest_seq(ds.skip(i + 1)) =~= base
                    + crate::graph::enc_digest_seq(ds));
            }
            i = i + 1;
        }
        proof {
            assert(crate::graph::enc_digest_seq(ds.skip(n as int)) =~= Seq::<u8>::empty());
            assert(out@ + Seq::<u8>::empty() =~= out@);
            assert(out@ =~= enc_state(self.editable, self.stack@));
        }
        out
    }

    /// Reads a persisted state buffer back into a stack and flag.
    #[verifier::loop_isolation(false)]
    #[verifier::rlimit(60)]
    pub fn load_state(bytes: &Vec<u8>) -> (r: crate::Result<(bool, Vec<Digest>)>)
        ensures
            match r {
                Ok((editable, stack)) => parse_state(bytes@) == Some((editable, stack@)),
                Err(e) => parse_state(bytes@) is None && e is EncodingError,
            },
    {
        proof {
            assert(bytes@.skip(0) =~= bytes@);
        }
        let (flag, pos) = match read_u8(bytes, 0) {
            Some(v) => v,
            None => {
                return Err(Error::EncodingError("invalid runtime state".to_owned()));
            },
        };
        if flag > 1 {
            return Err(Error::EncodingError("invalid runtime state".to_owned()));
        }
        let (count, pos) = match read_u64(bytes, pos) {
            Some(v) => v,
            None => {
                return Err(Error::EncodingError("invalid runtime state".to_owned()));
            },
        };
        let ghost pos0 = pos as int;
        let mut stack: Vec<Digest> = Vec::new();
        let mut pos = pos;
        let mut i: u64 = 0;
        while i < count
            invariant
                i <= count,
                pos <= bytes.len(),
                crate::graph::parse_digest_seq(bytes@.skip(pos0), count as nat)
                    == crate::graph::digests_cons(
                    stack@,
                    crate::graph::parse_digest_seq(bytes@.skip(pos as int), (count - i) as nat),
                ),
                stack@.len() <= i,
            decreases count - i,
        {
            let ghost prefix = stack@;
            let d = match read_digest(bytes, pos) {
                Some(v) => v,
                None => {
                    proof {
                        assert(crate::graph::parse_digest_seq(
                            bytes@.skip(pos as int),
                            (count - i) as nat,
                        ) is None);
                    }
                    return Err(Error::EncodingError("invalid runtime state".to_owned()));
                },
            };
            let (d, pos2) = d;
            proof {
                let tailr = crate::graph::parse_digest_seq(
                    bytes@.skip(pos2 as int),
                    (count - i - 1) as nat,
                );
                match tailr {
                    Some((ts, rr)) => {
                        assert(prefix + (seq![d] + ts) =~= (prefix + seq![d]) + ts);
                    },
                    None => {},
                }
            }
            stack.push(d);
            proof {
                assert(stack@ =~= prefix + seq![d]);
            }
            pos = pos2;
            i = i + 1;
        }
        proof {
            assert(crate::graph::parse_digest_seq(bytes@.skip(pos as int), 0) == Some((
                Seq::<Digest>::empty(),
                bytes@.skip(pos as int),
            )));
            assert(stack@ + Seq::<Digest>::empty() =~= stack@);
        }
        if pos != bytes.len() {
            proof {
                assert(bytes@.skip(pos as int).len() != 0);
            }
            return Err(Error::EncodingError("invalid runtime state".to_owned()));
        }
        proof {
            assert(bytes@.skip(pos as int).len() == 0);
        }
        Ok((flag == 1, stack))
    }
}

/// The entry value an upper-layer edit contributes to the committed
/// manifest: its path as the name, everything else carried over.
pub open spec fn edit_entry_v(e: Edit) -> crate::graph::EntryV {
    crate::graph::EntryV {
        name: e.path@,
        kind: e.kind,
        mode: e.mode,
        object: e.object,
        size: e.size,
    }
}

/// Captures the runtime's edits as a new manifest and layer written through
/// the database, pushes the layer onto the stack, and clears the edits.
/// The manifest holds exactly the edits' contents in canonical form; the
/// layer wraps it; both are stored by their digests (idempotently, like any
/// write).  The runtime then owes a remount.
pub fn commit_layer(rt: &mut Runtime, repo: &mut crate::storage::Repository) -> (r: crate::Result<
    Digest,
>)
    requires
        old(repo).wf(),
    ensures
        final(repo).wf(),
        final(repo).tags == old(repo).tags,
        final(repo).payloads == old(repo).payloads,
        match r {
            Ok(layer_digest) => {
                &&& final(rt).stack@ == old(rt).stack@.push(layer_digest)
                &&& final(rt).edits@ == Seq::<Edit>::empty()
                &&& final(rt).editable == old(rt).editable
                &&& final(rt).name == old(rt).name
                &&& final(rt).pending_remount
                &&& exists|es: Seq<crate::graph::EntryV>|
                    {
                        &&& #[trigger] crate::graph::sorted_v(es)
                        &&& crate::graph::unique_v(es)
                        &&& crate::render::vmap_of(es) == crate::render::vmap_of(
                            old(rt).edits@.map_values(|e: Edit| edit_entry_v(e)),
                        )
                        &&& final(repo).db.contents() == crate::db::db_insert(
                            crate::db::db_insert(
                                old(repo).db.contents(),
                                crate::graph::ObjectV::Manifest(es),
                            ),
                            crate::graph::ObjectV::Layer(
                                crate::graph::Layer {
                                    manifest: object_digest(crate::graph::ObjectV::Manifest(es)),
                                },
                            ),
                        )
                        &&& layer_digest == object_digest(
                            crate::graph::ObjectV::Layer(
                                crate::graph::Layer {
                                    manifest: object_digest(crate::graph::ObjectV::Manifest(es)),
                                },
                            ),
                        )
                    }
            },
            Err(_) => false,
        },
{
    let ghost edits0 = rt.edits@;
    let n = rt.edits.len();
    let mut listing: Vec<crate::graph::Entry> = Vec::new();
    let mut i: usize = 0;
    while i < n
        invariant
            i <= n,
            n == rt.edits@.len(),
            rt.edits == old(rt).edits,
            rt.stack == old(rt).stack,
            rt.editable == old(rt).editable,
            rt.name == old(rt).name,
            rt.pending_remount == old(rt).pending_remount,
            edits0 == rt.edits@,
            listing@.len() == i,
            forall|j: int| 0 <= j < i ==> (#[trigger] listing@[j])@ == edit_entry_v(edits0[j]),
        decreases n - i,
    {
        let e = &rt.edits[i];
        listing.push(
            crate::graph::Entry {
                name: e.path.clone(),
                kind: e.kind,
                mode: e.mode,
                object: e.object,
                size: e.size,
            },
        );
        i = i + 1;
    }
    let ghost lv = listing@;
    let manifest = crate::render::capture_dir(listing);
    proof {
        crate::graph::lemma_entries_view_canonical(manifest.entries@);
    }
    let mobj = Object::Manifest(manifest);
    let ghost es = mobj@->Manifest_0;
    proof {
        crate::render::lemma_vmap_of_equal_maps(mobj->Manifest_0.entries@, lv);
        assert(lv.map_values(|e: crate::graph::Entry| e@) =~= edits0.map_values(
            |e: Edit| edit_entry_v(e),
        ));
    }
    let mdigest = match repo.db.write_object(&mobj) {
        Ok(d) => d,
        Err(_) => {
            proof {
                assert(false);
            }
            return Err(Error::StorageFault("unreachable".to_owned()));
        },
    };
    let lobj = Object::Layer(Layer { manifest: mdigest });
    let ldigest = match repo.db.write_object(&lobj) {
        Ok(d) => d,
        Err(_) => {
            proof {
                assert(false);
            }
            return Err(Error::StorageFault("unreachable".to_owned()));
        },
    };
    rt.stack.push(ldigest);
    rt.edits.clear();
    rt.pending_remount = true;
    proof {
        assert(crate::graph::sorted_v(es) && crate::graph::unique_v(es));
        assert(crate::render::vmap_of(es) == crate::render::vmap_of(
            edits0.map_values(|e: Edit| edit_entry_v(e)),
        ));
    }
    Ok(ldigest)
}

} // verus!
