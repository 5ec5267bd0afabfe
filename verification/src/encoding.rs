//! Digests and the canonical binary encoding primitives.
//!
//! A [`Digest`] is the identity of every object in the store: the hash of the
//! object's canonical encoding.  Equal content therefore always carries an
//! equal digest.  This module holds the digest type, its hexadecimal
//! rendering, the fixed-width integer and length-prefixed byte encodings that
//! every object encoding is built from, and the hash itself.

use vstd::prelude::*;

verus! {

use vstd::wrapping::u64_specs;

/// A fixed-width (256-bit) content hash, held as four 64-bit limbs.
///
/// Two digests are reserved: the digest of empty content
/// ([`empty_digest`]) and the all-zero sentinel ([`null_digest`]) that marks
/// "no object" in optional fields.
#[derive(Clone, Copy, Debug, Hash, PartialEq, Eq, Structural)]
pub struct Digest {
    pub q0: u64,
    pub q1: u64,
    pub q2: u64,
    pub q3: u64,
}

/// The all-zero sentinel digest, used to denote the absence of an object.
pub open spec fn null_digest_spec() -> Digest {
    Digest { q0: 0, q1: 0, q2: 0, q3: 0 }
}

/// Returns the all-zero sentinel digest.
pub fn null_digest() -> (r: Digest)
    ensures
        r == null_digest_spec(),
{
    Digest { q0: 0, q1: 0, q2: 0, q3: 0 }
}

// ---------------------------------------------------------------------------
// Fixed-width integer encodings (big endian).
// ---------------------------------------------------------------------------

/// Canonical one-byte encoding.
pub open spec fn enc_u8(x: u8) -> Seq<u8> {
    seq![x]
}

/// Canonical big-endian four-byte encoding.
pub open spec fn enc_u32(x: u32) -> Seq<u8> {
    seq![
        ((x >> 24) & 0xff) as u8,
        ((x >> 16) & 0xff) as u8,
        ((x >> 8) & 0xff) as u8,
        (x & 0xff) as u8,
    ]
}

/// Canonical big-endian eight-byte encoding.
pub open spec fn enc_u64(x: u64) -> Seq<u8> {
    seq![
        ((x >> 56) & 0xff) as u8,
        ((x >> 48) & 0xff) as u8,
        ((x >> 40) & 0xff) as u8,
        ((x >> 32) & 0xff) as u8,
        ((x >> 24) & 0xff) as u8,
        ((x >> 16) & 0xff) as u8,
        ((x >> 8) & 0xff) as u8,
        (x & 0xff) as u8,
    ]
}

/// The digest's canonical 32-byte encoding: its four limbs, big endian.
pub open spec fn enc_digest(d: Digest) -> Seq<u8> {
    enc_u64(d.q0) + enc_u64(d.q1) + enc_u64(d.q2) + enc_u64(d.q3)
}

/// Appends the canonical encoding of `x` to `out`.
pub fn write_u8(out: &mut Vec<u8>, x: u8)
    ensures
        final(out)@ == old(out)@ + enc_u8(x),
{
    out.push(x);
    proof {
        assert(final(out)@ =~= old(out)@ + enc_u8(x));
    }
}

/// Appends the canonical big-endian encoding of `x` to `out`.
pub fn write_u32(out: &mut Vec<u8>, x: u32)
    ensures
        final(out)@ == old(out)@ + enc_u32(x),
{
    out.push(((x >> 24) & 0xff) as u8);
    out.push(((x >> 16) & 0xff) as u8);
    out.push(((x >> 8) & 0xff) as u8);
    out.push((x & 0xff) as u8);
    proof {
        assert(final(out)@ =~= old(out)@ + enc_u32(x));
    }
}

/// Appends the canonical big-endian encoding of `x` to `out`.
pub fn write_u64(out: &mut Vec<u8>, x: u64)
    ensures
        final(out)@ == old(out)@ + enc_u64(x),
{
    out.push(((x >> 56) & 0xff) as u8);
    out.push(((x >> 48) & 0xff) as u8);
    out.push(((x >> 40) & 0xff) as u8);
    out.push(((x >> 32) & 0xff) as u8);
    out.push(((x >> 24) & 0xff) as u8);
    out.push(((x >> 16) & 0xff) as u8);
    out.push(((x >> 8) & 0xff) as u8);
    out.push((x & 0xff) as u8);
    proof {
        assert(final(out)@ =~= old(out)@ + enc_u64(x));
    }
}

/// Appends the canonical encoding of `d` to `out`.
pub fn write_digest(out: &mut Vec<u8>, d: &Digest)
    ensures
        final(out)@ == old(out)@ + enc_digest(*d),
{
    write_u64(out, d.q0);
    write_u64(out, d.q1);
    write_u64(out, d.q2);
    write_u64(out, d.q3);
    proof {
        assert(final(out)@ =~= old(out)@ + enc_digest(*d));
    }
}

// ---------------------------------------------------------------------------
// Parsing: constructive specifications, mirrored by executable readers.
//
// A parser consumes a prefix of the byte sequence and yields the parsed value
// together with the remaining suffix; `None` reports a truncated or invalid
// stream.  The executable readers walk an absolute cursor over the buffer and
// are proved to agree with these specifications.
// ---------------------------------------------------------------------------

/// Reads one byte.
pub open spec fn parse_u8(s: Seq<u8>) -> Option<(u8, Seq<u8>)> {
    if s.len() >= 1 {
        Some((s[0], s.skip(1)))
    } else {
        None
    }
}

/// The value encoded by the first four bytes of `s`, big endian.
pub open spec fn dec_u32(s: Seq<u8>) -> u32
    recommends
        s.len() >= 4,
{
    ((s[0] as u32) << 24) | ((s[1] as u32) << 16) | ((s[2] as u32) << 8) | (s[3] as u32)
}

/// Reads a big-endian four-byte integer.
pub open spec fn parse_u32(s: Seq<u8>) -> Option<(u32, Seq<u8>)> {
    if s.len() >= 4 {
        Some((dec_u32(s), s.skip(4)))
    } else {
        None
    }
}

/// The value encoded by the first eight bytes of `s`, big endian.
pub open spec fn dec_u64(s: Seq<u8>) -> u64
    recommends
        s.len() >= 8,
{
    ((s[0] as u64) << 56) | ((s[1] as u64) << 48) | ((s[2] as u64) << 40) | ((s[3] as u64) << 32)
        | ((s[4] as u64) << 24) | ((s[5] as u64) << 16) | ((s[6] as u64) << 8) | (s[7] as u64)
}

/// Reads a big-endian eight-byte integer.
pub open spec fn parse_u64(s: Seq<u8>) -> Option<(u64, Seq<u8>)> {
    if s.len() >= 8 {
        Some((dec_u64(s), s.skip(8)))
    } else {
        None
    }
}

/// Reads a digest: four big-endian limbs.
pub open spec fn parse_digest(s: Seq<u8>) -> Option<(Digest, Seq<u8>)> {
    match parse_u64(s) {
        Some((q0, s)) => match parse_u64(s) {
            Some((q1, s)) => match parse_u64(s) {
                Some((q2, s)) => match parse_u64(s) {
                    Some((q3, s)) => Some((Digest { q0, q1, q2, q3 }, s)),
                    None => None,
                },
                None => None,
            },
            None => None,
        },
        None => None,
    }
}

// ---------------------------------------------------------------------------
// Round trips of the primitive encodings.
// ---------------------------------------------------------------------------

/// Parsing a canonically encoded byte yields it back, with the rest untouched.
pub proof fn lemma_parse_u8_enc(x: u8, rest: Seq<u8>)
    ensures
        parse_u8(enc_u8(x) + rest) == Some((x, rest)),
{
    let s = enc_u8(x) + rest;
    assert(s[0] == x);
    assert(s.skip(1) =~= rest);
}

/// Parsing a canonically encoded `u32` yields it back.
pub proof fn lemma_parse_u32_enc(x: u32, rest: Seq<u8>)
    ensures
        parse_u32(enc_u32(x) + rest) == Some((x, rest)),
{
    let s = enc_u32(x) + rest;
    let b0 = ((x >> 24) & 0xff) as u8;
    let b1 = ((x >> 16) & 0xff) as u8;
    let b2 = ((x >> 8) & 0xff) as u8;
    let b3 = (x & 0xff) as u8;
    assert(s[0] == b0 && s[1] == b1 && s[2] == b2 && s[3] == b3);
    assert(((b0 as u32) << 24) | ((b1 as u32) << 16) | ((b2 as u32) << 8) | (b3 as u32) == x)
        by (bit_vector)
        requires
            b0 == ((x >> 24) & 0xff) as u8,
            b1 == ((x >> 16) & 0xff) as u8,
            b2 == ((x >> 8) & 0xff) as u8,
            b3 == (x & 0xff) as u8,
    ;
    assert(s.skip(4) =~= rest);
}

/// Parsing a canonically encoded `u64` yields it back.
pub proof fn lemma_parse_u64_enc(x: u64, rest: Seq<u8>)
    ensures
        parse_u64(enc_u64(x) + rest) == Some((x, rest)),
{
    let s = enc_u64(x) + rest;
    let b0 = ((x >> 56) & 0xff) as u8;
    let b1 = ((x >> 48) & 0xff) as u8;
    let b2 = ((x >> 40) & 0xff) as u8;
    let b3 = ((x >> 32) & 0xff) as u8;
    let b4 = ((x >> 24) & 0xff) as u8;
    let b5 = ((x >> 16) & 0xff) as u8;
    let b6 = ((x >> 8) & 0xff) as u8;
    let b7 = (x & 0xff) as u8;
    assert(s[0] == b0 && s[1] == b1 && s[2] == b2 && s[3] == b3);
    assert(s[4] == b4 && s[5] == b5 && s[6] == b6 && s[7] == b7);
    assert(((b0 as u64) << 56) | ((b1 as u64) << 48) | ((b2 as u64) << 40) | ((b3 as u64) << 32)
        | ((b4 as u64) << 24) | ((b5 as u64) << 16) | ((b6 as u64) << 8) | (b7 as u64) == x)
        by (bit_vector)
        requires
            b0 == ((x >> 56) & 0xff) as u8,
            b1 == ((x >> 48) & 0xff) as u8,
            b2 == ((x >> 40) & 0xff) as u8,
            b3 == ((x >> 32) & 0xff) as u8,
            b4 == ((x >> 24) & 0xff) as u8,
            b5 == ((x >> 16) & 0xff) as u8,
            b6 == ((x >> 8) & 0xff) as u8,
            b7 == (x & 0xff) as u8,
    ;
    assert(s.skip(8) =~= rest);
}

/// Parsing a canonically encoded digest yields it back.
pub proof fn lemma_parse_digest_enc(d: Digest, rest: Seq<u8>)
    ensures
        parse_digest(enc_digest(d) + rest) == Some((d, rest)),
{
    let s = enc_digest(d) + rest;
    assert(s =~= enc_u64(d.q0) + (enc_u64(d.q1) + (enc_u64(d.q2) + (enc_u64(d.q3) + rest))));
    lemma_parse_u64_enc(d.q0, enc_u64(d.q1) + (enc_u64(d.q2) + (enc_u64(d.q3) + rest)));
    lemma_parse_u64_enc(d.q1, enc_u64(d.q2) + (enc_u64(d.q3) + rest));
    lemma_parse_u64_enc(d.q2, enc_u64(d.q3) + rest);
    lemma_parse_u64_enc(d.q3, rest);
}

// ---------------------------------------------------------------------------
// Executable readers over an absolute cursor.
// ---------------------------------------------------------------------------

/// Relates an executable read (value and new cursor position) to the
/// corresponding specification parser applied at the old position.
pub open spec fn reads_as<T>(
    bytes: Seq<u8>,
    pos: int,
    r: Option<(T, usize)>,
    parsed: Option<(T, Seq<u8>)>,
) -> bool {
    match r {
        Some((v, p2)) => {
            &&& parsed is Some
            &&& v == parsed->Some_0.0
            &&& pos <= p2 <= bytes.len()
            &&& bytes.skip(p2 as int) == parsed->Some_0.1
        },
        None => parsed is None,
    }
}

/// Reads one byte at `pos`.
pub fn read_u8(bytes: &Vec<u8>, pos: usize) -> (r: Option<(u8, usize)>)
    requires
        pos <= bytes.len(),
    ensures
        reads_as(bytes@, pos as int, r, parse_u8(bytes@.skip(pos as int))),
{
    if bytes.len() - pos >= 1 {
        let v = bytes[pos];
        proof {
            assert(bytes@.skip(pos as int)[0] == bytes@[pos as int]);
            assert(bytes@.skip(pos + 1) =~= bytes@.skip(pos as int).skip(1));
        }
        Some((v, pos + 1))
    } else {
        None
    }
}

/// Reads a big-endian `u32` at `pos`.
pub fn read_u32(bytes: &Vec<u8>, pos: usize) -> (r: Option<(u32, usize)>)
    requires
        pos <= bytes.len(),
    ensures
        reads_as(bytes@, pos as int, r, parse_u32(bytes@.skip(pos as int))),
{
    if bytes.len() - pos >= 4 {
        let v = ((bytes[pos] as u32) << 24) | ((bytes[pos + 1] as u32) << 16) | ((bytes[pos + 2]
            as u32) << 8) | (bytes[pos + 3] as u32);
        proof {
            let s = bytes@.skip(pos as int);
            assert(s[0] == bytes@[pos as int] && s[1] == bytes@[pos + 1] && s[2] == bytes@[pos + 2]
                && s[3] == bytes@[pos + 3]);
            assert(bytes@.skip(pos + 4) =~= s.skip(4));
        }
        Some((v, pos + 4))
    } else {
        None
    }
}

/// Reads a big-endian `u64` at `pos`.
pub fn read_u64(bytes: &Vec<u8>, pos: usize) -> (r: Option<(u64, usize)>)
    requires
        pos <= bytes.len(),
    ensures
        reads_as(bytes@, pos as int, r, parse_u64(bytes@.skip(pos as int))),
{
    if bytes.len() - pos >= 8 {
        let v = ((bytes[pos] as u64) << 56) | ((bytes[pos + 1] as u64) << 48) | ((bytes[pos + 2]
            as u64) << 40) | ((bytes[pos + 3] as u64) << 32) | ((bytes[pos + 4] as u64) << 24) | ((
        bytes[pos + 5] as u64) << 16) | ((bytes[pos + 6] as u64) << 8) | (bytes[pos + 7] as u64);
        proof {
            let s = bytes@.skip(pos as int);
            assert(s[0] == bytes@[pos as int] && s[1] == bytes@[pos + 1] && s[2] == bytes@[pos + 2]
                && s[3] == bytes@[pos + 3]);
            assert(s[4] == bytes@[pos + 4] && s[5] == bytes@[pos + 5] && s[6] == bytes@[pos + 6]
                && s[7] == bytes@[pos + 7]);
            assert(bytes@.skip(pos + 8) =~= s.skip(8));
        }
        Some((v, pos + 8))
    } else {
        None
    }
}

/// Reads a digest at `pos`.
pub fn read_digest(bytes: &Vec<u8>, pos: usize) -> (r: Option<(Digest, usize)>)
    requires
        pos <= bytes.len(),
    ensures
        reads_as(bytes@, pos as int, r, parse_digest(bytes@.skip(pos as int))),
{
    let (q0, pos) = match read_u64(bytes, pos) {
        Some(v) => v,
        None => {
            return None;
        },
    };
    let (q1, pos) = match read_u64(bytes, pos) {
        Some(v) => v,
        None => {
            return None;
        },
    };
    let (q2, pos) = match read_u64(bytes, pos) {
        Some(v) => v,
        None => {
            return None;
        },
    };
    let (q3, pos) = match read_u64(bytes, pos) {
        Some(v) => v,
        None => {
            return None;
        },
    };
    Some((Digest { q0, q1, q2, q3 }, pos))
}

// ---------------------------------------------------------------------------
// Length-prefixed byte blocks and strings.
// ---------------------------------------------------------------------------

/// Canonical encoding of a byte block: eight-byte length, then the bytes.
pub open spec fn enc_bytes(b: Seq<u8>) -> Seq<u8>
    recommends
        b.len() <= u64::MAX,
{
    enc_u64(b.len() as u64) + b
}

/// Canonical encoding of a character sequence: its UTF-8 bytes, length
/// prefixed.
pub open spec fn enc_str(s: Seq<char>) -> Seq<u8> {
    enc_bytes(vstd::utf8::encode_utf8(s))
}

/// Reads a length-prefixed byte block.
pub open spec fn parse_bytes(s: Seq<u8>) -> Option<(Seq<u8>, Seq<u8>)> {
    match parse_u64(s) {
        Some((n, s)) => if s.len() >= n {
            Some((s.take(n as int), s.skip(n as int)))
        } else {
            None
        },
        None => None,
    }
}

/// Reads a length-prefixed string; the bytes must be valid UTF-8.
pub open spec fn parse_str(s: Seq<u8>) -> Option<(Seq<char>, Seq<u8>)> {
    match parse_bytes(s) {
        Some((b, s)) => if vstd::utf8::valid_utf8(b) {
            Some((vstd::utf8::decode_utf8(b), s))
        } else {
            None
        },
        None => None,
    }
}

/// Parsing a canonically encoded byte block yields it back.
pub proof fn lemma_parse_bytes_enc(b: Seq<u8>, rest: Seq<u8>)
    requires
        b.len() <= u64::MAX,
    ensures
        parse_bytes(enc_bytes(b) + rest) == Some((b, rest)),
{
    let s = enc_bytes(b) + rest;
    assert(s =~= enc_u64(b.len() as u64) + (b + rest));
    lemma_parse_u64_enc(b.len() as u64, b + rest);
    assert((b + rest).take(b.len() as int) =~= b);
    assert((b + rest).skip(b.len() as int) =~= rest);
}

/// Parsing a canonically encoded string yields it back.
pub proof fn lemma_parse_str_enc(cs: Seq<char>, rest: Seq<u8>)
    requires
        vstd::utf8::encode_utf8(cs).len() <= u64::MAX,
    ensures
        parse_str(enc_str(cs) + rest) == Some((cs, rest)),
{
    lemma_parse_bytes_enc(vstd::utf8::encode_utf8(cs), rest);
    vstd::utf8::encode_utf8_valid_utf8(cs);
    vstd::utf8::encode_utf8_decode_utf8(cs);
}

/// Appends the canonical encoding of the byte block `b` to `out`.
pub fn write_bytes(out: &mut Vec<u8>, b: &Vec<u8>)
    ensures
        final(out)@ == old(out)@ + enc_bytes(b@),
{
    write_u64(out, b.len() as u64);
    out.extend_from_slice(b.as_slice());
    proof {
        assert(final(out)@ =~= old(out)@ + enc_bytes(b@));
    }
}

/// Appends the canonical encoding of the string `s` to `out`.
pub fn write_str(out: &mut Vec<u8>, s: &str)
    ensures
        final(out)@ == old(out)@ + enc_str(s@),
{
    let b = s.as_bytes_vec();
    write_bytes(out, &b);
}

/// Relies on `String::from_utf8` from std: it succeeds exactly when the
/// bytes are valid UTF-8, and then returns the characters they decode to.
#[verifier::external_body]
fn string_from_utf8(bytes: Vec<u8>) -> (r: Option<String>)
    ensures
        r is Some <==> vstd::utf8::valid_utf8(bytes@),
        r is Some ==> r->0@ == vstd::utf8::decode_utf8(bytes@),
{
    String::from_utf8(bytes).ok()
}

/// Reads a length-prefixed byte block at `pos`.
pub fn read_bytes(bytes: &Vec<u8>, pos: usize) -> (r: Option<(Vec<u8>, usize)>)
    requires
        pos <= bytes.len(),
    ensures
        match r {
            Some((v, p2)) => {
                &&& parse_bytes(bytes@.skip(pos as int)) is Some
                &&& v@ == parse_bytes(bytes@.skip(pos as int))->Some_0.0
                &&& pos <= p2 <= bytes.len()
                &&& bytes@.skip(p2 as int) == parse_bytes(bytes@.skip(pos as int))->Some_0.1
            },
            None => parse_bytes(bytes@.skip(pos as int)) is None,
        },
{
    let (n, pos) = match read_u64(bytes, pos) {
        Some(v) => v,
        None => {
            return None;
        },
    };
    if n > (bytes.len() - pos) as u64 {
        proof {
            assert(bytes@.skip(pos as int).len() < n);
        }
        return None;
    }
    let len = n as usize;
    let block = vstd::slice::slice_to_vec(
        vstd::slice::slice_subrange(bytes.as_slice(), pos, pos + len),
    );
    proof {
        let s = bytes@.skip(pos as int);
        assert(bytes@.subrange(pos as int, pos + len) =~= s.take(n as int));
        assert(bytes@.skip(pos + len) =~= s.skip(n as int));
    }
    Some((block, pos + len))
}

/// Reads a length-prefixed string at `pos`.
pub fn read_string(bytes: &Vec<u8>, pos: usize) -> (r: Option<(String, usize)>)
    requires
        pos <= bytes.len(),
    ensures
        match r {
            Some((v, p2)) => {
                &&& parse_str(bytes@.skip(pos as int)) is Some
                &&& v@ == parse_str(bytes@.skip(pos as int))->Some_0.0
                &&& pos <= p2 <= bytes.len()
                &&& bytes@.skip(p2 as int) == parse_str(bytes@.skip(pos as int))->Some_0.1
                &&& vstd::utf8::encode_utf8(v@).len() <= u64::MAX
            },
            None => parse_str(bytes@.skip(pos as int)) is None,
        },
{
    let (block, pos) = match read_bytes(bytes, pos) {
        Some(v) => v,
        None => {
            return None;
        },
    };
    let ghost bv = block@;
    let blen = block.len();
    match string_from_utf8(block) {
        Some(s) => {
            proof {
                vstd::utf8::decode_utf8_encode_utf8(bv);
                assert(vstd::utf8::encode_utf8(s@).len() == blen);
            }
            Some((s, pos))
        },
        None => None,
    }
}

// ---------------------------------------------------------------------------
// The content hash.
//
// Each of the digest's four limbs is a Fowler/Noll/Vo style fold over the
// encoded bytes, the lanes differing only in their seed.  The hash is a pure
// function of the bytes, which gives the determinism invariant of the store:
// equal content always produces an equal digest.
// ---------------------------------------------------------------------------

pub const HASH_PRIME: u64 = 0x100000001b3;

pub const HASH_SEED_0: u64 = 0xcbf29ce484222325;

pub const HASH_SEED_1: u64 = 0x84222325cbf29ce4;

pub const HASH_SEED_2: u64 = 0x9ce484222325cbf2;

pub const HASH_SEED_3: u64 = 0x25cbf29ce4842223;

/// One fold step: mix one byte into the lane state.
pub open spec fn lane_step(h: u64, b: u8) -> u64 {
    u64_specs::wrapping_mul(h ^ (b as u64), HASH_PRIME)
}

/// Folds a byte sequence into a lane state, left to right.
pub open spec fn lane_hash(s: Seq<u8>, h: u64) -> u64
    decreases s.len(),
{
    if s.len() == 0 {
        h
    } else {
        lane_hash(s.drop_first(), lane_step(h, s[0]))
    }
}

/// The digest of a byte sequence: four seeded lanes over the same bytes.
///
/// This fold is deterministic but not a cryptographic hash: nothing here
/// proves or assumes collision resistance, and content addressing rests on
/// distinct contents hashing apart in practice.  A deployment that needs
/// adversarial collision resistance should put a cryptographic digest
/// behind this same 256-bit interface.
pub open spec fn digest_of(s: Seq<u8>) -> Digest {
    Digest {
        q0: lane_hash(s, HASH_SEED_0),
        q1: lane_hash(s, HASH_SEED_1),
        q2: lane_hash(s, HASH_SEED_2),
        q3: lane_hash(s, HASH_SEED_3),
    }
}

/// Computes the digest of `bytes`.
pub fn hash_bytes(bytes: &Vec<u8>) -> (r: Digest)
    ensures
        r == digest_of(bytes@),
{
    let mut q0: u64 = HASH_SEED_0;
    let mut q1: u64 = HASH_SEED_1;
    let mut q2: u64 = HASH_SEED_2;
    let mut q3: u64 = HASH_SEED_3;
    let mut i: usize = 0;
    proof {
        assert(bytes@.skip(0) =~= bytes@);
    }
    while i < bytes.len()
        invariant
            i <= bytes.len(),
            lane_hash(bytes@, HASH_SEED_0) == lane_hash(bytes@.skip(i as int), q0),
            lane_hash(bytes@, HASH_SEED_1) == lane_hash(bytes@.skip(i as int), q1),
            lane_hash(bytes@, HASH_SEED_2) == lane_hash(bytes@.skip(i as int), q2),
            lane_hash(bytes@, HASH_SEED_3) == lane_hash(bytes@.skip(i as int), q3),
        decreases bytes.len() - i,
    {
        let b = bytes[i];
        proof {
            let s = bytes@.skip(i as int);
            assert(s[0] == bytes@[i as int]);
            assert(s.drop_first() =~= bytes@.skip(i + 1));
        }
        q0 = (q0 ^ (b as u64)).wrapping_mul(HASH_PRIME);
        q1 = (q1 ^ (b as u64)).wrapping_mul(HASH_PRIME);
        q2 = (q2 ^ (b as u64)).wrapping_mul(HASH_PRIME);
        q3 = (q3 ^ (b as u64)).wrapping_mul(HASH_PRIME);
        i = i + 1;
    }
    proof {
        assert(bytes@.skip(bytes@.len() as int) =~= Seq::<u8>::empty());
    }
    Digest { q0, q1, q2, q3 }
}

// ---------------------------------------------------------------------------
// Hexadecimal rendering of digests.
// ---------------------------------------------------------------------------

/// The lowercase hexadecimal character for a value below sixteen.
pub open spec fn hex_char(v: u8) -> char
    recommends
        v < 16,
{
    if v == 0 { '0' }
    else if v == 1 { '1' }
    else if v == 2 { '2' }
    else if v == 3 { '3' }
    else if v == 4 { '4' }
    else if v == 5 { '5' }
    else if v == 6 { '6' }
    else if v == 7 { '7' }
    else if v == 8 { '8' }
    else if v == 9 { '9' }
    else if v == 10 { 'a' }
    else if v == 11 { 'b' }
    else if v == 12 { 'c' }
    else if v == 13 { 'd' }
    else if v == 14 { 'e' }
    else { 'f' }
}

/// The value of a lowercase hexadecimal character, if it is one.
pub open spec fn hex_val(c: char) -> Option<u8> {
    if c == '0' { Some(0u8) }
    else if c == '1' { Some(1u8) }
    else if c == '2' { Some(2u8) }
    else if c == '3' { Some(3u8) }
    else if c == '4' { Some(4u8) }
    else if c == '5' { Some(5u8) }
    else if c == '6' { Some(6u8) }
    else if c == '7' { Some(7u8) }
    else if c == '8' { Some(8u8) }
    else if c == '9' { Some(9u8) }
    else if c == 'a' { Some(10u8) }
    else if c == 'b' { Some(11u8) }
    else if c == 'c' { Some(12u8) }
    else if c == 'd' { Some(13u8) }
    else if c == 'e' { Some(14u8) }
    else if c == 'f' { Some(15u8) }
    else { None }
}

/// Lowercase hexadecimal rendering of a byte sequence, two characters a byte.
pub open spec fn hex_of_bytes(s: Seq<u8>) -> Seq<char>
    decreases s.len(),
{
    if s.len() == 0 {
        Seq::<char>::empty()
    } else {
        seq![hex_char(((s[0] >> 4) & 0xf) as u8), hex_char((s[0] & 0xf) as u8)]
            + hex_of_bytes(s.drop_first())
    }
}

/// The bytes a hexadecimal character sequence denotes, if well formed.
pub open spec fn bytes_of_hex(s: Seq<char>) -> Option<Seq<u8>>
    decreases s.len(),
{
    if s.len() == 0 {
        Some(Seq::<u8>::empty())
    } else if s.len() == 1 {
        None
    } else {
        match (hex_val(s[0]), hex_val(s[1])) {
            (Some(hi), Some(lo)) => match bytes_of_hex(s.skip(2)) {
                Some(rest) => Some(seq![((hi * 16 + lo) as u8)] + rest),
                None => None,
            },
            _ => None,
        }
    }
}

/// A sequence of odd length is not a hexadecimal rendering.
proof fn lemma_bytes_of_hex_odd(s: Seq<char>)
    requires
        s.len() % 2 == 1,
    ensures
        bytes_of_hex(s) is None,
    decreases s.len(),
{
    if s.len() > 1 {
        lemma_bytes_of_hex_odd(s.skip(2));
    }
}

/// Reading back the hexadecimal rendering of any bytes yields those bytes.
pub proof fn lemma_bytes_hex_round_trip(s: Seq<u8>)
    ensures
        bytes_of_hex(hex_of_bytes(s)) == Some(s),
    decreases s.len(),
{
    assert forall|v: u8| v < 16 implies hex_val(hex_char(v)) == Some(v) by {};
    if s.len() == 0 {
        assert(bytes_of_hex(hex_of_bytes(s)) =~= Some(s));
    } else {
        let b = s[0];
        let hi = ((b >> 4) & 0xf) as u8;
        let lo = (b & 0xf) as u8;
        assert(hi < 16 && lo < 16 && hi * 16 + lo == b) by (bit_vector)
            requires
                hi == ((b >> 4) & 0xf) as u8,
                lo == (b & 0xf) as u8,
        ;
        let h = hex_of_bytes(s);
        assert(h.skip(2) =~= hex_of_bytes(s.drop_first()));
        lemma_bytes_hex_round_trip(s.drop_first());
        assert(seq![b] + s.drop_first() =~= s);
    }
}

/// A hexadecimal rendering holds two characters for each byte.
pub proof fn lemma_hex_of_bytes_len(s: Seq<u8>)
    ensures
        hex_of_bytes(s).len() == 2 * s.len(),
    decreases s.len(),
{
    if s.len() > 0 {
        lemma_hex_of_bytes_len(s.drop_first());
    }
}

/// A digest renders to exactly 64 hexadecimal characters.
pub proof fn lemma_digest_hex_enc_len(d: Digest)
    ensures
        hex_of_bytes(enc_digest(d)).len() == 64,
{
    lemma_hex_of_bytes_len(enc_digest(d));
}

/// The digest a 64-character hexadecimal string denotes, if well formed.
pub open spec fn digest_from_hex(s: Seq<char>) -> Option<Digest> {
    match bytes_of_hex(s) {
        Some(b) => match parse_digest(b) {
            Some((d, rest)) => if rest.len() == 0 {
                Some(d)
            } else {
                None
            },
            None => None,
        },
        None => None,
    }
}

/// Reading back a digest's hexadecimal rendering yields that digest.
pub proof fn lemma_digest_hex_round_trip(d: Digest)
    ensures
        digest_from_hex(hex_of_bytes(enc_digest(d))) == Some(d),
{
    lemma_bytes_hex_round_trip(enc_digest(d));
    assert(enc_digest(d) + Seq::<u8>::empty() =~= enc_digest(d));
    lemma_parse_digest_enc(d, Seq::<u8>::empty());
}

/// Appends the hexadecimal character for `v` to `out`.
fn push_hex(out: &mut String, v: u8)
    requires
        v < 16,
    ensures
        final(out)@ == old(out)@ + seq![hex_char(v)],
{
    if v == 0 { proof { reveal_strlit("0"); } out.append("0"); }
    else if v == 1 { proof { reveal_strlit("1"); } out.append("1"); }
    else if v == 2 { proof { reveal_strlit("2"); } out.append("2"); }
    else if v == 3 { proof { reveal_strlit("3"); } out.append("3"); }
    else if v == 4 { proof { reveal_strlit("4"); } out.append("4"); }
    else if v == 5 { proof { reveal_strlit("5"); } out.append("5"); }
    else if v == 6 { proof { reveal_strlit("6"); } out.append("6"); }
    else if v == 7 { proof { reveal_strlit("7"); } out.append("7"); }
    else if v == 8 { proof { reveal_strlit("8"); } out.append("8"); }
    else if v == 9 { proof { reveal_strlit("9"); } out.append("9"); }
    else if v == 10 { proof { reveal_strlit("a"); } out.append("a"); }
    else if v == 11 { proof { reveal_strlit("b"); } out.append("b"); }
    else if v == 12 { proof { reveal_strlit("c"); } out.append("c"); }
    else if v == 13 { proof { reveal_strlit("d"); } out.append("d"); }
    else if v == 14 { proof { reveal_strlit("e"); } out.append("e"); }
    else { proof { reveal_strlit("f"); } out.append("f"); }
    proof {
        assert(final(out)@ =~= old(out)@ + seq![hex_char(v)]);
    }
}

/// The value of a hexadecimal character, if it is one.
fn hex_val_of(c: char) -> (r: Option<u8>)
    ensures
        r == hex_val(c),
{
    if c == '0' { Some(0) }
    else if c == '1' { Some(1) }
    else if c == '2' { Some(2) }
    else if c == '3' { Some(3) }
    else if c == '4' { Some(4) }
    else if c == '5' { Some(5) }
    else if c == '6' { Some(6) }
    else if c == '7' { Some(7) }
    else if c == '8' { Some(8) }
    else if c == '9' { Some(9) }
    else if c == 'a' { Some(10) }
    else if c == 'b' { Some(11) }
    else if c == 'c' { Some(12) }
    else if c == 'd' { Some(13) }
    else if c == 'e' { Some(14) }
    else if c == 'f' { Some(15) }
    else { None }
}

impl Digest {
    /// The canonical textual form: 64 lowercase hexadecimal characters.
    pub fn to_hex(&self) -> (r: String)
        ensures
            r@ == hex_of_bytes(enc_digest(*self)),
    {
        let mut bytes: Vec<u8> = Vec::new();
        write_digest(&mut bytes, self);
        let ghost full = bytes@;
        let mut out = String::new();
        let mut i: usize = 0;
        proof {
            assert(bytes@.skip(0) =~= bytes@);
        }
        while i < bytes.len()
            invariant
                i <= bytes.len(),
                hex_of_bytes(bytes@) == out@ + hex_of_bytes(bytes@.skip(i as int)),
            decreases bytes.len() - i,
        {
            let b = bytes[i];
            proof {
                let s = bytes@.skip(i as int);
                assert(s[0] == bytes@[i as int]);
                assert(s.drop_first() =~= bytes@.skip(i + 1));
            }
            let hi = (b >> 4) & 0xf;
            let lo = b & 0xf;
            assert(hi < 16 && lo < 16) by (bit_vector)
                requires
                    hi == (b >> 4) & 0xf,
                    lo == b & 0xf,
            ;
            push_hex(&mut out, hi);
            push_hex(&mut out, lo);
            proof {
                assert(hex_of_bytes(bytes@) =~= out@ + hex_of_bytes(bytes@.skip(i + 1)));
            }
            i = i + 1;
        }
        proof {
            assert(bytes@.skip(bytes@.len() as int) =~= Seq::<u8>::empty());
            assert(out@ =~= hex_of_bytes(bytes@));
        }
        out
    }

    /// Reads a digest back from its hexadecimal rendering.
    pub fn from_hex(s: &str) -> (r: Option<Digest>)
        ensures
            r == digest_from_hex(s@),
    {
        let n = s.unicode_len();
        if n % 2 == 1 {
            proof {
                lemma_bytes_of_hex_odd(s@);
            }
            return None;
        }
        let mut bytes: Vec<u8> = Vec::new();
        let mut i: usize = 0;
        proof {
            assert(s@.skip(0) =~= s@);
        }
        while i < n
            invariant
                i <= n,
                n == s@.len(),
                n % 2 == 0,
                i % 2 == 0,
                forall|b2: Seq<u8>|
                    bytes_of_hex(s@.skip(i as int)) == Some(b2) ==> bytes_of_hex(s@) == Some(
                        bytes@ + b2,
                    ),
                bytes_of_hex(s@.skip(i as int)) is None ==> bytes_of_hex(s@) is None,
            decreases n - i,
        {
            let c0 = s.get_char(i);
            let c1 = s.get_char(i + 1);
            proof {
                let rem = s@.skip(i as int);
                assert(rem[0] == s@[i as int] && rem[1] == s@[i + 1]);
                assert(rem.skip(2) =~= s@.skip(i + 2));
            }
            let hi = match hex_val_of(c0) {
                Some(v) => v,
                None => {
                    return None;
                },
            };
            let lo = match hex_val_of(c1) {
                Some(v) => v,
                None => {
                    return None;
                },
            };
            let ghost prev = bytes@;
            bytes.push(hi * 16 + lo);
            proof {
                let rem = s@.skip(i as int);
                assert forall|b3: Seq<u8>|
                    bytes_of_hex(s@.skip(i + 2)) == Some(b3) implies bytes_of_hex(s@) == Some(
                    bytes@ + b3,
                ) by {
                    assert(bytes_of_hex(rem) == Some(seq![((hi * 16 + lo) as u8)] + b3));
                    assert(prev + (seq![((hi * 16 + lo) as u8)] + b3) =~= bytes@ + b3);
                }
            }
            i = i + 2;
        }
        proof {
            assert(s@.skip(n as int) =~= Seq::<char>::empty());
            assert(bytes@ + Seq::<u8>::empty() =~= bytes@);
            assert(bytes_of_hex(s@) == Some(bytes@));
        }
        match read_digest(&bytes, 0) {
            Some((d, p2)) => {
                proof {
                    assert(bytes@.skip(0) =~= bytes@);
                }
                if p2 == bytes.len() {
                    proof {
                        assert(bytes@.skip(p2 as int).len() == 0);
                    }
                    Some(d)
                } else {
                    proof {
                        assert(bytes@.skip(p2 as int).len() != 0);
                    }
                    None
                }
            },
            None => {
                proof {
                    assert(bytes@.skip(0) =~= bytes@);
                }
                None
            },
        }
    }
}

/// The digest of empty content.
pub open spec fn empty_digest_spec() -> Digest {
    digest_of(Seq::<u8>::empty())
}

/// Returns the digest of empty content.
pub fn empty_digest() -> (r: Digest)
    ensures
        r == empty_digest_spec(),
{
    let empty: Vec<u8> = Vec::new();
    hash_bytes(&empty)
}

} // verus!
