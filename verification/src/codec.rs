//! The cache entry codec: a pure, self-describing byte representation of a
//! cached response, with a verified round trip.
//!
//! Layout: a three-byte format tag, the status code (two bytes, little
//! endian), the URL as a length-prefixed chunk, the header count (eight
//! bytes, little endian) followed by one length-prefixed chunk per header
//! name and value, and finally the body as a length-prefixed chunk.
//! Decoding fails with a distinguishable error when the tag mismatches, when
//! the input is truncated, or when bytes trail the encoding; it never
//! substitutes data.

use vstd::prelude::*;

use crate::bytes_util::{append_bytes, copy_range};
use crate::entry::{pairs_view, CachedResponse, EntryModel};

verus! {

pub const TAG0: u8 = 0x54;

pub const TAG1: u8 = 0x43;

pub const FORMAT_VERSION: u8 = 1;

/// The three bytes every encoding starts with.
pub open spec fn tag_bytes() -> Seq<u8> {
    seq![TAG0, TAG1, FORMAT_VERSION]
}

/// Little-endian bytes of a 16-bit integer.
pub open spec fn u16_le(n: u16) -> Seq<u8> {
    seq![(n & 0xff) as u8, ((n >> 8) & 0xff) as u8]
}

/// Little-endian bytes of a 64-bit integer.
pub open spec fn u64_le(n: u64) -> Seq<u8> {
    seq![
        (n & 0xff) as u8,
        ((n >> 8) & 0xff) as u8,
        ((n >> 16) & 0xff) as u8,
        ((n >> 24) & 0xff) as u8,
        ((n >> 32) & 0xff) as u8,
        ((n >> 40) & 0xff) as u8,
        ((n >> 48) & 0xff) as u8,
        ((n >> 56) & 0xff) as u8,
    ]
}

/// A length-prefixed chunk.
pub open spec fn chunk_enc(b: Seq<u8>) -> Seq<u8> {
    u64_le(b.len() as u64) + b
}

/// The encoding of a sequence of header pairs: one chunk per name and value.
pub open spec fn pairs_enc(hs: Seq<(Seq<u8>, Seq<u8>)>) -> Seq<u8>
    decreases hs.len(),
{
    if hs.len() == 0 {
        Seq::empty()
    } else {
        chunk_enc(hs[0].0) + chunk_enc(hs[0].1) + pairs_enc(hs.skip(1))
    }
}

/// The full encoding of an entry model.
pub open spec fn spec_encode(m: EntryModel) -> Seq<u8> {
    tag_bytes() + u16_le(m.status) + chunk_enc(m.url) + u64_le(m.headers.len() as u64) + pairs_enc(
        m.headers,
    ) + chunk_enc(m.body)
}

/// Whether `bytes` is the encoding of the well-formed model `m`.
pub open spec fn encodes(bytes: Seq<u8>, m: EntryModel) -> bool {
    m.wf() && bytes == spec_encode(m)
}

proof fn lemma_u16_le_inj(a: u16, b: u16)
    requires
        u16_le(a) == u16_le(b),
    ensures
        a == b,
{
    assert(u16_le(a)[0] == u16_le(b)[0]);
    assert(u16_le(a)[1] == u16_le(b)[1]);
    assert(a == b) by (bit_vector)
        requires
            (a & 0xff) as u8 == (b & 0xff) as u8 && ((a >> 8) & 0xff) as u8 == ((b >> 8)
                & 0xff) as u8,
    ;
}

proof fn lemma_u64_le_inj(a: u64, b: u64)
    requires
        u64_le(a) == u64_le(b),
    ensures
        a == b,
{
    assert(u64_le(a)[0] == u64_le(b)[0]);
    assert(u64_le(a)[1] == u64_le(b)[1]);
    assert(u64_le(a)[2] == u64_le(b)[2]);
    assert(u64_le(a)[3] == u64_le(b)[3]);
    assert(u64_le(a)[4] == u64_le(b)[4]);
    assert(u64_le(a)[5] == u64_le(b)[5]);
    assert(u64_le(a)[6] == u64_le(b)[6]);
    assert(u64_le(a)[7] == u64_le(b)[7]);
    assert(a == b) by (bit_vector)
        requires
            (a & 0xff) as u8 == (b & 0xff) as u8 && ((a >> 8) & 0xff) as u8 == ((b >> 8)
                & 0xff) as u8 && ((a >> 16) & 0xff) as u8 == ((b >> 16) & 0xff) as u8 && ((a >> 24)
                & 0xff) as u8 == ((b >> 24) & 0xff) as u8 && ((a >> 32) & 0xff) as u8 == ((b >> 32)
                & 0xff) as u8 && ((a >> 40) & 0xff) as u8 == ((b >> 40) & 0xff) as u8 && ((a >> 48)
                & 0xff) as u8 == ((b >> 48) & 0xff) as u8 && ((a >> 56) & 0xff) as u8 == ((b >> 56)
                & 0xff) as u8,
    ;
}

/// Two chunks read at the same position of the same sequence are the same.
proof fn lemma_chunk_same_start(s: Seq<u8>, p: int, a: Seq<u8>, b: Seq<u8>)
    requires
        a.len() <= u64::MAX,
        b.len() <= u64::MAX,
        0 <= p,
        p + 8 + a.len() <= s.len(),
        p + 8 + b.len() <= s.len(),
        s.subrange(p, p + 8 + a.len()) == chunk_enc(a),
        s.subrange(p, p + 8 + b.len()) == chunk_enc(b),
    ensures
        a == b,
{
    assert(s.subrange(p, p + 8) =~= chunk_enc(a).subrange(0, 8));
    assert(s.subrange(p, p + 8) =~= chunk_enc(b).subrange(0, 8));
    assert(chunk_enc(a).subrange(0, 8) =~= u64_le(a.len() as u64));
    assert(chunk_enc(b).subrange(0, 8) =~= u64_le(b.len() as u64));
    lemma_u64_le_inj(a.len() as u64, b.len() as u64);
    assert(a.len() == b.len());
    assert(a =~= b) by {
        assert(forall|i: int|
            0 <= i < a.len() ==> a[i] == chunk_enc(a)[8 + i] && b[i] == chunk_enc(b)[8 + i]);
    }
}

proof fn lemma_pairs_enc_snoc(s: Seq<(Seq<u8>, Seq<u8>)>, p: (Seq<u8>, Seq<u8>))
    ensures
        pairs_enc(s.push(p)) == pairs_enc(s) + chunk_enc(p.0) + chunk_enc(p.1),
    decreases s.len(),
{
    if s.len() == 0 {
        assert(s.push(p)[0] == p);
        assert(s.push(p).skip(1) =~= Seq::<(Seq<u8>, Seq<u8>)>::empty());
        assert(pairs_enc(Seq::<(Seq<u8>, Seq<u8>)>::empty()) == Seq::<u8>::empty());
        assert(s =~= Seq::<(Seq<u8>, Seq<u8>)>::empty());
        assert(pairs_enc(s.push(p)) =~= pairs_enc(s) + chunk_enc(p.0) + chunk_enc(p.1));
    } else {
        assert(s.push(p)[0] == s[0]);
        assert(s.push(p).skip(1) =~= s.skip(1).push(p));
        lemma_pairs_enc_snoc(s.skip(1), p);
        assert(pairs_enc(s.push(p)) == chunk_enc(s[0].0) + chunk_enc(s[0].1) + pairs_enc(
            s.push(p).skip(1),
        ));
        assert(pairs_enc(s.push(p)) =~= pairs_enc(s) + chunk_enc(p.0) + chunk_enc(p.1));
    }
}

proof fn lemma_pairs_enc_skip_unfold(s: Seq<(Seq<u8>, Seq<u8>)>, i: int)
    requires
        0 <= i < s.len(),
    ensures
        pairs_enc(s.skip(i)) == chunk_enc(s[i].0) + chunk_enc(s[i].1) + pairs_enc(s.skip(i + 1)),
{
    assert(s.skip(i)[0] == s[i]);
    assert(s.skip(i).skip(1) =~= s.skip(i + 1));
}

proof fn lemma_pairs_enc_split(s: Seq<(Seq<u8>, Seq<u8>)>, i: int)
    requires
        0 <= i <= s.len(),
    ensures
        pairs_enc(s) == pairs_enc(s.take(i)) + pairs_enc(s.skip(i)),
    decreases i,
{
    if i == 0 {
        assert(s.take(0) =~= Seq::<(Seq<u8>, Seq<u8>)>::empty());
        assert(s.skip(0) =~= s);
        assert(pairs_enc(s) =~= pairs_enc(s.take(0)) + pairs_enc(s.skip(0)));
    } else {
        lemma_pairs_enc_split(s, i - 1);
        lemma_pairs_enc_skip_unfold(s, i - 1);
        assert(s.take(i) =~= s.take(i - 1).push(s[i - 1]));
        lemma_pairs_enc_snoc(s.take(i - 1), s[i - 1]);
        assert(pairs_enc(s.take(i)) =~= pairs_enc(s.take(i - 1)) + chunk_enc(s[i - 1].0)
            + chunk_enc(s[i - 1].1));
        assert(pairs_enc(s.take(i)) + pairs_enc(s.skip(i)) =~= pairs_enc(s.take(i - 1)) + (
        chunk_enc(s[i - 1].0) + chunk_enc(s[i - 1].1) + pairs_enc(s.skip(i))));
        assert(pairs_enc(s) =~= pairs_enc(s.take(i)) + pairs_enc(s.skip(i)));
    }
}

/// Where each part of an encoding lies.
proof fn lemma_spec_encode_parts(m: EntryModel)
    requires
        m.wf(),
    ensures
        spec_encode(m).len() == 29 + m.url.len() + pairs_enc(m.headers).len() + m.body.len(),
        spec_encode(m).subrange(0, 3) == tag_bytes(),
        spec_encode(m).subrange(3, 5) == u16_le(m.status),
        spec_encode(m).subrange(5, 13 + m.url.len() as int) == chunk_enc(m.url),
        spec_encode(m).subrange(
            13 + m.url.len() as int,
            21 + m.url.len() as int,
        ) == u64_le(m.headers.len() as u64),
        spec_encode(m).subrange(
            21 + m.url.len() as int,
            21 + m.url.len() as int + pairs_enc(m.headers).len() as int,
        ) == pairs_enc(m.headers),
        spec_encode(m).subrange(
            21 + m.url.len() as int + pairs_enc(m.headers).len() as int,
            spec_encode(m).len() as int,
        ) == chunk_enc(m.body),
{
    assert(spec_encode(m).len() == 29 + m.url.len() + pairs_enc(m.headers).len() + m.body.len());
    assert(spec_encode(m).subrange(0, 3) =~= tag_bytes());
    assert(spec_encode(m).subrange(3, 5) =~= u16_le(m.status));
    assert(spec_encode(m).subrange(5, 13 + m.url.len() as int) =~= chunk_enc(m.url));
    assert(spec_encode(m).subrange(13 + m.url.len() as int, 21 + m.url.len() as int) =~= u64_le(
        m.headers.len() as u64,
    ));
    assert(spec_encode(m).subrange(
        21 + m.url.len() as int,
        21 + m.url.len() as int + pairs_enc(m.headers).len() as int,
    ) =~= pairs_enc(m.headers));
    assert(spec_encode(m).subrange(
        21 + m.url.len() as int + pairs_enc(m.headers).len() as int,
        spec_encode(m).len() as int,
    ) =~= chunk_enc(m.body));
}

fn push_u16_le(out: &mut Vec<u8>, n: u16)
    ensures
        final(out)@ == old(out)@ + u16_le(n),
{
    proof {
        assert(n & 0xff <= 0xff && (n >> 8) & 0xff <= 0xff) by (bit_vector);
    }
    out.push((n & 0xff) as u8);
    out.push(((n >> 8) & 0xff) as u8);
    proof {
        assert(out@ =~= old(out)@ + u16_le(n));
    }
}

fn push_u64_le(out: &mut Vec<u8>, n: u64)
    ensures
        final(out)@ == old(out)@ + u64_le(n),
{
    proof {
        assert(n & 0xff <= 0xff && (n >> 8) & 0xff <= 0xff && (n >> 16) & 0xff <= 0xff && (n >> 24)
            & 0xff <= 0xff && (n >> 32) & 0xff <= 0xff && (n >> 40) & 0xff <= 0xff && (n >> 48)
            & 0xff <= 0xff && (n >> 56) & 0xff <= 0xff) by (bit_vector);
    }
    out.push((n & 0xff) as u8);
    out.push(((n >> 8) & 0xff) as u8);
    out.push(((n >> 16) & 0xff) as u8);
    out.push(((n >> 24) & 0xff) as u8);
    out.push(((n >> 32) & 0xff) as u8);
    out.push(((n >> 40) & 0xff) as u8);
    out.push(((n >> 48) & 0xff) as u8);
    out.push(((n >> 56) & 0xff) as u8);
    proof {
        assert(out@ =~= old(out)@ + u64_le(n));
    }
}

fn push_chunk(out: &mut Vec<u8>, b: &Vec<u8>)
    ensures
        final(out)@ == old(out)@ + chunk_enc(b@),
        b@.len() <= u64::MAX,
{
    let len: u64 = b.len() as u64;
    push_u64_le(out, len);
    append_bytes(out, b);
    proof {
        assert(b@.len() as u64 == len);
        assert((old(out)@ + u64_le(len)) + b@ =~= old(out)@ + chunk_enc(b@));
    }
}

/// Encodes an entry into its byte representation.
pub fn encode(e: &CachedResponse) -> (r: Vec<u8>)
    ensures
        r@ == spec_encode(e@),
        e@.wf(),
{
    let ghost m = e@;
    let mut out: Vec<u8> = Vec::new();
    out.push(TAG0);
    out.push(TAG1);
    out.push(FORMAT_VERSION);
    proof {
        assert(out@ =~= tag_bytes());
    }
    push_u16_le(&mut out, e.status);
    push_chunk(&mut out, &e.url);
    let hcount: u64 = e.headers.len() as u64;
    push_u64_le(&mut out, hcount);
    let ghost prefix = out@;
    let mut i: usize = 0;
    proof {
        assert(m.headers.skip(0) =~= m.headers);
        assert(out@ + pairs_enc(m.headers.skip(0)) =~= prefix + pairs_enc(m.headers));
    }
    while i < e.headers.len()
        invariant
            0 <= i <= e.headers@.len(),
            pairs_view(e.headers) == m.headers,
            m.headers.len() == e.headers@.len(),
            out@ + pairs_enc(m.headers.skip(i as int)) == prefix + pairs_enc(m.headers),
            forall|j: int|
                0 <= j < i ==> (#[trigger] m.headers[j]).0.len() <= u64::MAX && m.headers[j].1.len()
                    <= u64::MAX,
        decreases e.headers@.len() - i,
    {
        let ghost before = out@;
        proof {
            lemma_pairs_enc_skip_unfold(m.headers, i as int);
        }
        push_chunk(&mut out, &e.headers[i].0);
        push_chunk(&mut out, &e.headers[i].1);
        proof {
            assert(m.headers[i as int].0 == e.headers@[i as int].0@);
            assert(m.headers[i as int].1 == e.headers@[i as int].1@);
            assert(out@ =~= before + chunk_enc(m.headers[i as int].0) + chunk_enc(
                m.headers[i as int].1,
            ));
            assert(out@ + pairs_enc(m.headers.skip(i + 1)) =~= before + pairs_enc(
                m.headers.skip(i as int),
            ));
        }
        i = i + 1;
    }
    proof {
        assert(m.headers.skip(m.headers.len() as int) =~= Seq::<(Seq<u8>, Seq<u8>)>::empty());
        assert(out@ =~= prefix + pairs_enc(m.headers));
    }
    push_chunk(&mut out, &e.body);
    proof {
        assert(m.headers.len() as u64 == hcount);
        assert(out@ =~= spec_encode(m));
    }
    out
}

/// There is a length-prefixed chunk holding exactly `c` at position `p`.
pub open spec fn chunk_prefix_at(s: Seq<u8>, p: int, c: Seq<u8>) -> bool {
    &&& 0 <= p
    &&& p + 8 + c.len() <= s.len()
    &&& s.subrange(p, p + 8 + c.len()) == chunk_enc(c)
}

fn read_u16_at(bytes: &Vec<u8>, pos: usize) -> (r: Option<(u16, usize)>)
    requires
        pos <= bytes@.len(),
    ensures
        match r {
            Some(v) => v.1 == pos + 2 && v.1 <= bytes@.len() && bytes@.subrange(
                pos as int,
                v.1 as int,
            ) == u16_le(v.0),
            None => bytes@.len() < pos + 2,
        },
{
    if bytes.len() - pos < 2 {
        return None;
    }
    let b0 = bytes[pos];
    let b1 = bytes[pos + 1];
    let n: u16 = (b0 as u16) | ((b1 as u16) << 8);
    proof {
        assert((n & 0xff) as u8 == b0 && ((n >> 8) & 0xff) as u8 == b1) by (bit_vector)
            requires
                n == (b0 as u16) | ((b1 as u16) << 8),
        ;
        assert(bytes@.subrange(pos as int, pos + 2) =~= u16_le(n));
    }
    Some((n, pos + 2))
}

fn read_u64_at(bytes: &Vec<u8>, pos: usize) -> (r: Option<(u64, usize)>)
    requires
        pos <= bytes@.len(),
    ensures
        match r {
            Some(v) => v.1 == pos + 8 && v.1 <= bytes@.len() && bytes@.subrange(
                pos as int,
                v.1 as int,
            ) == u64_le(v.0),
            None => bytes@.len() < pos + 8,
        },
{
    if bytes.len() - pos < 8 {
        return None;
    }
    let b0 = bytes[pos];
    let b1 = bytes[pos + 1];
    let b2 = bytes[pos + 2];
    let b3 = bytes[pos + 3];
    let b4 = bytes[pos + 4];
    let b5 = bytes[pos + 5];
    let b6 = bytes[pos + 6];
    let b7 = bytes[pos + 7];
    let n: u64 = (b0 as u64) | ((b1 as u64) << 8) | ((b2 as u64) << 16) | ((b3 as u64) << 24) | (
    (b4 as u64) << 32) | ((b5 as u64) << 40) | ((b6 as u64) << 48) | ((b7 as u64) << 56);
    proof {
        assert((n & 0xff) as u8 == b0 && ((n >> 8) & 0xff) as u8 == b1 && ((n >> 16)
            & 0xff) as u8 == b2 && ((n >> 24) & 0xff) as u8 == b3 && ((n >> 32) & 0xff) as u8 == b4
            && ((n >> 40) & 0xff) as u8 == b5 && ((n >> 48) & 0xff) as u8 == b6 && ((n >> 56)
            & 0xff) as u8 == b7) by (bit_vector)
            requires
                n == (b0 as u64) | ((b1 as u64) << 8) | ((b2 as u64) << 16) | ((b3 as u64) << 24)
                    | ((b4 as u64) << 32) | ((b5 as u64) << 40) | ((b6 as u64) << 48) | ((
                b7 as u64) << 56),
        ;
        assert(bytes@.subrange(pos as int, pos + 8) =~= u64_le(n));
    }
    Some((n, pos + 8))
}

fn read_chunk(bytes: &Vec<u8>, pos: usize) -> (r: Option<(Vec<u8>, usize)>)
    requires
        pos <= bytes@.len(),
    ensures
        match r {
            Some(v) => pos + 8 + v.0@.len() == v.1 && v.1 <= bytes@.len() && v.0@.len() <= u64::MAX
                && bytes@.subrange(pos as int, v.1 as int) == chunk_enc(v.0@),
            None => forall|c: Seq<u8>|
                c.len() <= u64::MAX ==> !chunk_prefix_at(bytes@, pos as int, c),
        },
{
    let (n, p1) = match read_u64_at(bytes, pos) {
        Some(x) => x,
        None => {
            proof {
                assert forall|c: Seq<u8>| c.len() <= u64::MAX implies !chunk_prefix_at(
                    bytes@,
                    pos as int,
                    c,
                ) by {
                    assert(bytes@.len() < pos + 8);
                }
            }
            return None;
        },
    };
    let remaining: usize = bytes.len() - p1;
    if (remaining as u64) < n {
        proof {
            assert forall|c: Seq<u8>| c.len() <= u64::MAX implies !chunk_prefix_at(
                bytes@,
                pos as int,
                c,
            ) by {
                if chunk_prefix_at(bytes@, pos as int, c) {
                    assert(bytes@.subrange(pos as int, pos + 8) =~= chunk_enc(c).subrange(0, 8));
                    assert(chunk_enc(c).subrange(0, 8) =~= u64_le(c.len() as u64));
                    lemma_u64_le_inj(c.len() as u64, n);
                    assert(c.len() == n);
                    assert(false);
                }
            }
        }
        return None;
    }
    let count: usize = n as usize;
    let v = copy_range(bytes, p1, p1 + count);
    proof {
        assert(v@.len() as u64 == n);
        assert(bytes@.subrange(pos as int, (p1 + count) as int) =~= u64_le(n) + v@);
        assert(u64_le(n) + v@ =~= chunk_enc(v@));
    }
    Some((v, p1 + count))
}

/// Inside an encoding, once the first `i` header pairs have been read, the
/// next name and value chunks of the model lie exactly at the read position.
proof fn lemma_pair_alignment(bytes: Seq<u8>, m: EntryModel, i: int, p_hc: int, pos: int)
    requires
        encodes(bytes, m),
        0 <= i < m.headers.len(),
        p_hc == 21 + m.url.len(),
        p_hc <= pos <= bytes.len(),
        bytes.subrange(p_hc, pos) == pairs_enc(m.headers.take(i)),
    ensures
        pos == p_hc + pairs_enc(m.headers.take(i)).len(),
        chunk_prefix_at(bytes, pos, m.headers[i].0),
        chunk_prefix_at(bytes, pos + 8 + m.headers[i].0.len(), m.headers[i].1),
{
    lemma_spec_encode_parts(m);
    lemma_pairs_enc_split(m.headers, i);
    lemma_pairs_enc_skip_unfold(m.headers, i);
    let ep = pairs_enc(m.headers);
    let done = pairs_enc(m.headers.take(i));
    let c0 = chunk_enc(m.headers[i].0);
    let c1 = chunk_enc(m.headers[i].1);
    let rest = pairs_enc(m.headers.skip(i + 1));
    assert(ep == done + (c0 + c1 + rest));
    assert(pos - p_hc == done.len());
    assert(bytes.subrange(p_hc, p_hc + ep.len()) == ep);
    assert(pos + c0.len() + c1.len() + rest.len() == p_hc + ep.len());
    assert(bytes.subrange(pos, pos + c0.len()) =~= c0) by {
        assert(forall|k: int|
            0 <= k < c0.len() ==> bytes[pos + k] == ep[pos - p_hc + k] && ep[pos - p_hc + k]
                == c0[k]);
    }
    assert(bytes.subrange(pos + c0.len(), pos + c0.len() + c1.len()) =~= c1) by {
        assert(forall|k: int|
            0 <= k < c1.len() ==> bytes[pos + c0.len() + k] == ep[pos - p_hc + c0.len() + k]
                && ep[pos - p_hc + c0.len() + k] == c1[k]);
    }
}

/// The error decode fails with: the input is cut short, carries the wrong
/// format tag, or continues past the end of the encoding.
#[derive(Debug, PartialEq, Eq)]
pub enum DecodeError {
    Truncated,
    BadTag,
    TrailingBytes,
}

/// Decodes a byte representation back into the entry it encodes.
///
/// The second postcondition is the round-trip law: whenever `bytes` is the
/// encoding of a well-formed entry, decoding returns exactly that entry.
#[verifier::rlimit(100)]
pub fn decode(bytes: &Vec<u8>) -> (r: Result<CachedResponse, DecodeError>)
    ensures
        r matches Ok(e) ==> encodes(bytes@, e@),
        forall|m: EntryModel| encodes(bytes@, m) ==> (r matches Ok(e) && e@ == m),
        (r matches Err(err) && err == DecodeError::BadTag) <==> (bytes@.len() >= 3
            && bytes@.subrange(0, 3) != tag_bytes()),
{
    if bytes.len() < 3 {
        proof {
            assert forall|m: EntryModel| !encodes(bytes@, m) by {
                if encodes(bytes@, m) {
                    lemma_spec_encode_parts(m);
                }
            }
        }
        return Err(DecodeError::Truncated);
    }
    if !(bytes[0] == TAG0 && bytes[1] == TAG1 && bytes[2] == FORMAT_VERSION) {
        proof {
            assert(bytes@.subrange(0, 3)[0] == bytes@[0] && bytes@.subrange(0, 3)[1] == bytes@[1]
                && bytes@.subrange(0, 3)[2] == bytes@[2]);
            assert(tag_bytes()[0] == TAG0 && tag_bytes()[1] == TAG1 && tag_bytes()[2]
                == FORMAT_VERSION);
            assert(bytes@.subrange(0, 3) != tag_bytes());
            assert forall|m: EntryModel| !encodes(bytes@, m) by {
                if encodes(bytes@, m) {
                    lemma_spec_encode_parts(m);
                }
            }
        }
        return Err(DecodeError::BadTag);
    }
    proof {
        assert(bytes@.subrange(0, 3) =~= tag_bytes());
    }
    let (status, _p_status) = match read_u16_at(bytes, 3) {
        Some(x) => x,
        None => {
            proof {
                assert forall|m: EntryModel| !encodes(bytes@, m) by {
                    if encodes(bytes@, m) {
                        lemma_spec_encode_parts(m);
                    }
                }
            }
            return Err(DecodeError::Truncated);
        },
    };
    let (url_v, p_url) = match read_chunk(bytes, 5) {
        Some(x) => x,
        None => {
            proof {
                assert forall|m: EntryModel| !encodes(bytes@, m) by {
                    if encodes(bytes@, m) {
                        lemma_spec_encode_parts(m);
                        assert(chunk_prefix_at(bytes@, 5, m.url));
                        assert(false);
                    }
                }
            }
            return Err(DecodeError::Truncated);
        },
    };
    proof {
        assert forall|m: EntryModel| encodes(bytes@, m) implies m.status == status && m.url
            == url_v@ by {
            lemma_spec_encode_parts(m);
            lemma_u16_le_inj(m.status, status);
            lemma_chunk_same_start(bytes@, 5, m.url, url_v@);
        }
    }
    let (hcount, p_hc) = match read_u64_at(bytes, p_url) {
        Some(x) => x,
        None => {
            proof {
                assert forall|m: EntryModel| !encodes(bytes@, m) by {
                    if encodes(bytes@, m) {
                        lemma_spec_encode_parts(m);
                        assert(p_url == 13 + m.url.len());
                        assert(bytes@.len() >= p_url + 8);
                        assert(false);
                    }
                }
            }
            return Err(DecodeError::Truncated);
        },
    };
    proof {
        assert forall|m: EntryModel| encodes(bytes@, m) implies m.headers.len()
            == hcount as nat by {
            lemma_spec_encode_parts(m);
            assert(p_url == 13 + m.url.len());
            assert(bytes@.subrange(p_url as int, p_hc as int) == u64_le(m.headers.len() as u64));
            lemma_u64_le_inj(m.headers.len() as u64, hcount);
        }
    }
    let mut parsed: Vec<(Vec<u8>, Vec<u8>)> = Vec::new();
    let mut pos: usize = p_hc;
    let mut i: u64 = 0;
    proof {
        assert(pairs_view(parsed) =~= Seq::<(Seq<u8>, Seq<u8>)>::empty());
        assert(pairs_enc(Seq::<(Seq<u8>, Seq<u8>)>::empty()) == Seq::<u8>::empty());
        assert(bytes@.subrange(p_hc as int, pos as int) =~= pairs_enc(pairs_view(parsed)));
    }
    while i < hcount
        invariant
            0 <= i <= hcount,
            parsed@.len() == i,
            p_hc <= pos <= bytes@.len(),
            url_v@.len() <= u64::MAX,
            p_url == 13 + url_v@.len(),
            p_hc == p_url + 8,
            5 <= p_url < p_hc <= bytes@.len(),
            bytes@.subrange(0, 3) == tag_bytes(),
            bytes@.subrange(3, 5) == u16_le(status),
            bytes@.subrange(5, p_url as int) == chunk_enc(url_v@),
            bytes@.subrange(p_url as int, p_hc as int) == u64_le(hcount),
            bytes@.subrange(p_hc as int, pos as int) == pairs_enc(pairs_view(parsed)),
            forall|j: int|
                0 <= j < parsed@.len() ==> (#[trigger] pairs_view(parsed)[j]).0.len() <= u64::MAX
                    && pairs_view(parsed)[j].1.len() <= u64::MAX,
            forall|m: EntryModel| #![trigger encodes(bytes@, m)]
                encodes(bytes@, m) ==> m.status == status && m.url == url_v@ && m.headers.len()
                    == hcount as nat && m.headers.take(i as int) == pairs_view(parsed),
        decreases hcount - i,
    {
        let ghost prev = pairs_view(parsed);
        let ghost iold = i as int;
        let (name_v, p_a) = match read_chunk(bytes, pos) {
            Some(x) => x,
            None => {
                proof {
                    assert forall|m: EntryModel| !encodes(bytes@, m) by {
                        if encodes(bytes@, m) {
                            assert(m.headers.take(i as int) == prev);
                            lemma_pair_alignment(bytes@, m, i as int, p_hc as int, pos as int);
                            assert(false);
                        }
                    }
                }
                return Err(DecodeError::Truncated);
            },
        };
        let (val_v, p_b) = match read_chunk(bytes, p_a) {
            Some(x) => x,
            None => {
                proof {
                    assert forall|m: EntryModel| !encodes(bytes@, m) by {
                        if encodes(bytes@, m) {
                            assert(m.headers.take(i as int) == prev);
                            lemma_pair_alignment(bytes@, m, i as int, p_hc as int, pos as int);
                            lemma_chunk_same_start(bytes@, pos as int, m.headers[i as int].0, name_v@);
                            assert(chunk_prefix_at(bytes@, p_a as int, m.headers[i as int].1));
                            assert(false);
                        }
                    }
                }
                return Err(DecodeError::Truncated);
            },
        };
        proof {
            assert forall|m: EntryModel| #![trigger encodes(bytes@, m)]
                encodes(bytes@, m) implies (m.status == status && m.url == url_v@
                && m.headers.len() == hcount as nat && m.headers.take(iold + 1) == prev.push(
                (name_v@, val_v@),
            )) by {
                assert(m.headers.take(iold) == prev);
                lemma_pair_alignment(bytes@, m, iold, p_hc as int, pos as int);
                lemma_chunk_same_start(bytes@, pos as int, m.headers[iold].0, name_v@);
                lemma_chunk_same_start(bytes@, p_a as int, m.headers[iold].1, val_v@);
                assert(m.headers[iold] =~~= (name_v@, val_v@));
                assert(m.headers.take(iold + 1) =~~= prev.push((name_v@, val_v@)));
            }
            lemma_pairs_enc_snoc(prev, (name_v@, val_v@));
            assert(bytes@.subrange(p_hc as int, p_b as int) =~= pairs_enc(prev) + (chunk_enc(
                name_v@,
            ) + chunk_enc(val_v@)));
            assert(pairs_enc(prev.push((name_v@, val_v@))) =~= pairs_enc(prev) + (chunk_enc(
                name_v@,
            ) + chunk_enc(val_v@)));
        }
        parsed.push((name_v, val_v));
        pos = p_b;
        i = i + 1;
        proof {
            assert(pairs_view(parsed) =~~= prev.push((name_v@, val_v@)));
            assert forall|m: EntryModel| #![trigger encodes(bytes@, m)]
                encodes(bytes@, m) implies (m.status == status && m.url == url_v@
                && m.headers.len() == hcount as nat && m.headers.take(i as int) == pairs_view(
                parsed,
            )) by {
                assert(m.headers.take(iold + 1) == prev.push((name_v@, val_v@)));
                assert(i as int == iold + 1);
            }
        }
    }
    proof {
        assert forall|m: EntryModel| encodes(bytes@, m) implies m.headers == pairs_view(parsed) by {
            assert(m.headers.take(i as int) == pairs_view(parsed));
            assert(m.headers.take(m.headers.len() as int) =~= m.headers);
        }
    }
    let (body_v, p_end) = match read_chunk(bytes, pos) {
        Some(x) => x,
        None => {
            proof {
                assert forall|m: EntryModel| !encodes(bytes@, m) by {
                    if encodes(bytes@, m) {
                        lemma_spec_encode_parts(m);
                        lemma_pairs_enc_split(m.headers, m.headers.len() as int);
                        assert(m.headers.take(m.headers.len() as int) =~= m.headers);
                        assert(m.headers.skip(m.headers.len() as int) =~= Seq::<
                            (Seq<u8>, Seq<u8>),
                        >::empty());
                        assert(pairs_enc(Seq::<(Seq<u8>, Seq<u8>)>::empty()) == Seq::<u8>::empty());
                        assert(pos == 21 + m.url.len() + pairs_enc(m.headers).len());
                        assert(chunk_prefix_at(bytes@, pos as int, m.body));
                        assert(false);
                    }
                }
            }
            return Err(DecodeError::Truncated);
        },
    };
    proof {
        assert forall|m: EntryModel| encodes(bytes@, m) implies m.body == body_v@ && bytes@.len()
            == p_end by {
            lemma_spec_encode_parts(m);
            assert(pos == 21 + m.url.len() + pairs_enc(m.headers).len());
            assert(bytes@.subrange(pos as int, pos + 8 + m.body.len()) == chunk_enc(m.body));
            lemma_chunk_same_start(bytes@, pos as int, m.body, body_v@);
        }
    }
    if p_end != bytes.len() {
        proof {
            assert forall|m: EntryModel| !encodes(bytes@, m) by {
                if encodes(bytes@, m) {
                    assert(false);
                }
            }
        }
        return Err(DecodeError::TrailingBytes);
    }
    let e = CachedResponse { url: url_v, status, headers: parsed, body: body_v };
    proof {
        assert(e@.wf());
        assert(e@.headers.len() as u64 == hcount);
        assert(bytes@ =~= bytes@.subrange(0, 3) + bytes@.subrange(3, 5) + bytes@.subrange(
            5,
            p_url as int,
        ) + bytes@.subrange(p_url as int, p_hc as int) + bytes@.subrange(p_hc as int, pos as int)
            + bytes@.subrange(pos as int, p_end as int));
        assert(bytes@ == spec_encode(e@));
        assert forall|m: EntryModel| encodes(bytes@, m) implies m == e@ by {
            assert(m =~~= e@);
        }
    }
    Ok(e)
}

/// Fail-closed read of a stored encoding: a corrupt entry reads as absent,
/// so a lookup treats it as a miss instead of serving damaged bytes.
pub fn decode_cached(bytes: &Vec<u8>) -> (r: Option<CachedResponse>)
    ensures
        r matches Some(e) ==> encodes(bytes@, e@),
        forall|m: EntryModel| encodes(bytes@, m) ==> (r matches Some(e) && e@ == m),
{
    match decode(bytes) {
        Ok(e) => Some(e),
        Err(_) => None,
    }
}

#[verifier::rlimit(100)]
proof fn lemma_headers_agree(b: Seq<u8>, m1: EntryModel, m2: EntryModel, i: int, pos: int)
    requires
        encodes(b, m1),
        encodes(b, m2),
        m1.url == m2.url,
        m1.headers.len() == m2.headers.len(),
        0 <= i <= m1.headers.len(),
        m1.headers.take(i) == m2.headers.take(i),
        21 + m1.url.len() <= pos <= b.len(),
        b.subrange(21 + m1.url.len() as int, pos) == pairs_enc(m1.headers.take(i)),
    ensures
        m1.headers == m2.headers,
    decreases m1.headers.len() - i,
{
    let p_hc = 21 + m1.url.len() as int;
    if i < m1.headers.len() {
        lemma_pair_alignment(b, m1, i, p_hc, pos);
        lemma_pair_alignment(b, m2, i, p_hc, pos);
        lemma_chunk_same_start(b, pos, m1.headers[i].0, m2.headers[i].0);
        lemma_chunk_same_start(
            b,
            pos + 8 + m1.headers[i].0.len(),
            m1.headers[i].1,
            m2.headers[i].1,
        );
        assert(m1.headers[i] =~~= m2.headers[i]);
        assert(m1.headers.take(i + 1) =~~= m2.headers.take(i + 1));
        let c0 = chunk_enc(m1.headers[i].0);
        let c1 = chunk_enc(m1.headers[i].1);
        let pos2 = pos + c0.len() + c1.len();
        lemma_pairs_enc_snoc(m1.headers.take(i), m1.headers[i]);
        assert(m1.headers.take(i + 1) =~= m1.headers.take(i).push(m1.headers[i]));
        assert(b.subrange(p_hc, pos2) =~= pairs_enc(m1.headers.take(i)) + c0 + c1);
        lemma_headers_agree(b, m1, m2, i + 1, pos2);
    } else {
        assert(m1.headers.take(i) =~= m1.headers);
        assert(m2.headers.take(i) =~= m2.headers);
    }
}

/// An encoding pins down exactly one entry: two well-formed entries with the
/// same byte representation are the same entry.  Together with the contracts
/// of `encode` and `decode`, this is the round-trip law at the model level.
pub proof fn lemma_encode_injective(m1: EntryModel, m2: EntryModel)
    requires
        m1.wf(),
        m2.wf(),
        spec_encode(m1) == spec_encode(m2),
    ensures
        m1 == m2,
{
    let b = spec_encode(m1);
    lemma_spec_encode_parts(m1);
    lemma_spec_encode_parts(m2);
    lemma_u16_le_inj(m1.status, m2.status);
    lemma_chunk_same_start(b, 5, m1.url, m2.url);
    assert(b.subrange(13 + m1.url.len() as int, 21 + m1.url.len() as int) == u64_le(
        m1.headers.len() as u64,
    ));
    assert(b.subrange(13 + m2.url.len() as int, 21 + m2.url.len() as int) == u64_le(
        m2.headers.len() as u64,
    ));
    lemma_u64_le_inj(m1.headers.len() as u64, m2.headers.len() as u64);
    assert(m1.headers.take(0) =~= m2.headers.take(0));
    assert(pairs_enc(m1.headers.take(0)) == Seq::<u8>::empty()) by {
        assert(m1.headers.take(0) =~= Seq::<(Seq<u8>, Seq<u8>)>::empty());
        assert(pairs_enc(Seq::<(Seq<u8>, Seq<u8>)>::empty()) == Seq::<u8>::empty());
    }
    assert(b.subrange(21 + m1.url.len() as int, 21 + m1.url.len() as int) =~= Seq::<u8>::empty());
    lemma_headers_agree(b, m1, m2, 0, 21 + m1.url.len() as int);
    let pos_b = 21 + m1.url.len() + pairs_enc(m1.headers).len();
    assert(b.subrange(pos_b as int, b.len() as int) == chunk_enc(m1.body));
    assert(b.subrange(pos_b as int, b.len() as int) == chunk_enc(m2.body));
    assert(b.subrange(pos_b as int, pos_b as int + 8 + m1.body.len()) == chunk_enc(m1.body));
    assert(b.subrange(pos_b as int, pos_b as int + 8 + m2.body.len()) == chunk_enc(m2.body));
    lemma_chunk_same_start(b, pos_b as int, m1.body, m2.body);
    assert(m1 =~= m2);
}

} // verus!
