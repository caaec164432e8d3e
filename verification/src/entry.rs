//! The cached response: its mathematical model, the builder that captures an
//! origin response, and the serving transformation that recomputes the
//! content-length header for the body actually streamed.
//!
//! A cache key is the exact byte string of the canonical URL; no
//! normalization is applied.  Headers are an ordered multimap, kept exactly
//! as received: a sequence of (name, raw value) pairs, duplicates and name
//! case preserved.

use vstd::prelude::*;

use crate::bytes_util::{
    bytes_eq_ignore_ascii_case, copy_bytes, eq_ignore_ascii_case, spec_dec_digits, u64_to_dec,
};

verus! {

/// Mathematical model of a cached response.
#[verifier::ext_equal]
pub struct EntryModel {
    pub url: Seq<u8>,
    pub status: u16,
    pub headers: Seq<(Seq<u8>, Seq<u8>)>,
    pub body: Seq<u8>,
}

impl EntryModel {
    /// Every component is small enough for a 64-bit length prefix.
    pub open spec fn wf(self) -> bool {
        &&& self.url.len() <= u64::MAX
        &&& self.body.len() <= u64::MAX
        &&& self.headers.len() <= u64::MAX
        &&& forall|i: int|
            0 <= i < self.headers.len() ==> (#[trigger] self.headers[i]).0.len() <= u64::MAX
                && self.headers[i].1.len() <= u64::MAX
    }
}

/// The model of a list of header pairs.
pub open spec fn pairs_view(v: Vec<(Vec<u8>, Vec<u8>)>) -> Seq<(Seq<u8>, Seq<u8>)> {
    Seq::new(v@.len(), |i: int| (v@[i].0@, v@[i].1@))
}

/// A response captured from the origin, exactly as received.  It is
/// immutable after construction: a later fetch for the same key replaces the
/// whole entry, never updates it.
#[derive(Debug, PartialEq, Eq)]
pub struct CachedResponse {
    pub url: Vec<u8>,
    pub status: u16,
    pub headers: Vec<(Vec<u8>, Vec<u8>)>,
    pub body: Vec<u8>,
}

impl View for CachedResponse {
    type V = EntryModel;

    open spec fn view(&self) -> EntryModel {
        EntryModel {
            url: self.url@,
            status: self.status,
            headers: pairs_view(self.headers),
            body: self.body@,
        }
    }
}

/// Copies a list of header pairs.
fn copy_pairs(v: &Vec<(Vec<u8>, Vec<u8>)>) -> (r: Vec<(Vec<u8>, Vec<u8>)>)
    ensures
        pairs_view(r) == pairs_view(*v),
{
    let mut out: Vec<(Vec<u8>, Vec<u8>)> = Vec::new();
    let mut i: usize = 0;
    while i < v.len()
        invariant
            0 <= i <= v@.len(),
            out@.len() == i,
            forall|j: int|
                0 <= j < i ==> (#[trigger] out@[j]).0@ == v@[j].0@ && out@[j].1@ == v@[j].1@,
        decreases v@.len() - i,
    {
        let name = copy_bytes(&v[i].0);
        let value = copy_bytes(&v[i].1);
        out.push((name, value));
        i = i + 1;
    }
    proof {
        assert(pairs_view(out) =~= pairs_view(*v));
    }
    out
}

impl CachedResponse {
    /// The canonical key this entry was fetched for.
    pub fn url(&self) -> (r: &Vec<u8>)
        ensures
            r@ == self@.url,
    {
        &self.url
    }

    /// The captured status code.
    pub fn status(&self) -> (r: u16)
        ensures
            r == self@.status,
    {
        self.status
    }

    /// The captured headers, exactly as received.
    pub fn headers(&self) -> (r: &Vec<(Vec<u8>, Vec<u8>)>)
        ensures
            pairs_view(*r) == self@.headers,
    {
        &self.headers
    }

    /// The captured body bytes.
    pub fn body(&self) -> (r: &Vec<u8>)
        ensures
            r@ == self@.body,
    {
        &self.body
    }

    /// An owned copy of the entry.
    pub fn duplicate(&self) -> (r: CachedResponse)
        ensures
            r@ == self@,
    {
        let r = CachedResponse {
            url: copy_bytes(&self.url),
            status: self.status,
            headers: copy_pairs(&self.headers),
            body: copy_bytes(&self.body),
        };
        proof {
            assert(r@ =~= self@);
        }
        r
    }

    /// Turns the entry into the parts of the response to stream to a client:
    /// the stored status and headers, with the content-length header
    /// recomputed for the byte count actually being streamed.
    pub fn into_response(self) -> (r: ResponseParts)
        ensures
            r.status == self@.status,
            pairs_view(r.headers) == spec_response_headers(self@),
            r.body@ == self@.body,
    {
        let ghost m = self@;
        let CachedResponse { url: _, status, headers, body } = self;
        let mut out: Vec<(Vec<u8>, Vec<u8>)> = Vec::new();
        let mut i: usize = 0;
        proof {
            assert(m.headers.skip(0) =~= m.headers);
            assert(kept_headers(m.headers) =~= pairs_view(out) + kept_headers(m.headers.skip(0)));
        }
        while i < headers.len()
            invariant
                0 <= i <= headers@.len(),
                pairs_view(headers) == m.headers,
                kept_headers(m.headers) == pairs_view(out) + kept_headers(m.headers.skip(i as int)),
            decreases headers@.len() - i,
        {
            let ghost rest = m.headers.skip(i as int);
            proof {
                assert(rest[0] == m.headers[i as int]);
                assert(rest.skip(1) =~= m.headers.skip(i + 1));
            }
            let cl = content_length_name();
            if !bytes_eq_ignore_ascii_case(&headers[i].0, &cl) {
                let name = copy_bytes(&headers[i].0);
                let value = copy_bytes(&headers[i].1);
                let ghost old_out = pairs_view(out);
                out.push((name, value));
                proof {
                    assert(pairs_view(out) =~= old_out.push(m.headers[i as int]));
                    assert(old_out.push(m.headers[i as int]) + kept_headers(m.headers.skip(i + 1))
                        =~= old_out + (seq![m.headers[i as int]] + kept_headers(
                        m.headers.skip(i + 1),
                    )));
                }
            }
            i = i + 1;
        }
        proof {
            assert(m.headers.skip(m.headers.len() as int) =~= Seq::<(Seq<u8>, Seq<u8>)>::empty());
            assert(kept_headers(m.headers) =~= pairs_view(out));
        }
        let cl_name = content_length_name();
        let cl_value = u64_to_dec(body.len() as u64);
        let ghost before_cl = pairs_view(out);
        out.push((cl_name, cl_value));
        proof {
            assert(body@.len() as u64 as nat == m.body.len());
            assert(pairs_view(out) =~= before_cl.push(
                (spec_content_length_name(), spec_dec_digits(m.body.len())),
            ));
        }
        ResponseParts { status, headers: out, body }
    }
}

/// The parts a client response is assembled from: mirrored status and
/// headers, and the body to stream.
pub struct ResponseParts {
    pub status: u16,
    pub headers: Vec<(Vec<u8>, Vec<u8>)>,
    pub body: Vec<u8>,
}

/// The bytes of the header name `content-length`.
pub open spec fn spec_content_length_name() -> Seq<u8> {
    seq![99u8, 111u8, 110u8, 116u8, 101u8, 110u8, 116u8, 45u8, 108u8, 101u8, 110u8, 103u8, 116u8, 104u8]
}

/// Builds the header name `content-length`.
pub fn content_length_name() -> (r: Vec<u8>)
    ensures
        r@ == spec_content_length_name(),
{
    let mut v: Vec<u8> = Vec::new();
    v.push(99);
    v.push(111);
    v.push(110);
    v.push(116);
    v.push(101);
    v.push(110);
    v.push(116);
    v.push(45);
    v.push(108);
    v.push(101);
    v.push(110);
    v.push(103);
    v.push(116);
    v.push(104);
    proof {
        assert(v@ =~= spec_content_length_name());
    }
    v
}

/// Whether a header name is content-length, compared ASCII-case-insensitively.
pub open spec fn is_content_length_name(name: Seq<u8>) -> bool {
    eq_ignore_ascii_case(name, spec_content_length_name())
}

/// The stored headers with every content-length removed.
pub open spec fn kept_headers(hs: Seq<(Seq<u8>, Seq<u8>)>) -> Seq<(Seq<u8>, Seq<u8>)>
    decreases hs.len(),
{
    if hs.len() == 0 {
        Seq::empty()
    } else if is_content_length_name(hs[0].0) {
        kept_headers(hs.skip(1))
    } else {
        seq![hs[0]] + kept_headers(hs.skip(1))
    }
}

/// The headers served for an entry: the stored ones minus any content-length,
/// plus a content-length recomputed from the stored body.
pub open spec fn spec_response_headers(m: EntryModel) -> Seq<(Seq<u8>, Seq<u8>)> {
    kept_headers(m.headers).push((spec_content_length_name(), spec_dec_digits(m.body.len())))
}

/// Accumulates an origin response while it is streamed to the client: the
/// status and headers are captured once, when they arrive, and body bytes are
/// appended as each forwarded chunk is observed.
pub struct CachedResponseBuilder {
    pub url: Vec<u8>,
    pub status: u16,
    pub headers: Vec<(Vec<u8>, Vec<u8>)>,
    pub body: Vec<u8>,
}

impl View for CachedResponseBuilder {
    type V = EntryModel;

    open spec fn view(&self) -> EntryModel {
        EntryModel {
            url: self.url@,
            status: self.status,
            headers: pairs_view(self.headers),
            body: self.body@,
        }
    }
}

impl CachedResponseBuilder {
    /// Starts a capture for `url` with the origin's status code.
    pub fn new(url: Vec<u8>, status: u16) -> (r: CachedResponseBuilder)
        ensures
            r@ == (EntryModel {
                url: url@,
                status: status,
                headers: Seq::empty(),
                body: Seq::empty(),
            }),
    {
        let r = CachedResponseBuilder { url, status, headers: Vec::new(), body: Vec::new() };
        proof {
            assert(r@ =~= (EntryModel {
                url: r.url@,
                status: status,
                headers: Seq::empty(),
                body: Seq::empty(),
            }));
        }
        r
    }

    /// Replaces the captured body wholesale.
    pub fn with_body(self, body: Vec<u8>) -> (r: CachedResponseBuilder)
        ensures
            r@ == (EntryModel { body: body@, ..self@ }),
    {
        let r = CachedResponseBuilder { url: self.url, status: self.status, headers: self.headers, body };
        proof {
            assert(r@ =~= (EntryModel { body: r.body@, ..self@ }));
        }
        r
    }

    /// Captures the origin's headers, exactly as received.
    pub fn with_headers(self, headers: Vec<(Vec<u8>, Vec<u8>)>) -> (r: CachedResponseBuilder)
        ensures
            r@ == (EntryModel { headers: pairs_view(headers), ..self@ }),
    {
        let r = CachedResponseBuilder { url: self.url, status: self.status, headers, body: self.body };
        proof {
            assert(r@ =~= (EntryModel { headers: pairs_view(r.headers), ..self@ }));
        }
        r
    }

    /// Appends one forwarded body chunk to the capture.
    pub fn append_body_chunk(&mut self, chunk: &Vec<u8>)
        ensures
            final(self)@ == (EntryModel { body: old(self)@.body + chunk@, ..old(self)@ }),
    {
        crate::bytes_util::append_bytes(&mut self.body, chunk);
        proof {
            assert(self@ =~= (EntryModel { body: old(self)@.body + chunk@, ..old(self)@ }));
        }
    }

    /// Finishes the capture.  Called only after the body has fully drained.
    pub fn build(self) -> (r: CachedResponse)
        ensures
            r@ == self@,
    {
        let r = CachedResponse {
            url: self.url,
            status: self.status,
            headers: self.headers,
            body: self.body,
        };
        proof {
            assert(r@ =~= self@);
        }
        r
    }
}

} // verus!
