//! The request router: extracts the target URL from the query string of an
//! inbound proxy request and validates it, or rejects the request.
//!
//! The query string grammar is the form-urlencoded one: segments separated
//! by `&`, each split at its first `=` into a key and a value, both
//! percent-decoded (`+` stands for a space; an invalid percent escape is
//! kept literally).  The target is the value of the first segment whose
//! decoded key is `url`.  A target without an `http://` or `https://` scheme
//! is rejected: it could never be fetched, and an unparsable URL must never
//! reach the fetch state machine.

use vstd::prelude::*;

use crate::bytes_util::{bytes_eq, copy_range};

verus! {

/// Whether a byte is an ASCII hexadecimal digit.
pub open spec fn is_hex_digit(c: u8) -> bool {
    (48 <= c <= 57) || (65 <= c <= 70) || (97 <= c <= 102)
}

/// The value of an ASCII hexadecimal digit.
pub open spec fn hex_val(c: u8) -> u8 {
    if 48 <= c <= 57 {
        (c - 48) as u8
    } else if 65 <= c <= 70 {
        (c - 55) as u8
    } else if 97 <= c <= 102 {
        (c - 87) as u8
    } else {
        0
    }
}

fn hex_digit(c: u8) -> (r: bool)
    ensures
        r == is_hex_digit(c),
{
    (48 <= c && c <= 57) || (65 <= c && c <= 70) || (97 <= c && c <= 102)
}

fn hex_value(c: u8) -> (r: u8)
    ensures
        r == hex_val(c),
        r <= 15,
{
    if 48 <= c && c <= 57 {
        c - 48
    } else if 65 <= c && c <= 70 {
        c - 55
    } else if 97 <= c && c <= 102 {
        c - 87
    } else {
        0
    }
}

/// The percent-decoding of a byte sequence: `+` becomes a space, `%xy` with
/// two hexadecimal digits becomes one byte, anything else stays itself.
pub open spec fn pct_decoded(s: Seq<u8>) -> Seq<u8>
    decreases s.len(),
{
    if s.len() == 0 {
        Seq::empty()
    } else if s[0] == 43 {
        seq![32u8] + pct_decoded(s.skip(1))
    } else if s[0] == 37 && s.len() >= 3 && is_hex_digit(s[1]) && is_hex_digit(s[2]) {
        seq![(hex_val(s[1]) * 16 + hex_val(s[2])) as u8] + pct_decoded(s.skip(3))
    } else {
        seq![s[0]] + pct_decoded(s.skip(1))
    }
}

/// Percent-decodes a byte vector.
pub fn pct_decode(s: &Vec<u8>) -> (r: Vec<u8>)
    ensures
        r@ == pct_decoded(s@),
{
    let mut out: Vec<u8> = Vec::new();
    let mut i: usize = 0;
    proof {
        assert(s@.skip(0) =~= s@);
        assert(pct_decoded(s@) =~= out@ + pct_decoded(s@.skip(0)));
    }
    while i < s.len()
        invariant
            0 <= i <= s@.len(),
            pct_decoded(s@) == out@ + pct_decoded(s@.skip(i as int)),
        decreases s@.len() - i,
    {
        let ghost rest = s@.skip(i as int);
        proof {
            assert(rest[0] == s@[i as int]);
            assert(rest.len() == s@.len() - i);
            if rest.len() >= 3 {
                assert(rest[1] == s@[i + 1]);
                assert(rest[2] == s@[i + 2]);
                assert(rest.skip(3) =~= s@.skip(i + 3));
            }
            assert(rest.skip(1) =~= s@.skip(i + 1));
        }
        let c = s[i];
        let ghost before = out@;
        if c == 43 {
            out.push(32);
            proof {
                assert(out@ =~= before + seq![32u8]);
                assert(before + (seq![32u8] + pct_decoded(s@.skip(i + 1))) =~= (before + seq![32u8])
                    + pct_decoded(s@.skip(i + 1)));
            }
            i = i + 1;
        } else if c == 37 && s.len() - i > 2 && hex_digit(s[i + 1]) && hex_digit(s[i + 2]) {
            let d: u8 = hex_value(s[i + 1]) * 16 + hex_value(s[i + 2]);
            out.push(d);
            proof {
                assert(d == (hex_val(s@[i + 1]) * 16 + hex_val(s@[i + 2])) as u8);
                assert(out@ =~= before + seq![d]);
                assert(before + (seq![d] + pct_decoded(s@.skip(i + 3))) =~= (before + seq![d])
                    + pct_decoded(s@.skip(i + 3)));
            }
            i = i + 3;
        } else {
            out.push(c);
            proof {
                assert(out@ =~= before + seq![c]);
                assert(before + (seq![c] + pct_decoded(s@.skip(i + 1))) =~= (before + seq![c])
                    + pct_decoded(s@.skip(i + 1)));
            }
            i = i + 1;
        }
    }
    proof {
        assert(s@.skip(s@.len() as int) =~= Seq::<u8>::empty());
        assert(pct_decoded(Seq::<u8>::empty()) == Seq::<u8>::empty());
        assert(pct_decoded(s@) =~= out@);
    }
    out
}

/// The position of the first occurrence of `b` at or after `from`, or the
/// length of `s` when there is none.
pub open spec fn find_from(s: Seq<u8>, from: int, b: u8) -> int
    decreases s.len() - from,
{
    if from < 0 || from >= s.len() {
        s.len() as int
    } else if s[from] == b {
        from
    } else {
        find_from(s, from + 1, b)
    }
}

pub broadcast proof fn lemma_find_from_bounds(s: Seq<u8>, from: int, b: u8)
    requires
        0 <= from <= s.len(),
    ensures
        from <= #[trigger] find_from(s, from, b) <= s.len(),
    decreases s.len() - from,
{
    if from < s.len() && s[from] != b {
        lemma_find_from_bounds(s, from + 1, b);
    }
}

fn find_byte_from(q: &Vec<u8>, from: usize, b: u8) -> (r: usize)
    requires
        from <= q@.len(),
    ensures
        r == find_from(q@, from as int, b),
        from <= r <= q@.len(),
        r < q@.len() ==> q@[r as int] == b,
{
    let mut i: usize = from;
    while i < q.len()
        invariant
            from <= i <= q@.len(),
            find_from(q@, from as int, b) == find_from(q@, i as int, b),
        decreases q@.len() - i,
    {
        if q[i] == b {
            return i;
        }
        i = i + 1;
    }
    i
}

/// The bytes of the query key `url`.
pub open spec fn url_key() -> Seq<u8> {
    seq![117u8, 114u8, 108u8]
}

fn url_key_bytes() -> (r: Vec<u8>)
    ensures
        r@ == url_key(),
{
    let mut v: Vec<u8> = Vec::new();
    v.push(117);
    v.push(114);
    v.push(108);
    proof {
        assert(v@ =~= url_key());
    }
    v
}

/// The decoded value of the first `url` parameter of the query, searched
/// from segment start `from`.
pub open spec fn url_param(q: Seq<u8>, from: int) -> Option<Seq<u8>>
    decreases q.len() - from,
    via url_param_decreases
{
    if !(0 <= from < q.len()) {
        None
    } else {
        let e = find_from(q, from, 38);
        let seg = q.subrange(from, e);
        let eq = find_from(seg, 0, 61);
        let key = seg.take(eq);
        let value = if eq < seg.len() {
            seg.skip(eq + 1)
        } else {
            Seq::<u8>::empty()
        };
        if pct_decoded(key) == url_key() {
            Some(pct_decoded(value))
        } else if e >= q.len() {
            None
        } else {
            url_param(q, e + 1)
        }
    }
}

#[via_fn]
proof fn url_param_decreases(q: Seq<u8>, from: int) {
    if 0 <= from < q.len() {
        lemma_find_from_bounds(q, from, 38);
    }
}

/// Finds the decoded value of the first `url` parameter of a query string.
pub fn find_url_param(q: &Vec<u8>) -> (r: Option<Vec<u8>>)
    ensures
        match r {
            Some(v) => url_param(q@, 0) == Some(v@),
            None => url_param(q@, 0) is None,
        },
{
    let mut from: usize = 0;
    while from < q.len()
        invariant
            0 <= from <= q@.len() + 1,
            url_param(q@, 0) == url_param(q@, from as int),
        decreases q@.len() - from,
    {
        let e = find_byte_from(q, from, 38);
        let seg = copy_range(q, from, e);
        let eq = find_byte_from(&seg, 0, 61);
        let key_raw = copy_range(&seg, 0, eq);
        let value_raw = if eq < seg.len() {
            copy_range(&seg, eq + 1, seg.len())
        } else {
            Vec::new()
        };
        let key = pct_decode(&key_raw);
        let uk = url_key_bytes();
        proof {
            assert(seg@.take(eq as int) =~= seg@.subrange(0, eq as int));
            if eq < seg@.len() {
                assert(seg@.skip(eq + 1) =~= seg@.subrange(eq + 1, seg@.len() as int));
            }
            assert(value_raw@ == if eq < seg@.len() {
                seg@.skip(eq + 1)
            } else {
                Seq::<u8>::empty()
            });
        }
        if bytes_eq(&key, &uk) {
            let v = pct_decode(&value_raw);
            return Some(v);
        }
        if e >= q.len() {
            return None;
        }
        proof {
            assert(url_param(q@, from as int) == url_param(q@, e + 1));
        }
        from = e + 1;
    }
    None
}

/// The bytes of `http://`.
pub open spec fn http_prefix() -> Seq<u8> {
    seq![104u8, 116u8, 116u8, 112u8, 58u8, 47u8, 47u8]
}

/// The bytes of `https://`.
pub open spec fn https_prefix() -> Seq<u8> {
    seq![104u8, 116u8, 116u8, 112u8, 115u8, 58u8, 47u8, 47u8]
}

/// Whether a target URL carries a scheme the proxy can fetch: `http://` or
/// `https://` followed by at least one byte.
pub open spec fn has_supported_scheme(u: Seq<u8>) -> bool {
    (u.len() > 7 && u.take(7) == http_prefix()) || (u.len() > 8 && u.take(8) == https_prefix())
}

fn http_prefix_bytes() -> (r: Vec<u8>)
    ensures
        r@ == http_prefix(),
{
    let mut v: Vec<u8> = Vec::new();
    v.push(104);
    v.push(116);
    v.push(116);
    v.push(112);
    v.push(58);
    v.push(47);
    v.push(47);
    proof {
        assert(v@ =~= http_prefix());
    }
    v
}

fn https_prefix_bytes() -> (r: Vec<u8>)
    ensures
        r@ == https_prefix(),
{
    let mut v: Vec<u8> = Vec::new();
    v.push(104);
    v.push(116);
    v.push(116);
    v.push(112);
    v.push(115);
    v.push(58);
    v.push(47);
    v.push(47);
    proof {
        assert(v@ =~= https_prefix());
    }
    v
}

/// Checks whether a target URL could be fetched at all.
pub fn url_is_fetchable(u: &Vec<u8>) -> (r: bool)
    ensures
        r == has_supported_scheme(u@),
{
    if u.len() > 7 {
        proof {
            assert(u@.take(7) =~= u@.subrange(0, 7));
        }
        let head7 = copy_range(u, 0, 7);
        let http = http_prefix_bytes();
        if bytes_eq(&head7, &http) {
            return true;
        }
        if u.len() > 8 {
            proof {
                assert(u@.take(8) =~= u@.subrange(0, 8));
            }
            let head8 = copy_range(u, 0, 8);
            let https = https_prefix_bytes();
            if bytes_eq(&head8, &https) {
                return true;
            }
        }
        return false;
    }
    false
}

/// What the router decides for one inbound request.
#[derive(Debug, PartialEq, Eq)]
pub enum RouteDecision {
    /// Respond with a client error (an empty 400): the query is missing, has
    /// no `url` parameter, or names a target that could never be fetched.
    Reject,
    /// Hand the contained canonical URL to the fetch-or-serve orchestrator.
    Fetch(Vec<u8>),
}

/// What the router decides, at the model level: the validated target URL, or
/// nothing when the request must be rejected.
pub open spec fn route_spec(q: Option<Seq<u8>>) -> Option<Seq<u8>> {
    match q {
        Option::None => None,
        Option::Some(qs) => match url_param(qs, 0) {
            Option::None => None,
            Option::Some(u) => if has_supported_scheme(u) {
                Some(u)
            } else {
                None
            },
        },
    }
}

/// Routes one inbound proxy request from its query string, if it had one.
/// A rejected request is answered with an empty client-error response and
/// never reaches the cache or the origin.
pub fn route(query: Option<&Vec<u8>>) -> (r: RouteDecision)
    ensures
        query matches Some(q) ==> (match r {
            RouteDecision::Fetch(u) => route_spec(Some(q@)) == Some(u@),
            RouteDecision::Reject => route_spec(Some(q@)) is None,
        }),
        query is None ==> r == RouteDecision::Reject,
{
    match query {
        None => RouteDecision::Reject,
        Some(q) => match find_url_param(q) {
            None => RouteDecision::Reject,
            Some(u) => if url_is_fetchable(&u) {
                RouteDecision::Fetch(u)
            } else {
                RouteDecision::Reject
            },
        },
    }
}

} // verus!
