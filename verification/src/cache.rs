//! The outbound HTTP micro-cache: a content-addressed read-through
//! cache on every guest-originated call.
//!
//! The request's `cache-control: max-age=N` directive opts a call in;
//! without it the cache is bypassed entirely.  A cached response is
//! returned with a cache-hit marker appended; a miss goes upstream,
//! and the response is cleaned of forbidden headers, given an `etag`
//! equal to the fingerprint, and written back with the requested TTL.
//! A single-flight table keeps at most one upstream fetch per
//! fingerprint in flight.

use vstd::prelude::*;
use crate::bytestr::{
    all_digits, dec_value, eq_bytes, lit_bytes, pair_views, parse_u64_dec, slice_to_vec_u8,
    split_bytes, split_on, str_to_bytes, views,
};
use crate::fingerprint::{fingerprint, fingerprint_of, FingerprintConfig};
use crate::http::{first_header, has_header, header_value, without_header, OutboundRequest,
    OutboundResponse};
use crate::link::distinct_seq;
use crate::outbound::{strip_forbidden, stripped};

verus! {

/// `s` begins with `p`.
pub open spec fn starts_with(s: Seq<u8>, p: Seq<u8>) -> bool {
    p.len() <= s.len() && s.take(p.len() as int) == p
}

pub open spec fn trim_left(s: Seq<u8>) -> Seq<u8>
    decreases s.len(),
{
    if s.len() > 0 && s[0] == ' ' as u8 {
        trim_left(s.drop_first())
    } else {
        s
    }
}

pub open spec fn trim_right(s: Seq<u8>) -> Seq<u8>
    decreases s.len(),
{
    if s.len() > 0 && s.last() == ' ' as u8 {
        trim_right(s.drop_last())
    } else {
        s
    }
}

/// `s` without leading and trailing spaces.
pub open spec fn trim_spaces(s: Seq<u8>) -> Seq<u8> {
    trim_right(trim_left(s))
}

/// Strip leading and trailing spaces.
fn trim(s: &[u8]) -> (r: Vec<u8>)
    ensures
        r@ == trim_spaces(s@),
{
    let mut lo: usize = 0;
    let n = s.len();
    proof {
        assert(s@.skip(0) =~= s@);
    }
    while lo < n && s[lo] == ' ' as u8
        invariant
            n == s@.len(),
            lo <= n,
            trim_left(s@) == trim_left(s@.skip(lo as int)),
        decreases n - lo,
    {
        proof {
            assert(s@.skip(lo as int)[0] == s@[lo as int]);
            assert(s@.skip(lo as int).drop_first() =~= s@.skip(lo + 1));
        }
        lo = lo + 1;
    }
    proof {
        if lo < n {
            assert(s@.skip(lo as int)[0] != ' ' as u8);
        }
        assert(trim_left(s@) == s@.skip(lo as int));
    }
    let mut hi: usize = n;
    while hi > lo && s[hi - 1] == ' ' as u8
        invariant
            n == s@.len(),
            lo <= hi <= n,
            trim_left(s@) == s@.skip(lo as int),
            trim_right(s@.skip(lo as int)) == trim_right(s@.subrange(lo as int, hi as int)),
        decreases hi,
    {
        proof {
            assert(s@.subrange(lo as int, hi as int).last() == s@[hi - 1]);
            assert(s@.subrange(lo as int, hi as int).drop_last() =~= s@.subrange(
                lo as int,
                hi - 1,
            ));
        }
        hi = hi - 1;
    }
    proof {
        if hi > lo {
            assert(s@.subrange(lo as int, hi as int).last() == s@[hi - 1]);
        }
        assert(trim_right(s@.subrange(lo as int, hi as int)) == s@.subrange(lo as int, hi as int));
    }
    let piece = vstd::slice::slice_subrange(s, lo, hi);
    slice_to_vec_u8(piece)
}

/// The comma-separated directives of a `cache-control` value, each
/// with surrounding spaces removed.
pub open spec fn directive_parts(value: Seq<u8>) -> Seq<Seq<u8>> {
    split_on(value, ',' as u8).map_values(|p: Seq<u8>| trim_spaces(p))
}

/// The `max-age` seconds found among the directives: the first
/// `max-age=N` whose `N` is a well-formed `u64`.  Malformed directives
/// are passed over.
pub open spec fn max_age_in_parts(parts: Seq<Seq<u8>>) -> Option<u64>
    decreases parts.len(),
{
    if parts.len() == 0 {
        None
    } else {
        let p = parts[0];
        let prefix = lit_bytes("max-age=");
        let rest = p.skip(prefix.len() as int);
        if starts_with(p, prefix) && rest.len() > 0 && all_digits(rest) && dec_value(rest)
            <= u64::MAX {
            Some(dec_value(rest) as u64)
        } else {
            max_age_in_parts(parts.drop_first())
        }
    }
}

/// The TTL the request asks for: from the first `cache-control`
/// header's directives; `None` — no caching — when the header or a
/// well-formed `max-age` directive is absent.
pub open spec fn max_age_of(req: OutboundRequest) -> Option<u64> {
    if has_header(pair_views(req.headers@), lit_bytes("cache-control")) {
        max_age_in_parts(
            directive_parts(first_header(pair_views(req.headers@), lit_bytes("cache-control"))),
        )
    } else {
        None
    }
}

fn starts_with_exec(s: &[u8], p: &[u8]) -> (r: bool)
    ensures
        r == starts_with(s@, p@),
{
    if p.len() > s.len() {
        return false;
    }
    let head = vstd::slice::slice_subrange(s, 0, p.len());
    proof {
        assert(s@.subrange(0, p@.len() as int) =~= s@.take(p@.len() as int));
    }
    eq_bytes(head, p)
}

/// Read the requested TTL off the request's `cache-control` header.
pub fn cache_ttl(req: &OutboundRequest) -> (r: Option<u64>)
    ensures
        r == max_age_of(*req),
{
    let name = str_to_bytes("cache-control");
    let value = match header_value(&req.headers, name.as_slice()) {
        None => {
            return None;
        },
        Some(v) => v,
    };
    let prefix = str_to_bytes("max-age=");
    let parts = split_bytes(value.as_slice(), ',' as u8);
    let ghost dparts = directive_parts(value@);
    proof {
        assert(views(parts@).map_values(|p: Seq<u8>| trim_spaces(p)) =~= dparts);
        assert(dparts.skip(0) =~= dparts);
    }
    let ghost cc = lit_bytes("cache-control");
    let mut i: usize = 0;
    while i < parts.len()
        invariant
            has_header(pair_views(req.headers@), cc),
            cc == lit_bytes("cache-control"),
            dparts == directive_parts(first_header(pair_views(req.headers@), cc)),
            parts@.len() == dparts.len(),
            forall|j: int|
                0 <= j < dparts.len() ==> dparts[j] == trim_spaces((#[trigger] parts@[j])@),
            i <= dparts.len(),
            prefix@ == lit_bytes("max-age="),
            max_age_in_parts(dparts) == max_age_in_parts(dparts.skip(i as int)),
        decreases dparts.len() - i,
    {
        let t = trim(parts[i].as_slice());
        proof {
            assert(dparts.skip(i as int)[0] == dparts[i as int]);
            assert(dparts.skip(i as int).drop_first() =~= dparts.skip(i + 1));
            assert(t@ == dparts[i as int]);
        }
        if starts_with_exec(t.as_slice(), prefix.as_slice()) {
            let rest = vstd::slice::slice_subrange(t.as_slice(), prefix.len(), t.len());
            proof {
                assert(t@.subrange(prefix@.len() as int, t@.len() as int) =~= t@.skip(
                    prefix@.len() as int,
                ));
            }
            match parse_u64_dec(rest) {
                Some(v) => {
                    proof {
                        assert(max_age_in_parts(dparts.skip(i as int)) == Some(v));
                    }
                    return Some(v);
                },
                None => {
                    proof {
                        assert(max_age_in_parts(dparts.skip(i as int)) == max_age_in_parts(
                            dparts.skip(i + 1),
                        ));
                    }
                },
            }
        } else {
            proof {
                assert(!starts_with(dparts[i as int], prefix@));
                assert(max_age_in_parts(dparts.skip(i as int)) == max_age_in_parts(
                    dparts.skip(i + 1),
                ));
            }
        }
        i = i + 1;
    }
    proof {
        assert(dparts.skip(dparts.len() as int) =~= Seq::<Seq<u8>>::empty());
    }
    None
}

/// The caching decision for one outbound call.
#[derive(Debug, Clone)]
pub enum CachePlan {
    /// No cache directive: the call bypasses the cache entirely.
    Bypass,
    /// Cache under this fingerprint with this freshness window.
    Use { key: Vec<u8>, ttl: u64 },
}

/// Decide the caching plan for a request: bypass without a directive,
/// otherwise the request's fingerprint and the directive's TTL.
pub fn plan_request(req: &OutboundRequest, cfg: &FingerprintConfig) -> (r: CachePlan)
    ensures
        max_age_of(*req) is None <==> r is Bypass,
        r matches CachePlan::Use { key, ttl } ==> max_age_of(*req) == Some(ttl) && key@
            == fingerprint_of(*req, views(cfg.header_names@)),
{
    match cache_ttl(req) {
        None => CachePlan::Bypass,
        Some(ttl) => {
            let key = fingerprint(req, cfg);
            CachePlan::Use { key, ttl }
        },
    }
}

/// Append the cache-hit marker to a stored response.
pub fn mark_cache_hit(resp: OutboundResponse) -> (r: OutboundResponse)
    ensures
        r.status == resp.status,
        r.body@ == resp.body@,
        pair_views(r.headers@) == pair_views(resp.headers@).push(
            (lit_bytes("x-cache"), lit_bytes("hit")),
        ),
{
    let mut headers = resp.headers;
    let ghost before = pair_views(headers@);
    headers.push((str_to_bytes("x-cache"), str_to_bytes("hit")));
    proof {
        assert(pair_views(headers@) =~= before.push((lit_bytes("x-cache"), lit_bytes("hit"))));
    }
    OutboundResponse { status: resp.status, headers, body: resp.body }
}

/// What to do after the cache lookup on a planned call.
#[derive(Debug, Clone)]
pub enum FetchDecision {
    /// A fresh entry was found: answer with it, marker appended.
    Respond(OutboundResponse),
    /// Nothing cached: fetch upstream.
    Fetch,
}

/// Act on the cache lookup: a hit is returned as-is but for the
/// appended cache-hit marker; a miss goes upstream.
pub fn on_lookup(cached: Option<OutboundResponse>) -> (r: FetchDecision)
    ensures
        cached is None <==> r is Fetch,
        cached matches Some(c) ==> r matches FetchDecision::Respond(resp) && resp.status == c.status
            && resp.body@ == c.body@ && pair_views(resp.headers@) == pair_views(c.headers@).push(
            (lit_bytes("x-cache"), lit_bytes("hit")),
        ),
{
    match cached {
        None => FetchDecision::Fetch,
        Some(c) => FetchDecision::Respond(mark_cache_hit(c)),
    }
}

/// The write-back of a completed upstream fetch.
#[derive(Debug, Clone)]
pub struct CacheWrite {
    pub key: Vec<u8>,
    pub response: OutboundResponse,
    pub ttl: u64,
}

/// The headers a finished response carries: the upstream's with every
/// forbidden header and any upstream `etag` removed, then an `etag`
/// equal to the fingerprint.
pub open spec fn finished_headers(upstream: Seq<(Seq<u8>, Seq<u8>)>, key: Seq<u8>) -> Seq<
    (Seq<u8>, Seq<u8>),
> {
    without_header(stripped(upstream), lit_bytes("etag")).push((lit_bytes("etag"), key))
}

/// Finish a fetched response: strip the forbidden headers, set the
/// `etag` to the fingerprint, and produce the identical write-back
/// entry for the cache, under the planned TTL.  What is returned and
/// what is stored are the same bytes.
pub fn finalize_upstream(key: &[u8], ttl: u64, upstream: OutboundResponse) -> (r: (
    OutboundResponse,
    CacheWrite,
))
    ensures
        r.0.status == upstream.status,
        r.0.body@ == upstream.body@,
        pair_views(r.0.headers@) == finished_headers(pair_views(upstream.headers@), key@),
        r.1.key@ == key@,
        r.1.ttl == ttl,
        r.1.response.status == r.0.status,
        r.1.response.body@ == r.0.body@,
        pair_views(r.1.response.headers@) == pair_views(r.0.headers@),
{
    let cleaned = strip_forbidden(&upstream.headers);
    let etag_name = str_to_bytes("etag");
    let mut headers = crate::http::remove_header(&cleaned, etag_name.as_slice());
    let ghost before = pair_views(headers@);
    headers.push((str_to_bytes("etag"), slice_to_vec_u8(key)));
    proof {
        assert(pair_views(headers@) =~= before.push((lit_bytes("etag"), key@)));
    }
    let stored_headers = clone_pair_list(&headers);
    let stored_body = slice_to_vec_u8(upstream.body.as_slice());
    let response = OutboundResponse { status: upstream.status, headers, body: upstream.body };
    let stored = OutboundResponse {
        status: response.status,
        headers: stored_headers,
        body: stored_body,
    };
    let write = CacheWrite { key: slice_to_vec_u8(key), response: stored, ttl };
    (response, write)
}

fn clone_pair_list(v: &Vec<(Vec<u8>, Vec<u8>)>) -> (r: Vec<(Vec<u8>, Vec<u8>)>)
    ensures
        pair_views(r@) == pair_views(v@),
{
    let mut out: Vec<(Vec<u8>, Vec<u8>)> = Vec::new();
    let mut i: usize = 0;
    while i < v.len()
        invariant
            i <= v@.len(),
            pair_views(out@) == pair_views(v@).take(i as int),
        decreases v@.len() - i,
    {
        let p = &v[i];
        let ghost prev = pair_views(out@);
        out.push((slice_to_vec_u8(p.0.as_slice()), slice_to_vec_u8(p.1.as_slice())));
        proof {
            assert(pair_views(out@) =~= prev.push(pair_views(v@)[i as int]));
            assert(pair_views(v@).take(i + 1) =~= pair_views(v@).take(i as int).push(
                pair_views(v@)[i as int],
            ));
        }
        i = i + 1;
    }
    proof {
        assert(pair_views(v@).take(v@.len() as int) =~= pair_views(v@));
    }
    out
}

/// The single-flight table: the fingerprints with an upstream fetch in
/// flight.
#[derive(Debug)]
pub struct FlightTable {
    pub inflight: Vec<Vec<u8>>,
}

impl FlightTable {
    /// The keys currently in flight.
    pub open spec fn keys(&self) -> Seq<Seq<u8>> {
        views(self.inflight@)
    }

    /// A key is in flight at most once.
    pub open spec fn wf(&self) -> bool {
        distinct_seq(self.keys())
    }

    /// An empty table: nothing in flight.
    pub fn new() -> (r: FlightTable)
        ensures
            r.keys() == Seq::<Seq<u8>>::empty(),
            r.wf(),
    {
        let r = FlightTable { inflight: Vec::new() };
        proof {
            assert(r.keys() =~= Seq::<Seq<u8>>::empty());
        }
        r
    }

    /// Try to become the leader for a fingerprint.  The caller that
    /// gets `true` performs the one upstream fetch; every concurrent
    /// caller on an equal key gets `false` and waits for that fetch.
    pub fn begin(&mut self, key: &[u8]) -> (leader: bool)
        requires
            old(self).wf(),
        ensures
            final(self).wf(),
            leader <==> !old(self).keys().contains(key@),
            leader ==> final(self).keys() == old(self).keys().push(key@),
            !leader ==> *final(self) == *old(self),
    {
        let ghost before = self.keys();
        let mut i: usize = 0;
        while i < self.inflight.len()
            invariant
                *self == *old(self),
                old(self).wf(),
                before == self.keys(),
                i <= self.inflight@.len(),
                forall|j: int| 0 <= j < i ==> views(self.inflight@)[j] != key@,
            decreases self.inflight@.len() - i,
        {
            if eq_bytes(self.inflight[i].as_slice(), key) {
                proof {
                    assert(self.keys()[i as int] == key@);
                }
                return false;
            }
            i = i + 1;
        }
        self.inflight.push(slice_to_vec_u8(key));
        proof {
            assert(self.keys() =~= before.push(key@));
            assert forall|a: int, b: int| 0 <= a < b < self.keys().len() implies #[trigger] self
                .keys()[a] != #[trigger] self.keys()[b] by {
                if b == self.keys().len() - 1 {
                    assert(self.keys()[a] == before[a]);
                }
            }
        }
        true
    }

    /// End the flight for a fingerprint: the key leaves the table;
    /// every other key stays.
    pub fn finish(&mut self, key: &[u8])
        requires
            old(self).wf(),
        ensures
            final(self).wf(),
            !final(self).keys().contains(key@),
            forall|f: Seq<u8>|
                f != key@ ==> (final(self).keys().contains(f) <==> old(self).keys().contains(f)),
    {
        let ghost before = self.keys();
        let mut i: usize = 0;
        while i < self.inflight.len()
            invariant
                old(self).wf(),
                before == self.keys(),
                *self == *old(self),
                i <= self.inflight@.len(),
                forall|j: int| 0 <= j < i ==> views(self.inflight@)[j] != key@,
            decreases self.inflight@.len() - i,
        {
            if eq_bytes(self.inflight[i].as_slice(), key) {
                let ghost idx = i as int;
                self.inflight.remove(i);
                proof {
                    assert(self.keys() =~= before.remove(idx));
                    assert forall|a: int, b: int|
                        0 <= a < b < self.keys().len() implies #[trigger] self.keys()[a]
                        != #[trigger] self.keys()[b] by {
                        let a0 = if a < idx { a } else { a + 1 };
                        let b0 = if b < idx { b } else { b + 1 };
                        assert(self.keys()[a] == before[a0]);
                        assert(self.keys()[b] == before[b0]);
                    }
                    assert forall|j: int| 0 <= j < self.keys().len() implies #[trigger] self
                        .keys()[j] != key@ by {
                        let j0 = if j < idx { j } else { j + 1 };
                        assert(self.keys()[j] == before[j0]);
                        if j0 != idx && before[j0] == key@ {
                            assert(before[idx] == key@);
                            assert(false);
                        }
                    }
                    assert forall|f: Seq<u8>|
                        f != key@ && before.contains(f) implies self.keys().contains(f) by {
                        let j0 = choose|j0: int| 0 <= j0 < before.len() && before[j0] == f;
                        let j = if j0 < idx { j0 } else { j0 - 1 };
                        assert(self.keys()[j] == before[j0]);
                    }
                    assert forall|f: Seq<u8>|
                        f != key@ && self.keys().contains(f) implies before.contains(f) by {
                        let j = choose|j: int|
                            0 <= j < self.keys().len() && #[trigger] self.keys()[j] == f;
                        let j0 = if j < idx { j } else { j + 1 };
                        assert(before[j0] == f);
                    }
                }
                return ;
            }
            i = i + 1;
        }
        proof {
            assert(forall|j: int| 0 <= j < before.len() ==> #[trigger] before[j] != key@);
            assert forall|f: Seq<u8>| self.keys().contains(f) implies f != key@ by {
                let j = choose|j: int|
                    0 <= j < self.keys().len() && #[trigger] self.keys()[j] == f;
            }
        }
    }
}

/// Act on the key-value backend's lookup outcome.  A backend failure
/// is swallowed: the call goes upstream uncached, exactly as on a
/// miss, and the failure never reaches the caller.
pub fn on_lookup_outcome(found: Result<Option<OutboundResponse>, crate::errors::CapError>) -> (r:
    FetchDecision)
    ensures
        r is Fetch <==> !(found matches Ok(Some(_))),
        found matches Ok(Some(s)) ==> r matches FetchDecision::Respond(resp) && resp.status
            == s.status && resp.body@ == s.body@ && pair_views(resp.headers@) == pair_views(
            s.headers@,
        ).push((lit_bytes("x-cache"), lit_bytes("hit"))),
{
    match found {
        Ok(cached) => on_lookup(cached),
        Err(_) => on_lookup(None),
    }
}

/// The cache round trip in general: a hit response answered from the
/// entry the leader's fetch stored equals the leader's own response —
/// status, body and headers — except for the one appended cache-hit
/// marker; and both carry the `etag` equal to the fingerprint, as
/// their last header.
pub proof fn lemma_hit_round_trip(
    upstream: OutboundResponse,
    key: Seq<u8>,
    first: OutboundResponse,
    stored: OutboundResponse,
    second: OutboundResponse,
)
    requires
        first.status == upstream.status,
        first.body@ == upstream.body@,
        pair_views(first.headers@) == finished_headers(pair_views(upstream.headers@), key),
        stored.status == first.status,
        stored.body@ == first.body@,
        pair_views(stored.headers@) == pair_views(first.headers@),
        second.status == stored.status,
        second.body@ == stored.body@,
        pair_views(second.headers@) == pair_views(stored.headers@).push(
            (lit_bytes("x-cache"), lit_bytes("hit")),
        ),
    ensures
        second.status == first.status,
        second.body@ == first.body@,
        pair_views(second.headers@) == pair_views(first.headers@).push(
            (lit_bytes("x-cache"), lit_bytes("hit")),
        ),
        pair_views(first.headers@).last() == (lit_bytes("etag"), key),
        pair_views(second.headers@).drop_last() == pair_views(first.headers@),
{
    assert(pair_views(second.headers@).drop_last() =~= pair_views(stored.headers@));
}

/// What every caller served from one cache entry observes: all of
/// them see the stored response's bytes, identical to one another and
/// to the entry, except for the one appended cache-hit marker.
pub proof fn lemma_waiters_see_identical_bytes(
    stored: OutboundResponse,
    r1: OutboundResponse,
    r2: OutboundResponse,
)
    requires
        r1.status == stored.status,
        r1.body@ == stored.body@,
        pair_views(r1.headers@) == pair_views(stored.headers@).push(
            (lit_bytes("x-cache"), lit_bytes("hit")),
        ),
        r2.status == stored.status,
        r2.body@ == stored.body@,
        pair_views(r2.headers@) == pair_views(stored.headers@).push(
            (lit_bytes("x-cache"), lit_bytes("hit")),
        ),
    ensures
        r1.status == r2.status,
        r1.body@ == r2.body@,
        pair_views(r1.headers@) == pair_views(r2.headers@),
        pair_views(r1.headers@).drop_last() == pair_views(stored.headers@),
{
    assert(pair_views(r1.headers@).drop_last() =~= pair_views(stored.headers@));
}

/// A failed upstream fetch: the flight is released so a later call
/// can retry, nothing is written to the cache — the signature offers
/// no write — and the waiters see the leader's error unchanged.
pub fn on_fetch_failure(
    flights: &mut FlightTable,
    key: &[u8],
    error: crate::errors::ErrorCode,
) -> (r: crate::errors::ErrorCode)
    requires
        old(flights).wf(),
    ensures
        final(flights).wf(),
        !final(flights).keys().contains(key@),
        r == error,
{
    flights.finish(key);
    error
}

/// Single flight: while a leader's fetch for a fingerprint is in
/// flight, a second `begin` on an equal fingerprint is never the
/// leader — at most one upstream fetch runs per fingerprint, and the
/// waiters all see the one result the leader stores.
pub proof fn lemma_single_flight(before: Seq<Seq<u8>>, after: Seq<Seq<u8>>, key: Seq<u8>)
    requires
        after == before.push(key),
    ensures
        after.contains(key),
{
    assert(after[after.len() - 1] == key);
}

} // verus!
