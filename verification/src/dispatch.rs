//! Guest dispatch fabric: route matching with `{name}` placeholders,
//! query decoding, topic matching by substring containment, and the
//! dispatcher model a guest's declarative configuration generates.

use vstd::prelude::*;
use crate::bytestr::{
    append_bytes, contains_bytes, contains_seq, eq_bytes, find_byte, first_index_of, lit_bytes,
    pair_views, pct_decode, percent_decode, slice_to_vec_u8, split_bytes, split_on, str_to_bytes,
    to_ascii_upper, upper_bytes, views,
};
use crate::errors::DispatchError;

verus! {

/// How a route's request type is decoded from the transport input.
#[derive(Debug, Clone, Copy, PartialEq, Eq)]
pub enum DecoderKind {
    /// The full request body is collected and handed to the decoder.
    WithBody,
    /// The query string is parsed into key/value pairs for the decoder.
    WithQuery,
    /// Nothing is read beyond the path itself.
    Plain,
}

/// One declared HTTP route: a pattern with optional `{name}` path
/// segments, a method, and the input decoder role.
#[derive(Debug, Clone)]
pub struct GuestRoute {
    pub pattern: Vec<u8>,
    pub method: Vec<u8>,
    pub decoder: DecoderKind,
}

/// One declared messaging topic: a pattern matched by substring
/// containment against inbound topic names.
#[derive(Debug, Clone)]
pub struct GuestTopic {
    pub pattern: Vec<u8>,
}

/// A pattern segment of the form `{name}`.
pub open spec fn is_placeholder(seg: Seq<u8>) -> bool {
    seg.len() >= 2 && seg[0] == '{' as u8 && seg.last() == '}' as u8
}

/// The name between the braces.
pub open spec fn placeholder_name(seg: Seq<u8>) -> Seq<u8> {
    seg.subrange(1, seg.len() - 1)
}

/// A path split into its `/`-separated segments.
pub open spec fn segs(s: Seq<u8>) -> Seq<Seq<u8>> {
    split_on(s, '/' as u8)
}

/// Segment lists match when they have the same length and each pattern
/// segment is either a placeholder or literally equal to the path's.
pub open spec fn segments_match(p: Seq<Seq<u8>>, q: Seq<Seq<u8>>) -> bool {
    p.len() == q.len() && forall|i: int|
        0 <= i < p.len() ==> (is_placeholder(#[trigger] p[i]) || p[i] == q[i])
}

/// The route pattern matches the request path.
pub open spec fn pattern_matches(pattern: Seq<u8>, path: Seq<u8>) -> bool {
    segments_match(segs(pattern), segs(path))
}

/// The (name, value) pairs captured by the placeholders, from position
/// `i` on; values are percent-decoded.
pub open spec fn captures_from(p: Seq<Seq<u8>>, q: Seq<Seq<u8>>, i: int) -> Seq<(Seq<u8>, Seq<u8>)>
    decreases p.len() - i,
{
    if i < 0 || i >= p.len() || i >= q.len() {
        Seq::empty()
    } else if is_placeholder(p[i]) {
        seq![(placeholder_name(p[i]), pct_decode(q[i]))] + captures_from(p, q, i + 1)
    } else {
        captures_from(p, q, i + 1)
    }
}

/// All placeholder captures of a matching pattern/path pair.
pub open spec fn captures(pattern: Seq<u8>, path: Seq<u8>) -> Seq<(Seq<u8>, Seq<u8>)> {
    captures_from(segs(pattern), segs(path), 0)
}

/// How many literal (non-placeholder) segments a segment list has:
/// the measure of a pattern's specificity.
pub open spec fn literal_segments(p: Seq<Seq<u8>>) -> int
    decreases p.len(),
{
    if p.len() == 0 {
        0
    } else if is_placeholder(p[0]) {
        literal_segments(p.drop_first())
    } else {
        1 + literal_segments(p.drop_first())
    }
}

/// A pattern's literal-segment count.
pub open spec fn literal_count(pattern: Seq<u8>) -> int {
    literal_segments(segs(pattern))
}

/// Count a pattern's literal segments.
pub fn count_literals(pattern: &[u8]) -> (r: usize)
    ensures
        r == literal_count(pattern@),
{
    let parts = split_bytes(pattern, '/' as u8);
    let ghost pv = segs(pattern@);
    proof {
        assert(views(parts@) == pv);
        assert(pv.skip(0) =~= pv);
    }
    let mut count: usize = 0;
    let mut i: usize = 0;
    while i < parts.len()
        invariant
            views(parts@) == pv,
            parts@.len() == pv.len(),
            i <= pv.len(),
            count <= i,
            literal_segments(pv) == count + literal_segments(pv.skip(i as int)),
        decreases pv.len() - i,
    {
        proof {
            assert(pv.skip(i as int)[0] == pv[i as int]);
            assert(pv.skip(i as int).drop_first() =~= pv.skip(i + 1));
        }
        if !is_placeholder_exec(parts[i].as_slice()) {
            count = count + 1;
        }
        i = i + 1;
    }
    proof {
        assert(pv.skip(pv.len() as int) =~= Seq::<Seq<u8>>::empty());
    }
    count
}

fn is_placeholder_exec(seg: &[u8]) -> (r: bool)
    ensures
        r == is_placeholder(seg@),
{
    seg.len() >= 2 && seg[0] == '{' as u8 && seg[seg.len() - 1] == '}' as u8
}

/// Match one route pattern against a path: `None` on mismatch, the
/// placeholder captures (percent-decoded, in pattern order) on match.
pub fn match_route(pattern: &[u8], path: &[u8]) -> (r: Option<Vec<(Vec<u8>, Vec<u8>)>>)
    ensures
        r is Some <==> pattern_matches(pattern@, path@),
        r matches Some(v) ==> pair_views(v@) == captures(pattern@, path@),
{
    let ps = split_bytes(pattern, '/' as u8);
    let qs = split_bytes(path, '/' as u8);
    let ghost pv = segs(pattern@);
    let ghost qv = segs(path@);
    proof {
        assert(views(ps@) == pv);
        assert(views(qs@) == qv);
    }
    if ps.len() != qs.len() {
        proof {
            assert(pv.len() == ps@.len());
            assert(qv.len() == qs@.len());
            assert(!segments_match(pv, qv));
        }
        return None;
    }
    let mut out: Vec<(Vec<u8>, Vec<u8>)> = Vec::new();
    let mut i: usize = 0;
    while i < ps.len()
        invariant
            pv == segs(pattern@),
            qv == segs(path@),
            views(ps@) == pv,
            views(qs@) == qv,
            pv.len() == qv.len(),
            ps@.len() == pv.len(),
            qs@.len() == qv.len(),
            i <= pv.len(),
            forall|j: int| 0 <= j < i ==> (is_placeholder(#[trigger] pv[j]) || pv[j] == qv[j]),
            captures_from(pv, qv, 0) == pair_views(out@) + captures_from(pv, qv, i as int),
        decreases pv.len() - i,
    {
        let pseg = &ps[i];
        let qseg = &qs[i];
        let ghost prev = pair_views(out@);
        if is_placeholder_exec(pseg.as_slice()) {
            let name = slice_to_vec_u8(vstd::slice::slice_subrange(
                pseg.as_slice(),
                1,
                pseg.len() - 1,
            ));
            let value = percent_decode(qseg.as_slice());
            out.push((name, value));
            proof {
                assert(name@ == placeholder_name(pv[i as int]));
                assert(pair_views(out@) =~= prev.push(
                    (placeholder_name(pv[i as int]), pct_decode(qv[i as int])),
                ));
                assert(captures_from(pv, qv, i as int) == seq![
                    (placeholder_name(pv[i as int]), pct_decode(qv[i as int])),
                ] + captures_from(pv, qv, i + 1));
                assert(prev + captures_from(pv, qv, i as int) =~= pair_views(out@)
                    + captures_from(pv, qv, i + 1));
            }
        } else if eq_bytes(pseg.as_slice(), qseg.as_slice()) {
            proof {
                assert(pv[i as int] == qv[i as int]);
            }
        } else {
            proof {
                assert(!(is_placeholder(pv[i as int]) || pv[i as int] == qv[i as int]));
                assert(!segments_match(pv, qv));
            }
            return None;
        }
        i = i + 1;
    }
    proof {
        assert(segments_match(pv, qv));
        assert(captures_from(pv, qv, pv.len() as int) =~= Seq::<(Seq<u8>, Seq<u8>)>::empty());
        assert(pair_views(out@) + captures_from(pv, qv, pv.len() as int) =~= pair_views(out@));
    }
    Some(out)
}

/// The key/value pair read from one `key=value` query part; a part
/// without `=` is a key with an empty value.  Both halves are
/// percent-decoded.
pub open spec fn pair_of_part(part: Seq<u8>) -> (Seq<u8>, Seq<u8>) {
    let i = first_index_of(part, '=' as u8);
    if i == part.len() {
        (pct_decode(part), Seq::<u8>::empty())
    } else {
        (pct_decode(part.take(i)), pct_decode(part.skip(i + 1)))
    }
}

/// The pairs of a list of `&`-separated parts; empty parts are
/// skipped.
pub open spec fn pairs_of_parts(parts: Seq<Seq<u8>>) -> Seq<(Seq<u8>, Seq<u8>)>
    decreases parts.len(),
{
    if parts.len() == 0 {
        Seq::empty()
    } else if parts[0].len() == 0 {
        pairs_of_parts(parts.drop_first())
    } else {
        seq![pair_of_part(parts[0])] + pairs_of_parts(parts.drop_first())
    }
}

/// The key/value pairs of a query string.
pub open spec fn query_pairs_of(q: Seq<u8>) -> Seq<(Seq<u8>, Seq<u8>)> {
    pairs_of_parts(split_on(q, '&' as u8))
}

/// Parse a query string into its key/value pairs, in order, both
/// halves percent-decoded.
pub fn parse_query(q: &[u8]) -> (r: Vec<(Vec<u8>, Vec<u8>)>)
    ensures
        pair_views(r@) == query_pairs_of(q@),
{
    let parts = split_bytes(q, '&' as u8);
    let ghost pv = split_on(q@, '&' as u8);
    proof {
        assert(views(parts@) == pv);
    }
    let mut out: Vec<(Vec<u8>, Vec<u8>)> = Vec::new();
    let mut i: usize = 0;
    proof {
        assert(pv.skip(0) =~= pv);
    }
    while i < parts.len()
        invariant
            views(parts@) == pv,
            parts@.len() == pv.len(),
            i <= pv.len(),
            pairs_of_parts(pv) == pair_views(out@) + pairs_of_parts(pv.skip(i as int)),
        decreases pv.len() - i,
    {
        let part = &parts[i];
        let ghost prev = pair_views(out@);
        proof {
            assert(pv.skip(i as int)[0] == pv[i as int]);
            assert(pv.skip(i as int).drop_first() =~= pv.skip(i + 1));
        }
        if part.len() > 0 {
            let eq_pos = find_byte(part.as_slice(), '=' as u8);
            proof {
                crate::bytestr::lemma_first_index_of(part@, '=' as u8);
            }
            if eq_pos == part.len() {
                let key = percent_decode(part.as_slice());
                out.push((key, Vec::new()));
            } else {
                let key = percent_decode(vstd::slice::slice_subrange(part.as_slice(), 0, eq_pos));
                let value = percent_decode(
                    vstd::slice::slice_subrange(part.as_slice(), eq_pos + 1, part.len()),
                );
                out.push((key, value));
                proof {
                    assert(part@.subrange(0, eq_pos as int) =~= part@.take(eq_pos as int));
                    assert(part@.subrange(eq_pos + 1, part@.len() as int) =~= part@.skip(
                        eq_pos + 1,
                    ));
                }
            }
            proof {
                assert(pair_views(out@) =~= prev.push(pair_of_part(pv[i as int])));
                assert(pairs_of_parts(pv.skip(i as int)) == seq![pair_of_part(pv[i as int])]
                    + pairs_of_parts(pv.skip(i + 1)));
                assert(prev + pairs_of_parts(pv.skip(i as int)) =~= pair_views(out@)
                    + pairs_of_parts(pv.skip(i + 1)));
            }
        }
        i = i + 1;
    }
    proof {
        assert(pv.skip(pv.len() as int) =~= Seq::<Seq<u8>>::empty());
        assert(pair_views(out@) + pairs_of_parts(pv.skip(pv.len() as int)) =~= pair_views(out@));
    }
    out
}

/// Route `i` accepts this request: the pattern matches the path and
/// the method matches, case-insensitively.
pub open spec fn route_hits(routes: Seq<GuestRoute>, method: Seq<u8>, path: Seq<u8>, i: int) -> bool {
    pattern_matches(routes[i].pattern@, path) && upper_bytes(routes[i].method@) == upper_bytes(
        method,
    )
}

/// The input handed to the matched route's decoder.
#[derive(Debug, Clone)]
pub struct RouteMatch {
    /// Index of the matched route, in declaration order.
    pub route: usize,
    /// The placeholder captures of the pattern, in pattern order.
    pub params: Vec<(Vec<u8>, Vec<u8>)>,
    /// For a `WithQuery` route: the parsed query pairs followed by the
    /// placeholder captures, so placeholders reach the decoder under
    /// the same keys.  Empty otherwise.
    pub query_pairs: Vec<(Vec<u8>, Vec<u8>)>,
    /// For a `WithBody` route: the collected request body.  Empty
    /// otherwise.
    pub body: Vec<u8>,
}

/// Dispatch an inbound HTTP request against the declared routes: of
/// the routes whose pattern and method match, the most specific one —
/// the one with the most literal path segments — wins, ties going to
/// declaration order; its decoder input is assembled per the route's
/// decoder kind.  No match is a `RouteMiss` naming the attempted
/// path.
pub fn dispatch_http(
    routes: &Vec<GuestRoute>,
    method: &[u8],
    path: &[u8],
    query: &[u8],
    body: &[u8],
) -> (r: Result<RouteMatch, DispatchError>)
    ensures
        r matches Ok(m) ==> {
            &&& 0 <= m.route < routes@.len()
            &&& route_hits(routes@, method@, path@, m.route as int)
            &&& forall|j: int|
                0 <= j < routes@.len() && route_hits(routes@, method@, path@, j)
                    ==> literal_count((#[trigger] routes@[j]).pattern@) <= literal_count(
                    routes@[m.route as int].pattern@,
                )
            &&& forall|j: int|
                0 <= j < m.route && route_hits(routes@, method@, path@, j) ==> literal_count(
                    (#[trigger] routes@[j]).pattern@,
                ) < literal_count(routes@[m.route as int].pattern@)
            &&& pair_views(m.params@) == captures(routes@[m.route as int].pattern@, path@)
            &&& routes@[m.route as int].decoder is WithQuery ==> pair_views(m.query_pairs@)
                == query_pairs_of(query@) + captures(routes@[m.route as int].pattern@, path@)
            &&& !(routes@[m.route as int].decoder is WithQuery) ==> m.query_pairs@.len() == 0
            &&& routes@[m.route as int].decoder is WithBody ==> m.body@ == body@
            &&& !(routes@[m.route as int].decoder is WithBody) ==> m.body@.len() == 0
        },
        r is Err <==> forall|j: int|
            0 <= j < routes@.len() ==> !route_hits(routes@, method@, path@, j),
        r matches Err(e) ==> e matches DispatchError::RouteMiss { path: p } && p@ == path@,
{
    let method_up = to_ascii_upper(method);
    let mut have: bool = false;
    let mut best: usize = 0;
    let mut best_count: usize = 0;
    let mut i: usize = 0;
    while i < routes.len()
        invariant
            method_up@ == upper_bytes(method@),
            i <= routes@.len(),
            !have ==> forall|j: int| 0 <= j < i ==> !route_hits(routes@, method@, path@, j),
            have ==> {
                &&& best < i
                &&& route_hits(routes@, method@, path@, best as int)
                &&& best_count == literal_count(routes@[best as int].pattern@)
                &&& forall|j: int|
                    0 <= j < i && route_hits(routes@, method@, path@, j) ==> literal_count(
                        (#[trigger] routes@[j]).pattern@,
                    ) <= best_count
                &&& forall|j: int|
                    0 <= j < best && route_hits(routes@, method@, path@, j) ==> literal_count(
                        (#[trigger] routes@[j]).pattern@,
                    ) < best_count
            },
        decreases routes@.len() - i,
    {
        let route = &routes[i];
        let route_method_up = to_ascii_upper(route.method.as_slice());
        if eq_bytes(method_up.as_slice(), route_method_up.as_slice()) {
            match match_route(route.pattern.as_slice(), path) {
                Some(_) => {
                    proof {
                        assert(route_hits(routes@, method@, path@, i as int));
                    }
                    let count = count_literals(route.pattern.as_slice());
                    if !have || count > best_count {
                        have = true;
                        best = i;
                        best_count = count;
                    }
                },
                None => {
                    proof {
                        assert(!route_hits(routes@, method@, path@, i as int));
                    }
                },
            }
        } else {
            proof {
                assert(!route_hits(routes@, method@, path@, i as int));
            }
        }
        i = i + 1;
    }
    if !have {
        return Err(DispatchError::RouteMiss { path: slice_to_vec_u8(path) });
    }
    let route = &routes[best];
    let params = match match_route(route.pattern.as_slice(), path) {
        Some(params) => params,
        None => {
            proof {
                assert(false);
            }
            return Err(DispatchError::RouteMiss { path: slice_to_vec_u8(path) });
        },
    };
    let query_pairs = match route.decoder {
        DecoderKind::WithQuery => {
            let mut qp = parse_query(query);
            let mut extra = clone_pairs(&params);
            let ghost qpv = pair_views(qp@);
            let ghost exv = pair_views(extra@);
            qp.append(&mut extra);
            proof {
                assert(pair_views(qp@) =~= qpv + exv);
            }
            qp
        },
        _ => Vec::new(),
    };
    let body_out = match route.decoder {
        DecoderKind::WithBody => slice_to_vec_u8(body),
        _ => Vec::new(),
    };
    Ok(RouteMatch { route: best, params, query_pairs, body: body_out })
}

/// Copy a pair list.
fn clone_pairs(v: &Vec<(Vec<u8>, Vec<u8>)>) -> (r: Vec<(Vec<u8>, Vec<u8>)>)
    ensures
        pair_views(r@) == pair_views(v@),
{
    let mut out: Vec<(Vec<u8>, Vec<u8>)> = Vec::new();
    let mut i: usize = 0;
    while i < v.len()
        invariant
            i <= v@.len(),
            pair_views(out@) == pair_views(v@).take(i as int),
        decreases v@.len() - i,
    {
        let p = &v[i];
        let ghost prev = pair_views(out@);
        out.push((slice_to_vec_u8(p.0.as_slice()), slice_to_vec_u8(p.1.as_slice())));
        proof {
            assert(pair_views(out@) =~= prev.push(pair_views(v@)[i as int]));
            assert(pair_views(v@).take(i + 1) =~= pair_views(v@).take(i as int).push(
                pair_views(v@)[i as int],
            ));
        }
        i = i + 1;
    }
    proof {
        assert(pair_views(v@).take(v@.len() as int) =~= pair_views(v@));
    }
    out
}

/// Topic pattern `i` accepts the inbound topic: the pattern occurs in
/// the topic name as a substring.
pub open spec fn topic_hits(topics: Seq<GuestTopic>, topic: Seq<u8>, i: int) -> bool {
    contains_seq(topic, topics[i].pattern@)
}

/// Dispatch an inbound message topic against the declared patterns, in
/// declaration order; the first containment match wins.  No match is a
/// `TopicMiss` naming the topic.
pub fn dispatch_topic(topics: &Vec<GuestTopic>, topic: &[u8]) -> (r: Result<usize, DispatchError>)
    ensures
        r matches Ok(i) ==> 0 <= i < topics@.len() && topic_hits(topics@, topic@, i as int)
            && forall|j: int| 0 <= j < i ==> !topic_hits(topics@, topic@, j),
        r is Err <==> forall|j: int| 0 <= j < topics@.len() ==> !topic_hits(topics@, topic@, j),
        r matches Err(e) ==> e matches DispatchError::TopicMiss { topic: t } && t@ == topic@,
{
    let mut i: usize = 0;
    while i < topics.len()
        invariant
            i <= topics@.len(),
            forall|j: int| 0 <= j < i ==> !topic_hits(topics@, topic@, j),
        decreases topics@.len() - i,
    {
        if contains_bytes(topic, topics[i].pattern.as_slice()) {
            proof {
                assert(topic_hits(topics@, topic@, i as int));
            }
            return Ok(i);
        }
        i = i + 1;
    }
    Err(DispatchError::TopicMiss { topic: slice_to_vec_u8(topic) })
}

/// The response surfaced when dispatch fails: route and decode
/// failures are the caller's (404 and 400), handler failures are the
/// guest's (500); the body names what went wrong.
pub fn error_response(e: &DispatchError) -> (r: crate::http::OutboundResponse)
    ensures
        e matches DispatchError::RouteMiss { path } ==> r.status == 404 && r.body@ == lit_bytes(
            "no route for ",
        ) + path@,
        e matches DispatchError::TopicMiss { topic } ==> r.status == 404 && r.body@ == lit_bytes(
            "unhandled topic: ",
        ) + topic@,
        e matches DispatchError::DecodeError { message } ==> r.status == 400 && r.body@
            == message@,
        e matches DispatchError::HandlerError { message } ==> r.status == 500 && r.body@
            == message@,
        r.headers@.len() == 0,
{
    match e {
        DispatchError::RouteMiss { path } => {
            let mut body = str_to_bytes("no route for ");
            append_bytes(&mut body, path.as_slice());
            crate::http::OutboundResponse { status: 404, headers: Vec::new(), body }
        },
        DispatchError::TopicMiss { topic } => {
            let mut body = str_to_bytes("unhandled topic: ");
            append_bytes(&mut body, topic.as_slice());
            crate::http::OutboundResponse { status: 404, headers: Vec::new(), body }
        },
        DispatchError::DecodeError { message } => {
            crate::http::OutboundResponse {
                status: 400,
                headers: Vec::new(),
                body: slice_to_vec_u8(message.as_slice()),
            }
        },
        DispatchError::HandlerError { message } => {
            crate::http::OutboundResponse {
                status: 500,
                headers: Vec::new(),
                body: slice_to_vec_u8(message.as_slice()),
            }
        },
    }
}

/// A byte that may stand in a Rust identifier.
pub open spec fn is_ident_byte(b: u8) -> bool {
    (48 <= b <= 57) || (65 <= b <= 90) || (97 <= b <= 122) || b == '_' as u8
}

/// Identifier-safe image of a byte: kept if it may stand in an
/// identifier, an underscore otherwise.
pub open spec fn ident_byte(b: u8) -> u8 {
    if is_ident_byte(b) {
        b
    } else {
        '_' as u8
    }
}

/// The per-pattern handler identifier: a fixed prefix, then the
/// pattern with every non-identifier byte replaced by an underscore.
pub open spec fn handler_ident_of(pattern: Seq<u8>) -> Seq<u8> {
    lit_bytes("handle_") + pattern.map_values(|b: u8| ident_byte(b))
}

/// Derive the handler identifier for a pattern.
pub fn handler_ident(pattern: &[u8]) -> (r: Vec<u8>)
    ensures
        r@ == handler_ident_of(pattern@),
{
    let mut out = str_to_bytes("handle_");
    let ghost prefix = out@;
    let mut i: usize = 0;
    while i < pattern.len()
        invariant
            prefix == lit_bytes("handle_"),
            i <= pattern@.len(),
            out@ == prefix + pattern@.take(i as int).map_values(|b: u8| ident_byte(b)),
        decreases pattern@.len() - i,
    {
        let b = pattern[i];
        let keep = (48 <= b && b <= 57) || (65 <= b && b <= 90) || (97 <= b && b <= 122) || b
            == '_' as u8;
        if keep {
            out.push(b);
        } else {
            out.push('_' as u8);
        }
        proof {
            assert(out@ =~= prefix + pattern@.take(i + 1).map_values(|b: u8| ident_byte(b)));
        }
        i = i + 1;
    }
    proof {
        assert(pattern@.take(pattern@.len() as int) =~= pattern@);
    }
    out
}

/// Two route declarations collide: same pattern, same method
/// (case-insensitively).
pub open spec fn same_route(a: GuestRoute, b: GuestRoute) -> bool {
    a.pattern@ == b.pattern@ && upper_bytes(a.method@) == upper_bytes(b.method@)
}

/// No two routes collide.
pub open spec fn routes_unique(routes: Seq<GuestRoute>) -> bool {
    forall|i: int, j: int|
        0 <= i < j < routes.len() ==> !same_route(#[trigger] routes[i], #[trigger] routes[j])
}

/// No two topic patterns map to the same handler identifier.
pub open spec fn topics_unique(topics: Seq<GuestTopic>) -> bool {
    forall|i: int, j: int|
        0 <= i < j < topics.len() ==> handler_ident_of((#[trigger] topics[i]).pattern@)
            != handler_ident_of((#[trigger] topics[j]).pattern@)
}

/// One generated HTTP dispatcher arm, for the route of the same index.
#[derive(Debug, Clone)]
pub struct HttpArm {
    pub route: usize,
}

/// One generated messaging arm: the topic it serves and the handler
/// identifier derived from its pattern.
#[derive(Debug, Clone)]
pub struct TopicArm {
    pub topic: usize,
    pub handler: Vec<u8>,
}

/// Why dispatcher generation was rejected.
#[derive(Debug, Clone, PartialEq, Eq)]
pub enum GenError {
    /// Two routes declare the same pattern and method.
    DuplicateRoute { first: usize, second: usize },
    /// Two topic patterns derive the same handler identifier.
    HandlerCollision { first: usize, second: usize },
}

/// The generated dispatchers: one arm per route and one per topic.
#[derive(Debug, Clone)]
pub struct DispatcherModel {
    pub http_arms: Vec<HttpArm>,
    pub topic_arms: Vec<TopicArm>,
}

fn same_route_exec(a: &GuestRoute, b: &GuestRoute) -> (r: bool)
    ensures
        r == same_route(*a, *b),
{
    let am = to_ascii_upper(a.method.as_slice());
    let bm = to_ascii_upper(b.method.as_slice());
    eq_bytes(a.pattern.as_slice(), b.pattern.as_slice()) && eq_bytes(am.as_slice(), bm.as_slice())
}

/// Generate the dispatcher model for a guest configuration: exactly
/// one arm per declared route and per declared topic, in declaration
/// order.  Generation fails on the first duplicate route (same
/// pattern and method) or handler-identifier collision, naming both
/// declaration sites.
pub fn generate_dispatcher(routes: &Vec<GuestRoute>, topics: &Vec<GuestTopic>) -> (r: Result<
    DispatcherModel,
    GenError,
>)
    ensures
        r is Ok <==> routes_unique(routes@) && topics_unique(topics@),
        r matches Ok(m) ==> {
            &&& m.http_arms@.len() == routes@.len()
            &&& forall|i: int| 0 <= i < routes@.len() ==> (#[trigger] m.http_arms@[i]).route == i
            &&& m.topic_arms@.len() == topics@.len()
            &&& forall|i: int|
                0 <= i < topics@.len() ==> (#[trigger] m.topic_arms@[i]).topic == i
                    && m.topic_arms@[i].handler@ == handler_ident_of(topics@[i].pattern@)
        },
        r matches Err(e) ==> match e {
            GenError::DuplicateRoute { first, second } => 0 <= first < second < routes@.len()
                && same_route(routes@[first as int], routes@[second as int]),
            GenError::HandlerCollision { first, second } => 0 <= first < second < topics@.len()
                && handler_ident_of(topics@[first as int].pattern@) == handler_ident_of(
                topics@[second as int].pattern@,
            ),
        },
{
    let mut i: usize = 1;
    while i < routes.len()
        invariant
            1 <= i,
            i <= routes@.len() || routes@.len() == 0,
            forall|a: int, b: int|
                0 <= a < b < i && b < routes@.len() ==> !same_route(
                    #[trigger] routes@[a],
                    #[trigger] routes@[b],
                ),
        decreases routes@.len() - i,
    {
        let mut j: usize = 0;
        while j < i
            invariant
                0 <= j <= i < routes@.len(),
                forall|a: int| 0 <= a < j ==> !same_route(#[trigger] routes@[a], routes@[i as int]),
            decreases i - j,
        {
            if same_route_exec(&routes[j], &routes[i]) {
                return Err(GenError::DuplicateRoute { first: j, second: i });
            }
            j = j + 1;
        }
        i = i + 1;
    }
    let mut i: usize = 1;
    while i < topics.len()
        invariant
            routes_unique(routes@),
            1 <= i,
            i <= topics@.len() || topics@.len() == 0,
            forall|a: int, b: int|
                0 <= a < b < i && b < topics@.len() ==> handler_ident_of(
                    (#[trigger] topics@[a]).pattern@,
                ) != handler_ident_of((#[trigger] topics@[b]).pattern@),
        decreases topics@.len() - i,
    {
        let hi = handler_ident(topics[i].pattern.as_slice());
        let mut j: usize = 0;
        while j < i
            invariant
                0 <= j <= i < topics@.len(),
                hi@ == handler_ident_of(topics@[i as int].pattern@),
                forall|a: int|
                    0 <= a < j ==> handler_ident_of((#[trigger] topics@[a]).pattern@) != hi@,
            decreases i - j,
        {
            let hj = handler_ident(topics[j].pattern.as_slice());
            if eq_bytes(hi.as_slice(), hj.as_slice()) {
                return Err(GenError::HandlerCollision { first: j, second: i });
            }
            j = j + 1;
        }
        i = i + 1;
    }
    let mut http_arms: Vec<HttpArm> = Vec::new();
    let mut k: usize = 0;
    while k < routes.len()
        invariant
            k <= routes@.len(),
            http_arms@.len() == k,
            forall|i: int| 0 <= i < k ==> (#[trigger] http_arms@[i]).route == i,
        decreases routes@.len() - k,
    {
        http_arms.push(HttpArm { route: k });
        k = k + 1;
    }
    let mut topic_arms: Vec<TopicArm> = Vec::new();
    let mut k: usize = 0;
    while k < topics.len()
        invariant
            k <= topics@.len(),
            topic_arms@.len() == k,
            forall|i: int|
                0 <= i < k ==> (#[trigger] topic_arms@[i]).topic == i
                    && topic_arms@[i].handler@ == handler_ident_of(topics@[i].pattern@),
        decreases topics@.len() - k,
    {
        let handler = handler_ident(topics[k].pattern.as_slice());
        topic_arms.push(TopicArm { topic: k, handler });
        k = k + 1;
    }
    Ok(DispatcherModel { http_arms, topic_arms })
}

} // verus!
