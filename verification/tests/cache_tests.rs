//! The outbound micro-cache: directive parsing, fingerprint
//! stability, the hit/miss flow, and single flight.

use qwasr::cache::{
    cache_ttl, finalize_upstream, mark_cache_hit, on_fetch_failure, on_lookup, on_lookup_outcome,
    plan_request, CachePlan, FetchDecision, FlightTable,
};
use qwasr::errors::{CapError, ErrorCode};
use qwasr::fingerprint::{fingerprint, FingerprintConfig};
use qwasr::http::{OutboundRequest, OutboundResponse};

fn header(name: &str, value: &str) -> (Vec<u8>, Vec<u8>) {
    (name.as_bytes().to_vec(), value.as_bytes().to_vec())
}

fn request(
    method: &str,
    authority: &str,
    path: &str,
    query: &str,
    headers: Vec<(Vec<u8>, Vec<u8>)>,
    body: &[u8],
) -> OutboundRequest {
    OutboundRequest {
        method: method.as_bytes().to_vec(),
        scheme: b"https".to_vec(),
        authority: authority.as_bytes().to_vec(),
        path: path.as_bytes().to_vec(),
        query: query.as_bytes().to_vec(),
        headers,
        body: body.to_vec(),
    }
}

fn accept_config() -> FingerprintConfig {
    FingerprintConfig { header_names: vec![b"accept".to_vec()] }
}

#[test]
fn cache_ttl_reads_max_age() {
    let req = request("GET", "h", "/", "", vec![header("cache-control", "max-age=60")], b"");
    assert_eq!(cache_ttl(&req), Some(60));
}

#[test]
fn cache_ttl_absent_without_header() {
    let req = request("GET", "h", "/", "", vec![header("accept", "json")], b"");
    assert_eq!(cache_ttl(&req), None);
}

#[test]
fn cache_ttl_handles_directive_lists_and_spaces() {
    let req = request(
        "GET",
        "h",
        "/",
        "",
        vec![header("Cache-Control", "no-transform, max-age=300 , private")],
        b"",
    );
    assert_eq!(cache_ttl(&req), Some(300));
}

#[test]
fn cache_ttl_ignores_malformed_max_age() {
    let bad = request("GET", "h", "/", "", vec![header("cache-control", "max-age=abc")], b"");
    assert_eq!(cache_ttl(&bad), None);
    let empty = request("GET", "h", "/", "", vec![header("cache-control", "max-age=")], b"");
    assert_eq!(cache_ttl(&empty), None);
    let huge = request(
        "GET",
        "h",
        "/",
        "",
        vec![header("cache-control", "max-age=99999999999999999999999")],
        b"",
    );
    assert_eq!(cache_ttl(&huge), None);
    // A later well-formed directive still counts.
    let mixed = request(
        "GET",
        "h",
        "/",
        "",
        vec![header("cache-control", "max-age=abc, max-age=9")],
        b"",
    );
    assert_eq!(cache_ttl(&mixed), Some(9));
}

#[test]
fn fingerprint_known_value() {
    // The canonical serialization and the resulting digest are part
    // of the cache's external contract; this pins them down.
    let req = request(
        "get",
        "Example.COM",
        "/a%2Fb",
        "b=2&a=1",
        vec![header("Accept", "json"), header("cache-control", "max-age=60")],
        b"hello",
    );
    let fp = fingerprint(&req, &accept_config());
    assert_eq!(
        fp,
        b"8398f8bfd42642a6f30c6613cffab4e8e6abc253ce908c8de6d739777868d1e6".to_vec()
    );
}

#[test]
fn fingerprint_round_trip_normalization() {
    // Header order, query order, method and authority case, and
    // equivalent percent-encodings of the path all fingerprint the
    // same.
    let a = request(
        "get",
        "Example.COM",
        "/a%2Fb",
        "b=2&a=1",
        vec![header("Accept", "json"), header("cache-control", "max-age=60")],
        b"hello",
    );
    let b = request(
        "GET",
        "example.com",
        "/a/b",
        "a=1&b=2",
        vec![header("cache-control", "max-age=60"), header("accept", "json")],
        b"hello",
    );
    let cfg = accept_config();
    assert_eq!(fingerprint(&a, &cfg), fingerprint(&b, &cfg));
}

#[test]
fn fingerprint_distinguishes_bodies_and_paths() {
    let cfg = accept_config();
    let a = request("GET", "h", "/x", "", vec![], b"one");
    let b = request("GET", "h", "/x", "", vec![], b"two");
    let c = request("GET", "h", "/y", "", vec![], b"one");
    assert_ne!(fingerprint(&a, &cfg), fingerprint(&b, &cfg));
    assert_ne!(fingerprint(&a, &cfg), fingerprint(&c, &cfg));
}

fn upstream_response() -> OutboundResponse {
    OutboundResponse {
        status: 200,
        headers: vec![header("content-type", "text/plain"), header("transfer-encoding", "chunked")],
        body: b"payload".to_vec(),
    }
}

/// Run one planned call through the cache flow against a tiny
/// in-memory store, counting upstream fetches.
fn run_call(
    req: &OutboundRequest,
    cfg: &FingerprintConfig,
    store: &mut Vec<(Vec<u8>, OutboundResponse)>,
    flights: &mut FlightTable,
    fetches: &mut usize,
) -> OutboundResponse {
    match plan_request(req, cfg) {
        CachePlan::Bypass => {
            *fetches += 1;
            upstream_response()
        },
        CachePlan::Use { key, ttl } => {
            let cached = store
                .iter()
                .find(|e| e.0 == key)
                .map(|e| e.1.clone());
            match on_lookup(cached) {
                FetchDecision::Respond(resp) => resp,
                FetchDecision::Fetch => {
                    let leader = flights.begin(key.as_slice());
                    assert!(leader, "a concurrent fetch for this fingerprint is already running");
                    *fetches += 1;
                    let (resp, write) = finalize_upstream(key.as_slice(), ttl, upstream_response());
                    assert_eq!(write.ttl, ttl);
                    store.push((write.key, write.response));
                    flights.finish(key.as_slice());
                    resp
                },
            }
        },
    }
}

#[test]
fn cache_hit_on_identical_requests() {
    // Two back-to-back identical GETs with max-age=60: one upstream
    // fetch; the second response equals the first except for the
    // cache-hit marker; the etag equals the fingerprint.
    let req = request(
        "GET",
        "example.com",
        "/data",
        "q=1",
        vec![header("cache-control", "max-age=60")],
        b"",
    );
    let cfg = accept_config();
    let mut store = Vec::new();
    let mut flights = FlightTable::new();
    let mut fetches = 0;
    let first = run_call(&req, &cfg, &mut store, &mut flights, &mut fetches);
    let second = run_call(&req, &cfg, &mut store, &mut flights, &mut fetches);
    assert_eq!(fetches, 1);
    let fp = fingerprint(&req, &cfg);
    let etag = first
        .headers
        .iter()
        .find(|h| h.0 == b"etag".to_vec())
        .expect("etag header")
        .1
        .clone();
    assert_eq!(etag, fp);
    // Byte-identical except the appended marker.
    assert_eq!(second.status, first.status);
    assert_eq!(second.body, first.body);
    assert_eq!(second.headers.len(), first.headers.len() + 1);
    assert_eq!(&second.headers[..first.headers.len()], &first.headers[..]);
    assert_eq!(
        second.headers.last().unwrap(),
        &(b"x-cache".to_vec(), b"hit".to_vec())
    );
}

#[test]
fn cache_bypass_without_directive() {
    // The same two GETs without cache-control: two upstream fetches
    // and no etag inserted.
    let req = request("GET", "example.com", "/data", "q=1", vec![], b"");
    let cfg = accept_config();
    let mut store = Vec::new();
    let mut flights = FlightTable::new();
    let mut fetches = 0;
    let first = run_call(&req, &cfg, &mut store, &mut flights, &mut fetches);
    let _second = run_call(&req, &cfg, &mut store, &mut flights, &mut fetches);
    assert_eq!(fetches, 2);
    assert!(store.is_empty());
    assert!(first.headers.iter().all(|h| h.0 != b"etag".to_vec()));
}

#[test]
fn forbidden_headers_are_stripped_from_cached_and_returned_response() {
    // Upstream sends transfer-encoding: chunked; neither the returned
    // nor the stored response carries it.
    let req = request(
        "GET",
        "example.com",
        "/data",
        "",
        vec![header("cache-control", "max-age=60")],
        b"",
    );
    let cfg = accept_config();
    let key = fingerprint(&req, &cfg);
    let (resp, write) = finalize_upstream(key.as_slice(), 60, upstream_response());
    assert!(resp.headers.iter().all(|h| h.0 != b"transfer-encoding".to_vec()));
    assert!(write.response.headers.iter().all(|h| h.0 != b"transfer-encoding".to_vec()));
    // What is stored is what was returned.
    assert_eq!(write.response.headers, resp.headers);
    assert_eq!(write.response.body, resp.body);
    assert_eq!(write.key, key);
}

#[test]
fn finalize_replaces_an_upstream_etag() {
    let upstream = OutboundResponse {
        status: 200,
        headers: vec![header("etag", "stale"), header("x", "y")],
        body: b"b".to_vec(),
    };
    let (resp, _) = finalize_upstream(b"newkey", 5, upstream);
    let etags: Vec<_> = resp.headers.iter().filter(|h| h.0 == b"etag".to_vec()).collect();
    assert_eq!(etags.len(), 1);
    assert_eq!(etags[0].1, b"newkey".to_vec());
}

#[test]
fn single_flight_admits_one_leader_per_key() {
    let mut flights = FlightTable::new();
    assert!(flights.begin(b"k1"));
    assert!(!flights.begin(b"k1"));
    assert!(flights.begin(b"k2"));
    flights.finish(b"k1");
    assert!(flights.begin(b"k1"));
    assert!(!flights.begin(b"k2"));
}

#[test]
fn hit_marker_appends_without_touching_the_rest() {
    let stored = OutboundResponse {
        status: 201,
        headers: vec![header("etag", "e")],
        body: b"x".to_vec(),
    };
    let marked = mark_cache_hit(stored.clone());
    assert_eq!(marked.status, 201);
    assert_eq!(marked.body, stored.body);
    assert_eq!(marked.headers[0], stored.headers[0]);
    assert_eq!(marked.headers[1], (b"x-cache".to_vec(), b"hit".to_vec()));
}

#[test]
fn failed_fetches_release_the_flight_and_cache_nothing() {
    let mut flights = FlightTable::new();
    assert!(flights.begin(b"k"));
    let e = on_fetch_failure(&mut flights, b"k", ErrorCode::ConnectionTimeout);
    assert_eq!(e, ErrorCode::ConnectionTimeout);
    // The key is free again: the next caller may retry as leader.
    assert!(flights.begin(b"k"));
}

#[test]
fn kv_failures_are_swallowed_and_the_call_goes_upstream() {
    // A key-value backend failure never reaches the caller: the call
    // continues uncached, exactly as on a miss.
    let outcome = on_lookup_outcome(Err(CapError::Backend("kv down".to_string())));
    assert!(matches!(outcome, FetchDecision::Fetch));
    let outcome = on_lookup_outcome(Ok(None));
    assert!(matches!(outcome, FetchDecision::Fetch));
    let stored = OutboundResponse { status: 200, headers: vec![], body: b"x".to_vec() };
    match on_lookup_outcome(Ok(Some(stored))) {
        FetchDecision::Respond(r) => {
            assert_eq!(r.body, b"x".to_vec());
            assert_eq!(r.headers, vec![(b"x-cache".to_vec(), b"hit".to_vec())]);
        },
        FetchDecision::Fetch => panic!("expected a hit"),
    }
}
