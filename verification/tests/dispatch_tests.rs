//! Guest dispatch: route matching, query decoding, topic matching,
//! and dispatcher generation.

use qwasr::dispatch::{
    dispatch_http, dispatch_topic, error_response, generate_dispatcher, handler_ident,
    match_route, parse_query, DecoderKind, GenError, GuestRoute, GuestTopic,
};
use qwasr::errors::DispatchError;

fn route(pattern: &str, method: &str, decoder: DecoderKind) -> GuestRoute {
    GuestRoute {
        pattern: pattern.as_bytes().to_vec(),
        method: method.as_bytes().to_vec(),
        decoder,
    }
}

fn topic(pattern: &str) -> GuestTopic {
    GuestTopic { pattern: pattern.as_bytes().to_vec() }
}

#[test]
fn http_route_dispatch_with_query() {
    // One route `/jobs/detector` with method get and a query decoder;
    // a GET for `/jobs/detector?vehicle_id=abc` must reach it with
    // vehicle_id = "abc".
    let routes = vec![route("/jobs/detector", "get", DecoderKind::WithQuery)];
    let m = dispatch_http(&routes, b"GET", b"/jobs/detector", b"vehicle_id=abc", b"").unwrap();
    assert_eq!(m.route, 0);
    assert!(m.params.is_empty());
    assert_eq!(m.query_pairs.len(), 1);
    assert_eq!(m.query_pairs[0].0, b"vehicle_id".to_vec());
    assert_eq!(m.query_pairs[0].1, b"abc".to_vec());
    assert!(m.body.is_empty());
}

#[test]
fn http_route_dispatch_path_placeholders() {
    // `{vehicle_id}` and `{trip_id}` segments capture their path
    // segments, and a body decoder sees the raw body.
    let routes = vec![
        route("/jobs/detector", "get", DecoderKind::WithQuery),
        route("/god-mode/set-trip/{vehicle_id}/{trip_id}", "post", DecoderKind::WithBody),
    ];
    let body = br#"{"state":"ok"}"#;
    let m = dispatch_http(&routes, b"POST", b"/god-mode/set-trip/v1/t7", b"", body).unwrap();
    assert_eq!(m.route, 1);
    assert_eq!(m.params.len(), 2);
    assert_eq!(m.params[0].0, b"vehicle_id".to_vec());
    assert_eq!(m.params[0].1, b"v1".to_vec());
    assert_eq!(m.params[1].0, b"trip_id".to_vec());
    assert_eq!(m.params[1].1, b"t7".to_vec());
    assert_eq!(m.body, body.to_vec());
    assert!(m.query_pairs.is_empty());
}

#[test]
fn http_route_miss_names_path() {
    let routes = vec![route("/jobs/detector", "get", DecoderKind::Plain)];
    let e = dispatch_http(&routes, b"GET", b"/nowhere", b"", b"").unwrap_err();
    match e {
        DispatchError::RouteMiss { path } => assert_eq!(path, b"/nowhere".to_vec()),
        other => panic!("expected RouteMiss, got {:?}", other),
    }
}

#[test]
fn http_method_must_match() {
    let routes = vec![route("/jobs/detector", "get", DecoderKind::Plain)];
    assert!(dispatch_http(&routes, b"POST", b"/jobs/detector", b"", b"").is_err());
    // Methods compare case-insensitively.
    assert!(dispatch_http(&routes, b"get", b"/jobs/detector", b"", b"").is_ok());
}

#[test]
fn most_literal_route_wins() {
    // Of the matching routes the most specific one — the most literal
    // segments — wins, wherever it is declared.
    let routes = vec![
        route("/a/{x}", "get", DecoderKind::Plain),
        route("/a/b", "get", DecoderKind::Plain),
    ];
    let m = dispatch_http(&routes, b"GET", b"/a/b", b"", b"").unwrap();
    assert_eq!(m.route, 1);
    // A request only the placeholder route matches still reaches it.
    let m = dispatch_http(&routes, b"GET", b"/a/z", b"", b"").unwrap();
    assert_eq!(m.route, 0);
}

#[test]
fn equally_specific_routes_tie_by_declaration_order() {
    let routes = vec![
        route("/v/{x}/up", "get", DecoderKind::Plain),
        route("/v/{y}/up", "get", DecoderKind::Plain),
    ];
    let m = dispatch_http(&routes, b"GET", b"/v/7/up", b"", b"").unwrap();
    assert_eq!(m.route, 0);
}

#[test]
fn match_route_requires_full_match() {
    assert!(match_route(b"/a/b", b"/a/b").is_some());
    assert!(match_route(b"/a/b", b"/a").is_none());
    assert!(match_route(b"/a/b", b"/a/b/c").is_none());
    assert!(match_route(b"/a/{x}", b"/a/zzz").is_some());
    assert!(match_route(b"/a/{x}", b"/b/zzz").is_none());
}

#[test]
fn placeholder_values_are_percent_decoded() {
    let caps = match_route(b"/v/{id}", b"/v/a%20b").unwrap();
    assert_eq!(caps[0].1, b"a b".to_vec());
}

#[test]
fn parse_query_pairs_and_decoding() {
    let pairs = parse_query(b"a=1&b=two%20words&flag&empty=&x%3Dy=z");
    assert_eq!(pairs.len(), 5);
    assert_eq!(pairs[0], (b"a".to_vec(), b"1".to_vec()));
    assert_eq!(pairs[1], (b"b".to_vec(), b"two words".to_vec()));
    assert_eq!(pairs[2], (b"flag".to_vec(), b"".to_vec()));
    assert_eq!(pairs[3], (b"empty".to_vec(), b"".to_vec()));
    // Only the raw `=` splits; an encoded one stays in the key.
    assert_eq!(pairs[4], (b"x=y".to_vec(), b"z".to_vec()));
}

#[test]
fn parse_query_skips_empty_parts() {
    let pairs = parse_query(b"a=1&&b=2");
    assert_eq!(pairs.len(), 2);
    assert!(parse_query(b"").is_empty());
}

#[test]
fn topic_dispatch_by_substring() {
    // Pattern `realtime-r9k.v1` matches topic `realtime-r9k.v1.north`
    // by containment.
    let topics = vec![topic("realtime-r9k.v1")];
    assert_eq!(dispatch_topic(&topics, b"realtime-r9k.v1.north").unwrap(), 0);
}

#[test]
fn topic_dispatch_first_match_wins_and_miss_is_named() {
    let topics = vec![topic("alpha"), topic("beta")];
    assert_eq!(dispatch_topic(&topics, b"xx-beta-alpha-yy").unwrap(), 0);
    assert_eq!(dispatch_topic(&topics, b"only-beta").unwrap(), 1);
    match dispatch_topic(&topics, b"gamma").unwrap_err() {
        DispatchError::TopicMiss { topic } => assert_eq!(topic, b"gamma".to_vec()),
        other => panic!("expected TopicMiss, got {:?}", other),
    }
}

#[test]
fn handler_ident_replaces_non_identifier_bytes() {
    assert_eq!(handler_ident(b"realtime-r9k.v1"), b"handle_realtime_r9k_v1".to_vec());
    assert_eq!(handler_ident(b"abc_XYZ09"), b"handle_abc_XYZ09".to_vec());
}

#[test]
fn generation_emits_one_arm_per_declaration() {
    let routes = vec![
        route("/jobs/detector", "get", DecoderKind::WithQuery),
        route("/god-mode/set-trip/{vehicle_id}/{trip_id}", "post", DecoderKind::WithBody),
    ];
    let topics = vec![topic("realtime-r9k.v1")];
    let m = generate_dispatcher(&routes, &topics).unwrap();
    assert_eq!(m.http_arms.len(), 2);
    assert_eq!(m.http_arms[0].route, 0);
    assert_eq!(m.http_arms[1].route, 1);
    assert_eq!(m.topic_arms.len(), 1);
    assert_eq!(m.topic_arms[0].topic, 0);
    assert_eq!(m.topic_arms[0].handler, b"handle_realtime_r9k_v1".to_vec());
}

#[test]
fn generation_rejects_duplicate_routes() {
    // Same pattern and method (method case-insensitively) is a
    // build-time failure naming both declarations.
    let routes = vec![
        route("/a", "get", DecoderKind::Plain),
        route("/b", "get", DecoderKind::Plain),
        route("/a", "GET", DecoderKind::WithQuery),
    ];
    match generate_dispatcher(&routes, &Vec::new()).unwrap_err() {
        GenError::DuplicateRoute { first, second } => {
            assert_eq!(first, 0);
            assert_eq!(second, 2);
        },
        other => panic!("expected DuplicateRoute, got {:?}", other),
    }
}

#[test]
fn generation_rejects_handler_collisions() {
    // `a.b` and `a-b` derive the same identifier.
    let topics = vec![topic("a.b"), topic("a-b")];
    match generate_dispatcher(&Vec::new(), &topics).unwrap_err() {
        GenError::HandlerCollision { first, second } => {
            assert_eq!(first, 0);
            assert_eq!(second, 1);
        },
        other => panic!("expected HandlerCollision, got {:?}", other),
    }
}

#[test]
fn error_responses_carry_status_and_name_the_cause() {
    let miss = error_response(&DispatchError::RouteMiss { path: b"/x".to_vec() });
    assert_eq!(miss.status, 404);
    assert_eq!(miss.body, b"no route for /x".to_vec());

    let topic = error_response(&DispatchError::TopicMiss { topic: b"t.v9".to_vec() });
    assert_eq!(topic.status, 404);
    assert_eq!(topic.body, b"unhandled topic: t.v9".to_vec());

    let decode = error_response(&DispatchError::DecodeError { message: b"bad json".to_vec() });
    assert_eq!(decode.status, 400);
    assert_eq!(decode.body, b"bad json".to_vec());

    let handler = error_response(&DispatchError::HandlerError { message: b"boom".to_vec() });
    assert_eq!(handler.status, 500);
    assert_eq!(handler.body, b"boom".to_vec());
}
