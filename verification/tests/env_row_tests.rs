//! Environment binding, row decoding, the outbound host adapter, and
//! transport error classification.

use qwasr::env::{check_env, env_lookup, missing_vars};
use qwasr::errors::{ErrorCode, StartError};
use qwasr::errors::classify_transport_error;
use qwasr::http::{header_value, remove_header, OutboundRequest, OutboundResponse};
use qwasr::outbound::{
    clean_response, is_forbidden_header, prepare_outbound, strip_forbidden, ConnectOptions,
    HttpDefault,
};
use qwasr::traits::{Backend, FromEnv};
use qwasr::row::{
    as_binary, as_bool, as_i32, as_i64, as_string, as_u32, as_u64, is_null, row_field, DataType,
    FetchValue, Field, OrmError, Row,
};

fn env(pairs: &[(&str, &str)]) -> Vec<(String, String)> {
    pairs.iter().map(|(k, v)| (k.to_string(), v.to_string())).collect()
}

#[test]
fn env_lookup_first_match_wins() {
    let e = env(&[("A", "1"), ("B", "2"), ("A", "3")]);
    assert_eq!(env_lookup(&e, &"A".to_string()), Some("1".to_string()));
    assert_eq!(env_lookup(&e, &"C".to_string()), None);
}

#[test]
fn missing_vars_reports_every_absent_name() {
    let e = env(&[("NATS_URL", "nats://h")]);
    let required = vec!["NATS_URL".to_string(), "REDIS_URL".to_string(), "SQL_DSN".to_string()];
    assert_eq!(missing_vars(&required, &e), vec!["REDIS_URL".to_string(), "SQL_DSN".to_string()]);
    match check_env(&required, &e).unwrap_err() {
        StartError::ConfigMissing(names) => {
            assert_eq!(names, vec!["REDIS_URL".to_string(), "SQL_DSN".to_string()])
        },
        other => panic!("expected ConfigMissing, got {:?}", other),
    }
    assert!(check_env(&vec!["NATS_URL".to_string()], &e).is_ok());
}

#[test]
fn backend_protocol_connects_from_environment_options() {
    let opts = <ConnectOptions as FromEnv>::from_env(&env(&[("HTTP_ADDR", "http://x")])).unwrap();
    assert_eq!(opts.addr, "http://x");
    assert!(<HttpDefault as Backend>::connect_with(opts).is_ok());
}

#[test]
fn connect_options_default_and_override() {
    let opts = ConnectOptions::from_pairs(&env(&[]));
    assert_eq!(opts.addr, "http://localhost:8080");
    let opts = ConnectOptions::from_pairs(&env(&[("HTTP_ADDR", "http://inner:99")]));
    assert_eq!(opts.addr, "http://inner:99");
    assert!(HttpDefault::connect_with(opts).is_ok());
}

fn row(fields: &[(&str, DataType)]) -> Row {
    Row {
        fields: fields
            .iter()
            .map(|(n, v)| Field { name: n.to_string(), value: v.clone() })
            .collect(),
    }
}

#[test]
fn row_field_finds_first_and_names_missing_columns() {
    let r = row(&[("id", DataType::Int32(Some(7))), ("id", DataType::Int32(Some(9)))]);
    match row_field(&r, "id").unwrap() {
        DataType::Int32(Some(v)) => assert_eq!(*v, 7),
        other => panic!("unexpected value {:?}", other),
    }
    match row_field(&r, "missing").unwrap_err() {
        OrmError::MissingColumn(name) => assert_eq!(name, "missing"),
        other => panic!("expected MissingColumn, got {:?}", other),
    }
}

#[test]
fn null_detection_covers_every_type() {
    assert!(is_null(&DataType::Boolean(None)));
    assert!(is_null(&DataType::Str(None)));
    assert!(is_null(&DataType::Timestamp(None)));
    assert!(!is_null(&DataType::Boolean(Some(false))));
    assert!(!is_null(&DataType::Uint64(Some(0))));
}

#[test]
fn typed_accessors_accept_exactly_their_type() {
    assert_eq!(as_bool(&DataType::Boolean(Some(true))), Ok(true));
    assert_eq!(as_i32(&DataType::Int32(Some(-5))), Ok(-5));
    assert_eq!(as_i64(&DataType::Int64(Some(1 << 40))), Ok(1 << 40));
    assert_eq!(as_u32(&DataType::Uint32(Some(5))), Ok(5));
    assert_eq!(as_u64(&DataType::Uint64(Some(6))), Ok(6));
    assert_eq!(as_string(&DataType::Str(Some("s".to_string()))), Ok("s".to_string()));
    assert_eq!(as_binary(&DataType::Binary(Some(vec![1, 2]))), Ok(vec![1, 2]));
    assert_eq!(as_bool(&DataType::Int32(Some(1))), Err(OrmError::UnexpectedType));
    assert_eq!(as_bool(&DataType::Boolean(None)), Err(OrmError::UnexpectedType));
    assert_eq!(as_string(&DataType::Binary(Some(vec![]))), Err(OrmError::UnexpectedType));
}

#[test]
fn fetch_value_impls_and_option_semantics() {
    let r = row(&[
        ("flag", DataType::Boolean(Some(true))),
        ("n", DataType::Int64(Some(12))),
        ("name", DataType::Str(Some("x".to_string()))),
        ("blob", DataType::Binary(Some(vec![9]))),
        ("absent_type", DataType::Str(None)),
    ]);
    assert_eq!(bool::fetch(&r, "flag"), Ok(true));
    assert_eq!(i64::fetch(&r, "n"), Ok(12));
    assert_eq!(String::fetch(&r, "name"), Ok("x".to_string()));
    assert_eq!(<Vec<u8>>::fetch(&r, "blob"), Ok(vec![9]));
    // Option: missing column and NULL cell read as None; a present
    // non-NULL cell must convert.
    assert_eq!(<Option<bool>>::fetch(&r, "nowhere"), Ok(None));
    assert_eq!(<Option<String>>::fetch(&r, "absent_type"), Ok(None));
    assert_eq!(<Option<i64>>::fetch(&r, "n"), Ok(Some(12)));
    assert_eq!(<Option<bool>>::fetch(&r, "n"), Err(OrmError::UnexpectedType));
}

#[test]
fn transport_errors_classify_by_kind() {
    assert_eq!(
        classify_transport_error(true, false, false, String::new()),
        ErrorCode::ConnectionTimeout
    );
    assert_eq!(
        classify_transport_error(false, true, false, String::new()),
        ErrorCode::ConnectionRefused
    );
    assert_eq!(
        classify_transport_error(false, false, true, String::new()),
        ErrorCode::HttpRequestUriInvalid
    );
    assert_eq!(
        classify_transport_error(false, false, false, "boom".to_string()),
        ErrorCode::InternalError(Some("boom".to_string()))
    );
}

#[test]
fn forbidden_set_matches_case_insensitively() {
    assert!(is_forbidden_header(b"transfer-encoding"));
    assert!(is_forbidden_header(b"Transfer-Encoding"));
    assert!(is_forbidden_header(b"KEEP-ALIVE"));
    assert!(is_forbidden_header(b"http2-settings"));
    assert!(!is_forbidden_header(b"content-type"));
    assert!(!is_forbidden_header(b"etag"));
}

#[test]
fn stripping_removes_only_the_forbidden_headers() {
    let headers = vec![
        (b"Connection".to_vec(), b"close".to_vec()),
        (b"content-type".to_vec(), b"json".to_vec()),
        (b"Upgrade".to_vec(), b"h2".to_vec()),
        (b"x-app".to_vec(), b"1".to_vec()),
    ];
    let kept = strip_forbidden(&headers);
    assert_eq!(
        kept,
        vec![
            (b"content-type".to_vec(), b"json".to_vec()),
            (b"x-app".to_vec(), b"1".to_vec()),
        ]
    );
    let resp = OutboundResponse { status: 204, headers, body: vec![] };
    let cleaned = clean_response(resp);
    assert_eq!(cleaned.status, 204);
    assert_eq!(cleaned.headers.len(), 2);
}

fn outbound(headers: Vec<(Vec<u8>, Vec<u8>)>) -> OutboundRequest {
    OutboundRequest {
        method: b"POST".to_vec(),
        scheme: b"https".to_vec(),
        authority: b"h".to_vec(),
        path: b"/p".to_vec(),
        query: b"".to_vec(),
        headers,
        body: b"payload".to_vec(),
    }
}

#[test]
fn prepare_outbound_decodes_and_removes_the_client_cert() {
    // "aGVsbG8=" is Base64 for "hello".
    let req = outbound(vec![
        (b"Client-Cert".to_vec(), b"aGVsbG8=".to_vec()),
        (b"accept".to_vec(), b"json".to_vec()),
    ]);
    let prepared = prepare_outbound(req).unwrap();
    assert_eq!(prepared.identity_pem, Some(b"hello".to_vec()));
    assert_eq!(prepared.request.headers, vec![(b"accept".to_vec(), b"json".to_vec())]);
    assert_eq!(prepared.request.body, b"payload".to_vec());
}

#[test]
fn prepare_outbound_without_cert_passes_through() {
    let req = outbound(vec![(b"accept".to_vec(), b"json".to_vec())]);
    let prepared = prepare_outbound(req).unwrap();
    assert_eq!(prepared.identity_pem, None);
    assert_eq!(prepared.request.headers, vec![(b"accept".to_vec(), b"json".to_vec())]);
}

#[test]
fn prepare_outbound_rejects_bad_base64_with_a_message() {
    let req = outbound(vec![(b"client-cert".to_vec(), b"!!!not-base64!!!".to_vec())]);
    match prepare_outbound(req).unwrap_err() {
        ErrorCode::InternalError(Some(msg)) => {
            assert_eq!(msg, "invalid Client-Cert encoding")
        },
        other => panic!("expected InternalError with a message, got {:?}", other),
    }
}

#[test]
fn backend_connect_composes_binding_and_connecting() {
    assert!(<HttpDefault as Backend>::connect(&env(&[])).is_ok());
    assert!(<HttpDefault as Backend>::connect(&env(&[("HTTP_ADDR", "http://y")])).is_ok());
}

#[test]
fn header_utilities_are_case_insensitive() {
    let headers = vec![
        (b"X-One".to_vec(), b"1".to_vec()),
        (b"x-two".to_vec(), b"2".to_vec()),
        (b"X-ONE".to_vec(), b"3".to_vec()),
    ];
    assert_eq!(header_value(&headers, b"x-one"), Some(b"1".to_vec()));
    assert_eq!(header_value(&headers, b"X-TWO"), Some(b"2".to_vec()));
    assert_eq!(header_value(&headers, b"x-three"), None);
    let rest = remove_header(&headers, b"x-one");
    assert_eq!(rest, vec![(b"x-two".to_vec(), b"2".to_vec())]);
}
