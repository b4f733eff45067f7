//! Linker assembly, the per-event store context, and the runtime
//! state.

use qwasr::link::{build_linker, build_linker_report, make_store, surface_outcome, HostSpec,
    Linker, RuntimeState, TaskExit, WasiConfig};
use qwasr::errors::StartError;
use qwasr::traits::Server;

fn host(name: &str, functions: &[&str]) -> HostSpec {
    HostSpec {
        name: name.as_bytes().to_vec(),
        functions: functions.iter().map(|f| f.as_bytes().to_vec()).collect(),
    }
}

#[test]
fn linker_binds_exactly_the_declared_functions() {
    // Every function of every configured host, in declared order, and
    // nothing else.
    let hosts = vec![host("http", &["http.handle", "http.send"]), host("kv", &["kv.get", "kv.set"])];
    let linker = build_linker(&hosts).unwrap();
    let bound: Vec<&[u8]> = linker.funcs.iter().map(|f| f.as_slice()).collect();
    assert_eq!(
        bound,
        vec![
            b"http.handle".as_slice(),
            b"http.send".as_slice(),
            b"kv.get".as_slice(),
            b"kv.set".as_slice(),
        ]
    );
    assert!(linker.contains_func(b"kv.get"));
    assert!(!linker.contains_func(b"sql.query"));
}

#[test]
fn linking_the_same_host_twice_fails_deterministically() {
    let mut linker = Linker::new();
    let h = host("http", &["http.handle"]);
    assert!(linker.link(&h).is_ok());
    match linker.link(&h).unwrap_err() {
        StartError::LinkError(name) => assert_eq!(name, b"http".to_vec()),
        other => panic!("expected LinkError, got {:?}", other),
    }
    // The failed call left the linker unchanged.
    assert_eq!(linker.funcs.len(), 1);
}

#[test]
fn two_fresh_linkers_get_identical_bindings() {
    let h = host("http", &["http.handle", "http.send"]);
    let mut l1 = Linker::new();
    let mut l2 = Linker::new();
    l1.link(&h).unwrap();
    l2.link(&h).unwrap();
    assert_eq!(l1.funcs, l2.funcs);
}

#[test]
fn build_rejects_cross_host_collisions() {
    let hosts = vec![host("a", &["shared.fn"]), host("b", &["shared.fn"])];
    match build_linker(&hosts).unwrap_err() {
        StartError::LinkError(name) => assert_eq!(name, b"b".to_vec()),
        other => panic!("expected LinkError, got {:?}", other),
    }
}

#[test]
fn build_rejects_duplicates_within_a_host() {
    let hosts = vec![host("a", &["f", "f"])];
    assert!(build_linker(&hosts).is_err());
}

#[test]
fn store_context_has_one_context_per_host_and_one_table() {
    let hosts = vec![host("http", &["h"]), host("kv", &["k"]), host("otel", &["o"])];
    let store = make_store(&hosts);
    assert_eq!(store.contexts.len(), 3);
    assert_eq!(store.contexts[0].capability, b"http".to_vec());
    assert_eq!(store.contexts[1].capability, b"kv".to_vec());
    assert_eq!(store.contexts[2].capability, b"otel".to_vec());
    assert!(store.table.handles.is_empty());
}

#[test]
fn runtime_state_builds_and_issues_fresh_stores() {
    let hosts = vec![host("http", &["http.handle"]), host("kv", &["kv.get"])];
    let state = RuntimeState::build(hosts).unwrap();
    let s1 = state.store();
    let s2 = state.store();
    assert_eq!(s1.contexts.len(), 2);
    assert_eq!(s2.contexts.len(), 2);
    assert_eq!(s1.contexts[0].capability, b"http".to_vec());
}

#[test]
fn hosts_without_a_run_loop_return_at_once() {
    // WasiConfig is no server; its run is the default and returns
    // immediately.
    let state = RuntimeState::build(vec![host("wasi-config", &["wasi-config.get"])]).unwrap();
    assert!(<WasiConfig as Server<RuntimeState>>::run(&WasiConfig, &state).is_ok());
}

#[test]
fn wasi_config_links_its_functions() {
    let mut linker = Linker::new();
    WasiConfig::add_to_linker(&mut linker).unwrap();
    assert!(linker.contains_func(b"wasi-config.get"));
    assert!(linker.contains_func(b"wasi-config.get-all"));
    match WasiConfig::add_to_linker(&mut linker).unwrap_err() {
        StartError::LinkError(n) => assert_eq!(n, b"wasi-config".to_vec()),
        other => panic!("expected LinkError, got {:?}", other),
    }
}

#[test]
fn first_non_cancel_error_is_surfaced() {
    // Concurrent start-up steps: the first failure in task order wins;
    // cancellations and clean exits surface nothing.
    let all_good = vec![TaskExit::Clean, TaskExit::Cancelled, TaskExit::Clean];
    assert!(surface_outcome(all_good).is_ok());

    let mixed = vec![
        TaskExit::Cancelled,
        TaskExit::Failed(StartError::BackendUnavailable("broker down".to_string())),
        TaskExit::Failed(StartError::BackendUnavailable("kv down".to_string())),
    ];
    match surface_outcome(mixed).unwrap_err() {
        StartError::BackendUnavailable(msg) => assert_eq!(msg, "broker down"),
        other => panic!("expected BackendUnavailable, got {:?}", other),
    }
}

#[test]
fn aggregated_build_reports_every_failing_host_and_links_the_rest() {
    // b collides with a; d repeats its own function; a and c link.
    let hosts = vec![
        host("a", &["f"]),
        host("b", &["f"]),
        host("c", &["g"]),
        host("d", &["h", "h"]),
    ];
    let (linker, errors) = build_linker_report(&hosts);
    let bound: Vec<&[u8]> = linker.funcs.iter().map(|f| f.as_slice()).collect();
    assert_eq!(bound, vec![b"f".as_slice(), b"g".as_slice()]);
    assert_eq!(errors.len(), 2);
    match &errors[0] {
        StartError::LinkError(n) => assert_eq!(n, &b"b".to_vec()),
        other => panic!("expected LinkError, got {:?}", other),
    }
    match &errors[1] {
        StartError::LinkError(n) => assert_eq!(n, &b"d".to_vec()),
        other => panic!("expected LinkError, got {:?}", other),
    }

    let (clean, none) = build_linker_report(&vec![host("a", &["f"]), host("c", &["g"])]);
    assert!(none.is_empty());
    assert_eq!(clean.funcs.len(), 2);
}
