//! TLS: where the anchors come from, what the configuration offers, and
//! which hosts a session can be opened to.

use pelorus::net::fetch::FetchError;
use pelorus::net::tls::{client_config, connection, root_store, AnchorSource, BUNDLED_ROOTS};

#[test]
fn anchors_report_which_store_they_came_from() {
    let (store, source) = root_store();
    assert!(!store.is_empty(), "an empty trust store would fail every connection");
    assert_eq!(source, AnchorSource::BundledFloor, "the floor is what is used, and it says so");
    assert_eq!(store.len(), webpki_roots::TLS_SERVER_ROOTS.len());
    assert_eq!(store.len(), BUNDLED_ROOTS);
}

#[test]
fn anchors_are_stable_across_reads() {
    let (first, first_source) = root_store();
    let (second, second_source) = root_store();
    assert_eq!(first.len(), second.len());
    assert_eq!(first_source, second_source);
}

#[test]
fn tls_offers_http_1_1_only() {
    let config = client_config().expect("a configuration");
    assert_eq!(config.alpn_protocols, vec![b"http/1.1".to_vec()]);
}

#[test]
fn tls_refuses_a_host_that_is_not_a_server_name() {
    match connection("not a host") {
        Err(FetchError::Tls(message)) => assert_eq!(message, "not a host is not a valid server name"),
        other => panic!("expected a refusal, got {other:?}"),
    }
}

#[test]
fn tls_opens_a_session_for_a_name_or_an_address() {
    assert!(connection("example.com").is_ok());
    assert!(connection("127.0.0.1").is_ok());
}
