//! TLS: the trust anchors, the client configuration, and the session for a
//! host. Verification cannot be turned off from here: a TLS failure is
//! [`FetchError::Tls`] and the request does not proceed.
//!
//! The anchors are the bundled Mozilla store, and [`root_store`] says so
//! rather than passing the floor off as the platform's store.
use vstd::prelude::*;
use std::sync::Arc;
use rustls::pki_types::ServerName;
use rustls::{ClientConfig, ClientConnection, RootCertStore};
use crate::net::fetch::FetchError;
use crate::text_ops::push_str;

verus! {

#[verifier::external_type_specification]
#[verifier::external_body]
pub struct ExRootCertStore(RootCertStore);

#[verifier::external_type_specification]
#[verifier::external_body]
pub struct ExClientConfig(ClientConfig);

#[verifier::external_type_specification]
#[verifier::external_body]
pub struct ExClientConnection(ClientConnection);

#[verifier::external_type_specification]
#[verifier::external_body]
pub struct ExTlsError(rustls::Error);

/// Which store the trust anchors came from.
#[derive(Debug, Clone, Copy, PartialEq, Eq, Structural)]
pub enum AnchorSource {
    /// The operating system's store.
    Platform,
    /// The bundled Mozilla store, used when the platform's is not.
    BundledFloor,
}

/// How many anchors the bundled store holds.
pub const BUNDLED_ROOTS: usize = 120;

/// The trust anchors `store` holds, in order, each as its subject's DER
/// bytes.
pub uninterp spec fn anchors(store: RootCertStore) -> Seq<Seq<u8>>;

/// The anchors the server-certificate verifier of `config` trusts.
pub uninterp spec fn config_anchors(config: ClientConfig) -> Seq<Seq<u8>>;

/// The protocols `config` offers by ALPN, in preference order.
pub uninterp spec fn alpn_offered(config: ClientConfig) -> Seq<Seq<u8>>;

/// Whether `host` names a server: a DNS name, or an IP address literal.
pub uninterp spec fn valid_server_name(host: Seq<char>) -> bool;

/// `RootCertStore::empty`: a store with no anchors.
#[verifier::external_body]
fn empty_store() -> (r: RootCertStore)
    ensures
        anchors(r) == Seq::<Seq<u8>>::empty(),
{
    RootCertStore::empty()
}

/// `RootCertStore::extend` with `webpki_roots::TLS_SERVER_ROOTS`: the
/// bundled anchors appended after those already held.
#[verifier::external_body]
fn add_bundled_roots(store: &mut RootCertStore)
    ensures
        anchors(*final(store)).len() == anchors(*old(store)).len() + BUNDLED_ROOTS,
        anchors(*final(store)).take(anchors(*old(store)).len() as int) == anchors(*old(store)),
{
    store.extend(webpki_roots::TLS_SERVER_ROOTS.iter().cloned());
}

/// `ClientConfig::builder().with_root_certificates(roots)
/// .with_no_client_auth()`, the crate's one way to build a client
/// configuration: the default protocol versions (TLS 1.2 and 1.3), the
/// process's crypto provider (installed from the crate's one provider
/// feature, `ring`, so the builder's documented panics do not arise), a
/// web-PKI verifier without revocation checking that trusts exactly `roots`,
/// no client certificate, and no ALPN protocol.
#[verifier::external_body]
fn config_trusting(roots: RootCertStore) -> (r: ClientConfig)
    ensures
        config_anchors(r) == anchors(roots),
        alpn_offered(r) == Seq::<Seq<u8>>::empty(),
{
    ClientConfig::builder().with_root_certificates(roots).with_no_client_auth()
}

/// Sets `ClientConfig::alpn_protocols`: the configuration then offers
/// `protocols`, and nothing else about it changes.
#[verifier::external_body]
fn offer_alpn(config: &mut ClientConfig, protocols: Vec<Vec<u8>>)
    ensures
        alpn_offered(*final(config)) == protocols@.map_values(|p: Vec<u8>| p@),
        config_anchors(*final(config)) == config_anchors(*old(config)),
{
    config.alpn_protocols = protocols;
}

/// Whether `ServerName::try_from` accepts an owned copy of `host`.
#[verifier::external_body]
fn is_server_name(host: &str) -> (r: bool)
    ensures
        r == valid_server_name(host@),
{
    ServerName::try_from(host.to_owned()).is_ok()
}

/// `ClientConnection::new` with `config`, for the server `host` names,
/// converted by `ServerName::try_from`. Whether it succeeds is not stated:
/// the session draws its keys and randoms from the crypto provider.
#[verifier::external_body]
fn new_connection(config: Arc<ClientConfig>, host: &str) -> (r: Result<ClientConnection, rustls::Error>)
    requires
        valid_server_name(host@),
{
    match ServerName::try_from(host.to_owned()) {
        Ok(name) => ClientConnection::new(config, name),
        Err(error) => Err(rustls::Error::General(error.to_string())),
    }
}

/// The `Display` text of a `rustls::Error`. What it says is not stated.
#[verifier::external_body]
fn error_text(error: &rustls::Error) -> (r: String) {
    error.to_string()
}

/// `http/1.1`, as bytes.
pub open spec fn http_11() -> Seq<u8> {
    seq![104u8, 116, 116, 112, 47, 49, 46, 49]
}

/// The trust anchors, and which store they came from: for now always the
/// bundled floor, never empty.
pub fn root_store() -> (r: (RootCertStore, AnchorSource))
    ensures
        r.1 == AnchorSource::BundledFloor,
        anchors(r.0).len() == BUNDLED_ROOTS,
{
    let mut store = empty_store();
    add_bundled_roots(&mut store);
    (store, AnchorSource::BundledFloor)
}

/// The client configuration: it trusts the anchors of [`root_store`] and
/// offers HTTP/1.1 by ALPN and nothing else, since nothing else is spoken.
pub fn client_config() -> (r: Result<Arc<ClientConfig>, FetchError>)
    ensures
        r matches Ok(c) && alpn_offered(*c) == seq![http_11()] && config_anchors(*c).len() == BUNDLED_ROOTS,
{
    let (roots, _source) = root_store();
    let mut config = config_trusting(roots);
    let mut protocols: Vec<Vec<u8>> = Vec::new();
    protocols.push(vec![104u8, 116, 116, 112, 47, 49, 46, 49]);
    proof {
        assert(protocols@.map_values(|p: Vec<u8>| p@) =~= seq![http_11()]);
    }
    offer_alpn(&mut config, protocols);
    Ok(Arc::new(config))
}

/// A TLS session to `host`, with the configuration of [`client_config`]:
/// refused with a message naming the host when `host` is not a server
/// name, and refused with the library's reason when the session cannot be
/// set up.
pub fn connection(host: &str) -> (r: Result<ClientConnection, FetchError>)
    ensures
        !valid_server_name(host@) ==> (r matches Err(FetchError::Tls(m)) && m@ == host@
            + " is not a valid server name"@),
        valid_server_name(host@) ==> (r is Ok || r matches Err(FetchError::Tls(_))),
{
    let config = match client_config() {
        Ok(c) => c,
        Err(e) => {
            return Err(e);
        },
    };
    if !is_server_name(host) {
        let mut message = String::new();
        push_str(&mut message, host);
        push_str(&mut message, " is not a valid server name");
        return Err(FetchError::Tls(message));
    }
    match new_connection(config, host) {
        Ok(c) => Ok(c),
        Err(e) => Err(FetchError::Tls(error_text(&e))),
    }
}

} // verus!
