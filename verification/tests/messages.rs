//! The messages errors are shown with, and numbers written in decimal.

use pelorus::net::cookie::Rejected;
use pelorus::net::dns::DnsError;
use pelorus::net::fetch::FetchError;
use pelorus::net::hsts::PreloadError;
use pelorus::net::http1::{Ambiguity, Http1Error};
use pelorus::net::partition::{Origin, PartitionKey};
use pelorus::net::psl::{PslError, PublicSuffixList};
use pelorus::net::redirect::RefusedRedirect;
use pelorus::net::resolver::ResolveError;
use pelorus::numbers::decimal;
use pelorus::sandbox::roots::RootStoreError;

#[test]
fn decimal_writes_what_parsing_reads() {
    assert_eq!(decimal(0), "0");
    assert_eq!(decimal(7), "7");
    assert_eq!(decimal(10), "10");
    assert_eq!(decimal(1_234_567_890), "1234567890");
    assert_eq!(decimal(u64::MAX), u64::MAX.to_string());
    for n in [0u64, 9, 99, 100, 65_535, 4_294_967_296] {
        assert_eq!(decimal(n).parse::<u64>(), Ok(n));
    }
}

#[test]
fn refusals_carry_their_detail() {
    assert_eq!(Rejected::BadAttribute("Max-Age").to_string(), "unparseable Max-Age attribute");
    assert_eq!(Rejected::JarFull.to_string(), "this partition already holds the maximum cookies");
    assert_eq!(Rejected::PrefixViolation("__Host- needs Path=/").to_string(), "__Host- needs Path=/");
    assert_eq!(RefusedRedirect::TooManyHops.to_string(), "more than 10 redirects");
    assert_eq!(
        RefusedRedirect::Unresolvable("no host").to_string(),
        "the Location could not be resolved: no host"
    );
    assert_eq!(ResolveError::BadName("empty").to_string(), "the name cannot be looked up: empty");
    assert_eq!(ResolveError::NotFound.to_string(), "the name did not resolve");
}

#[test]
fn protocol_errors_name_what_went_wrong() {
    assert_eq!(DnsError::ServerFailure(2).to_string(), "the resolver returned rcode 2");
    assert_eq!(DnsError::TooLarge("a label").to_string(), "a label exceeded its limit");
    assert_eq!(
        Http1Error::AmbiguousFraming(Ambiguity::RepeatedContentLength).to_string(),
        format!("ambiguous message framing: {:?}", Ambiguity::RepeatedContentLength)
    );
    assert_eq!(Http1Error::TooLarge { what: "body" }.to_string(), "body exceeded its limit");
    assert_eq!(
        FetchError::Protocol(Http1Error::Truncated).to_string(),
        "malformed response: the peer closed mid-message"
    );
    assert_eq!(FetchError::Tls("bad certificate".to_string()).to_string(), "TLS failed: bad certificate");
    assert_eq!(
        FetchError::BadRequest("the path must be origin-relative").to_string(),
        "cannot build the request: the path must be origin-relative"
    );
    let io = FetchError::Io(std::io::Error::other("reset"));
    assert_eq!(io.to_string(), "transport error: reset");
}

#[test]
fn store_and_list_errors_say_what_they_found() {
    assert_eq!(
        RootStoreError::ImplausiblyFew(3).to_string(),
        "the platform trust store returned 3 anchors, which is too few to be real"
    );
    assert_eq!(RootStoreError::Unsupported.to_string(), "no platform trust store is available here");
    assert_eq!(PslError::Empty.to_string(), "the public suffix list contained no rules");
    assert_eq!(PreloadError::Empty.to_string(), "the HSTS preload list contained no entries");
}

#[test]
fn origins_and_keys_are_written_out_in_full() {
    let origin = Origin::new("HTTPS", "Example.COM", 443).expect("origin");
    assert_eq!(origin.to_string(), "https://example.com:443");
    let psl = PublicSuffixList::parse("com\n").expect("list");
    let key = PartitionKey::new(&psl, "www.example.com", origin).expect("key");
    assert_eq!(key.to_string(), "[example.com | https://example.com:443]");
}
