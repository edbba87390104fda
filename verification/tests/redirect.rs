//! Redirect policy: where a `Location` leads, and the redirects that are
//! refused.

use pelorus::net::hsts::PreloadList;
use pelorus::net::partition::Origin;
use pelorus::net::psl::PublicSuffixList;
use pelorus::net::redirect::{resolve, Chain, RefusedRedirect, MAX_HOPS};


fn psl() -> Option<PublicSuffixList> {
    PublicSuffixList::parse("com\nnet\n").ok()
}

fn secure(host: &str) -> Option<Origin> {
    Origin::new("https", host, 443)
}

#[test]
fn an_absolute_location_moves_origin() {
    let psl = psl().expect("list");
    let from = secure("a.example.com").expect("origin");
    let mut chain = Chain::new();
    let hop = chain
        .follow(
            &psl,
            None,
            "a.example.com",
            &from,
            "https://b.example.net/next",
        )
        .expect("a legitimate redirect");
    assert_eq!(hop.key.origin().host(), "b.example.net");
    assert_eq!(hop.path, "/next");
    assert_eq!(
        hop.key.top_level_site(),
        "example.com",
        "a subresource redirect does not change which page the user is on"
    );
}

#[test]
fn an_absolute_path_keeps_the_origin() {
    let psl = psl().expect("list");
    let from = secure("a.example.com").expect("origin");
    let mut chain = Chain::new();
    let hop = chain
        .follow(&psl, None, "a.example.com", &from, "/elsewhere")
        .expect("valid");
    assert_eq!(hop.key.origin().host(), "a.example.com");
    assert_eq!(hop.path, "/elsewhere");
}

#[test]
fn a_scheme_relative_location_inherits_the_scheme() {
    let psl = psl().expect("list");
    let from = secure("a.example.com").expect("origin");
    let mut chain = Chain::new();
    let hop = chain
        .follow(&psl, None, "a.example.com", &from, "//b.example.net/x")
        .expect("valid");
    assert!(hop.key.origin().is_secure(), "https must be inherited");
}

/// The sslstrip move, refused outright.
#[test]
fn a_downgrade_to_plaintext_is_refused() {
    let psl = psl().expect("list");
    let from = secure("a.example.com").expect("origin");
    let mut chain = Chain::new();
    assert_eq!(
        chain.follow(&psl, None, "a.example.com", &from, "http://a.example.com/x"),
        Err(RefusedRedirect::Downgrade)
    );
}

#[test]
fn a_preloaded_target_over_plaintext_is_refused() {
    let psl = psl().expect("list");
    let list = PreloadList::parse(".secure.example.net").expect("list");
    // From plaintext, so the downgrade rule does not fire first.
    let from = Origin::new("http", "a.example.com", 80).expect("origin");
    let mut chain = Chain::new();
    assert_eq!(
        chain.follow(
            &psl,
            Some(&list),
            "a.example.com",
            &from,
            "http://x.secure.example.net/y"
        ),
        Err(RefusedRedirect::PreloadedHostOverPlaintext)
    );
}

#[test]
fn a_chain_that_repeats_a_url_is_a_loop() {
    let psl = psl().expect("list");
    let from = secure("a.example.com").expect("origin");
    let mut chain = Chain::new();
    chain
        .follow(&psl, None, "a.example.com", &from, "/one")
        .expect("first hop");
    assert_eq!(
        chain.follow(&psl, None, "a.example.com", &from, "/one"),
        Err(RefusedRedirect::Loop),
        "length alone does not catch a two-URL ping-pong"
    );
}

#[test]
fn a_chain_is_bounded_in_length() {
    let psl = psl().expect("list");
    let from = secure("a.example.com").expect("origin");
    let mut chain = Chain::new();
    for index in 0..MAX_HOPS {
        chain
            .follow(&psl, None, "a.example.com", &from, &format!("/{index}"))
            .expect("within the bound");
    }
    assert_eq!(
        chain.follow(&psl, None, "a.example.com", &from, "/last"),
        Err(RefusedRedirect::TooManyHops)
    );
}

/// `https://evil@good.example/` — the classic confusion. Refused rather
/// than silently stripped.
#[test]
fn userinfo_in_the_authority_is_refused() {
    let psl = psl().expect("list");
    let from = secure("a.example.com").expect("origin");
    let mut chain = Chain::new();
    assert_eq!(
        chain.follow(
            &psl,
            None,
            "a.example.com",
            &from,
            "https://evil@good.example.net/"
        ),
        Err(RefusedRedirect::Unresolvable("userinfo in the authority"))
    );
}

#[test]
fn a_scheme_this_crate_does_not_fetch_is_refused() {
    let psl = psl().expect("list");
    let from = secure("a.example.com").expect("origin");
    let mut chain = Chain::new();
    for location in [
        "file:///etc/passwd",
        "javascript:alert(1)",
        "data:text/html,x",
        "ftp://example.net/",
    ] {
        assert!(
            chain
                .follow(&psl, None, "a.example.com", &from, location)
                .is_err(),
            "{location} must not be followed"
        );
    }
}

/// Stated in the module docs and asserted here so it cannot change
/// silently: a Unicode host is refused, not converted.
#[test]
fn a_unicode_host_is_refused_until_there_is_a_real_url_parser() {
    let psl = psl().expect("list");
    let from = secure("a.example.com").expect("origin");
    let mut chain = Chain::new();
    assert!(
        chain
            .follow(&psl, None, "a.example.com", &from, "https://exämple.net/")
            .is_err(),
        "refusing fails closed; converting needs idna, which is not here yet"
    );
}

#[test]
fn a_location_with_a_control_character_is_refused() {
    let psl = psl().expect("list");
    let from = secure("a.example.com").expect("origin");
    let mut chain = Chain::new();
    assert!(
        chain
            .follow(&psl, None, "a.example.com", &from, "/a\rb")
            .is_err()
    );
}

/// A port-looking prefix must not be read as a scheme.
#[test]
fn a_numeric_prefix_is_not_a_scheme() {
    let (origin, path) = resolve(&secure("a.example.com").expect("origin"), "1.2.3.4:80/x")
        .expect("treated as a relative path");
    assert_eq!(
        origin.host(),
        "a.example.com",
        "a leading digit is not a scheme, so this is a relative path"
    );
    assert!(path.contains("1.2.3.4"));
}
