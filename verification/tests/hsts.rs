//! The HSTS preload list: exact and subdomain entries, label-wise matching,
//! and the upgrade of a plaintext origin.

use pelorus::net::hsts::PreloadList;
use pelorus::net::partition::Origin;


fn list() -> Option<PreloadList> {
    PreloadList::parse(".example.com\nexact.test\n.co.uk\n").ok()
}

#[test]
fn an_exact_entry_matches_only_itself() {
    let list = list().expect("a valid list");
    assert!(list.requires_https("exact.test"));
    assert!(
        !list.requires_https("sub.exact.test"),
        "an entry without a leading dot must not cover subdomains"
    );
}

#[test]
fn a_subdomain_entry_covers_the_host_and_everything_under_it() {
    let list = list().expect("a valid list");
    assert!(list.requires_https("example.com"));
    assert!(list.requires_https("a.example.com"));
    assert!(list.requires_https("a.b.c.example.com"));
}

/// The bug a suffix comparison produces, and the reason this walks labels.
#[test]
fn matching_does_not_cross_a_label_boundary() {
    let list = list().expect("a valid list");
    assert!(
        !list.requires_https("notexample.com"),
        "'notexample.com' ends with 'example.com' as a string and is a \
         different site; a suffix comparison would wrongly cover it"
    );
    assert!(!list.requires_https("example.com.evil.test"));
}

#[test]
fn an_unlisted_host_is_not_preloaded() {
    let list = list().expect("a valid list");
    assert!(!list.requires_https("example.org"));
    assert!(!list.requires_https(""));
}

#[test]
fn case_and_a_trailing_dot_do_not_change_the_answer() {
    let list = list().expect("a valid list");
    assert!(list.requires_https("A.Example.COM."));
}

#[test]
fn an_empty_list_is_refused_rather_than_accepted() {
    assert!(PreloadList::parse("# only a comment").is_err());
}

#[test]
fn upgrading_rewrites_the_scheme_and_the_default_port_only() {
    let list = list().expect("a valid list");

    let plain = Origin::new("http", "a.example.com", 80).expect("origin");
    let upgraded = list.upgrade(&plain).expect("a preloaded host upgrades");
    assert_eq!(upgraded.scheme(), "https");
    assert_eq!(upgraded.port(), 443);

    // A deliberate non-default port is kept: a host served on 8080 is not
    // served on 8443 by implication.
    let odd = Origin::new("http", "a.example.com", 8080).expect("origin");
    let upgraded = list.upgrade(&odd).expect("still preloaded");
    assert_eq!(upgraded.port(), 8080);

    // Nothing to correct.
    let secure = Origin::new("https", "a.example.com", 443).expect("origin");
    assert_eq!(list.upgrade(&secure), None);
    let unlisted = Origin::new("http", "example.org", 80).expect("origin");
    assert_eq!(list.upgrade(&unlisted), None);
}
