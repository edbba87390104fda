//! The public suffix list refuses a list with no rules.

use pelorus::net::psl::PublicSuffixList;

/// An empty list makes every host its own registrable domain, which merges
/// every subdomain of every site into a single partition. That is failing
/// open, silently, in the one direction that matters.
#[test]
fn psl_version_an_empty_list_is_refused_rather_than_accepted() {
    assert!(
        PublicSuffixList::parse("// only a comment\n\n").is_err(),
        "a list with no rules must be an error; accepting it would widen every \
         partition boundary at once"
    );
}

#[test]
fn psl_version_wildcards_and_exceptions_follow_the_algorithm() {
    let psl = PublicSuffixList::parse("com\n*.ck\n!www.ck\n").expect("valid list");
    assert_eq!(psl.registrable_domain("a.example.com").as_deref(), Some("example.com"));
    assert_eq!(psl.registrable_domain("bar.foo.ck").as_deref(), Some("bar.foo.ck"));
    assert_eq!(psl.registrable_domain("foo.ck"), None);
    assert_eq!(psl.registrable_domain("www.ck").as_deref(), Some("www.ck"));
    assert_eq!(psl.registrable_domain("a.b.unknowntld").as_deref(), Some("b.unknowntld"));
}
