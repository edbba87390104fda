//! The choice of resolver, and the shipped provider list.

use pelorus::net::dns::Address;
use pelorus::net::partition::{Origin, PartitionKey};
use pelorus::net::psl::PublicSuffixList;
use pelorus::net::resolver::{
    check_lookup_name, lookup_outcome, parse_providers, Cache, ResolveError, Resolver, CACHE_TTL_MILLIS, MAX_NAMES_PER_KEY,
};

#[test]
fn the_preselected_resolver_is_the_system_one() {
    assert_eq!(Resolver::system(), Resolver::System);
    assert!(
        !Resolver::system().is_encrypted(),
        "the default sends plaintext DNS through the OS, and says so rather \
         than implying otherwise"
    );
}

#[test]
fn a_doh_resolver_is_encrypted() {
    let doh = Resolver::Doh {
        host: "example.net".to_owned(),
        path: "/dns-query".to_owned(),
    };
    assert!(doh.is_encrypted());
}

#[test]
fn providers_parse_from_the_shipped_form() {
    let text = "# comment\n\
                Example\texample.net/dns-query\tSomewhere\tSays it keeps nothing\n\
                Broken line without tabs\n\
                Other\tother.example/q\tElsewhere\tSays it keeps 24h\n";
    let providers = parse_providers(text);
    assert_eq!(providers.len(), 2, "a malformed line is skipped, not fatal");
    assert_eq!(
        providers.first().map(|p| p.host.as_str()),
        Some("example.net")
    );
    assert_eq!(
        providers.first().map(|p| p.path.as_str()),
        Some("/dns-query")
    );
}

#[test]
fn provider_fields_are_trimmed_and_the_path_keeps_its_slash() {
    let providers = parse_providers("  Name \t host.example/a/b \t There \t Keeps nothing \r\n");
    assert_eq!(providers.len(), 1);
    let p = &providers[0];
    assert_eq!(p.name, "Name");
    assert_eq!(p.host, "host.example");
    assert_eq!(p.path, "/a/b");
    assert_eq!(p.jurisdiction, "There");
    assert_eq!(p.policy, "Keeps nothing");
}

#[test]
fn a_provider_line_without_a_host_or_a_slash_is_skipped() {
    assert!(parse_providers("Name\t/path\tThere\tPolicy\n").is_empty());
    assert!(parse_providers("Name\thost\tThere\tPolicy\n").is_empty());
    assert!(parse_providers("\thost/p\tThere\tPolicy\n").is_empty());
    assert!(parse_providers("Name\thost/p\tThere\n").is_empty());
}

#[test]
fn a_unicode_name_is_refused_rather_than_looked_up() {
    assert!(matches!(
        check_lookup_name("exämple.com"),
        Err(ResolveError::BadName(_))
    ));
    assert!(matches!(check_lookup_name(""), Err(ResolveError::BadName("empty"))));
    assert!(check_lookup_name("example.com").is_ok());
}

#[test]
fn a_lookup_with_no_addresses_is_not_found() {
    assert!(matches!(lookup_outcome(0), Err(ResolveError::NotFound)));
    assert!(lookup_outcome(2).is_ok());
}

fn key(top: &str) -> PartitionKey {
    let psl = PublicSuffixList::parse("com\ntest\n").expect("list");
    let origin = Origin::new("https", "dns.example.com", 443).expect("origin");
    PartitionKey::new(&psl, top, origin).expect("key")
}

#[test]
fn the_cache_answers_only_the_partition_that_stored() {
    let mut cache = Cache::new();
    let a = key("a.test");
    let b = key("b.test");
    let address = vec![Address::V4([192, 0, 2, 1])];
    cache.put_at(&a, "Example.COM", address.clone(), 1_000);
    assert_eq!(cache.get_at(&a, "example.com", 1_001), Some(address.as_slice()));
    assert_eq!(cache.get_at(&b, "example.com", 1_001), None, "another site learns nothing");
    assert_eq!(cache.len(), 1);
}

#[test]
fn a_cached_name_goes_stale_after_its_lifetime() {
    let mut cache = Cache::new();
    let a = key("a.test");
    cache.put_at(&a, "example.com", vec![Address::V4([192, 0, 2, 1])], 1_000);
    assert!(cache.get_at(&a, "example.com", 1_000 + CACHE_TTL_MILLIS - 1).is_some());
    assert!(cache.get_at(&a, "example.com", 1_000 + CACHE_TTL_MILLIS).is_none());
    cache.put_at(&a, "late.example.com", vec![Address::V4([192, 0, 2, 2])], u64::MAX - 1);
    assert!(cache.get_at(&a, "late.example.com", u64::MAX - 1).is_none(), "no lifetime left to add");
}

#[test]
fn a_partition_holds_a_bounded_number_of_names() {
    let mut cache = Cache::new();
    let a = key("a.test");
    let b = key("b.test");
    for i in 0..MAX_NAMES_PER_KEY + 5 {
        cache.put_at(&a, &format!("n{i}.example.com"), vec![Address::V4([192, 0, 2, 1])], 0);
    }
    assert_eq!(cache.len(), MAX_NAMES_PER_KEY);
    cache.put_at(&b, "n0.example.com", vec![Address::V4([192, 0, 2, 9])], 0);
    assert_eq!(cache.len(), MAX_NAMES_PER_KEY + 1, "the other partition is not crowded out");
}

#[test]
fn forgetting_a_partition_keeps_the_others() {
    let mut cache = Cache::new();
    let a = key("a.test");
    let b = key("b.test");
    cache.put(&a, "example.com", vec![Address::V4([192, 0, 2, 1])]);
    cache.put(&b, "example.com", vec![Address::V4([192, 0, 2, 2])]);
    cache.forget(&a);
    assert_eq!(cache.len(), 1);
    assert!(cache.get(&a, "example.com").is_none());
    assert_eq!(cache.get(&b, "example.com"), Some([Address::V4([192, 0, 2, 2])].as_slice()));
    cache.forget(&b);
    assert!(cache.is_empty());
}
