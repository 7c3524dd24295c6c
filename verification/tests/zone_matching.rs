use dnsup::cloudflare::{candidate_suffixes, match_zone, parse_domains, Zone};
use dnsup::util::remove_whitespace;

fn zone(id: &str, name: &str) -> Zone {
    Zone { id: id.to_string(), name: name.to_string() }
}

#[test]
fn candidates_of_deep_domain() {
    let c = candidate_suffixes("a.b.example.com");
    let got: Vec<&str> = c.iter().map(|s| s.as_str()).collect();
    assert_eq!(got, vec!["a.b.example.com", "b.example.com", "example.com"]);
}

#[test]
fn candidates_of_two_label_domain() {
    let c = candidate_suffixes("example.com");
    let got: Vec<&str> = c.iter().map(|s| s.as_str()).collect();
    assert_eq!(got, vec!["example.com"]);
}

#[test]
fn candidates_of_dotless_domain_are_empty() {
    assert!(candidate_suffixes("nodotshere").is_empty());
}

#[test]
fn both_domains_resolve_to_same_zone() {
    let domains = vec!["a.example.com".to_string(), "example.com".to_string()];
    let zones = vec![zone("z1", "example.com")];
    let targets = match_zone(&domains, &zones);
    assert_eq!(targets.len(), 2);
    for t in &targets {
        let z = t.zone.as_ref().expect("zone expected");
        assert_eq!(z.id, "z1");
        assert_eq!(z.name, "example.com");
    }
}

#[test]
fn dotless_domain_gets_no_zone_and_others_continue() {
    let domains = vec!["nodotshere".to_string(), "a.example.com".to_string()];
    let zones = vec![zone("zx", "nodotshere"), zone("z1", "example.com")];
    let targets = match_zone(&domains, &zones);
    assert_eq!(targets.len(), 2);
    assert!(targets[0].zone.is_none());
    assert_eq!(targets[1].zone.as_ref().unwrap().id, "z1");
}

#[test]
fn provider_order_breaks_ties_not_suffix_length() {
    let domains = vec!["a.b.example.com".to_string()];
    let shorter_first = vec![zone("zb", "example.com"), zone("za", "b.example.com")];
    let targets = match_zone(&domains, &shorter_first);
    assert_eq!(targets[0].zone.as_ref().unwrap().id, "zb");

    let longer_first = vec![zone("za", "b.example.com"), zone("zb", "example.com")];
    let targets = match_zone(&domains, &longer_first);
    assert_eq!(targets[0].zone.as_ref().unwrap().id, "za");
}

#[test]
fn full_domain_can_be_its_own_zone() {
    let domains = vec!["example.com".to_string()];
    let zones = vec![zone("z1", "example.com")];
    let targets = match_zone(&domains, &zones);
    assert_eq!(targets[0].zone.as_ref().unwrap().id, "z1");
}

#[test]
fn bare_last_label_is_never_a_candidate() {
    let domains = vec!["example.com".to_string()];
    let zones = vec![zone("zc", "com")];
    let targets = match_zone(&domains, &zones);
    assert!(targets[0].zone.is_none());
}

#[test]
fn remove_whitespace_strips_all_kinds() {
    assert_eq!(remove_whitespace("a b\tc\nd"), "abcd");
    assert_eq!(remove_whitespace("  spaced  out  "), "spacedout");
    assert_eq!(remove_whitespace("a\u{a0}b"), "ab");
    assert_eq!(remove_whitespace(""), "");
}

#[test]
fn parse_domains_lowercases_strips_and_splits() {
    let raw = "A.Example.COM, b.example.com ,c.example.com".to_string();
    let got = parse_domains(&raw);
    let got: Vec<&str> = got.iter().map(|s| s.as_str()).collect();
    assert_eq!(got, vec!["a.example.com", "b.example.com", "c.example.com"]);
}

#[test]
fn parse_domains_of_single_entry() {
    let raw = "example.com".to_string();
    let got = parse_domains(&raw);
    assert_eq!(got.len(), 1);
    assert_eq!(got[0], "example.com");
}
