use dnsup::lookup::{interpret_lookup_output, ipv4_to_string, opendns_query, parse_ipv4, Ipv4};
use dnsup::FatalError;

fn ip(a: u8, b: u8, c: u8, d: u8) -> Ipv4 {
    Ipv4 { a, b, c, d }
}

#[test]
fn parse_accepts_valid_quads() {
    assert_eq!(parse_ipv4("192.168.1.10"), Some(ip(192, 168, 1, 10)));
    assert_eq!(parse_ipv4("0.0.0.0"), Some(ip(0, 0, 0, 0)));
    assert_eq!(parse_ipv4("255.255.255.255"), Some(ip(255, 255, 255, 255)));
    assert_eq!(parse_ipv4("8.8.8.8"), Some(ip(8, 8, 8, 8)));
}

#[test]
fn parse_rejects_out_of_range_octets() {
    assert_eq!(parse_ipv4("256.1.1.1"), None);
    assert_eq!(parse_ipv4("1.1.1.999"), None);
}

#[test]
fn parse_rejects_wrong_shapes() {
    assert_eq!(parse_ipv4(""), None);
    assert_eq!(parse_ipv4("1.2.3"), None);
    assert_eq!(parse_ipv4("1.2.3.4.5"), None);
    assert_eq!(parse_ipv4("a.b.c.d"), None);
    assert_eq!(parse_ipv4("1..2.3"), None);
    assert_eq!(parse_ipv4("1.2.3."), None);
    assert_eq!(parse_ipv4("1.2.3.4 "), None);
}

#[test]
fn parse_rejects_leading_zeros() {
    assert_eq!(parse_ipv4("01.2.3.4"), None);
    assert_eq!(parse_ipv4("1.2.3.004"), None);
    assert_eq!(parse_ipv4("0.2.3.4"), Some(ip(0, 2, 3, 4)));
}

#[test]
fn format_writes_dotted_quads() {
    assert_eq!(ipv4_to_string(&ip(192, 168, 1, 10)), "192.168.1.10");
    assert_eq!(ipv4_to_string(&ip(0, 0, 0, 0)), "0.0.0.0");
    assert_eq!(ipv4_to_string(&ip(255, 255, 255, 255)), "255.255.255.255");
    assert_eq!(ipv4_to_string(&ip(7, 42, 100, 9)), "7.42.100.9");
}

#[test]
fn format_then_parse_round_trips() {
    for &(a, b, c, d) in &[(0, 0, 0, 0), (1, 22, 133, 255), (10, 0, 200, 99)] {
        let v = ip(a, b, c, d);
        assert_eq!(parse_ipv4(&ipv4_to_string(&v)), Some(v));
    }
}

#[test]
fn lookup_failure_aborts() {
    assert_eq!(interpret_lookup_output(false, "1.2.3.4"), Err(FatalError::LookupFailed));
}

#[test]
fn lookup_garbage_is_a_parse_error() {
    assert_eq!(interpret_lookup_output(true, "no address here"), Err(FatalError::AddressParse));
    assert_eq!(interpret_lookup_output(true, ""), Err(FatalError::AddressParse));
}

#[test]
fn lookup_output_is_trimmed_before_parsing() {
    assert_eq!(interpret_lookup_output(true, "  8.8.8.8\n"), Ok(ip(8, 8, 8, 8)));
    assert_eq!(interpret_lookup_output(true, "8.8.8.8"), Ok(ip(8, 8, 8, 8)));
}

#[test]
fn opendns_query_is_fixed() {
    let q = opendns_query();
    assert_eq!(q.options, "+short");
    assert_eq!(q.domain, "myip.opendns.com");
    assert_eq!(q.resolver, "resolver1.opendns.com");
}
