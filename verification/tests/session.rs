use dnsup::cloudflare::{Cloudflare, Outcome, Phase, Request, Session, Zone};
use dnsup::lookup::Ipv4;
use dnsup::FatalError;

const API: &str = "https://api.cloudflare.com/client/v4/";

fn config(domains: &str) -> Cloudflare {
    Cloudflare {
        auth_token: "token-123".to_string(),
        account_id: "acct-9".to_string(),
        domains: domains.to_string(),
    }
}

fn item(id: &str, name: &str) -> Zone {
    Zone { id: id.to_string(), name: name.to_string() }
}

fn expect_get(req: Option<Request>) -> String {
    match req {
        Some(Request::VerifyToken { url }) => url,
        Some(Request::ListZones { url }) => url,
        Some(Request::FindRecord { url }) => url,
        Some(Request::PatchRecord { .. }) => panic!("expected a GET request"),
        None => panic!("expected a request"),
    }
}

#[test]
fn run_starts_with_token_verification() {
    let s = Session::new(&config("example.com"), &Ipv4 { a: 1, b: 2, c: 3, d: 4 });
    assert_eq!(s.ip_text, "1.2.3.4");
    let url = expect_get(s.current_request());
    assert_eq!(url, format!("{}user/tokens/verify", API));
}

#[test]
fn invalid_token_is_fatal() {
    let mut s = Session::new(&config("example.com"), &Ipv4 { a: 1, b: 2, c: 3, d: 4 });
    let r = s.handle_response(403, &vec![]);
    assert_eq!(r, Some(FatalError::InvalidToken));
    assert_eq!(s.phase, Phase::Aborted);
    assert!(s.current_request().is_none());
}

#[test]
fn failed_zone_list_aborts_before_any_per_domain_call() {
    let mut s = Session::new(&config("a.example.com,b.example.com"), &Ipv4 {
        a: 1,
        b: 2,
        c: 3,
        d: 4,
    });
    assert!(s.handle_response(200, &vec![]).is_none());
    let url = expect_get(s.current_request());
    assert_eq!(
        url,
        format!(
            "{}zones?status=active&account.id=acct-9&page=1&per_page=100&order=status&match=all",
            API
        )
    );
    let r = s.handle_response(500, &vec![]);
    assert_eq!(r, Some(FatalError::ZoneListFailed));
    assert_eq!(s.phase, Phase::Aborted);
    assert!(s.current_request().is_none());
    assert!(s.reports.is_empty());
    assert!(s.targets.is_empty());
}

#[test]
fn missing_record_skips_only_that_domain() {
    let ip = Ipv4 { a: 9, b: 9, c: 9, d: 9 };
    let mut s = Session::new(&config("a.example.com,b.example.com,c.example.com"), &ip);
    assert!(s.handle_response(200, &vec![]).is_none());
    assert!(s.handle_response(200, &vec![item("z1", "example.com")]).is_none());

    let url = expect_get(s.current_request());
    assert_eq!(
        url,
        format!(
            "{}zones/z1/dns_records?type=A&name=a.example.com&page=1&per_page=100&order=type&direction=desc&match=all",
            API
        )
    );
    assert!(s.handle_response(200, &vec![item("ra", "a.example.com")]).is_none());
    assert!(s.handle_response(200, &vec![]).is_none());
    assert!(s.handle_response(200, &vec![item("rc", "c.example.com")]).is_none());

    match s.current_request() {
        Some(Request::PatchRecord { url, body }) => {
            assert_eq!(url, format!("{}zones/z1/dns_records/ra", API));
            assert_eq!(
                body,
                "{\"type\":\"A\",\"name\":\"a.example.com\",\"content\":\"9.9.9.9\"}"
            );
        }
        _ => panic!("expected the first patch"),
    }
    assert!(s.handle_response(200, &vec![]).is_none());

    match s.current_request() {
        Some(Request::PatchRecord { url, .. }) => {
            assert_eq!(url, format!("{}zones/z1/dns_records/rc", API));
        }
        _ => panic!("expected the second patch"),
    }
    assert!(s.handle_response(200, &vec![]).is_none());

    assert_eq!(s.phase, Phase::Done);
    assert!(s.current_request().is_none());

    let got: Vec<(String, Outcome)> =
        s.reports.iter().map(|r| (r.domain.clone(), r.outcome)).collect();
    assert_eq!(
        got,
        vec![
            ("b.example.com".to_string(), Outcome::RecordNotFound),
            ("a.example.com".to_string(), Outcome::Updated),
            ("c.example.com".to_string(), Outcome::Updated),
        ]
    );
}

#[test]
fn unmatched_domain_is_reported_and_others_proceed() {
    let ip = Ipv4 { a: 1, b: 2, c: 3, d: 4 };
    let mut s = Session::new(&config("nodotshere,a.example.com"), &ip);
    assert!(s.handle_response(200, &vec![]).is_none());
    assert!(s.handle_response(200, &vec![item("z1", "example.com")]).is_none());

    assert_eq!(s.reports.len(), 1);
    assert_eq!(s.reports[0].domain, "nodotshere");
    assert_eq!(s.reports[0].outcome, Outcome::ZoneNotFound);

    assert_eq!(s.targets.len(), 1);
    assert_eq!(s.targets[0].domain, "a.example.com");
    assert!(matches!(s.phase, Phase::Lookup { next: 0 }));
}

#[test]
fn no_matching_zone_at_all_ends_the_run_cleanly() {
    let ip = Ipv4 { a: 1, b: 2, c: 3, d: 4 };
    let mut s = Session::new(&config("nodotshere"), &ip);
    assert!(s.handle_response(200, &vec![]).is_none());
    assert!(s.handle_response(200, &vec![item("z1", "example.com")]).is_none());
    assert_eq!(s.phase, Phase::Done);
    assert!(s.current_request().is_none());
    assert_eq!(s.reports.len(), 1);
    assert_eq!(s.reports[0].outcome, Outcome::ZoneNotFound);
}

#[test]
fn rejected_patch_is_reported_and_run_continues() {
    let ip = Ipv4 { a: 1, b: 2, c: 3, d: 4 };
    let mut s = Session::new(&config("a.example.com,b.example.com"), &ip);
    assert!(s.handle_response(200, &vec![]).is_none());
    assert!(s.handle_response(200, &vec![item("z1", "example.com")]).is_none());
    assert!(s.handle_response(200, &vec![item("ra", "a.example.com")]).is_none());
    assert!(s.handle_response(200, &vec![item("rb", "b.example.com")]).is_none());

    assert!(s.handle_response(500, &vec![]).is_none());
    assert!(s.handle_response(200, &vec![]).is_none());
    assert_eq!(s.phase, Phase::Done);

    let got: Vec<(String, Outcome)> =
        s.reports.iter().map(|r| (r.domain.clone(), r.outcome)).collect();
    assert_eq!(
        got,
        vec![
            ("a.example.com".to_string(), Outcome::UpdateRejected),
            ("b.example.com".to_string(), Outcome::Updated),
        ]
    );
}

#[test]
fn patching_twice_with_same_address_repeats_the_same_request() {
    let ip = Ipv4 { a: 5, b: 6, c: 7, d: 8 };
    let drive = || {
        let mut s = Session::new(&config("a.example.com"), &ip);
        assert!(s.handle_response(200, &vec![]).is_none());
        assert!(s.handle_response(200, &vec![item("z1", "example.com")]).is_none());
        assert!(s.handle_response(200, &vec![item("ra", "a.example.com")]).is_none());
        match s.current_request() {
            Some(Request::PatchRecord { url, body }) => (url, body, s),
            _ => panic!("expected a patch"),
        }
    };
    let (url1, body1, mut s1) = drive();
    let (url2, body2, _) = drive();
    assert_eq!(url1, url2);
    assert_eq!(body1, body2);
    assert_eq!(
        body1,
        "{\"type\":\"A\",\"name\":\"a.example.com\",\"content\":\"5.6.7.8\"}"
    );
    assert!(s1.handle_response(200, &vec![]).is_none());
    assert_eq!(s1.reports.len(), 1);
    assert_eq!(s1.reports[0].outcome, Outcome::Updated);
}
