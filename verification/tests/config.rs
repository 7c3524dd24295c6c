use dnsup::config::{validate_config, Lookup, UserConfig};
use dnsup::FatalError;

fn config(method: &str, provider: &str) -> UserConfig {
    UserConfig {
        version: "1".to_string(),
        lookup: Lookup { method: method.to_string(), provider: provider.to_string() },
        cloudflare: None,
        ip: None,
    }
}

#[test]
fn supported_method_and_provider_pass() {
    assert_eq!(validate_config(&config("dig", "opendns")), Ok(()));
}

#[test]
fn unsupported_method_is_fatal() {
    assert_eq!(
        validate_config(&config("nslookup", "opendns")),
        Err(FatalError::UnsupportedLookupMethod)
    );
}

#[test]
fn unsupported_provider_is_fatal() {
    assert_eq!(
        validate_config(&config("dig", "google")),
        Err(FatalError::UnsupportedLookupProvider)
    );
}

#[test]
fn method_is_checked_before_provider() {
    assert_eq!(
        validate_config(&config("nslookup", "google")),
        Err(FatalError::UnsupportedLookupMethod)
    );
}
