//! The user's configuration and its validation: only the `dig` lookup
//! method and the `opendns` provider are supported, and the method is
//! checked first.

use vstd::prelude::*;

use crate::cloudflare::Cloudflare;
use crate::lookup::Ipv4;
use crate::FatalError;

verus! {

/// How the public address is discovered: the utility to run and the
/// echo service to ask.
pub struct Lookup {
    pub method: String,
    pub provider: String,
}

/// The whole config file: a version tag, the lookup choice, the
/// provider block if one is configured, and the address cached from a
/// previous run, if any.
pub struct UserConfig {
    pub version: String,
    pub lookup: Lookup,
    pub cloudflare: Option<Cloudflare>,
    pub ip: Option<Ipv4>,
}

/// Accept only the supported lookup method and provider; an unsupported
/// method is reported even when the provider is also wrong.
pub fn validate_config(config: &UserConfig) -> (r: Result<(), FatalError>)
    ensures
        r == if config.lookup.method@ != "dig"@ {
            Err::<(), FatalError>(FatalError::UnsupportedLookupMethod)
        } else if config.lookup.provider@ != "opendns"@ {
            Err::<(), FatalError>(FatalError::UnsupportedLookupProvider)
        } else {
            Ok::<(), FatalError>(())
        },
{
    let dig = String::from_str("dig");
    if !config.lookup.method.eq(&dig) {
        return Err(FatalError::UnsupportedLookupMethod);
    }
    let opendns = String::from_str("opendns");
    if !config.lookup.provider.eq(&opendns) {
        return Err(FatalError::UnsupportedLookupProvider);
    }
    Ok(())
}

} // verus!
