//! Keep DNS `A` records in step with the machine's current public IPv4
//! address: find the parent zone of each configured domain, look up the
//! record, and patch it at the provider.

use vstd::prelude::*;

pub mod cloudflare;
pub mod config;
pub mod lookup;
pub mod util;

verus! {

/// A condition that aborts the whole run, as opposed to a per-domain
/// outcome that only skips one domain.
#[derive(Debug, Clone, Copy, PartialEq, Eq, Structural)]
pub enum FatalError {
    /// The configured lookup method is not supported.
    UnsupportedLookupMethod,
    /// The configured lookup provider is not supported.
    UnsupportedLookupProvider,
    /// The external address lookup did not succeed.
    LookupFailed,
    /// The external address lookup returned text that is not an IPv4 address.
    AddressParse,
    /// The provider rejected the configured API credential.
    InvalidToken,
    /// The zone list could not be fetched from the provider.
    ZoneListFailed,
}

} // verus!
