//! Trust-store operations through an injected capability.
//!
//! The platform implementations — keychain, ca-certificates, the
//! recording double used by tests — live outside the library; these
//! functions only route to whichever store the caller supplies.

use vstd::prelude::*;

use crate::platform::{PlatformError, TrustStore};

verus! {

/// Install a CA into the given trust store.
pub fn install_ca_with_store<S: TrustStore>(store: &S, ca_pem_path: &str) -> Result<
    (),
    PlatformError,
> {
    store.install_ca(ca_pem_path)
}

/// Remove a CA from the given trust store.
pub fn uninstall_ca_with_store<S: TrustStore>(store: &S, ca_pem_path: &str) -> Result<
    (),
    PlatformError,
> {
    store.uninstall_ca(ca_pem_path)
}

/// Whether the CA is installed in the given trust store.
pub fn is_ca_installed_with_store<S: TrustStore>(store: &S, ca_pem_path: &str) -> Result<
    bool,
    PlatformError,
> {
    store.is_ca_installed(ca_pem_path)
}

} // verus!
