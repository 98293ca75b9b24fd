//! Injected platform capabilities: trust-store and hosts-file editing.
//!
//! The library never reaches for the operating system itself; callers
//! hand an implementation in.  The implementations — keychain and
//! ca-certificates tools, `/etc/hosts` writes, the file-backed editor
//! used by tests — live in the application crate.

use vstd::prelude::*;

verus! {

/// A failure reported by a platform capability implementation.
#[derive(Debug, Clone, PartialEq, Eq)]
pub struct PlatformError {
    pub detail: String,
}

impl PlatformError {
    /// One-line diagnostic for the failure.
    pub fn message(&self) -> (r: String) {
        self.detail.clone()
    }
}

/// Hosts-file editing capability.
pub trait HostsEditor {
    /// Map the domain to 127.0.0.1 and ::1.
    fn add_domain(&self, domain: &str) -> Result<(), PlatformError>;

    /// Drop every line mentioning the domain.
    fn remove_domain(&self, domain: &str) -> Result<(), PlatformError>;

    /// Whether both loopback mappings for the domain are present.
    fn has_domain(&self, domain: &str) -> Result<bool, PlatformError>;
}

/// Trust-store capability: installing a CA certificate into the
/// system's store.  Implementations may invoke OS tools and block on
/// user authentication.
pub trait TrustStore {
    /// Install the CA certificate at the given path.
    fn install_ca(&self, ca_pem_path: &str) -> Result<(), PlatformError>;

    /// Remove the CA certificate at the given path from the store.
    fn uninstall_ca(&self, ca_pem_path: &str) -> Result<(), PlatformError>;

    /// Whether the CA certificate at the given path is installed.
    fn is_ca_installed(&self, ca_pem_path: &str) -> Result<bool, PlatformError>;
}

} // verus!
