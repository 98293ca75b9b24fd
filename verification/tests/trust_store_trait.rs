//! A recording trust store observes install/uninstall calls.

use roost::platform::{PlatformError, TrustStore};
use roost::trust;
use std::sync::Mutex;

struct MockTrustStore {
    installed: Mutex<Vec<String>>,
    uninstalled: Mutex<Vec<String>>,
}

impl MockTrustStore {
    fn new() -> Self {
        Self { installed: Mutex::new(Vec::new()), uninstalled: Mutex::new(Vec::new()) }
    }

    fn installed(&self) -> Vec<String> {
        self.installed.lock().unwrap().clone()
    }

    fn uninstalled(&self) -> Vec<String> {
        self.uninstalled.lock().unwrap().clone()
    }
}

impl TrustStore for MockTrustStore {
    fn install_ca(&self, ca_pem_path: &str) -> Result<(), PlatformError> {
        self.installed.lock().unwrap().push(ca_pem_path.to_string());
        Ok(())
    }

    fn uninstall_ca(&self, ca_pem_path: &str) -> Result<(), PlatformError> {
        self.uninstalled.lock().unwrap().push(ca_pem_path.to_string());
        Ok(())
    }

    fn is_ca_installed(&self, ca_pem_path: &str) -> Result<bool, PlatformError> {
        Ok(self.installed.lock().unwrap().iter().any(|p| p == ca_pem_path))
    }
}

#[test]
fn mock_store_records_install() {
    let store = MockTrustStore::new();
    let paths = roost::config::RoostPaths::for_test("/data");
    let ca_path = roost::ca::ca_pem_path(&paths, "default");

    trust::install_ca_with_store(&store, &ca_path).unwrap();

    let installed = store.installed();
    assert_eq!(installed.len(), 1);
    assert!(installed[0].contains("ca.pem"));
    assert!(trust::is_ca_installed_with_store(&store, &ca_path).unwrap());
}

#[test]
fn mock_store_records_uninstall() {
    let store = MockTrustStore::new();
    let paths = roost::config::RoostPaths::for_test("/data");
    let ca_path = roost::ca::ca_pem_path(&paths, "default");

    trust::uninstall_ca_with_store(&store, &ca_path).unwrap();

    let uninstalled = store.uninstalled();
    assert_eq!(uninstalled.len(), 1);
    assert!(uninstalled[0].contains("ca.pem"));
}
