//! The command model and the paths command handlers write to.
//!
//! Argument parsing and dispatch are the application's job; the
//! commands themselves are plain data here so that handlers can be
//! written against them.

use vstd::prelude::*;

use crate::config::RoostPaths;

verus! {

/// Which of a domain's two files a path request asks for.
#[derive(Debug, Clone, Copy, PartialEq, Eq, Structural)]
pub enum CertOrKey {
    Cert,
    Key,
}

/// Certificate-authority management commands.
#[derive(Debug, Clone)]
pub enum CaCmd {
    List,
    Create { name: Option<String> },
    Remove { name: String },
    Install { name: Option<String> },
    Uninstall { name: Option<String> },
}

/// Domain management commands.
#[derive(Debug, Clone)]
pub enum DomainCmd {
    List,
    Add { domain: String, exact: bool, allow: bool },
    Remove { domain: String },
    SetCa { domain: String, ca_name: String },
    GetPath { cert_or_key: CertOrKey, domain: String },
}

/// Listen-port commands.
#[derive(Debug, Clone)]
pub enum ServePortsCmd {
    Add { port: u16, global: bool },
    Remove { port: u16, global: bool },
    SetAll { ports: Vec<u16>, global: bool },
    List,
}

/// Serve-config commands.
#[derive(Debug, Clone)]
pub enum ServeConfigCmd {
    Add { domain: String, port: u16, global: bool },
    Remove { domain: String, global: bool },
    List,
    Ports { cmd: ServePortsCmd },
}

/// Daemon commands.
#[derive(Debug, Clone, Copy, PartialEq, Eq, Structural)]
pub enum ServeDaemonCmd {
    Start,
    Stop,
    Status,
    Reload,
}

/// Serve commands.
#[derive(Debug, Clone)]
pub enum ServeCmd {
    Config { cmd: ServeConfigCmd },
    Daemon { cmd: ServeDaemonCmd },
}

/// Top-level commands.
#[derive(Debug, Clone)]
pub enum Commands {
    Init,
    Ca { cmd: CaCmd },
    Domain { cmd: DomainCmd },
    Serve { cmd: Option<ServeCmd> },
}

/// The `.roostrc` a config edit writes to: the global file, or the
/// project file in the working directory.
pub fn serve_config_path(paths: &RoostPaths, cwd: &str, global: bool) -> (r: String)
    ensures
        global ==> r@ == paths.roostrc_global@,
        !global ==> r@ == cwd@ + "/.roostrc"@,
{
    if global {
        paths.roostrc_global.clone()
    } else {
        String::from_str(cwd).concat("/.roostrc")
    }
}

/// The project `.roostrc` path in the working directory — and only
/// there: no walk up.
pub fn project_roostrc_path(cwd: &str) -> (r: String)
    ensures
        r@ == cwd@ + "/.roostrc"@,
{
    String::from_str(cwd).concat("/.roostrc")
}

} // verus!
