//! Roost - local HTTPS reverse proxy with signed domains.
//!
//! The library holds the verified core: configuration models and their
//! on-disk text formats, hostname validation, certificate lifecycle rules,
//! serve-config merging, SNI resolution, request planning and the daemon
//! state machine.  Process, network and file-system plumbing lives in the
//! accompanying application crate.

pub mod ca;
pub mod cert;
pub mod cli;
pub mod config;
pub mod doctor;
pub mod domain;
pub mod hosts;
pub mod platform;
pub mod serve;
pub mod text;
pub mod trust;
