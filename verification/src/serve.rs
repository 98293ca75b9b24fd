//! Serving: the `.roostrc` configuration, the daemon supervisor rules
//! and the proxy's request planning.

pub mod config;
pub mod daemon;
pub mod proxy;
