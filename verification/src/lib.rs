//! Verified core of a confidential-computing "cage" toolchain.
//!
//! Two subsystems carry the weight: the Dockerfile decode-and-inject pipeline
//! (`directive`, `decode`, `transform`, `render`), which turns an untrusted
//! Dockerfile into a supervised multi-process image definition and proves the
//! decoder inverts the renderer, and the in-enclave DNS interception proxy
//! (`dns_wire`, `dns_cache`, `dns_proxy`), which rewrites every successful
//! resolution to the loopback address while caching the true answer. The
//! remaining modules model the surrounding command-line surface.
pub mod assets;
pub mod cert;
pub mod cli_args;
pub mod config;
pub mod decode;
pub mod directive;
pub mod dns_cache;
pub mod dns_proxy;
pub mod dns_wire;
pub mod render;
pub mod text;
pub mod transform;
