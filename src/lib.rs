//! Passive TLS and HTTP/2 client fingerprinting: ClientHello and HTTP/2
//! frame capture, JA3, Akamai and structural TS1 signatures.

pub mod akamai;
pub mod digest;
pub mod hpack;
pub mod http2;
pub mod ja3;
pub mod json;
pub mod report;
pub mod sort;
pub mod text;
pub mod tls;
pub mod ts1;
pub mod wire;
