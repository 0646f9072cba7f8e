//! Edge gateway: a verified request-routing and dispatch layer for a
//! server-rendered reactive site.
//!
//! The library multiplexes three request classes over one HTTP entry point:
//! named server-side procedure calls under a reserved path prefix, rendered
//! page documents, and immutable static assets.  Every decision the gateway
//! makes — classification, procedure lookup, argument decoding, result
//! encoding, page matching, asset resolution — is specified and proved here.
//! The transport itself (sockets, the event loop, the browser client) sits
//! outside the library and hands it plain values.

pub mod codec;
pub mod http;
pub mod registry;
pub mod assets;
pub mod render;
pub mod router;
