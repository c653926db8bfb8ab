//! A metrics sidecar engine.
//!
//! Emitters send one metric line per datagram. The listener reads each packet
//! as a line of the protocol ([`codec`], over [`wire`] and [`decimal`]) and
//! applies what it says to the [`registry`], which aggregates counters and
//! cumulative histograms ([`histogram`]) by metric name and label values.
//! A scrape takes a snapshot of the registry and renders it as text
//! ([`encoder`]). [`listener`] holds what is done with one packet,
//! [`middleware`] what an instrumented server sends, and [`laws`] what holds
//! of all of it together.
//!
//! Nothing here reads a socket or serves a request: a program around the
//! library does that, and hands over bytes.

pub mod bytes;
pub mod decimal;
pub mod wire;
pub mod names;
pub mod codec;
pub mod histogram;
pub mod registry;
pub mod encoder;
pub mod listener;
pub mod middleware;
pub mod laws;
