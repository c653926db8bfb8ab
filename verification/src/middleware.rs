//! The side of the instrumented server: for every request that it has
//! handled, the line that it sends to the sidecar.

use vstd::prelude::*;
use vstd::string::StringSliceAdditionalSpecFns;
use crate::bytes::copy_bytes;
use crate::codec::{DecodedView, MetricLine, MetricLineView};
use crate::codec::{line_valid, parsed, serialize, serialized};
use crate::codec::lemma_round_trip;
use crate::decimal::{UNIT, decimal_text, write_u64};
use crate::wire::ParseError;

verus! {

/// The middleware that reports the requests of a server.
pub struct PrometheusMetricsMiddleware;

/// A service wrapped by the middleware.
pub struct PrometheusMetricsMiddlewareService<S> {
    pub service: S,
}

/// The request that a report speaks of, if it can be put in a line: the
/// path and the method are not empty and hold no double quote, and the time
/// fits in nanoseconds.
pub open spec fn reported(
    path: Seq<u8>,
    method: Seq<u8>,
    status: u16,
    seconds: u64,
    nanos: u32,
) -> Option<MetricLineView> {
    let line = MetricLineView::Request {
        path,
        method,
        status: decimal_text(status as nat),
        duration: (seconds * UNIT + nanos) as u64,
    };
    if line_valid(line) && seconds * UNIT + nanos <= u64::MAX {
        Some(line)
    } else {
        None
    }
}

impl PrometheusMetricsMiddleware {
    /// The middleware.
    pub fn new() -> (m: Self) {
        PrometheusMetricsMiddleware
    }

    /// Wraps a service.
    pub fn new_transform<S>(&self, service: S) -> (wrapped: PrometheusMetricsMiddlewareService<S>)
        ensures
            wrapped.service == service,
    {
        PrometheusMetricsMiddlewareService { service }
    }
}

impl<S> PrometheusMetricsMiddlewareService<S> {
    /// The service that is wrapped.
    pub fn service(&self) -> (service: &S)
        ensures
            *service == self.service,
    {
        &self.service
    }
}

/// The line to send for a handled request that took `seconds` seconds and
/// `nanos` nanoseconds, or nothing where the request cannot be put in a
/// line.
pub fn report(path: &str, method: &str, status: u16, seconds: u64, nanos: u32) -> (text: Option<
    Vec<u8>,
>)
    ensures
        match reported(path.spec_bytes(), method.spec_bytes(), status, seconds, nanos) {
            Some(line) => text matches Some(t) && t@ == serialized(line),
            None => text is None,
        },
{
    if seconds > (u64::MAX - nanos as u64) / UNIT {
        return None;
    }
    let mut code: Vec<u8> = Vec::new();
    write_u64(&mut code, status as u64);
    assert(code@ =~= decimal_text(status as nat));
    let line = MetricLine::Request {
        path: copy_bytes(path.as_bytes()),
        method: copy_bytes(method.as_bytes()),
        status: code,
        duration: seconds * UNIT + nanos as u64,
    };
    if line.is_valid() {
        Some(serialize(&line))
    } else {
        None
    }
}

/// The sidecar reads a report as the request that it speaks of.
pub proof fn lemma_report_is_read(
    path: Seq<u8>,
    method: Seq<u8>,
    status: u16,
    seconds: u64,
    nanos: u32,
)
    requires
        reported(path, method, status, seconds, nanos) is Some,
    ensures
        parsed(serialized(reported(path, method, status, seconds, nanos)->0)) == Ok::<
            DecodedView,
            ParseError,
        >(DecodedView::Recognized(reported(path, method, status, seconds, nanos)->0)),
{
    lemma_round_trip(reported(path, method, status, seconds, nanos)->0);
}

} // verus!
