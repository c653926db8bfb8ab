use metrics_sidecar::codec::{Decoded, MetricLine, parse};
use metrics_sidecar::middleware::{
    PrometheusMetricsMiddleware, PrometheusMetricsMiddlewareService, report,
};

#[test]
fn the_middleware_wraps_a_service() {
    let middleware = PrometheusMetricsMiddleware::new();
    let wrapped = middleware.new_transform(String::from("inner"));
    assert_eq!(wrapped.service, "inner");
    assert_eq!(wrapped.service(), "inner");
    let direct = PrometheusMetricsMiddlewareService { service: 7u8 };
    assert_eq!(*direct.service(), 7);
}

#[test]
fn a_handled_request_is_reported_in_one_line() {
    assert_eq!(
        report("/order", "POST", 200, 0, 12_300_000),
        Some(b"request{path=\"/order\",method=\"POST\",status=200} 0.0123".to_vec())
    );
    assert_eq!(
        report("/", "GET", 404, 3, 0),
        Some(b"request{path=\"/\",method=\"GET\",status=404} 3".to_vec())
    );
    assert_eq!(
        report("/x", "GET", 0, 0, 0),
        Some(b"request{path=\"/x\",method=\"GET\",status=0} 0".to_vec())
    );
    assert_eq!(
        report("/x", "GET", 65535, 18_446_744_073, 709_551_615),
        Some(b"request{path=\"/x\",method=\"GET\",status=65535} 18446744073.709551615".to_vec())
    );
}

#[test]
fn what_cannot_be_put_in_a_line_is_not_reported() {
    assert_eq!(report("", "GET", 200, 0, 1), None);
    assert_eq!(report("/", "", 200, 0, 1), None);
    assert_eq!(report("/a\"b", "GET", 200, 0, 1), None);
    assert_eq!(report("/", "GE\"T", 200, 0, 1), None);
    assert_eq!(report("/", "GET", 200, 18_446_744_073, 709_551_616), None);
    assert_eq!(report("/", "GET", 200, u64::MAX, 0), None);
}

#[test]
fn a_report_is_read_as_the_request() {
    let text = report("/caf\u{e9}", "DELETE", 204, 1, 500_000_000).unwrap();
    assert_eq!(
        parse(&text),
        Ok(Decoded::Recognized(MetricLine::Request {
            path: "/caf\u{e9}".as_bytes().to_vec(),
            method: b"DELETE".to_vec(),
            status: b"204".to_vec(),
            duration: 1_500_000_000,
        }))
    );
}
