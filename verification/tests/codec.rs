use metrics_sidecar::bytes::{ByteClass, Precedence, bytes_eq, compare_bytes, scan};
use metrics_sidecar::codec::{Decoded, MetricLine, decode, is_run, parse, serialize};
use metrics_sidecar::wire::{ParseError, WireLabel, WireLine, parse_line, write_line};

fn request(path: &str, method: &str, status: &str, duration: u64) -> MetricLine {
    MetricLine::Request {
        path: path.as_bytes().to_vec(),
        method: method.as_bytes().to_vec(),
        status: status.as_bytes().to_vec(),
        duration,
    }
}

fn order(product_id: &str, quantity: i64) -> MetricLine {
    MetricLine::Order { product_id: product_id.as_bytes().to_vec(), quantity }
}

fn wire_label(name: &str, value: &str, quoted: bool) -> WireLabel {
    WireLabel { name: name.as_bytes().to_vec(), value: value.as_bytes().to_vec(), quoted }
}

#[test]
fn runs_end_at_the_first_byte_of_another_class() {
    assert_eq!(scan(b"abc_9{", 0, ByteClass::Word), 5);
    assert_eq!(scan(b"abc_9{", 2, ByteClass::Word), 5);
    assert_eq!(scan(b"abc", 3, ByteClass::Word), 3);
    assert_eq!(scan(b"12a", 0, ByteClass::Digit), 2);
    assert_eq!(scan(b"   x", 0, ByteClass::Space), 3);
    assert_eq!(scan(b"a b\"c", 0, ByteClass::Unquoted), 3);
    assert_eq!(scan(b"", 0, ByteClass::Word), 0);
    assert!(is_run(b"", ByteClass::Digit));
    assert!(is_run(b"0123456789", ByteClass::Digit));
    assert!(!is_run(b"01234a", ByteClass::Digit));
    assert!(!is_run(b"a\"b", ByteClass::Unquoted));
}

#[test]
fn byte_strings_are_ordered_byte_by_byte() {
    assert_eq!(compare_bytes(b"", b""), Precedence::Same);
    assert_eq!(compare_bytes(b"", b"a"), Precedence::Before);
    assert_eq!(compare_bytes(b"a", b""), Precedence::After);
    assert_eq!(compare_bytes(b"abc", b"abc"), Precedence::Same);
    assert_eq!(compare_bytes(b"abc", b"abd"), Precedence::Before);
    assert_eq!(compare_bytes(b"abd", b"abc"), Precedence::After);
    assert_eq!(compare_bytes(b"ab", b"abc"), Precedence::Before);
    assert_eq!(compare_bytes(b"b", b"abc"), Precedence::After);
    assert_eq!(
        compare_bytes(b"http_request_duration_seconds", b"http_requests_total"),
        Precedence::Before
    );
    assert!(bytes_eq(b"abc", b"abc"));
    assert!(!bytes_eq(b"abc", b"abd"));
    assert!(!bytes_eq(b"abc", b"ab"));
}

#[test]
fn a_line_is_read_into_its_parts() {
    let line = parse_line(b"request{path=\"/order\",method=\"POST\",status=200}   0.0123").unwrap();
    assert_eq!(
        line,
        WireLine {
            name: b"request".to_vec(),
            labels: vec![
                wire_label("path", "/order", true),
                wire_label("method", "POST", true),
                wire_label("status", "200", false),
            ],
            value: b"0.0123".to_vec(),
        }
    );
    let bare = parse_line(b"up{} 1").unwrap();
    assert_eq!(bare, WireLine { name: b"up".to_vec(), labels: vec![], value: b"1".to_vec() });
    let odd = parse_line(b"_x9{a=\"}, =\",b=-7} 2.50").unwrap();
    assert_eq!(
        odd.labels,
        vec![wire_label("a", "}, =", true), wire_label("b", "-7", false)]
    );
    assert_eq!(odd.value, b"2.50");
}

#[test]
fn each_fault_of_a_line_has_its_error() {
    let faults: [(&str, ParseError); 22] = [
        ("", ParseError::BadName),
        ("garbage data here", ParseError::BadName),
        ("{a=1} 1", ParseError::BadName),
        ("9lives{a=1} 1", ParseError::BadName),
        ("name", ParseError::BadName),
        ("na-me{} 1", ParseError::BadName),
        (" name{} 1", ParseError::BadName),
        ("name{", ParseError::BadLabels),
        ("name{a} 1", ParseError::BadLabels),
        ("name{a=} 1", ParseError::BadLabels),
        ("name{a=\"x} 1", ParseError::BadLabels),
        ("name{a=\"x\"", ParseError::BadLabels),
        ("name{a=\"x\",} 1", ParseError::BadLabels),
        ("name{a=\"x\" ,b=1} 1", ParseError::BadLabels),
        ("name{a = 1} 1", ParseError::BadLabels),
        ("name{a=1.5} 1", ParseError::BadLabels),
        ("name{a=x} 1", ParseError::BadLabels),
        ("name{1a=1} 1", ParseError::BadLabels),
        ("name{a=1}1", ParseError::MissingSpace),
        ("name{a=1}\t1", ParseError::MissingSpace),
        ("name{a=1} ", ParseError::BadValue),
        ("name{a=1} 1\n", ParseError::BadValue),
    ];
    for (text, error) in faults {
        assert_eq!(parse_line(text.as_bytes()), Err(error), "{text:?}");
    }
}

#[test]
fn a_written_line_is_read_back() {
    let line = WireLine {
        name: b"request".to_vec(),
        labels: vec![wire_label("path", "/a,b}", true), wire_label("n", "-12", false)],
        value: b"3.25".to_vec(),
    };
    let mut text = b"> ".to_vec();
    write_line(&mut text, &line);
    assert_eq!(text, b"> request{path=\"/a,b}\",n=-12} 3.25");
    assert_eq!(parse_line(&text[2..]), Ok(line));
}

#[test]
fn the_two_lines_are_recognized() {
    assert_eq!(
        parse(b"request{path=\"/order\",method=\"POST\",status=200} 0.0123"),
        Ok(Decoded::Recognized(request("/order", "POST", "200", 12_300_000)))
    );
    assert_eq!(
        parse(b"order{product_id=\"LAPTOP_1\",quantity=3} 1"),
        Ok(Decoded::Recognized(order("LAPTOP_1", 3)))
    );
    assert_eq!(
        parse(b"order{product_id=\"X\",quantity=-2} 1"),
        Ok(Decoded::Recognized(order("X", -2)))
    );
    assert_eq!(
        parse(b"order{product_id=\"X\",quantity=2} 1700000000.5"),
        Ok(Decoded::Recognized(order("X", 2)))
    );
}

#[test]
fn labels_may_come_in_any_order() {
    let expected = Ok(Decoded::Recognized(request("/order", "POST", "200", 1_000_000_000)));
    assert_eq!(parse(b"request{path=\"/order\",method=\"POST\",status=200} 1"), expected);
    assert_eq!(parse(b"request{status=200,method=\"POST\",path=\"/order\"} 1"), expected);
    assert_eq!(parse(b"request{method=\"POST\",status=200,path=\"/order\"} 1"), expected);
    assert_eq!(
        parse(b"order{quantity=4,product_id=\"P\"} 1"),
        Ok(Decoded::Recognized(order("P", 4)))
    );
}

#[test]
fn other_lines_are_unrecognized() {
    let texts = [
        "up{} 1",
        "requests{path=\"/\",method=\"GET\",status=200} 1",
        "request{} 1",
        "request{path=\"/\",method=\"GET\"} 1",
        "request{path=\"/\",method=\"GET\",status=200,extra=1} 1",
        "request{path=\"/\",method=\"GET\",code=200} 1",
        "request{path=\"/\",path=\"/\",status=200} 1",
        "request{path=\"\",method=\"GET\",status=200} 1",
        "request{path=\"/\",method=\"\",status=200} 1",
        "request{path=\"/\",method=\"GET\",status=\"200\"} 1",
        "request{path=\"/\",method=\"GET\",status=-200} 1",
        "request{path=1,method=\"GET\",status=200} 1",
        "order{product_id=\"X\"} 1",
        "order{product_id=\"\",quantity=1} 1",
        "order{product_id=\"X\",quantity=\"1\"} 1",
        "order{product_id=7,quantity=1} 1",
        "order{product_id=\"X\",quantity=1,path=\"/\"} 1",
        "Order{product_id=\"X\",quantity=1} 1",
    ];
    for text in texts {
        assert_eq!(parse(text.as_bytes()), Ok(Decoded::Unrecognized), "{text:?}");
    }
}

#[test]
fn numbers_that_do_not_fit_are_refused() {
    assert_eq!(
        parse(b"request{path=\"/\",method=\"GET\",status=200} 18446744074"),
        Err(ParseError::OutOfRange)
    );
    assert_eq!(
        parse(b"order{product_id=\"X\",quantity=9223372036854775808} 1"),
        Err(ParseError::OutOfRange)
    );
    assert_eq!(
        parse(b"order{product_id=\"X\",quantity=-9223372036854775809} 1"),
        Err(ParseError::OutOfRange)
    );
    assert_eq!(
        parse(b"order{product_id=\"X\",quantity=1} 99999999999999999999999999"),
        Ok(Decoded::Recognized(order("X", 1)))
    );
    assert_eq!(
        parse(b"request{path=\"/\",method=\"GET\",status=99999999999999999999999999} 1"),
        Ok(Decoded::Recognized(request("/", "GET", "99999999999999999999999999", 1_000_000_000)))
    );
}

#[test]
fn malformed_lines_are_refused_before_they_are_recognized() {
    assert_eq!(parse(b"garbage data here"), Err(ParseError::BadName));
    assert_eq!(parse(b"request{path=\"/order} 1"), Err(ParseError::BadLabels));
    assert_eq!(parse(b"order{product_id=\"X\",quantity=1}"), Err(ParseError::MissingSpace));
    assert_eq!(parse(b"order{product_id=\"X\",quantity=1} one"), Err(ParseError::BadValue));
}

#[test]
fn lines_are_written_as_the_protocol_has_them() {
    assert_eq!(
        serialize(&request("/order", "POST", "200", 12_300_000)),
        b"request{path=\"/order\",method=\"POST\",status=200} 0.0123"
    );
    assert_eq!(
        serialize(&request("/", "GET", "404", 2_000_000_000)),
        b"request{path=\"/\",method=\"GET\",status=404} 2"
    );
    assert_eq!(
        serialize(&order("LAPTOP_1", 3)),
        b"order{product_id=\"LAPTOP_1\",quantity=3} 1"
    );
    assert_eq!(serialize(&order("X", -2)), b"order{product_id=\"X\",quantity=-2} 1");
}

#[test]
fn valid_lines_make_the_round_trip() {
    let lines = [
        request("/order", "POST", "200", 12_300_000),
        request("/a b,c}{=", "GET", "0", 0),
        request("/caf\u{e9}", "PUT", "007", u64::MAX),
        order("LAPTOP_1", 3),
        order("x", 0),
        order("y", -5),
        order("z", i64::MAX),
        order("z", i64::MIN),
    ];
    for line in lines {
        assert!(line.is_valid());
        assert_eq!(parse(&serialize(&line)), Ok(Decoded::Recognized(line.clone())));
        assert_eq!(decode(&line.to_wire()), Ok(Decoded::Recognized(line)));
    }
}

#[test]
fn lines_that_cannot_be_written_are_told_apart() {
    assert!(!request("", "GET", "200", 1).is_valid());
    assert!(!request("/", "", "200", 1).is_valid());
    assert!(!request("/", "GET", "", 1).is_valid());
    assert!(!request("/", "GET", "2x0", 1).is_valid());
    assert!(!request("/\"", "GET", "200", 1).is_valid());
    assert!(!request("/", "G\"ET", "200", 1).is_valid());
    assert!(!order("", 1).is_valid());
    assert!(!order("a\"b", 1).is_valid());
    assert_ne!(
        parse(&serialize(&request("/\"", "GET", "200", 1))),
        Ok(Decoded::Recognized(request("/\"", "GET", "200", 1)))
    );
}
