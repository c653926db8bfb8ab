//! The two lines that the protocol knows, and their text.
//!
//! ```text
//! request{path="/order",method="POST",status=200} 0.0123
//! order{product_id="LAPTOP_1",quantity=3} 1
//! ```
//!
//! The labels of a line may come in any order. A well-formed line of another
//! name, or with other labels, is read and told apart as unrecognized.

use vstd::prelude::*;
use vstd::seq_lib::{to_multiset_contains, to_multiset_len};
use crate::bytes::{ByteClass, all_in_class, bytes_eq, copy_bytes, scan};
use crate::bytes::{lemma_run_len, lemma_run_of_prefix};
use crate::decimal::{decimal_of, decimal_text, fixed_point_text, integer_of, integer_text};
use crate::decimal::{parse_decimal, parse_i64, write_fixed_point, write_i64, write_u64};
use crate::decimal::{
    lemma_decimal_text,
    lemma_fixed_point_round_trip,
    lemma_integer_round_trip,
    lemma_run_of_digits,
};
use crate::names::{
    method_word,
    order_word,
    path_word,
    product_word,
    quantity_word,
    request_word,
    status_word,
};
use crate::names::lemma_words;
use crate::names::{
    method_word_bytes,
    order_word_bytes,
    path_word_bytes,
    product_word_bytes,
    quantity_word_bytes,
    request_word_bytes,
    status_word_bytes,
};
use crate::wire::{ParseError, WireLabel, WireLabelView, WireLine, WireLineView};
use crate::wire::{label_views, line_of, line_text, line_well_formed, spaced_line_text};
use crate::wire::{parse_line, write_line};
use crate::wire::{lemma_line_of, lemma_line_round_trip};

verus! {

/// One line of the protocol, with its values read.
#[derive(Clone, Debug, PartialEq, Eq)]
pub enum MetricLine {
    /// One handled request: where it went, how it ended, and how long it took
    /// in nanoseconds.
    Request { path: Vec<u8>, method: Vec<u8>, status: Vec<u8>, duration: u64 },
    /// One order of `quantity` units of a product.
    Order { product_id: Vec<u8>, quantity: i64 },
}

/// A line as a mathematical value.
pub enum MetricLineView {
    Request { path: Seq<u8>, method: Seq<u8>, status: Seq<u8>, duration: u64 },
    Order { product_id: Seq<u8>, quantity: i64 },
}

impl View for MetricLine {
    type V = MetricLineView;

    open spec fn view(&self) -> MetricLineView {
        match *self {
            MetricLine::Request { path, method, status, duration } => MetricLineView::Request {
                path: path@,
                method: method@,
                status: status@,
                duration,
            },
            MetricLine::Order { product_id, quantity } => MetricLineView::Order {
                product_id: product_id@,
                quantity,
            },
        }
    }
}

/// What a well-formed text turned out to be.
#[derive(Clone, Debug, PartialEq, Eq)]
pub enum Decoded {
    /// One of the lines that the protocol knows.
    Recognized(MetricLine),
    /// A line of another name, or one whose labels are not those of its name.
    Unrecognized,
}

/// What a text turned out to be, as a mathematical value.
pub enum DecodedView {
    Recognized(MetricLineView),
    Unrecognized,
}

impl View for Decoded {
    type V = DecodedView;

    open spec fn view(&self) -> DecodedView {
        match *self {
            Decoded::Recognized(line) => DecodedView::Recognized(line@),
            Decoded::Unrecognized => DecodedView::Unrecognized,
        }
    }
}

/// The first label of that name.
pub open spec fn label_named(labels: Seq<WireLabelView>, name: Seq<u8>) -> Option<WireLabelView>
    decreases labels.len(),
{
    if labels.len() == 0 {
        None
    } else if labels[0].name == name {
        Some(labels[0])
    } else {
        label_named(labels.skip(1), name)
    }
}

/// The value of the label of that name, where it stands in quotes and is not
/// empty.
pub open spec fn quoted_value(labels: Seq<WireLabelView>, name: Seq<u8>) -> Option<Seq<u8>> {
    match label_named(labels, name) {
        Some(l) => if l.quoted && l.value.len() > 0 {
            Some(l.value)
        } else {
            None
        },
        None => None,
    }
}

/// The value of the label of that name, where it is written bare.
pub open spec fn bare_value(labels: Seq<WireLabelView>, name: Seq<u8>) -> Option<Seq<u8>> {
    match label_named(labels, name) {
        Some(l) => if !l.quoted {
            Some(l.value)
        } else {
            None
        },
        None => None,
    }
}

/// A request line has exactly the labels `path` and `method`, in quotes and
/// not empty, and `status`, bare digits.
pub open spec fn decoded_request(w: WireLineView) -> Result<DecodedView, ParseError> {
    let path = quoted_value(w.labels, path_word());
    let method = quoted_value(w.labels, method_word());
    let status = bare_value(w.labels, status_word());
    if w.labels.len() == 3 && path is Some && method is Some && status is Some && status->0.len()
        > 0 && all_in_class(status->0, ByteClass::Digit) {
        match decimal_of(w.value) {
            Some(duration) => Ok(
                DecodedView::Recognized(
                    MetricLineView::Request {
                        path: path->0,
                        method: method->0,
                        status: status->0,
                        duration,
                    },
                ),
            ),
            None => Err(ParseError::OutOfRange),
        }
    } else {
        Ok(DecodedView::Unrecognized)
    }
}

/// An order line has exactly the labels `product_id`, in quotes and not
/// empty, and `quantity`, a bare whole number. Its value is not looked at.
pub open spec fn decoded_order(w: WireLineView) -> Result<DecodedView, ParseError> {
    let product_id = quoted_value(w.labels, product_word());
    let quantity = bare_value(w.labels, quantity_word());
    if w.labels.len() == 2 && product_id is Some && quantity is Some {
        match integer_of(quantity->0) {
            Some(q) => Ok(
                DecodedView::Recognized(
                    MetricLineView::Order { product_id: product_id->0, quantity: q },
                ),
            ),
            None => Err(ParseError::OutOfRange),
        }
    } else {
        Ok(DecodedView::Unrecognized)
    }
}

/// What a line, as written, means.
pub open spec fn decoded(w: WireLineView) -> Result<DecodedView, ParseError> {
    if w.name == request_word() {
        decoded_request(w)
    } else if w.name == order_word() {
        decoded_order(w)
    } else {
        Ok(DecodedView::Unrecognized)
    }
}

/// What a text means.
pub open spec fn parsed(text: Seq<u8>) -> Result<DecodedView, ParseError> {
    match line_of(text) {
        Ok(w) => decoded(w),
        Err(e) => Err(e),
    }
}

/// A line that can be written and read back: its texts are not empty and
/// hold no double quote, and its status is made of digits.
pub open spec fn line_valid(line: MetricLineView) -> bool {
    match line {
        MetricLineView::Request { path, method, status, duration } => {
            &&& path.len() > 0 && all_in_class(path, ByteClass::Unquoted)
            &&& method.len() > 0 && all_in_class(method, ByteClass::Unquoted)
            &&& status.len() > 0 && all_in_class(status, ByteClass::Digit)
        },
        MetricLineView::Order { product_id, quantity } => {
            product_id.len() > 0 && all_in_class(product_id, ByteClass::Unquoted)
        },
    }
}

/// A line as it is written: a request with its duration in seconds, an order
/// with the value one.
pub open spec fn wire_of(line: MetricLineView) -> WireLineView {
    match line {
        MetricLineView::Request { path, method, status, duration } => WireLineView {
            name: request_word(),
            labels: seq![
                WireLabelView { name: path_word(), value: path, quoted: true },
                WireLabelView { name: method_word(), value: method, quoted: true },
                WireLabelView { name: status_word(), value: status, quoted: false },
            ],
            value: fixed_point_text(duration as nat),
        },
        MetricLineView::Order { product_id, quantity } => WireLineView {
            name: order_word(),
            labels: seq![
                WireLabelView { name: product_word(), value: product_id, quoted: true },
                WireLabelView {
                    name: quantity_word(),
                    value: integer_text(quantity as int),
                    quoted: false,
                },
            ],
            value: decimal_text(1),
        },
    }
}

/// The text of a line.
pub open spec fn serialized(line: MetricLineView) -> Seq<u8> {
    line_text(wire_of(line))
}

/// Looks for the first label of that name.
fn find_label(labels: &Vec<WireLabel>, name: &[u8]) -> (r: Option<usize>)
    ensures
        match r {
            Some(i) => i < labels@.len() && label_named(label_views(labels@), name@) == Some(
                labels@[i as int]@,
            ),
            None => label_named(label_views(labels@), name@) is None,
        },
{
    let ghost all = label_views(labels@);
    let mut i: usize = 0;
    assert(all.skip(0) =~= all);
    while i < labels.len()
        invariant
            i <= labels@.len(),
            all == label_views(labels@),
            label_named(all, name@) == label_named(all.skip(i as int), name@),
        decreases labels@.len() - i,
    {
        assert(all.skip(i as int)[0] == labels@[i as int]@);
        if bytes_eq(labels[i].name.as_slice(), name) {
            return Some(i);
        }
        assert(all.skip(i as int).skip(1) =~= all.skip(i + 1));
        i = i + 1;
    }
    None
}

/// Copies the value of the label of that name, where it stands in quotes and
/// is not empty.
fn copy_quoted(labels: &Vec<WireLabel>, name: &[u8]) -> (r: Option<Vec<u8>>)
    ensures
        match quoted_value(label_views(labels@), name@) {
            Some(v) => r matches Some(x) && x@ == v,
            None => r is None,
        },
{
    match find_label(labels, name) {
        Some(i) => {
            if labels[i].quoted && labels[i].value.len() > 0 {
                Some(copy_bytes(labels[i].value.as_slice()))
            } else {
                None
            }
        },
        None => None,
    }
}

/// Copies the value of the label of that name, where it is written bare.
fn copy_bare(labels: &Vec<WireLabel>, name: &[u8]) -> (r: Option<Vec<u8>>)
    ensures
        match bare_value(label_views(labels@), name@) {
            Some(v) => r matches Some(x) && x@ == v,
            None => r is None,
        },
{
    match find_label(labels, name) {
        Some(i) => {
            if !labels[i].quoted {
                Some(copy_bytes(labels[i].value.as_slice()))
            } else {
                None
            }
        },
        None => None,
    }
}

/// Reads the labels and the value of a line named `request`.
fn decode_request(line: &WireLine) -> (r: Result<Decoded, ParseError>)
    ensures
        match decoded_request(line@) {
            Ok(d) => r matches Ok(x) && x@ == d,
            Err(e) => r matches Err(x) && x == e,
        },
{
    if line.labels.len() != 3 {
        return Ok(Decoded::Unrecognized);
    }
    let path = match copy_quoted(&line.labels, path_word_bytes()) {
        Some(v) => v,
        None => {
            return Ok(Decoded::Unrecognized);
        },
    };
    let method = match copy_quoted(&line.labels, method_word_bytes()) {
        Some(v) => v,
        None => {
            return Ok(Decoded::Unrecognized);
        },
    };
    let status = match copy_bare(&line.labels, status_word_bytes()) {
        Some(v) => v,
        None => {
            return Ok(Decoded::Unrecognized);
        },
    };
    assert(status@.skip(0) =~= status@);
    let digits = scan(status.as_slice(), 0, ByteClass::Digit);
    proof {
        lemma_run_len(status@, ByteClass::Digit);
        if digits == status@.len() {
            assert(status@.take(digits as int) =~= status@);
        } else if all_in_class(status@, ByteClass::Digit) {
            lemma_run_of_digits(status@);
        }
    }
    if status.len() == 0 || digits != status.len() {
        return Ok(Decoded::Unrecognized);
    }
    match parse_decimal(line.value.as_slice()) {
        Some(duration) => Ok(
            Decoded::Recognized(MetricLine::Request { path, method, status, duration }),
        ),
        None => Err(ParseError::OutOfRange),
    }
}

/// Reads the labels of a line named `order`.
fn decode_order(line: &WireLine) -> (r: Result<Decoded, ParseError>)
    ensures
        match decoded_order(line@) {
            Ok(d) => r matches Ok(x) && x@ == d,
            Err(e) => r matches Err(x) && x == e,
        },
{
    if line.labels.len() != 2 {
        return Ok(Decoded::Unrecognized);
    }
    let product_id = match copy_quoted(&line.labels, product_word_bytes()) {
        Some(v) => v,
        None => {
            return Ok(Decoded::Unrecognized);
        },
    };
    let quantity = match copy_bare(&line.labels, quantity_word_bytes()) {
        Some(v) => v,
        None => {
            return Ok(Decoded::Unrecognized);
        },
    };
    match parse_i64(quantity.as_slice()) {
        Some(q) => Ok(Decoded::Recognized(MetricLine::Order { product_id, quantity: q })),
        None => Err(ParseError::OutOfRange),
    }
}

/// Tells what a line, as written, means.
pub fn decode(line: &WireLine) -> (r: Result<Decoded, ParseError>)
    ensures
        match decoded(line@) {
            Ok(d) => r matches Ok(x) && x@ == d,
            Err(e) => r matches Err(x) && x == e,
        },
{
    if bytes_eq(line.name.as_slice(), request_word_bytes()) {
        decode_request(line)
    } else if bytes_eq(line.name.as_slice(), order_word_bytes()) {
        decode_order(line)
    } else {
        Ok(Decoded::Unrecognized)
    }
}

/// Reads one line of text.
///
/// The text is refused where it is no metric line, or where a number of a
/// recognized line is too large. A well-formed line that the protocol does
/// not know is no error.
pub fn parse(text: &[u8]) -> (r: Result<Decoded, ParseError>)
    ensures
        match parsed(text@) {
            Ok(d) => r matches Ok(x) && x@ == d,
            Err(e) => r matches Err(x) && x == e,
        },
{
    match parse_line(text) {
        Ok(line) => decode(&line),
        Err(e) => Err(e),
    }
}

impl MetricLine {
    /// Tells whether the line can be written and read back.
    pub fn is_valid(&self) -> (r: bool)
        ensures
            r == line_valid(self@),
    {
        match self {
            MetricLine::Request { path, method, status, duration } => {
                path.len() > 0 && is_run(path.as_slice(), ByteClass::Unquoted) && method.len() > 0
                    && is_run(method.as_slice(), ByteClass::Unquoted) && status.len() > 0
                    && is_run(status.as_slice(), ByteClass::Digit)
            },
            MetricLine::Order { product_id, quantity } => {
                product_id.len() > 0 && is_run(product_id.as_slice(), ByteClass::Unquoted)
            },
        }
    }

    /// The line as it is written.
    pub fn to_wire(&self) -> (w: WireLine)
        ensures
            w@ == wire_of(self@),
    {
        let mut labels: Vec<WireLabel> = Vec::new();
        match self {
            MetricLine::Request { path, method, status, duration } => {
                labels.push(
                    WireLabel {
                        name: copy_bytes(path_word_bytes()),
                        value: copy_bytes(path.as_slice()),
                        quoted: true,
                    },
                );
                labels.push(
                    WireLabel {
                        name: copy_bytes(method_word_bytes()),
                        value: copy_bytes(method.as_slice()),
                        quoted: true,
                    },
                );
                labels.push(
                    WireLabel {
                        name: copy_bytes(status_word_bytes()),
                        value: copy_bytes(status.as_slice()),
                        quoted: false,
                    },
                );
                let mut value: Vec<u8> = Vec::new();
                write_fixed_point(&mut value, *duration);
                assert(value@ =~= fixed_point_text(*duration as nat));
                assert(label_views(labels@) =~= wire_of(self@).labels);
                WireLine { name: copy_bytes(request_word_bytes()), labels, value }
            },
            MetricLine::Order { product_id, quantity } => {
                let mut count: Vec<u8> = Vec::new();
                write_i64(&mut count, *quantity);
                assert(count@ =~= integer_text(*quantity as int));
                labels.push(
                    WireLabel {
                        name: copy_bytes(product_word_bytes()),
                        value: copy_bytes(product_id.as_slice()),
                        quoted: true,
                    },
                );
                labels.push(
                    WireLabel {
                        name: copy_bytes(quantity_word_bytes()),
                        value: count,
                        quoted: false,
                    },
                );
                let mut value: Vec<u8> = Vec::new();
                write_u64(&mut value, 1);
                assert(value@ =~= decimal_text(1));
                assert(label_views(labels@) =~= wire_of(self@).labels);
                WireLine { name: copy_bytes(order_word_bytes()), labels, value }
            },
        }
    }
}

/// Tells whether all bytes of `s` belong to `class`.
pub fn is_run(s: &[u8], class: ByteClass) -> (r: bool)
    ensures
        r == all_in_class(s@, class),
{
    assert(s@.skip(0) =~= s@);
    let end = scan(s, 0, class);
    proof {
        lemma_run_len(s@, class);
        if end == s@.len() {
            assert(s@.take(end as int) =~= s@);
        } else if all_in_class(s@, class) {
            lemma_run_of_prefix(s@, Seq::empty(), class);
            assert(s@ + Seq::<u8>::empty() =~= s@);
        }
    }
    end == s.len()
}

/// Writes a line as text.
pub fn serialize(line: &MetricLine) -> (text: Vec<u8>)
    ensures
        text@ == serialized(line@),
{
    let wire = line.to_wire();
    let mut text: Vec<u8> = Vec::new();
    write_line(&mut text, &wire);
    assert(text@ =~= serialized(line@));
    text
}

/// A valid line is written well formed.
pub proof fn lemma_wire_of_valid(line: MetricLineView)
    requires
        line_valid(line),
    ensures
        line_well_formed(wire_of(line)),
{
    lemma_words();
    match line {
        MetricLineView::Request { path, method, status, duration } => {
            lemma_fixed_point_round_trip(duration);
            assert(status[0] != crate::bytes::MINUS) by {
                assert(crate::bytes::in_class(ByteClass::Digit, status[0]));
            }
        },
        MetricLineView::Order { product_id, quantity } => {
            lemma_integer_round_trip(quantity);
            lemma_decimal_text(1);
            lemma_run_of_digits(decimal_text(1));
        },
    }
}

/// What a valid line is written as means that line.
pub proof fn lemma_decoded_wire(line: MetricLineView)
    requires
        line_valid(line),
    ensures
        decoded(wire_of(line)) == Ok::<DecodedView, ParseError>(DecodedView::Recognized(line)),
{
    lemma_words();
    reveal_with_fuel(label_named, 4);
    let w = wire_of(line);
    match line {
        MetricLineView::Request { path, method, status, duration } => {
            lemma_fixed_point_round_trip(duration);
            assert(w.labels.skip(1)[0] == w.labels[1]);
            assert(w.labels.skip(1).skip(1)[0] == w.labels[2]);
        },
        MetricLineView::Order { product_id, quantity } => {
            lemma_integer_round_trip(quantity);
            assert(w.labels.skip(1)[0] == w.labels[1]);
        },
    }
}

/// Writing a valid line and reading the text gives the line back.
pub proof fn lemma_round_trip(line: MetricLineView)
    requires
        line_valid(line),
    ensures
        parsed(serialized(line)) == Ok::<DecodedView, ParseError>(DecodedView::Recognized(line)),
{
    lemma_wire_of_valid(line);
    lemma_line_round_trip(wire_of(line), 1);
    lemma_decoded_wire(line);
}

/// A line is read the same with more spaces before its value.
pub proof fn lemma_spaces_do_not_matter(line: MetricLineView, k: nat)
    requires
        line_valid(line),
        k >= 1,
    ensures
        parsed(spaced_line_text(wire_of(line), k)) == Ok::<DecodedView, ParseError>(
            DecodedView::Recognized(line),
        ),
{
    lemma_wire_of_valid(line);
    lemma_line_round_trip(wire_of(line), k);
    lemma_decoded_wire(line);
}

/// A label that is found by its name is one of the labels.
pub proof fn lemma_label_named(labels: Seq<WireLabelView>, name: Seq<u8>)
    ensures
        label_named(labels, name) matches Some(l) ==> l.name == name && exists|i: int|
            0 <= i < labels.len() && #[trigger] labels[i] == l,
    decreases labels.len(),
{
    if labels.len() > 0 && labels[0].name != name {
        lemma_label_named(labels.skip(1), name);
        if let Some(l) = label_named(labels, name) {
            let rest = labels.skip(1);
            let i = choose|i: int| 0 <= i < rest.len() && #[trigger] rest[i] == l;
            assert(labels[i + 1] == l);
        }
    }
}

/// A line that is recognized in a text is valid: it can be written, and
/// what is written is read as the same line.
pub proof fn lemma_recognized_is_valid(text: Seq<u8>)
    ensures
        parsed(text) matches Ok(DecodedView::Recognized(line)) ==> line_valid(line),
{
    if let Ok(DecodedView::Recognized(line)) = parsed(text) {
        lemma_line_of(text);
        let w = line_of(text)->Ok_0;
        lemma_label_named(w.labels, path_word());
        lemma_label_named(w.labels, method_word());
        lemma_label_named(w.labels, status_word());
        lemma_label_named(w.labels, product_word());
        lemma_label_named(w.labels, quantity_word());
    }
}

/// Lines that differ in the order of their labels only.
pub open spec fn same_line(a: WireLineView, b: WireLineView) -> bool {
    a.name == b.name && a.value == b.value && a.labels.to_multiset() == b.labels.to_multiset()
}

/// Whether at most one of the labels has that name.
pub open spec fn at_most_once(labels: Seq<WireLabelView>, name: Seq<u8>) -> bool {
    forall|i: int, j: int|
        0 <= i < j < labels.len() ==> !((#[trigger] labels[i]).name == name && (
        #[trigger] labels[j]).name == name)
}

/// A name that some label has is found.
pub proof fn lemma_label_is_found(labels: Seq<WireLabelView>, i: int)
    requires
        0 <= i < labels.len(),
    ensures
        label_named(labels, labels[i].name) is Some,
    decreases labels.len(),
{
    if i > 0 && labels[0].name != labels[i].name {
        assert(labels.skip(1)[i - 1] == labels[i]);
        lemma_label_is_found(labels.skip(1), i - 1);
    }
}

/// A name that at most one label has is found with the same label, in
/// whatever order the labels come.
pub proof fn lemma_found_in_any_order(
    a: Seq<WireLabelView>,
    b: Seq<WireLabelView>,
    name: Seq<u8>,
)
    requires
        a.to_multiset() == b.to_multiset(),
        at_most_once(a, name),
    ensures
        label_named(a, name) == label_named(b, name),
{
    lemma_label_named(a, name);
    lemma_label_named(b, name);
    if let Some(l) = label_named(b, name) {
        to_multiset_contains(a, l);
        to_multiset_contains(b, l);
        let i = choose|i: int| 0 <= i < a.len() && a[i] == l;
        lemma_label_is_found(a, i);
        let k = label_named(a, name)->0;
        let j = choose|j: int| 0 <= j < a.len() && a[j] == k;
        if i < j {
            assert(!(a[i].name == name && a[j].name == name));
        } else if j < i {
            assert(!(a[j].name == name && a[i].name == name));
        }
    } else if let Some(l) = label_named(a, name) {
        to_multiset_contains(a, l);
        to_multiset_contains(b, l);
        let j = choose|j: int| 0 <= j < b.len() && b[j] == l;
        lemma_label_is_found(b, j);
    }
}

/// Three labels in which three different names are found have each of the
/// names once.
pub proof fn lemma_three_names(
    labels: Seq<WireLabelView>,
    first: Seq<u8>,
    second: Seq<u8>,
    third: Seq<u8>,
)
    requires
        labels.len() == 3,
        first != second,
        first != third,
        second != third,
        label_named(labels, first) is Some,
        label_named(labels, second) is Some,
        label_named(labels, third) is Some,
    ensures
        at_most_once(labels, first),
        at_most_once(labels, second),
        at_most_once(labels, third),
{
    lemma_label_named(labels, first);
    lemma_label_named(labels, second);
    lemma_label_named(labels, third);
    let x = label_named(labels, first)->0;
    let y = label_named(labels, second)->0;
    let z = label_named(labels, third)->0;
    let i = choose|i: int| 0 <= i < labels.len() && labels[i] == x;
    let j = choose|j: int| 0 <= j < labels.len() && labels[j] == y;
    let k = choose|k: int| 0 <= k < labels.len() && labels[k] == z;
    assert(i != j && i != k && j != k);
}

/// Two labels in which two different names are found have each of the names
/// once.
pub proof fn lemma_two_names(labels: Seq<WireLabelView>, first: Seq<u8>, second: Seq<u8>)
    requires
        labels.len() == 2,
        first != second,
        label_named(labels, first) is Some,
        label_named(labels, second) is Some,
    ensures
        at_most_once(labels, first),
        at_most_once(labels, second),
{
    lemma_label_named(labels, first);
    lemma_label_named(labels, second);
    let x = label_named(labels, first)->0;
    let y = label_named(labels, second)->0;
    let i = choose|i: int| 0 <= i < labels.len() && labels[i] == x;
    let j = choose|j: int| 0 <= j < labels.len() && labels[j] == y;
    assert(i != j);
}

/// The order of the labels of a line does not matter to what the line
/// means.
pub proof fn lemma_label_order_is_immaterial(a: WireLineView, b: WireLineView)
    requires
        same_line(a, b),
    ensures
        decoded(a) == decoded(b),
{
    lemma_words();
    to_multiset_len(a.labels);
    to_multiset_len(b.labels);
    if a.name == request_word() {
        let (p, m, s) = (path_word(), method_word(), status_word());
        if a.labels.len() == 3 && label_named(a.labels, p) is Some && label_named(a.labels, m)
            is Some && label_named(a.labels, s) is Some {
            lemma_three_names(a.labels, p, m, s);
            lemma_found_in_any_order(a.labels, b.labels, p);
            lemma_found_in_any_order(a.labels, b.labels, m);
            lemma_found_in_any_order(a.labels, b.labels, s);
        } else if b.labels.len() == 3 && label_named(b.labels, p) is Some && label_named(
            b.labels,
            m,
        ) is Some && label_named(b.labels, s) is Some {
            lemma_three_names(b.labels, p, m, s);
            lemma_found_in_any_order(b.labels, a.labels, p);
            lemma_found_in_any_order(b.labels, a.labels, m);
            lemma_found_in_any_order(b.labels, a.labels, s);
        }
    } else if a.name == order_word() {
        let (p, q) = (product_word(), quantity_word());
        if a.labels.len() == 2 && label_named(a.labels, p) is Some && label_named(a.labels, q)
            is Some {
            lemma_two_names(a.labels, p, q);
            lemma_found_in_any_order(a.labels, b.labels, p);
            lemma_found_in_any_order(a.labels, b.labels, q);
        } else if b.labels.len() == 2 && label_named(b.labels, p) is Some && label_named(
            b.labels,
            q,
        ) is Some {
            lemma_two_names(b.labels, p, q);
            lemma_found_in_any_order(b.labels, a.labels, p);
            lemma_found_in_any_order(b.labels, a.labels, q);
        }
    }
}

} // verus!
