//! The words of the line protocol and the metrics that its lines feed.

use vstd::prelude::*;
use vstd::string::StringSliceAdditionalSpecFns;
use vstd::string::is_ascii;

use crate::wire::is_name;

verus! {

/// The name of a line that reports one handled request.
pub open spec fn request_word() -> Seq<u8> {
    "request".spec_bytes()
}

/// The name of a line that reports one order.
pub open spec fn order_word() -> Seq<u8> {
    "order".spec_bytes()
}

/// The label of the path of a request.
pub open spec fn path_word() -> Seq<u8> {
    "path".spec_bytes()
}

/// The label of the method of a request.
pub open spec fn method_word() -> Seq<u8> {
    "method".spec_bytes()
}

/// The label of the status of a response.
pub open spec fn status_word() -> Seq<u8> {
    "status".spec_bytes()
}

/// The label of the product of an order.
pub open spec fn product_word() -> Seq<u8> {
    "product_id".spec_bytes()
}

/// The label of the quantity of an order.
pub open spec fn quantity_word() -> Seq<u8> {
    "quantity".spec_bytes()
}

/// The counter of handled requests.
pub open spec fn requests_total() -> Seq<u8> {
    "http_requests_total".spec_bytes()
}

/// The histogram of request durations.
pub open spec fn request_duration() -> Seq<u8> {
    "http_request_duration_seconds".spec_bytes()
}

/// The counter of ordered units.
pub open spec fn order_total() -> Seq<u8> {
    "order_total".spec_bytes()
}

/// The bytes of `request_word`.
pub fn request_word_bytes() -> (r: &'static [u8])
    ensures
        r@ == request_word(),
{
    "request".as_bytes()
}

/// The bytes of `order_word`.
pub fn order_word_bytes() -> (r: &'static [u8])
    ensures
        r@ == order_word(),
{
    "order".as_bytes()
}

/// The bytes of `path_word`.
pub fn path_word_bytes() -> (r: &'static [u8])
    ensures
        r@ == path_word(),
{
    "path".as_bytes()
}

/// The bytes of `method_word`.
pub fn method_word_bytes() -> (r: &'static [u8])
    ensures
        r@ == method_word(),
{
    "method".as_bytes()
}

/// The bytes of `status_word`.
pub fn status_word_bytes() -> (r: &'static [u8])
    ensures
        r@ == status_word(),
{
    "status".as_bytes()
}

/// The bytes of `product_word`.
pub fn product_word_bytes() -> (r: &'static [u8])
    ensures
        r@ == product_word(),
{
    "product_id".as_bytes()
}

/// The bytes of `quantity_word`.
pub fn quantity_word_bytes() -> (r: &'static [u8])
    ensures
        r@ == quantity_word(),
{
    "quantity".as_bytes()
}

/// The bytes of `requests_total`.
pub fn requests_total_bytes() -> (r: &'static [u8])
    ensures
        r@ == requests_total(),
{
    "http_requests_total".as_bytes()
}

/// The bytes of `request_duration`.
pub fn request_duration_bytes() -> (r: &'static [u8])
    ensures
        r@ == request_duration(),
{
    "http_request_duration_seconds".as_bytes()
}

/// The bytes of `order_total`.
pub fn order_total_bytes() -> (r: &'static [u8])
    ensures
        r@ == order_total(),
{
    "order_total".as_bytes()
}

/// The words of the protocol are names, and no two of those that can meet
/// are the same.
pub proof fn lemma_words()
    ensures
        is_name(request_word()),
        is_name(order_word()),
        is_name(path_word()),
        is_name(method_word()),
        is_name(status_word()),
        is_name(product_word()),
        is_name(quantity_word()),
        request_word() != order_word(),
        path_word() != method_word(),
        path_word() != status_word(),
        method_word() != status_word(),
        product_word() != quantity_word(),
{
    broadcast use vstd::string::is_ascii_spec_bytes;

    reveal_strlit("request");
    reveal_strlit("order");
    reveal_strlit("path");
    reveal_strlit("method");
    reveal_strlit("status");
    reveal_strlit("product_id");
    reveal_strlit("quantity");
    assert(is_ascii("request") && is_ascii("order") && is_ascii("path") && is_ascii("method")
        && is_ascii("status") && is_ascii("product_id") && is_ascii("quantity"));
    assert(method_word()[0] != status_word()[0]);
}

/// The names of the three metrics differ from each other.
pub proof fn lemma_metric_names()
    ensures
        requests_total() != request_duration(),
        requests_total() != order_total(),
        request_duration() != order_total(),
{
    broadcast use vstd::string::is_ascii_spec_bytes;

    reveal_strlit("http_requests_total");
    reveal_strlit("http_request_duration_seconds");
    reveal_strlit("order_total");
    assert(is_ascii("http_requests_total") && is_ascii("http_request_duration_seconds")
        && is_ascii("order_total"));
}

} // verus!
