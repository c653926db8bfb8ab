//! The text of one metric line: a name, a block of labels in braces, one or
//! more spaces, and a decimal number.
//!
//! ```text
//! request{path="/order",method="POST",status=200} 0.0123
//! ```
//!
//! A label value stands in double quotes, and then holds any bytes but a
//! double quote, or it is a whole number, written bare.

use vstd::prelude::*;
use vstd::slice::slice_subrange;
use crate::bytes::{ByteClass, COMMA, EQUALS, LBRACE, MINUS, QUOTE, RBRACE, SPACE};
use crate::bytes::{all_in_class, in_class, is_digit, run_len};
use crate::bytes::{copy_bytes, scan};
use crate::bytes::{lemma_run_len, lemma_run_of_prefix};
use crate::decimal::{check_decimal, is_decimal, is_integer};

verus! {

/// Why a text is no metric line.
#[derive(Clone, Copy, Debug, PartialEq, Eq, Structural)]
pub enum ParseError {
    /// The text does not start with a name followed by an opening brace.
    BadName,
    /// The label block is malformed or is not closed.
    BadLabels,
    /// No space follows the label block.
    MissingSpace,
    /// What follows the spaces is not a decimal number.
    BadValue,
    /// A number of the line is too large to be held.
    OutOfRange,
}

/// One label of a line, as written.
#[derive(Clone, Debug, PartialEq, Eq)]
pub struct WireLabel {
    pub name: Vec<u8>,
    pub value: Vec<u8>,
    /// Whether the value stands in double quotes.
    pub quoted: bool,
}

/// A label as a mathematical value.
pub struct WireLabelView {
    pub name: Seq<u8>,
    pub value: Seq<u8>,
    pub quoted: bool,
}

impl View for WireLabel {
    type V = WireLabelView;

    open spec fn view(&self) -> WireLabelView {
        WireLabelView { name: self.name@, value: self.value@, quoted: self.quoted }
    }
}

/// One line, as written: its parts are pieces of the text.
#[derive(Clone, Debug, PartialEq, Eq)]
pub struct WireLine {
    pub name: Vec<u8>,
    pub labels: Vec<WireLabel>,
    pub value: Vec<u8>,
}

/// A line as a mathematical value.
pub struct WireLineView {
    pub name: Seq<u8>,
    pub labels: Seq<WireLabelView>,
    pub value: Seq<u8>,
}

/// Labels as mathematical values.
pub open spec fn label_views(labels: Seq<WireLabel>) -> Seq<WireLabelView> {
    labels.map_values(|l: WireLabel| l@)
}

impl View for WireLine {
    type V = WireLineView;

    open spec fn view(&self) -> WireLineView {
        WireLineView { name: self.name@, labels: label_views(self.labels@), value: self.value@ }
    }
}

/// A name: letters, digits and underscores, the first of them no digit.
pub open spec fn is_name(s: Seq<u8>) -> bool {
    s.len() > 0 && all_in_class(s, ByteClass::Word) && !is_digit(s[0])
}

/// A label that can be written and read back: its name is a name; its
/// value, in quotes, holds no double quote, and bare, is a whole number.
pub open spec fn label_well_formed(l: WireLabelView) -> bool {
    &&& is_name(l.name)
    &&& if l.quoted {
        all_in_class(l.value, ByteClass::Unquoted)
    } else {
        is_integer(l.value)
    }
}

/// A line that can be written and read back: its name is a name, its labels
/// are well formed, and its value is a decimal number.
pub open spec fn line_well_formed(l: WireLineView) -> bool {
    &&& is_name(l.name)
    &&& forall|i: int| 0 <= i < l.labels.len() ==> label_well_formed(#[trigger] l.labels[i])
    &&& is_decimal(l.value)
}

/// The text of a label.
pub open spec fn label_text(l: WireLabelView) -> Seq<u8> {
    if l.quoted {
        l.name + seq![EQUALS, QUOTE] + l.value + seq![QUOTE]
    } else {
        l.name + seq![EQUALS] + l.value
    }
}

/// The labels, with a comma between each two.
pub open spec fn labels_text(labels: Seq<WireLabelView>) -> Seq<u8>
    decreases labels.len(),
{
    if labels.len() == 0 {
        Seq::empty()
    } else if labels.len() == 1 {
        label_text(labels[0])
    } else {
        label_text(labels[0]) + seq![COMMA] + labels_text(labels.skip(1))
    }
}

/// So many spaces.
pub open spec fn spaces(k: nat) -> Seq<u8> {
    Seq::new(k, |i: int| SPACE)
}

/// The text of a line with `k` spaces before its value.
pub open spec fn spaced_line_text(l: WireLineView, k: nat) -> Seq<u8> {
    l.name + seq![LBRACE] + labels_text(l.labels) + seq![RBRACE] + spaces(k) + l.value
}

/// The text of a line as this library writes it, with one space.
pub open spec fn line_text(l: WireLineView) -> Seq<u8> {
    spaced_line_text(l, 1)
}

/// The label at the start of `s` and what follows it, if a label stands
/// there.
pub open spec fn label_of(s: Seq<u8>) -> Option<(WireLabelView, Seq<u8>)> {
    let n = run_len(s, ByteClass::Word) as int;
    if n == 0 || is_digit(s[0]) || n >= s.len() || s[n] != EQUALS {
        None
    } else {
        let v = s.skip(n + 1);
        if v.len() > 0 && v[0] == QUOTE {
            let m = run_len(v.skip(1), ByteClass::Unquoted) as int;
            if m + 1 >= v.len() {
                None
            } else {
                Some(
                    (
                        WireLabelView {
                            name: s.take(n),
                            value: v.subrange(1, m + 1),
                            quoted: true,
                        },
                        v.skip(m + 2),
                    ),
                )
            }
        } else {
            let sign: int = if v.len() > 0 && v[0] == MINUS {
                1
            } else {
                0
            };
            let m = run_len(v.skip(sign), ByteClass::Digit) as int;
            if m == 0 {
                None
            } else {
                Some(
                    (
                        WireLabelView { name: s.take(n), value: v.take(sign + m), quoted: false },
                        v.skip(sign + m),
                    ),
                )
            }
        }
    }
}

/// A label that was read is well formed, and the text is that label's text
/// and then the rest.
pub proof fn lemma_label_of(s: Seq<u8>)
    ensures
        label_of(s) matches Some((l, rest)) ==> {
            &&& rest.len() < s.len()
            &&& label_well_formed(l)
            &&& s == label_text(l) + rest
        },
{
    if let Some((l, rest)) = label_of(s) {
        let n = run_len(s, ByteClass::Word) as int;
        lemma_run_len(s, ByteClass::Word);
        let v = s.skip(n + 1);
        assert(s.take(n)[0] == s[0]);
        if v.len() > 0 && v[0] == QUOTE {
            let m = run_len(v.skip(1), ByteClass::Unquoted) as int;
            lemma_run_len(v.skip(1), ByteClass::Unquoted);
            assert(v.subrange(1, m + 1) =~= v.skip(1).take(m));
            assert(v[m + 1] == v.skip(1)[m]);
            assert(s =~= label_text(l) + rest);
        } else {
            let sign: int = if v.len() > 0 && v[0] == MINUS {
                1
            } else {
                0
            };
            let m = run_len(v.skip(sign), ByteClass::Digit) as int;
            lemma_run_len(v.skip(sign), ByteClass::Digit);
            let value = v.take(sign + m);
            if sign == 1 {
                assert(value[0] == MINUS);
                assert(value.skip(1) =~= v.skip(1).take(m));
            } else {
                assert(v.skip(0) =~= v);
                assert(value =~= v.skip(0).take(m));
                assert(value[0] == v[0]);
                assert(in_class(ByteClass::Digit, value[0]));
            }
            assert(s =~= label_text(l) + rest);
        }
    }
}

/// The labels at the start of `s`, one or more with commas between them, up
/// to the closing brace, and what follows that brace.
pub open spec fn labels_of(s: Seq<u8>) -> Option<(Seq<WireLabelView>, Seq<u8>)>
    decreases s.len(),
{
    match label_of(s) {
        None => None,
        Some((label, rest)) => {
            if rest.len() == 0 {
                None
            } else if rest[0] == RBRACE {
                Some((seq![label], rest.skip(1)))
            } else if rest[0] == COMMA {
                proof {
                    lemma_label_of(s);
                }
                match labels_of(rest.skip(1)) {
                    None => None,
                    Some((more, after)) => Some((seq![label] + more, after)),
                }
            } else {
                None
            }
        },
    }
}

/// What a text says as a metric line, or why it is none.
pub open spec fn line_of(s: Seq<u8>) -> Result<WireLineView, ParseError> {
    let n = run_len(s, ByteClass::Word) as int;
    if n == 0 || is_digit(s[0]) || n >= s.len() || s[n] != LBRACE {
        Err(ParseError::BadName)
    } else {
        let body = s.skip(n + 1);
        let block = if body.len() > 0 && body[0] == RBRACE {
            Some((Seq::<WireLabelView>::empty(), body.skip(1)))
        } else {
            labels_of(body)
        };
        match block {
            None => Err(ParseError::BadLabels),
            Some((labels, rest)) => {
                let k = run_len(rest, ByteClass::Space) as int;
                if k == 0 {
                    Err(ParseError::MissingSpace)
                } else if !is_decimal(rest.skip(k)) {
                    Err(ParseError::BadValue)
                } else {
                    Ok(WireLineView { name: s.take(n), labels, value: rest.skip(k) })
                }
            },
        }
    }
}

/// Labels that were read before, put in front of what is read next.
pub open spec fn prepend(
    front: Seq<WireLabelView>,
    next: Option<(Seq<WireLabelView>, Seq<u8>)>,
) -> Option<(Seq<WireLabelView>, Seq<u8>)> {
    match next {
        None => None,
        Some((more, after)) => Some((front + more, after)),
    }
}

/// Reads the label that starts at `from`, and tells where it ends.
fn read_label(s: &[u8], from: usize) -> (r: Option<(WireLabel, usize)>)
    requires
        from <= s@.len(),
    ensures
        match label_of(s@.skip(from as int)) {
            None => r is None,
            Some((l, rest)) => r matches Some((label, end)) && label@ == l && from < end
                <= s@.len() && rest == s@.skip(end as int),
        },
{
    let ghost t = s@.skip(from as int);
    let name_end = scan(s, from, ByteClass::Word);
    if name_end == from {
        return None;
    }
    assert(t[0] == s@[from as int]);
    if 48 <= s[from] && s[from] <= 57 {
        return None;
    }
    if name_end >= s.len() {
        return None;
    }
    assert(t[name_end - from] == s@[name_end as int]);
    if s[name_end] != EQUALS {
        return None;
    }
    let start = name_end + 1;
    let ghost v = t.skip(name_end - from + 1);
    assert(v =~= s@.skip(start as int));
    let name = copy_bytes(slice_subrange(s, from, name_end));
    assert(name@ =~= t.take(name_end - from));
    if start < s.len() && s[start] == QUOTE {
        assert(v.skip(1) =~= s@.skip(start + 1));
        let close = scan(s, start + 1, ByteClass::Unquoted);
        if close >= s.len() {
            return None;
        }
        let value = copy_bytes(slice_subrange(s, start + 1, close));
        assert(value@ =~= v.subrange(1, close - start));
        assert(v.skip(close - start + 1) =~= s@.skip(close + 1));
        Some((WireLabel { name, value, quoted: true }, close + 1))
    } else {
        let sign: usize = if start < s.len() && s[start] == MINUS {
            1
        } else {
            0
        };
        assert(v.skip(sign as int) =~= s@.skip(start + sign));
        let end = scan(s, start + sign, ByteClass::Digit);
        if end == start + sign {
            return None;
        }
        let value = copy_bytes(slice_subrange(s, start, end));
        assert(value@ =~= v.take(end - start));
        assert(v.skip(end - start) =~= s@.skip(end as int));
        Some((WireLabel { name, value, quoted: false }, end))
    }
}

/// Reads one or more labels from `from` up to the closing brace, and tells
/// where the text goes on after that brace.
fn read_labels(s: &[u8], from: usize) -> (r: Option<(Vec<WireLabel>, usize)>)
    requires
        from <= s@.len(),
    ensures
        match labels_of(s@.skip(from as int)) {
            None => r is None,
            Some((ls, rest)) => r matches Some((labels, end)) && label_views(labels@) == ls && end
                <= s@.len() && rest == s@.skip(end as int),
        },
{
    let mut labels: Vec<WireLabel> = Vec::new();
    let mut pos: usize = from;
    proof {
        let next = labels_of(s@.skip(from as int));
        if let Some((more, after)) = next {
            assert(label_views(labels@) + more =~= more);
        }
    }
    loop
        invariant
            from <= pos <= s@.len(),
            labels_of(s@.skip(from as int)) == prepend(
                label_views(labels@),
                labels_of(s@.skip(pos as int)),
            ),
        decreases s@.len() - pos,
    {
        let ghost front = label_views(labels@);
        match read_label(s, pos) {
            None => {
                return None;
            },
            Some((label, end)) => {
                if end >= s.len() {
                    return None;
                }
                let b = s[end];
                assert(s@.skip(end as int)[0] == b);
                assert(s@.skip(end as int).skip(1) =~= s@.skip(end + 1));
                if b != RBRACE && b != COMMA {
                    return None;
                }
                labels.push(label);
                assert(label_views(labels@) =~= front.push(label@));
                if b == RBRACE {
                    assert(front + seq![label@] =~= front.push(label@));
                    return Some((labels, end + 1));
                }
                proof {
                    if let Some((more, after)) = labels_of(s@.skip(end + 1)) {
                        assert(front + (seq![label@] + more) =~= front.push(label@) + more);
                    }
                }
                pos = end + 1;
            },
        }
    }
}

/// Reads a text as one metric line.
pub fn parse_line(s: &[u8]) -> (r: Result<WireLine, ParseError>)
    ensures
        match line_of(s@) {
            Ok(v) => r matches Ok(line) && line@ == v,
            Err(e) => r matches Err(x) && x == e,
        },
{
    assert(s@.skip(0) =~= s@);
    let name_end = scan(s, 0, ByteClass::Word);
    if name_end == 0 || (48 <= s[0] && s[0] <= 57) || name_end >= s.len() || s[name_end]
        != LBRACE {
        return Err(ParseError::BadName);
    }
    let start = name_end + 1;
    let ghost body = s@.skip(start as int);
    let labels: Vec<WireLabel>;
    let after: usize;
    if start < s.len() && s[start] == RBRACE {
        labels = Vec::new();
        after = start + 1;
        assert(label_views(labels@) =~= Seq::<WireLabelView>::empty());
        assert(body.skip(1) =~= s@.skip(after as int));
    } else {
        match read_labels(s, start) {
            None => {
                return Err(ParseError::BadLabels);
            },
            Some((read, end)) => {
                labels = read;
                after = end;
            },
        }
    }
    let value_start = scan(s, after, ByteClass::Space);
    if value_start == after {
        return Err(ParseError::MissingSpace);
    }
    let value = slice_subrange(s, value_start, s.len());
    assert(value@ =~= s@.skip(after as int).skip(value_start - after));
    if !check_decimal(value) {
        return Err(ParseError::BadValue);
    }
    let name = copy_bytes(slice_subrange(s, 0, name_end));
    assert(name@ =~= s@.take(name_end as int));
    Ok(WireLine { name, labels, value: copy_bytes(value) })
}

/// Adding a label at the end adds its text, after a comma unless it is the
/// first.
pub proof fn lemma_labels_text_push(labels: Seq<WireLabelView>, l: WireLabelView)
    ensures
        labels_text(labels.push(l)) == if labels.len() == 0 {
            label_text(l)
        } else {
            labels_text(labels) + seq![COMMA] + label_text(l)
        },
    decreases labels.len(),
{
    let all = labels.push(l);
    if labels.len() > 0 {
        assert(all.skip(1) =~= labels.skip(1).push(l));
        lemma_labels_text_push(labels.skip(1), l);
        if labels.len() == 1 {
            assert(labels_text(all) == label_text(labels[0]) + seq![COMMA] + label_text(l));
        } else {
            assert(labels_text(all) =~= labels_text(labels) + seq![COMMA] + label_text(l));
        }
    }
}

/// Appends the text of a label.
pub fn write_label(out: &mut Vec<u8>, label: &WireLabel)
    ensures
        final(out)@ == old(out)@ + label_text(label@),
{
    out.extend_from_slice(label.name.as_slice());
    out.push(EQUALS);
    if label.quoted {
        out.push(QUOTE);
        out.extend_from_slice(label.value.as_slice());
        out.push(QUOTE);
    } else {
        out.extend_from_slice(label.value.as_slice());
    }
    assert(final(out)@ =~= old(out)@ + label_text(label@));
}

/// Appends the text of a line, with one space before its value.
pub fn write_line(out: &mut Vec<u8>, line: &WireLine)
    ensures
        final(out)@ == old(out)@ + line_text(line@),
{
    out.extend_from_slice(line.name.as_slice());
    out.push(LBRACE);
    let ghost head = out@;
    let ghost all = label_views(line.labels@);
    let mut i: usize = 0;
    assert(all.take(0) =~= Seq::<WireLabelView>::empty());
    assert(out@ =~= head + labels_text(all.take(0)));
    while i < line.labels.len()
        invariant
            i <= line.labels@.len(),
            all == label_views(line.labels@),
            out@ == head + labels_text(all.take(i as int)),
        decreases line.labels@.len() - i,
    {
        proof {
            lemma_labels_text_push(all.take(i as int), all[i as int]);
            assert(all.take(i + 1) =~= all.take(i as int).push(all[i as int]));
        }
        if i > 0 {
            out.push(COMMA);
        }
        write_label(out, &line.labels[i]);
        assert(out@ =~= head + labels_text(all.take(i + 1)));
        i = i + 1;
    }
    assert(all.take(i as int) =~= all);
    out.push(RBRACE);
    out.push(SPACE);
    out.extend_from_slice(line.value.as_slice());
    assert(spaces(1) =~= seq![SPACE]);
    assert(final(out)@ =~= old(out)@ + line_text(line@));
}

/// A label's text, read back, is the label, whatever follows it: after a
/// bare value anything but a digit.
pub proof fn lemma_label_round_trip(l: WireLabelView, tail: Seq<u8>)
    requires
        label_well_formed(l),
        l.quoted || tail.len() == 0 || !is_digit(tail[0]),
    ensures
        label_of(label_text(l) + tail) == Some((l, tail)),
{
    let s = label_text(l) + tail;
    let n = l.name.len() as int;
    if l.quoted {
        let after_name = seq![EQUALS, QUOTE] + l.value + seq![QUOTE] + tail;
        assert(s =~= l.name + after_name);
        lemma_run_of_prefix(l.name, after_name, ByteClass::Word);
        let v = s.skip(n + 1);
        assert(v =~= seq![QUOTE] + l.value + seq![QUOTE] + tail);
        let closing = seq![QUOTE] + tail;
        assert(v.skip(1) =~= l.value + closing);
        lemma_run_of_prefix(l.value, closing, ByteClass::Unquoted);
        let m = l.value.len() as int;
        assert(s.take(n) =~= l.name);
        assert(v.subrange(1, m + 1) =~= l.value);
        assert(v.skip(m + 2) =~= tail);
    } else {
        let after_name = seq![EQUALS] + l.value + tail;
        assert(s =~= l.name + after_name);
        lemma_run_of_prefix(l.name, after_name, ByteClass::Word);
        let v = s.skip(n + 1);
        assert(v =~= l.value + tail);
        assert(s.take(n) =~= l.name);
        if l.value[0] == MINUS {
            let digits = l.value.skip(1);
            assert(v.skip(1) =~= digits + tail);
            lemma_run_of_prefix(digits, tail, ByteClass::Digit);
            assert(v.take(l.value.len() as int) =~= l.value);
            assert(v.skip(l.value.len() as int) =~= tail);
        } else {
            assert(v.skip(0) =~= l.value + tail);
            lemma_run_of_prefix(l.value, tail, ByteClass::Digit);
            assert(in_class(ByteClass::Digit, l.value[0]));
            assert(v.take(l.value.len() as int) =~= l.value);
            assert(v.skip(l.value.len() as int) =~= tail);
        }
    }
}

/// The text of one or more labels and a closing brace, read back, is those
/// labels, whatever follows the brace.
pub proof fn lemma_labels_round_trip(labels: Seq<WireLabelView>, tail: Seq<u8>)
    requires
        labels.len() > 0,
        forall|i: int| 0 <= i < labels.len() ==> label_well_formed(#[trigger] labels[i]),
    ensures
        labels_of(labels_text(labels) + seq![RBRACE] + tail) == Some((labels, tail)),
    decreases labels.len(),
{
    let s = labels_text(labels) + seq![RBRACE] + tail;
    let first = labels[0];
    assert(label_well_formed(first));
    if labels.len() == 1 {
        let rest = seq![RBRACE] + tail;
        assert(s =~= label_text(first) + rest);
        lemma_label_round_trip(first, rest);
        assert(rest.skip(1) =~= tail);
        assert(seq![first] =~= labels);
    } else {
        let others = labels.skip(1);
        let rest = seq![COMMA] + labels_text(others) + seq![RBRACE] + tail;
        assert(s =~= label_text(first) + rest);
        lemma_label_round_trip(first, rest);
        assert(rest.skip(1) =~= labels_text(others) + seq![RBRACE] + tail);
        assert forall|i: int| 0 <= i < others.len() implies label_well_formed(
            #[trigger] others[i],
        ) by {
            assert(others[i] == labels[i + 1]);
        }
        lemma_labels_round_trip(others, tail);
        assert(seq![first] + others =~= labels);
    }
}

/// The text of a well-formed line, read back, is that line, with however
/// many spaces it was written.
pub proof fn lemma_line_round_trip(l: WireLineView, k: nat)
    requires
        line_well_formed(l),
        k >= 1,
    ensures
        line_of(spaced_line_text(l, k)) == Ok::<WireLineView, ParseError>(l),
{
    let s = spaced_line_text(l, k);
    let n = l.name.len() as int;
    let rest = spaces(k) + l.value;
    let body = labels_text(l.labels) + seq![RBRACE] + rest;
    assert(s =~= l.name + (seq![LBRACE] + body));
    lemma_run_of_prefix(l.name, seq![LBRACE] + body, ByteClass::Word);
    assert(s.take(n) =~= l.name);
    assert(s.skip(n + 1) =~= body);
    assert(s[0] == l.name[0]);
    assert(s[n] == LBRACE);
    if l.labels.len() == 0 {
        assert(body =~= seq![RBRACE] + rest);
        assert(body.skip(1) =~= rest);
        assert(l.labels =~= Seq::<WireLabelView>::empty());
    } else {
        let first = l.labels[0];
        assert(label_well_formed(first));
        assert(labels_text(l.labels)[0] == first.name[0]);
        assert(body[0] == first.name[0]);
        assert(in_class(ByteClass::Word, first.name[0]));
        lemma_labels_round_trip(l.labels, rest);
    }
    lemma_run_len(l.value, ByteClass::Digit);
    assert(in_class(ByteClass::Digit, l.value[0]));
    lemma_run_of_prefix(spaces(k), l.value, ByteClass::Space);
    assert(rest.skip(k as int) =~= l.value);
}

/// Labels that were read are well formed, and the text is their text, a
/// closing brace, and the rest.
pub proof fn lemma_labels_of(s: Seq<u8>)
    ensures
        labels_of(s) matches Some((labels, rest)) ==> {
            &&& labels.len() > 0
            &&& forall|i: int| 0 <= i < labels.len() ==> label_well_formed(#[trigger] labels[i])
            &&& s == labels_text(labels) + seq![RBRACE] + rest
        },
    decreases s.len(),
{
    if let Some((labels, rest)) = labels_of(s) {
        lemma_label_of(s);
        let (first, after) = label_of(s)->0;
        if after[0] == RBRACE {
            assert(labels =~= seq![first]);
            assert(after =~= seq![RBRACE] + rest);
            assert(s =~= labels_text(labels) + seq![RBRACE] + rest);
        } else {
            let tail = after.skip(1);
            lemma_labels_of(tail);
            let (more, end) = labels_of(tail)->0;
            assert(labels =~= seq![first] + more);
            assert(labels.skip(1) =~= more);
            assert(after =~= seq![COMMA] + tail);
            assert forall|i: int| 0 <= i < labels.len() implies label_well_formed(
                #[trigger] labels[i],
            ) by {
                if i > 0 {
                    assert(labels[i] == more[i - 1]);
                }
            }
            assert(s =~= labels_text(labels) + seq![RBRACE] + rest);
        }
    }
}

/// A text that is read as a line is the text of that line, which is well
/// formed, with one space or more before the value.
pub proof fn lemma_line_of(s: Seq<u8>)
    ensures
        line_of(s) matches Ok(l) ==> line_well_formed(l) && exists|k: nat|
            k >= 1 && s == #[trigger] spaced_line_text(l, k),
{
    if let Ok(l) = line_of(s) {
        let n = run_len(s, ByteClass::Word) as int;
        lemma_run_len(s, ByteClass::Word);
        assert(s.take(n)[0] == s[0]);
        let body = s.skip(n + 1);
        let (read, after) = labels_of(body)->0;
        let rest = if body[0] == RBRACE {
            body.skip(1)
        } else {
            after
        };
        if body[0] == RBRACE {
            assert(body =~= labels_text(l.labels) + seq![RBRACE] + rest);
        } else {
            lemma_labels_of(body);
        }
        let k = run_len(rest, ByteClass::Space);
        lemma_run_len(rest, ByteClass::Space);
        assert(rest.take(k as int) =~= spaces(k));
        assert(rest =~= spaces(k) + l.value);
        assert(s =~= l.name + seq![LBRACE] + body);
        assert(body == labels_text(l.labels) + seq![RBRACE] + rest);
        assert(s =~= spaced_line_text(l, k));
    }
}

} // verus!
