//! The text that a scrape returns.
//!
//! For each family a help line and a type line, then the samples of its
//! series in their order:
//!
//! ```text
//! # HELP order_total Total number of orders
//! # TYPE order_total counter
//! order_total{product_id="LAPTOP_1"} 3
//! ```
//!
//! A histogram series gives one sample for each bucket, with the upper bound
//! as the label `le`, the last of them `+Inf`, and then its sum and its
//! count. Counts are written as whole numbers; sums and bounds are seconds,
//! written with a point and as many places as they need, at most nine.

use vstd::prelude::*;
use vstd::string::StringSliceAdditionalSpecFns;
use crate::bytes::{BACKSLASH, COMMA, EQUALS, LBRACE, NEWLINE, QUOTE, RBRACE, SPACE};
use crate::decimal::{decimal_text, fixed_point_text, write_fixed_point, write_u64};
use crate::histogram::{Histogram, HistogramView, bound_of, bucket_bound};
use crate::registry::{Family, FamilyView, MetricKind, Registry, Series, SeriesState, SeriesValue};
use crate::registry::{SeriesView, Snapshot};
use crate::registry::{key_view, populated, registry_wf};

verus! {

/// A byte as it stands in a help text or, with `quotes`, in a label value:
/// a backslash before a backslash and, in a label value, before a double
/// quote, and `\n` for a line feed.
pub open spec fn escaped_byte(b: u8, quotes: bool) -> Seq<u8> {
    if b == BACKSLASH {
        seq![BACKSLASH, BACKSLASH]
    } else if b == QUOTE && quotes {
        seq![BACKSLASH, QUOTE]
    } else if b == NEWLINE {
        seq![BACKSLASH, 110u8]
    } else {
        seq![b]
    }
}

/// A text with each of its bytes as it stands in a help text or, with
/// `quotes`, in a label value.
pub open spec fn escaped(v: Seq<u8>, quotes: bool) -> Seq<u8>
    decreases v.len(),
{
    if v.len() == 0 {
        Seq::empty()
    } else {
        escaped(v.drop_last(), quotes) + escaped_byte(v.last(), quotes)
    }
}

/// One label: its name, an equals sign, and its value in double quotes.
pub open spec fn pair_text(name: Seq<u8>, value: Seq<u8>) -> Seq<u8> {
    name + seq![EQUALS, QUOTE] + escaped(value, true) + seq![QUOTE]
}

/// The first `n` label pairs, with a comma between each two.
pub open spec fn pairs_text(names: Seq<Seq<u8>>, values: Seq<Seq<u8>>, n: nat) -> Seq<u8>
    decreases n,
{
    if n == 0 {
        Seq::empty()
    } else if n == 1 {
        pair_text(names[0], values[0])
    } else {
        pairs_text(names, values, (n - 1) as nat) + seq![COMMA] + pair_text(
            names[n - 1],
            values[n - 1],
        )
    }
}

/// How many label names have a value.
pub open spec fn pair_count(names: Seq<Seq<u8>>, values: Seq<Seq<u8>>) -> nat {
    if names.len() <= values.len() {
        names.len()
    } else {
        values.len()
    }
}

/// The labels of a sample in braces: the pairs of its series and, for a
/// bucket, the label `le` with its bound. Without any label there are no
/// braces.
pub open spec fn label_block(
    names: Seq<Seq<u8>>,
    values: Seq<Seq<u8>>,
    bound: Option<Seq<u8>>,
) -> Seq<u8> {
    let n = pair_count(names, values);
    let pairs = pairs_text(names, values, n);
    match bound {
        None => if n == 0 {
            Seq::empty()
        } else {
            seq![LBRACE] + pairs + seq![RBRACE]
        },
        Some(le) => seq![LBRACE] + pairs + (if n == 0 {
            Seq::empty()
        } else {
            seq![COMMA]
        }) + "le=\"".spec_bytes() + le + seq![QUOTE, RBRACE],
    }
}

/// One sample: the metric's name with a suffix, the labels, a space, the
/// value, and a line feed.
pub open spec fn sample_text(name: Seq<u8>, suffix: Seq<u8>, block: Seq<u8>, value: Seq<u8>) -> Seq<
    u8,
> {
    name + suffix + block + seq![SPACE] + value + seq![NEWLINE]
}

/// The samples of the first `n` buckets.
pub open spec fn buckets_text(f: FamilyView, key: Seq<Seq<u8>>, h: HistogramView, n: nat) -> Seq<u8>
    decreases n,
{
    if n == 0 {
        Seq::empty()
    } else {
        buckets_text(f, key, h, (n - 1) as nat) + sample_text(
            f.name,
            "_bucket".spec_bytes(),
            label_block(f.label_names, key, Some(fixed_point_text(bucket_bound(n - 1)))),
            decimal_text(h.buckets[n - 1]),
        )
    }
}

/// The samples of one series: one for a counter; for a histogram one for
/// each bucket, one for all observations, the sum and the count.
pub open spec fn series_text(f: FamilyView, s: SeriesView) -> Seq<u8> {
    match s.state {
        SeriesState::Counter(total) => sample_text(
            f.name,
            Seq::empty(),
            label_block(f.label_names, s.key, None),
            decimal_text(total),
        ),
        SeriesState::Histogram(h) => buckets_text(f, s.key, h, h.buckets.len()) + sample_text(
            f.name,
            "_bucket".spec_bytes(),
            label_block(f.label_names, s.key, Some("+Inf".spec_bytes())),
            decimal_text(h.count),
        ) + sample_text(
            f.name,
            "_sum".spec_bytes(),
            label_block(f.label_names, s.key, None),
            fixed_point_text(h.sum),
        ) + sample_text(
            f.name,
            "_count".spec_bytes(),
            label_block(f.label_names, s.key, None),
            decimal_text(h.count),
        ),
    }
}

/// The samples of the first `n` series of a family.
pub open spec fn all_series_text(f: FamilyView, n: nat) -> Seq<u8>
    decreases n,
{
    if n == 0 {
        Seq::empty()
    } else {
        all_series_text(f, (n - 1) as nat) + series_text(f, f.series[n - 1])
    }
}

/// The word for a kind on a type line.
pub open spec fn kind_word(kind: MetricKind) -> Seq<u8> {
    match kind {
        MetricKind::Counter => "counter".spec_bytes(),
        MetricKind::Histogram => "histogram".spec_bytes(),
    }
}

/// The help line of a family, or the type line: a word, the name, and the
/// text.
pub open spec fn comment_text(word: Seq<u8>, name: Seq<u8>, text: Seq<u8>) -> Seq<u8> {
    word + name + seq![SPACE] + text + seq![NEWLINE]
}

/// The lines of one family: help, type, and the samples of its series.
pub open spec fn family_text(f: FamilyView) -> Seq<u8> {
    comment_text("# HELP ".spec_bytes(), f.name, escaped(f.help, false)) + comment_text(
        "# TYPE ".spec_bytes(),
        f.name,
        kind_word(f.kind),
    ) + all_series_text(f, f.series.len())
}

/// The text of the families, one after the other.
pub open spec fn exposition(families: Seq<FamilyView>) -> Seq<u8>
    decreases families.len(),
{
    if families.len() == 0 {
        Seq::empty()
    } else {
        exposition(families.drop_last()) + family_text(families.last())
    }
}

/// Appends a text, escaped.
fn write_escaped(out: &mut Vec<u8>, v: &[u8], quotes: bool)
    ensures
        final(out)@ == old(out)@ + escaped(v@, quotes),
{
    let ghost start = out@;
    let mut i: usize = 0;
    assert(v@.take(0) =~= Seq::<u8>::empty());
    assert(out@ =~= start + escaped(v@.take(0), quotes));
    while i < v.len()
        invariant
            i <= v@.len(),
            out@ == start + escaped(v@.take(i as int), quotes),
        decreases v@.len() - i,
    {
        let b = v[i];
        assert(v@.take(i + 1).drop_last() =~= v@.take(i as int));
        assert(v@.take(i + 1).last() == b);
        if b == BACKSLASH {
            out.push(BACKSLASH);
            out.push(BACKSLASH);
        } else if b == QUOTE && quotes {
            out.push(BACKSLASH);
            out.push(QUOTE);
        } else if b == NEWLINE {
            out.push(BACKSLASH);
            out.push(110u8);
        } else {
            out.push(b);
        }
        assert(out@ =~= start + escaped(v@.take(i + 1), quotes));
        i = i + 1;
    }
    assert(v@.take(i as int) =~= v@);
}

/// Appends the labels of a sample.
fn write_block(out: &mut Vec<u8>, names: &Vec<Vec<u8>>, values: &Vec<Vec<u8>>, bound: Option<&[u8]>)
    ensures
        final(out)@ == old(out)@ + label_block(
            key_view(names@),
            key_view(values@),
            match bound {
                Some(le) => Some(le@),
                None => None,
            },
        ),
{
    let ghost start = out@;
    let ghost ns = key_view(names@);
    let ghost vs = key_view(values@);
    let n: usize = if names.len() <= values.len() {
        names.len()
    } else {
        values.len()
    };
    if n == 0 && bound.is_none() {
        assert(out@ =~= start + Seq::<u8>::empty());
        return ;
    }
    out.push(LBRACE);
    let ghost head = out@;
    let mut i: usize = 0;
    assert(out@ =~= head + pairs_text(ns, vs, 0));
    while i < n
        invariant
            i <= n,
            n <= names@.len(),
            n <= values@.len(),
            ns == key_view(names@),
            vs == key_view(values@),
            out@ == head + pairs_text(ns, vs, i as nat),
        decreases n - i,
    {
        if i > 0 {
            out.push(COMMA);
        }
        out.extend_from_slice(names[i].as_slice());
        out.push(EQUALS);
        out.push(QUOTE);
        write_escaped(out, values[i].as_slice(), true);
        out.push(QUOTE);
        assert(out@ =~= head + pairs_text(ns, vs, (i + 1) as nat));
        i = i + 1;
    }
    match bound {
        Some(le) => {
            if n > 0 {
                out.push(COMMA);
            }
            out.extend_from_slice("le=\"".as_bytes());
            out.extend_from_slice(le);
            out.push(QUOTE);
            out.push(RBRACE);
            assert(out@ =~= start + label_block(ns, vs, Some(le@)));
        },
        None => {
            out.push(RBRACE);
            assert(out@ =~= start + label_block(ns, vs, None));
        },
    }
}

/// Appends one sample.
fn write_sample(
    out: &mut Vec<u8>,
    family: &Family,
    suffix: &[u8],
    key: &Vec<Vec<u8>>,
    bound: Option<&[u8]>,
    value: &[u8],
)
    ensures
        final(out)@ == old(out)@ + sample_text(
            family@.name,
            suffix@,
            label_block(
                family@.label_names,
                key_view(key@),
                match bound {
                    Some(le) => Some(le@),
                    None => None,
                },
            ),
            value@,
        ),
{
    out.extend_from_slice(family.name.as_slice());
    out.extend_from_slice(suffix);
    write_block(out, &family.label_names, key, bound);
    out.push(SPACE);
    out.extend_from_slice(value);
    out.push(NEWLINE);
    assert(final(out)@ =~= old(out)@ + sample_text(
        family@.name,
        suffix@,
        label_block(
            family@.label_names,
            key_view(key@),
            match bound {
                Some(le) => Some(le@),
                None => None,
            },
        ),
        value@,
    ));
}

/// The decimal text of a count.
fn count_text(n: u64) -> (text: Vec<u8>)
    ensures
        text@ == decimal_text(n as nat),
{
    let mut text: Vec<u8> = Vec::new();
    write_u64(&mut text, n);
    assert(text@ =~= decimal_text(n as nat));
    text
}

/// The text of a fixed-point number of seconds.
fn seconds_text(n: u64) -> (text: Vec<u8>)
    ensures
        text@ == fixed_point_text(n as nat),
{
    let mut text: Vec<u8> = Vec::new();
    write_fixed_point(&mut text, n);
    assert(text@ =~= fixed_point_text(n as nat));
    text
}

/// Appends the samples of the buckets of a histogram series.
fn write_buckets(out: &mut Vec<u8>, family: &Family, key: &Vec<Vec<u8>>, h: &Histogram)
    ensures
        final(out)@ == old(out)@ + buckets_text(family@, key_view(key@), h@, h@.buckets.len()),
{
    let ghost start = out@;
    let buckets = h.buckets();
    let mut i: usize = 0;
    assert(out@ =~= start + buckets_text(family@, key_view(key@), h@, 0));
    while i < buckets.len()
        invariant
            i <= buckets@.len(),
            buckets@.map_values(|b: u64| b as nat) == h@.buckets,
            out@ == start + buckets_text(family@, key_view(key@), h@, i as nat),
        decreases buckets@.len() - i,
    {
        let le = seconds_text(bound_of(i));
        let count = count_text(buckets[i]);
        assert(buckets@.map_values(|b: u64| b as nat)[i as int] == buckets@[i as int] as nat);
        write_sample(out, family, "_bucket".as_bytes(), key, Some(le.as_slice()), count.as_slice());
        assert(out@ =~= start + buckets_text(family@, key_view(key@), h@, (i + 1) as nat));
        i = i + 1;
    }
}

/// Appends the samples of one series of a family.
pub fn write_series(out: &mut Vec<u8>, family: &Family, series: &Series)
    ensures
        final(out)@ == old(out)@ + series_text(family@, series@),
{
    let ghost start = out@;
    match &series.value {
        SeriesValue::Counter(total) => {
            let empty: Vec<u8> = Vec::new();
            let value = count_text(*total);
            write_sample(out, family, empty.as_slice(), &series.key, None, value.as_slice());
            assert(empty@ =~= Seq::<u8>::empty());
        },
        SeriesValue::Histogram(h) => {
            let count = count_text(h.count());
            let sum = seconds_text(h.sum());
            write_buckets(out, family, &series.key, h);
            write_sample(
                out,
                family,
                "_bucket".as_bytes(),
                &series.key,
                Some("+Inf".as_bytes()),
                count.as_slice(),
            );
            write_sample(out, family, "_sum".as_bytes(), &series.key, None, sum.as_slice());
            write_sample(out, family, "_count".as_bytes(), &series.key, None, count.as_slice());
            assert(out@ =~= start + series_text(family@, series@));
        },
    }
}

/// Appends a help line or a type line.
fn write_comment(out: &mut Vec<u8>, word: &[u8], name: &[u8], text: &[u8])
    ensures
        final(out)@ == old(out)@ + comment_text(word@, name@, text@),
{
    out.extend_from_slice(word);
    out.extend_from_slice(name);
    out.push(SPACE);
    out.extend_from_slice(text);
    out.push(NEWLINE);
    assert(final(out)@ =~= old(out)@ + comment_text(word@, name@, text@));
}

/// Appends the lines of one family.
pub fn write_family(out: &mut Vec<u8>, family: &Family)
    ensures
        final(out)@ == old(out)@ + family_text(family@),
{
    let ghost start = out@;
    let ghost f = family@;
    let mut help: Vec<u8> = Vec::new();
    write_escaped(&mut help, family.help.as_slice(), false);
    assert(help@ =~= escaped(f.help, false));
    write_comment(out, "# HELP ".as_bytes(), family.name.as_slice(), help.as_slice());
    let kind: &[u8] = match family.kind {
        MetricKind::Counter => "counter".as_bytes(),
        MetricKind::Histogram => "histogram".as_bytes(),
    };
    write_comment(out, "# TYPE ".as_bytes(), family.name.as_slice(), kind);
    let ghost head = out@;
    let mut i: usize = 0;
    assert(out@ =~= head + all_series_text(f, 0));
    while i < family.series.len()
        invariant
            i <= family.series@.len(),
            f == family@,
            out@ == head + all_series_text(f, i as nat),
        decreases family.series@.len() - i,
    {
        write_series(out, family, &family.series[i]);
        assert(out@ =~= head + all_series_text(f, (i + 1) as nat));
        i = i + 1;
    }
    assert(out@ =~= start + family_text(f));
}

/// Renders a snapshot as text.
pub fn encode(snapshot: &Snapshot) -> (text: Vec<u8>)
    ensures
        text@ == exposition(snapshot@),
{
    let ghost all = snapshot@;
    let mut text: Vec<u8> = Vec::new();
    let mut i: usize = 0;
    assert(all.take(0) =~= Seq::<FamilyView>::empty());
    assert(text@ =~= exposition(all.take(0)));
    while i < snapshot.families.len()
        invariant
            i <= snapshot.families@.len(),
            all == snapshot@,
            text@ == exposition(all.take(i as int)),
        decreases snapshot.families@.len() - i,
    {
        assert(all.take(i + 1).drop_last() =~= all.take(i as int));
        assert(all.take(i + 1).last() == snapshot.families@[i as int]@);
        write_family(&mut text, &snapshot.families[i]);
        i = i + 1;
    }
    assert(all.take(i as int) =~= all);
    text
}

/// What a scrape of the registry returns: the text of its snapshot, in
/// which the families stand in the order of their names. The registry does
/// not change.
pub fn scrape(registry: &Registry) -> (text: Vec<u8>)
    ensures
        text@ == exposition(populated(registry@)),
        registry_wf(populated(registry@)),
{
    let snapshot = registry.snapshot();
    encode(&snapshot)
}

} // verus!
