//! Numbers as decimal text: whole numbers, signed whole numbers, and
//! fixed-point values with nine places after the point.

use vstd::prelude::*;
use vstd::slice::slice_subrange;
use crate::bytes::{ByteClass, MINUS, POINT, ZERO};
use crate::bytes::{all_in_class, in_class, run_len, scan};
use crate::bytes::{lemma_run_len, lemma_run_of_prefix};

verus! {

/// How many of the smallest steps make one unit of a fixed-point value.
pub const UNIT: u64 = 1_000_000_000;

/// Ten to the power of `n`.
pub open spec fn pow10(n: nat) -> nat
    decreases n,
{
    if n == 0 {
        1
    } else {
        10 * pow10((n - 1) as nat)
    }
}

/// The number that a string of digits writes, the empty string being zero.
pub open spec fn digits_value(s: Seq<u8>) -> nat
    decreases s.len(),
{
    if s.len() == 0 {
        0
    } else {
        digits_value(s.drop_last()) * 10 + (s.last() - ZERO) as nat
    }
}

/// The shortest decimal text of a number.
pub open spec fn decimal_text(n: nat) -> Seq<u8>
    decreases n,
{
    if n < 10 {
        seq![(ZERO + n) as u8]
    } else {
        decimal_text(n / 10).push((ZERO + n % 10) as u8)
    }
}

/// The decimal text of a number in exactly `width` digits, zeros in front.
pub open spec fn fixed_text(n: nat, width: nat) -> Seq<u8>
    decreases width,
{
    if width == 0 {
        Seq::empty()
    } else {
        fixed_text(n / 10, (width - 1) as nat).push((ZERO + n % 10) as u8)
    }
}

/// A string without the zeros at its end.
pub open spec fn trim_zeros(s: Seq<u8>) -> Seq<u8>
    decreases s.len(),
{
    if s.len() > 0 && s.last() == ZERO {
        trim_zeros(s.drop_last())
    } else {
        s
    }
}

/// What a string of digits stands for as a `u64`: nothing where it is empty,
/// holds another byte, or writes a number that does not fit.
pub open spec fn number_of(s: Seq<u8>) -> Option<u64> {
    if s.len() > 0 && all_in_class(s, ByteClass::Digit) && digits_value(s) <= u64::MAX {
        Some(digits_value(s) as u64)
    } else {
        None
    }
}

/// Digits with at most one minus sign in front.
pub open spec fn is_integer(s: Seq<u8>) -> bool {
    let digits = if s.len() > 0 && s[0] == MINUS {
        s.skip(1)
    } else {
        s
    };
    digits.len() > 0 && all_in_class(digits, ByteClass::Digit)
}

/// The number that digits with at most one minus sign in front write.
pub open spec fn integer_value(s: Seq<u8>) -> int {
    if s.len() > 0 && s[0] == MINUS {
        -(digits_value(s.skip(1)) as int)
    } else {
        digits_value(s) as int
    }
}

/// What a text stands for as an `i64`: nothing where it is no whole number,
/// or one that does not fit.
pub open spec fn integer_of(s: Seq<u8>) -> Option<i64> {
    if is_integer(s) && i64::MIN <= integer_value(s) <= i64::MAX {
        Some(integer_value(s) as i64)
    } else {
        None
    }
}

/// The shortest decimal text of a whole number, with a minus sign where it
/// is negative.
pub open spec fn integer_text(q: int) -> Seq<u8> {
    if q < 0 {
        seq![MINUS] + decimal_text((-q) as nat)
    } else {
        decimal_text(q as nat)
    }
}

/// The digits after the point, read to nine places: a missing place counts
/// as zero, and places after the ninth are left out.
pub open spec fn nine_places(fraction: Seq<u8>) -> Seq<u8> {
    Seq::new(
        9,
        |i: int|
            if i < fraction.len() {
                fraction[i]
            } else {
                ZERO
            },
    )
}

/// The digits after the point of a decimal text, if it has a point.
pub open spec fn fraction_part(s: Seq<u8>) -> Seq<u8> {
    let w = run_len(s, ByteClass::Digit) as int;
    if w < s.len() {
        s.skip(w + 1)
    } else {
        Seq::empty()
    }
}

/// One or more digits, then nothing or a point and one or more digits.
pub open spec fn is_decimal(s: Seq<u8>) -> bool {
    let w = run_len(s, ByteClass::Digit) as int;
    w > 0 && (w == s.len() || (s[w] == POINT && w + 1 < s.len() && all_in_class(
        s.skip(w + 1),
        ByteClass::Digit,
    )))
}

/// The value of a decimal text in steps of one `UNIT`-th.
pub open spec fn decimal_value(s: Seq<u8>) -> nat {
    let w = run_len(s, ByteClass::Digit) as int;
    digits_value(s.take(w)) * (UNIT as nat) + digits_value(nine_places(fraction_part(s)))
}

/// What a text stands for as a fixed-point value: nothing where it is no
/// decimal number, or one that does not fit.
pub open spec fn decimal_of(s: Seq<u8>) -> Option<u64> {
    if is_decimal(s) && decimal_value(s) <= u64::MAX {
        Some(decimal_value(s) as u64)
    } else {
        None
    }
}

/// The text of a fixed-point value: the whole part, then, unless the rest
/// is zero, a point and the places up to the last one that is not zero.
pub open spec fn fixed_point_text(n: nat) -> Seq<u8> {
    let whole = decimal_text(n / (UNIT as nat));
    if n % (UNIT as nat) == 0 {
        whole
    } else {
        whole.push(POINT) + trim_zeros(fixed_text(n % (UNIT as nat), 9))
    }
}

/// Nine places hold the numbers below one `UNIT`.
pub proof fn lemma_pow10_nine()
    ensures
        pow10(9) == 1_000_000_000,
{
    reveal_with_fuel(pow10, 10);
}

/// The text of a number is made of digits, and they write the number.
pub proof fn lemma_decimal_text(n: nat)
    ensures
        decimal_text(n).len() > 0,
        all_in_class(decimal_text(n), ByteClass::Digit),
        digits_value(decimal_text(n)) == n,
    decreases n,
{
    let s = decimal_text(n);
    if n < 10 {
        assert(s.drop_last() =~= Seq::<u8>::empty());
        assert(digits_value(s.drop_last()) == 0);
        assert(s.last() == (ZERO + n) as u8);
    } else {
        lemma_decimal_text(n / 10);
        assert(s.drop_last() =~= decimal_text(n / 10));
        assert(s.last() == (ZERO + n % 10) as u8);
        assert(digits_value(s) == digits_value(s.drop_last()) * 10 + (s.last() - ZERO) as nat);
    }
}

/// The text of a number in a given width is made of that many digits, and
/// they write the number if it is small enough for the width.
pub proof fn lemma_fixed_text(n: nat, width: nat)
    requires
        n < pow10(width),
    ensures
        fixed_text(n, width).len() == width,
        all_in_class(fixed_text(n, width), ByteClass::Digit),
        digits_value(fixed_text(n, width)) == n,
    decreases width,
{
    if width > 0 {
        lemma_fixed_text(n / 10, (width - 1) as nat);
        assert(fixed_text(n, width).drop_last() =~= fixed_text(n / 10, (width - 1) as nat));
    }
}

/// Zero is written with zeros only.
pub proof fn lemma_fixed_text_of_zero(width: nat)
    ensures
        fixed_text(0, width) =~= Seq::new(width, |i: int| ZERO),
    decreases width,
{
    if width > 0 {
        lemma_fixed_text_of_zero((width - 1) as nat);
    }
}

/// The digits in front of a string make a number no larger than the whole.
pub proof fn lemma_digits_prefix(s: Seq<u8>, k: int)
    requires
        0 <= k <= s.len(),
    ensures
        digits_value(s.take(k)) <= digits_value(s),
    decreases s.len(),
{
    if k == s.len() {
        assert(s.take(k) =~= s);
    } else {
        lemma_digits_prefix(s.drop_last(), k);
        assert(s.drop_last().take(k) =~= s.take(k));
    }
}

/// So many digits write a number below ten to their count.
pub proof fn lemma_digits_bound(s: Seq<u8>)
    requires
        all_in_class(s, ByteClass::Digit),
    ensures
        digits_value(s) < pow10(s.len()),
    decreases s.len(),
{
    if s.len() > 0 {
        assert forall|i: int| 0 <= i < s.drop_last().len() implies in_class(
            ByteClass::Digit,
            #[trigger] s.drop_last()[i],
        ) by {
            assert(s.drop_last()[i] == s[i]);
        }
        lemma_digits_bound(s.drop_last());
        assert(in_class(ByteClass::Digit, s[s.len() - 1]));
    }
}

/// Trimming cuts only zeros, and leaves no zero at the end.
pub proof fn lemma_trim_zeros(s: Seq<u8>)
    ensures
        trim_zeros(s).len() <= s.len(),
        trim_zeros(s) == s.take(trim_zeros(s).len() as int),
        forall|i: int| trim_zeros(s).len() <= i < s.len() ==> s[i] == ZERO,
        trim_zeros(s).len() > 0 ==> trim_zeros(s).last() != ZERO,
    decreases s.len(),
{
    if s.len() > 0 && s.last() == ZERO {
        let t = s.drop_last();
        lemma_trim_zeros(t);
        assert(t.take(trim_zeros(t).len() as int) =~= s.take(trim_zeros(t).len() as int));
        assert forall|i: int| trim_zeros(s).len() <= i < s.len() implies s[i] == ZERO by {
            if i < t.len() {
                assert(t[i] == s[i]);
            }
        }
    } else {
        assert(s.take(s.len() as int) =~= s);
    }
}

/// A string of digits is its own run of digits.
pub proof fn lemma_run_of_digits(s: Seq<u8>)
    requires
        all_in_class(s, ByteClass::Digit),
    ensures
        run_len(s, ByteClass::Digit) == s.len(),
{
    lemma_run_of_prefix(s, Seq::empty(), ByteClass::Digit);
    assert(s + Seq::<u8>::empty() =~= s);
}

/// Reading the text of a number gives the number back.
pub proof fn lemma_number_round_trip(n: u64)
    ensures
        number_of(decimal_text(n as nat)) == Some(n),
{
    lemma_decimal_text(n as nat);
}

/// Reading the text of a signed number gives the number back.
pub proof fn lemma_integer_round_trip(q: i64)
    ensures
        integer_of(integer_text(q as int)) == Some(q),
{
    if q < 0 {
        let digits = decimal_text((-q) as nat);
        lemma_decimal_text((-q) as nat);
        let s = integer_text(q as int);
        assert(s[0] == MINUS);
        assert(s.skip(1) =~= digits);
    } else {
        lemma_decimal_text(q as nat);
        assert(decimal_text(q as nat)[0] != MINUS);
    }
}

/// Reading the text of a fixed-point value gives the value back.
pub proof fn lemma_fixed_point_round_trip(n: u64)
    ensures
        decimal_of(fixed_point_text(n as nat)) == Some(n),
{
    let unit = UNIT as nat;
    let q = (n as nat) / unit;
    let r = (n as nat) % unit;
    let whole = decimal_text(q);
    let text = fixed_point_text(n as nat);
    lemma_decimal_text(q);
    lemma_pow10_nine();
    if r == 0 {
        lemma_run_of_digits(whole);
        assert(whole.take(whole.len() as int) =~= whole);
        lemma_fixed_text(0, 9);
        lemma_fixed_text_of_zero(9);
        assert(nine_places(Seq::<u8>::empty()) =~= fixed_text(0, 9));
    } else {
        let places = fixed_text(r, 9);
        let fraction = trim_zeros(places);
        lemma_fixed_text(r, 9);
        lemma_trim_zeros(places);
        if fraction.len() == 0 {
            lemma_fixed_text(0, 9);
            lemma_fixed_text_of_zero(9);
            assert(places =~= fixed_text(0, 9));
        }
        let tail = seq![POINT] + fraction;
        assert(text =~= whole + tail);
        lemma_run_of_prefix(whole, tail, ByteClass::Digit);
        let w = whole.len() as int;
        assert(text.take(w) =~= whole);
        assert(text[w] == POINT);
        assert(text.skip(w + 1) =~= fraction);
        assert forall|i: int| 0 <= i < fraction.len() implies in_class(
            ByteClass::Digit,
            #[trigger] fraction[i],
        ) by {
            assert(fraction[i] == places[i]);
        }
        assert(nine_places(fraction) =~= places);
    }
}

/// Reads a string of digits.
pub fn parse_u64(s: &[u8]) -> (r: Option<u64>)
    ensures
        r == number_of(s@),
{
    if s.len() == 0 {
        return None;
    }
    let mut acc: u64 = 0;
    let mut i: usize = 0;
    assert(s@.take(0) =~= Seq::<u8>::empty());
    while i < s.len()
        invariant
            i <= s@.len(),
            all_in_class(s@.take(i as int), ByteClass::Digit),
            acc == digits_value(s@.take(i as int)),
        decreases s@.len() - i,
    {
        let b = s[i];
        if b < 48 || b > 57 {
            assert(!in_class(ByteClass::Digit, s@[i as int]));
            return None;
        }
        let d: u64 = (b - 48) as u64;
        proof {
            let next = s@.take(i + 1);
            assert(next.drop_last() =~= s@.take(i as int));
            assert(next.last() == b);
            assert forall|j: int| 0 <= j < next.len() implies in_class(
                ByteClass::Digit,
                #[trigger] next[j],
            ) by {
                if j < i {
                    assert(next[j] == s@.take(i as int)[j]);
                }
            }
        }
        if acc > (u64::MAX - d) / 10 {
            proof {
                lemma_digits_prefix(s@, i + 1);
            }
            return None;
        }
        acc = acc * 10 + d;
        i = i + 1;
    }
    assert(s@.take(i as int) =~= s@);
    Some(acc)
}

/// Reads digits with at most one minus sign in front.
pub fn parse_i64(s: &[u8]) -> (r: Option<i64>)
    ensures
        r == integer_of(s@),
{
    if s.len() > 0 && s[0] == MINUS {
        let digits = slice_subrange(s, 1, s.len());
        assert(digits@ =~= s@.skip(1));
        match parse_u64(digits) {
            Some(m) => {
                if m <= 9_223_372_036_854_775_807 {
                    Some(-(m as i64))
                } else if m == 9_223_372_036_854_775_808 {
                    Some(i64::MIN)
                } else {
                    None
                }
            },
            None => None,
        }
    } else {
        match parse_u64(s) {
            Some(m) => {
                if m <= 9_223_372_036_854_775_807 {
                    Some(m as i64)
                } else {
                    None
                }
            },
            None => None,
        }
    }
}

/// Tells whether a text is a decimal number: digits, then nothing or a point
/// and more digits.
pub fn check_decimal(s: &[u8]) -> (r: bool)
    ensures
        r == is_decimal(s@),
{
    assert(s@.skip(0) =~= s@);
    let w = scan(s, 0, ByteClass::Digit);
    if w == 0 {
        return false;
    }
    if w < s.len() {
        if s[w] != POINT || w + 1 == s.len() {
            return false;
        }
        let end = scan(s, w + 1, ByteClass::Digit);
        proof {
            let tail = s@.skip(w + 1);
            lemma_run_len(tail, ByteClass::Digit);
            if end == s@.len() {
                assert(tail.take(tail.len() as int) =~= tail);
            } else {
                assert(!in_class(ByteClass::Digit, tail[end - (w + 1)]));
            }
        }
        if end != s.len() {
            return false;
        }
    }
    true
}

/// Reads a decimal text as a fixed-point value.
pub fn parse_decimal(s: &[u8]) -> (r: Option<u64>)
    ensures
        r == decimal_of(s@),
{
    if !check_decimal(s) {
        return None;
    }
    assert(s@.skip(0) =~= s@);
    let w = scan(s, 0, ByteClass::Digit);
    assert(is_decimal(s@));
    let ghost fraction = fraction_part(s@);
    let mut places: Vec<u8> = Vec::new();
    let mut i: usize = 0;
    while i < 9
        invariant
            i <= 9,
            w < s@.len() ==> w + 1 < s@.len(),
            fraction == fraction_part(s@),
            w == run_len(s@, ByteClass::Digit),
            places@ == nine_places(fraction).take(i as int),
        decreases 9 - i,
    {
        let b: u8 = if w < s.len() && i < s.len() - (w + 1) {
            s[w + 1 + i]
        } else {
            ZERO
        };
        places.push(b);
        assert(places@ =~= nine_places(fraction).take(i + 1));
        i = i + 1;
    }
    proof {
        assert(places@ =~= nine_places(fraction));
        assert forall|j: int| 0 <= j < 9 implies in_class(
            ByteClass::Digit,
            #[trigger] places@[j],
        ) by {
            if j < fraction.len() {
                assert(fraction[j] == s@.skip(w + 1)[j]);
            }
        }
        lemma_digits_bound(places@);
        lemma_pow10_nine();
        lemma_run_len(s@, ByteClass::Digit);
    }
    let low: u64 = match parse_u64(places.as_slice()) {
        Some(low) => low,
        None => 0,
    };
    assert(low == digits_value(nine_places(fraction_part(s@))));
    let head = slice_subrange(s, 0, w);
    assert(head@ =~= s@.take(w as int));
    match parse_u64(head) {
        Some(whole) => {
            if whole > (u64::MAX - low) / UNIT {
                None
            } else {
                Some(whole * UNIT + low)
            }
        },
        None => None,
    }
}

/// Appends the shortest decimal text of `n`.
pub fn write_u64(out: &mut Vec<u8>, n: u64)
    ensures
        final(out)@ == old(out)@ + decimal_text(n as nat),
    decreases n,
{
    if n >= 10 {
        write_u64(out, n / 10);
    }
    out.push(ZERO + (n % 10) as u8);
    assert(final(out)@ =~= old(out)@ + decimal_text(n as nat));
}

/// Appends the decimal text of `q`, with a minus sign where it is negative.
pub fn write_i64(out: &mut Vec<u8>, q: i64)
    ensures
        final(out)@ == old(out)@ + integer_text(q as int),
{
    if q < 0 {
        out.push(MINUS);
        let m: u64 = if q == i64::MIN {
            9_223_372_036_854_775_808
        } else {
            (-q) as u64
        };
        write_u64(out, m);
        assert(final(out)@ =~= old(out)@ + integer_text(q as int));
    } else {
        write_u64(out, q as u64);
    }
}

/// Appends the decimal text of `n` in exactly `width` digits.
pub fn write_fixed(out: &mut Vec<u8>, n: u64, width: usize)
    ensures
        final(out)@ == old(out)@ + fixed_text(n as nat, width as nat),
    decreases width,
{
    if width > 0 {
        write_fixed(out, n / 10, width - 1);
        out.push(ZERO + (n % 10) as u8);
    }
    assert(final(out)@ =~= old(out)@ + fixed_text(n as nat, width as nat));
}

/// Appends the text of a fixed-point value.
pub fn write_fixed_point(out: &mut Vec<u8>, n: u64)
    ensures
        final(out)@ == old(out)@ + fixed_point_text(n as nat),
{
    write_u64(out, n / UNIT);
    let rest: u64 = n % UNIT;
    if rest != 0 {
        out.push(POINT);
        let mut places: Vec<u8> = Vec::new();
        write_fixed(&mut places, rest, 9);
        proof {
            lemma_pow10_nine();
            lemma_fixed_text(rest as nat, 9);
            assert(places@ =~= fixed_text(rest as nat, 9));
            assert(places@.take(9) =~= places@);
        }
        let mut end: usize = 9;
        while end > 0 && places[end - 1] == ZERO
            invariant
                end <= 9,
                places@.len() == 9,
                trim_zeros(places@) == trim_zeros(places@.take(end as int)),
            decreases end,
        {
            assert(places@.take(end as int).drop_last() =~= places@.take(end - 1));
            end = end - 1;
        }
        out.extend_from_slice(slice_subrange(places.as_slice(), 0, end));
        assert(final(out)@ =~= old(out)@ + fixed_point_text(n as nat));
    }
}

} // verus!
