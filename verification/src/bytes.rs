//! Byte strings: classes of bytes, runs of a class, equality and order.

use vstd::prelude::*;
use vstd::slice::slice_to_vec;

verus! {

/// The line feed.
pub const NEWLINE: u8 = 10;

/// The space.
pub const SPACE: u8 = 32;

/// The double quote.
pub const QUOTE: u8 = 34;

/// The comma.
pub const COMMA: u8 = 44;

/// The minus sign.
pub const MINUS: u8 = 45;

/// The decimal point.
pub const POINT: u8 = 46;

/// The digit zero.
pub const ZERO: u8 = 48;

/// The equals sign.
pub const EQUALS: u8 = 61;

/// The backslash.
pub const BACKSLASH: u8 = 92;

/// The opening brace.
pub const LBRACE: u8 = 123;

/// The closing brace.
pub const RBRACE: u8 = 125;

/// The classes of bytes that the line protocol tells apart.
#[derive(Clone, Copy, Debug, PartialEq, Eq, Structural)]
pub enum ByteClass {
    /// A letter, a digit or an underscore.
    Word,
    /// A decimal digit.
    Digit,
    /// The space character.
    Space,
    /// Anything but a double quote.
    Unquoted,
}

/// A decimal digit.
pub open spec fn is_digit(b: u8) -> bool {
    48 <= b <= 57
}

/// A letter, a digit or an underscore.
pub open spec fn is_word(b: u8) -> bool {
    is_digit(b) || 65 <= b <= 90 || 97 <= b <= 122 || b == 95
}

/// Whether a byte belongs to a class.
pub open spec fn in_class(class: ByteClass, b: u8) -> bool {
    match class {
        ByteClass::Word => is_word(b),
        ByteClass::Digit => is_digit(b),
        ByteClass::Space => b == SPACE,
        ByteClass::Unquoted => b != QUOTE,
    }
}

/// Whether all bytes of a string belong to a class.
pub open spec fn all_in_class(s: Seq<u8>, class: ByteClass) -> bool {
    forall|i: int| 0 <= i < s.len() ==> in_class(class, #[trigger] s[i])
}

/// The length of the longest prefix of `s` whose bytes all belong to `class`.
pub open spec fn run_len(s: Seq<u8>, class: ByteClass) -> nat
    decreases s.len(),
{
    if s.len() > 0 && in_class(class, s[0]) {
        1 + run_len(s.skip(1), class)
    } else {
        0
    }
}

/// A run never exceeds the string, covers bytes of the class only, and ends
/// at the first byte outside the class.
pub proof fn lemma_run_len(s: Seq<u8>, class: ByteClass)
    ensures
        run_len(s, class) <= s.len(),
        all_in_class(s.take(run_len(s, class) as int), class),
        run_len(s, class) < s.len() ==> !in_class(class, s[run_len(s, class) as int]),
    decreases s.len(),
{
    if s.len() > 0 && in_class(class, s[0]) {
        let t = s.skip(1);
        lemma_run_len(t, class);
        let n = run_len(t, class) as int;
        assert forall|i: int| 0 <= i < n + 1 implies in_class(
            class,
            #[trigger] s.take(n + 1)[i],
        ) by {
            if i > 0 {
                assert(s.take(n + 1)[i] == t.take(n)[i - 1]);
            }
        }
    }
}

/// A string that starts with bytes of the class, followed by nothing or by a
/// byte outside it, has exactly those bytes as its run.
pub proof fn lemma_run_of_prefix(head: Seq<u8>, tail: Seq<u8>, class: ByteClass)
    requires
        all_in_class(head, class),
        tail.len() == 0 || !in_class(class, tail[0]),
    ensures
        run_len(head + tail, class) == head.len(),
    decreases head.len(),
{
    let s = head + tail;
    if head.len() == 0 {
        assert(s =~= tail);
    } else {
        assert(s[0] == head[0]);
        assert(s.skip(1) =~= head.skip(1) + tail);
        assert forall|i: int| 0 <= i < head.skip(1).len() implies in_class(
            class,
            #[trigger] head.skip(1)[i],
        ) by {
            assert(head.skip(1)[i] == head[i + 1]);
        }
        lemma_run_of_prefix(head.skip(1), tail, class);
    }
}

/// Tells whether a byte belongs to a class.
pub fn byte_in_class(class: ByteClass, b: u8) -> (r: bool)
    ensures
        r == in_class(class, b),
{
    match class {
        ByteClass::Word => (48 <= b && b <= 57) || (65 <= b && b <= 90) || (97 <= b && b <= 122)
            || b == 95,
        ByteClass::Digit => 48 <= b && b <= 57,
        ByteClass::Space => b == SPACE,
        ByteClass::Unquoted => b != QUOTE,
    }
}

/// Walks from `from` over the bytes of `class` and returns where the run
/// ends. From beyond the end of `s` there is nowhere to walk.
pub fn scan(s: &[u8], from: usize, class: ByteClass) -> (end: usize)
    ensures
        from <= s@.len() ==> end == from + run_len(s@.skip(from as int), class),
        from <= s@.len() ==> end <= s@.len(),
        from <= end,
        from > s@.len() ==> end == from,
{
    let mut end: usize = from;
    while end < s.len() && byte_in_class(class, s[end])
        invariant
            from <= end,
            from > s@.len() ==> end == from,
            from <= s@.len() ==> end <= s@.len() && run_len(s@.skip(from as int), class) == (end
                - from) + run_len(s@.skip(end as int), class),
        decreases s@.len() - end,
    {
        proof {
            let t = s@.skip(end as int);
            assert(t[0] == s@[end as int]);
            assert(t.skip(1) =~= s@.skip(end + 1));
        }
        end = end + 1;
    }
    proof {
        if from <= s@.len() {
            let t = s@.skip(end as int);
            if end < s@.len() {
                assert(t[0] == s@[end as int]);
            }
        }
    }
    end
}

/// A copy of a byte string.
pub fn copy_bytes(s: &[u8]) -> (v: Vec<u8>)
    ensures
        v@ == s@,
{
    slice_to_vec(s)
}

/// Tells whether two byte strings are the same.
pub fn bytes_eq(a: &[u8], b: &[u8]) -> (r: bool)
    ensures
        r == (a@ == b@),
{
    if a.len() != b.len() {
        return false;
    }
    let mut i: usize = 0;
    while i < a.len()
        invariant
            i <= a@.len(),
            a@.len() == b@.len(),
            a@.take(i as int) == b@.take(i as int),
        decreases a@.len() - i,
    {
        if a[i] != b[i] {
            return false;
        }
        assert(a@.take(i + 1) =~= a@.take(i as int).push(a@[i as int]));
        assert(b@.take(i + 1) =~= b@.take(i as int).push(b@[i as int]));
        i = i + 1;
    }
    assert(a@ =~= a@.take(i as int));
    assert(b@ =~= b@.take(i as int));
    true
}

/// The order of byte strings: byte by byte, a proper prefix before what
/// extends it.
pub open spec fn lex_lt(a: Seq<u8>, b: Seq<u8>) -> bool
    decreases a.len(),
{
    if b.len() == 0 {
        false
    } else if a.len() == 0 {
        true
    } else if a[0] != b[0] {
        a[0] < b[0]
    } else {
        lex_lt(a.skip(1), b.skip(1))
    }
}

/// No byte string stands before itself.
pub proof fn lemma_lex_irreflexive(a: Seq<u8>)
    ensures
        !lex_lt(a, a),
    decreases a.len(),
{
    if a.len() > 0 {
        lemma_lex_irreflexive(a.skip(1));
    }
}

/// What stands before a string stands before all that the string stands
/// before.
pub proof fn lemma_lex_transitive(a: Seq<u8>, b: Seq<u8>, c: Seq<u8>)
    requires
        lex_lt(a, b),
        lex_lt(b, c),
    ensures
        lex_lt(a, c),
    decreases a.len(),
{
    if a.len() > 0 && a[0] == b[0] && b[0] == c[0] {
        lemma_lex_transitive(a.skip(1), b.skip(1), c.skip(1));
    }
}

/// Of two different byte strings one stands before the other.
pub proof fn lemma_lex_total(a: Seq<u8>, b: Seq<u8>)
    ensures
        a == b || lex_lt(a, b) || lex_lt(b, a),
    decreases a.len(),
{
    if a.len() > 0 && b.len() > 0 && a[0] == b[0] {
        lemma_lex_total(a.skip(1), b.skip(1));
        if a.skip(1) == b.skip(1) {
            assert(a.len() == a.skip(1).len() + 1);
            assert(b.len() == b.skip(1).len() + 1);
            assert forall|i: int| 0 <= i < a.len() implies a[i] == b[i] by {
                if i > 0 {
                    assert(a[i] == a.skip(1)[i - 1]);
                    assert(b[i] == b.skip(1)[i - 1]);
                }
            }
            assert(a =~= b);
        }
    } else if a.len() == 0 && b.len() == 0 {
        assert(a =~= b);
    }
}

/// Where one byte string stands with respect to another.
#[derive(Clone, Copy, Debug, PartialEq, Eq, Structural)]
pub enum Precedence {
    Before,
    Same,
    After,
}

/// Where `a` stands with respect to `b`.
pub open spec fn precedence(a: Seq<u8>, b: Seq<u8>) -> Precedence {
    if a == b {
        Precedence::Same
    } else if lex_lt(a, b) {
        Precedence::Before
    } else {
        Precedence::After
    }
}

/// Tells where `a` stands with respect to `b`.
pub fn compare_bytes(a: &[u8], b: &[u8]) -> (r: Precedence)
    ensures
        r == precedence(a@, b@),
        r == Precedence::After ==> lex_lt(b@, a@),
{
    let mut i: usize = 0;
    assert(a@.skip(0) =~= a@ && b@.skip(0) =~= b@);
    while i < a.len() && i < b.len()
        invariant
            i <= a@.len(),
            i <= b@.len(),
            a@.take(i as int) == b@.take(i as int),
            lex_lt(a@, b@) == lex_lt(a@.skip(i as int), b@.skip(i as int)),
        decreases a@.len() - i,
    {
        proof {
            let x = a@.skip(i as int);
            let y = b@.skip(i as int);
            assert(x[0] == a@[i as int]);
            assert(y[0] == b@[i as int]);
            assert(x.skip(1) =~= a@.skip(i + 1));
            assert(y.skip(1) =~= b@.skip(i + 1));
        }
        if a[i] < b[i] {
            return Precedence::Before;
        }
        if a[i] > b[i] {
            proof {
                lemma_lex_total(a@, b@);
            }
            return Precedence::After;
        }
        assert(a@.take(i + 1) =~= a@.take(i as int).push(a@[i as int]));
        assert(b@.take(i + 1) =~= b@.take(i as int).push(b@[i as int]));
        i = i + 1;
    }
    proof {
        lemma_lex_total(a@, b@);
        if a@.len() == b@.len() {
            assert(a@ =~= a@.take(i as int));
            assert(b@ =~= b@.take(i as int));
        }
    }
    if a.len() == b.len() {
        Precedence::Same
    } else if a.len() < b.len() {
        Precedence::Before
    } else {
        Precedence::After
    }
}

} // verus!
