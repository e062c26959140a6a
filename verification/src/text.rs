//! Byte-level vocabulary shared by the parser, the router and the serialiser:
//! character classes, scanning, trimming and decimal numbers.

use vstd::prelude::*;
use vstd::slice::slice_subrange;

verus! {

/// The bytes of an ASCII string literal, one byte per character.
pub open spec fn ascii(s: &str) -> Seq<u8> {
    Seq::new(s@.len(), |i: int| s@[i] as u8)
}

/// Carriage return or line feed.
pub open spec fn is_line_end(b: u8) -> bool {
    b == 13 || b == 10
}

/// ASCII whitespace: space, tab, line feed, vertical tab, form feed, carriage return.
pub open spec fn is_blank(b: u8) -> bool {
    b == 32 || (9 <= b && b <= 13)
}

/// The sets of bytes at which a scan stops.
#[derive(Clone, Copy, Debug, PartialEq, Eq, Structural)]
pub enum Stop {
    /// A space.
    Space,
    /// A space, a carriage return or a line feed.
    SpaceOrLineEnd,
    /// A carriage return or a line feed.
    LineEnd,
    /// A colon.
    Colon,
}

impl Stop {
    /// Whether `b` belongs to the set.
    pub open spec fn holds(self, b: u8) -> bool {
        match self {
            Stop::Space => b == 32,
            Stop::SpaceOrLineEnd => b == 32 || is_line_end(b),
            Stop::LineEnd => is_line_end(b),
            Stop::Colon => b == 58,
        }
    }

    /// Executable form of [`Stop::holds`].
    pub fn test(self, b: u8) -> (r: bool)
        ensures
            r == self.holds(b),
    {
        match self {
            Stop::Space => b == 32,
            Stop::SpaceOrLineEnd => b == 32 || b == 13 || b == 10,
            Stop::LineEnd => b == 13 || b == 10,
            Stop::Colon => b == 58,
        }
    }
}

/// The least index at or after `from` whose byte is in `stop`, or `s.len()`
/// when there is none.
pub open spec fn first_at(s: Seq<u8>, from: int, stop: Stop) -> int
    decreases s.len() - from,
{
    if from < 0 || from >= s.len() {
        s.len() as int
    } else if stop.holds(s[from]) {
        from
    } else {
        first_at(s, from + 1, stop)
    }
}

/// `first_at` is the unique index that is preceded, from `from` on, only by
/// bytes outside `stop`, and that is the end of `s` or holds a byte in `stop`.
pub proof fn lemma_first_at(s: Seq<u8>, from: int, stop: Stop)
    requires
        0 <= from <= s.len(),
    ensures
        from <= first_at(s, from, stop) <= s.len(),
        forall|i: int| from <= i < first_at(s, from, stop) ==> !stop.holds(#[trigger] s[i]),
        first_at(s, from, stop) < s.len() ==> stop.holds(s[first_at(s, from, stop)]),
    decreases s.len() - from,
{
    if from < s.len() && !stop.holds(s[from]) {
        lemma_first_at(s, from + 1, stop);
    }
}

/// Any index with the properties of `lemma_first_at` is `first_at`.
pub proof fn lemma_first_at_unique(s: Seq<u8>, from: int, stop: Stop, r: int)
    requires
        0 <= from <= r <= s.len(),
        forall|i: int| from <= i < r ==> !stop.holds(#[trigger] s[i]),
        r < s.len() ==> stop.holds(s[r]),
    ensures
        first_at(s, from, stop) == r,
    decreases r - from,
{
    if from < r {
        lemma_first_at_unique(s, from + 1, stop, r);
    }
}

/// Scans `s` from `from` to the first byte in `stop`.
pub fn scan(s: &[u8], from: usize, stop: Stop) -> (r: usize)
    requires
        from <= s@.len(),
    ensures
        r == first_at(s@, from as int, stop),
        from <= r <= s@.len(),
{
    let mut i: usize = from;
    while i < s.len() && !stop.test(s[i])
        invariant
            from <= i <= s@.len(),
            forall|k: int| from <= k < i ==> !stop.holds(#[trigger] s@[k]),
        decreases s@.len() - i,
    {
        i += 1;
    }
    proof {
        lemma_first_at_unique(s@, from as int, stop, i as int);
    }
    i
}

/// `s` without its leading whitespace.
pub open spec fn trim_front(s: Seq<u8>) -> Seq<u8>
    decreases s.len(),
{
    if s.len() > 0 && is_blank(s[0]) {
        trim_front(s.drop_first())
    } else {
        s
    }
}

/// `s` without its trailing whitespace.
pub open spec fn trim_back(s: Seq<u8>) -> Seq<u8>
    decreases s.len(),
{
    if s.len() > 0 && is_blank(s.last()) {
        trim_back(s.drop_last())
    } else {
        s
    }
}

/// `s` without the whitespace that surrounds it.
pub open spec fn trim(s: Seq<u8>) -> Seq<u8> {
    trim_back(trim_front(s))
}

/// Whether `s` neither starts nor ends with whitespace.
pub open spec fn is_trimmed(s: Seq<u8>) -> bool {
    s.len() > 0 ==> !is_blank(s[0]) && !is_blank(s.last())
}

/// What `trim_back` leaves does not end with whitespace, and starts as
/// the sequence does where that starts with something else.
proof fn lemma_trim_back(s: Seq<u8>)
    ensures
        trim_back(s).len() > 0 ==> !is_blank(trim_back(s).last()),
        s.len() > 0 && !is_blank(s[0]) ==> trim_back(s).len() > 0 && trim_back(s)[0] == s[0],
    decreases s.len(),
{
    if s.len() > 0 && is_blank(s.last()) {
        lemma_trim_back(s.drop_last());
    }
}

/// What `trim_front` leaves does not start with whitespace.
proof fn lemma_trim_front(s: Seq<u8>)
    ensures
        trim_front(s).len() > 0 ==> !is_blank(trim_front(s)[0]),
    decreases s.len(),
{
    if s.len() > 0 && is_blank(s[0]) {
        lemma_trim_front(s.drop_first());
    }
}

/// Trimming leaves nothing to trim: the result neither starts nor ends
/// with whitespace, and trimming it again changes nothing. A sequence that
/// is trimmed already is left as it is.
pub proof fn lemma_trim_is_trimmed(s: Seq<u8>)
    ensures
        is_trimmed(trim(s)),
        trim(trim(s)) == trim(s),
        is_trimmed(s) ==> trim(s) == s,
{
    lemma_trim_front(s);
    lemma_trim_back(trim_front(s));
}

/// Executable form of [`is_blank`].
pub fn blank(b: u8) -> (r: bool)
    ensures
        r == is_blank(b),
{
    b == 32 || (9 <= b && b <= 13)
}

/// The part of `s` between its leading and its trailing whitespace.
pub fn trimmed(s: &[u8]) -> (r: &[u8])
    ensures
        r@ == trim(s@),
{
    let mut lo: usize = 0;
    assert(s@.subrange(0, s@.len() as int) =~= s@);
    while lo < s.len() && blank(s[lo])
        invariant
            lo <= s@.len(),
            trim_front(s@) == trim_front(s@.subrange(lo as int, s@.len() as int)),
        decreases s@.len() - lo,
    {
        proof {
            let t = s@.subrange(lo as int, s@.len() as int);
            assert(t.drop_first() =~= s@.subrange(lo + 1, s@.len() as int));
        }
        lo += 1;
    }
    let mut hi: usize = s.len();
    while hi > lo && blank(s[hi - 1])
        invariant
            lo <= hi <= s@.len(),
            trim_front(s@) == s@.subrange(lo as int, s@.len() as int),
            trim(s@) == trim_back(s@.subrange(lo as int, hi as int)),
        decreases hi,
    {
        proof {
            let t = s@.subrange(lo as int, hi as int);
            assert(t.drop_last() =~= s@.subrange(lo as int, hi - 1));
        }
        hi -= 1;
    }
    slice_subrange(s, lo, hi)
}

/// Whether two byte strings are equal.
pub fn same_bytes(a: &[u8], b: &[u8]) -> (r: bool)
    ensures
        r == (a@ == b@),
{
    if a.len() != b.len() {
        return false;
    }
    let mut i: usize = 0;
    while i < a.len()
        invariant
            a@.len() == b@.len(),
            i <= a@.len(),
            forall|k: int| 0 <= k < i ==> a@[k] == b@[k],
        decreases a@.len() - i,
    {
        if a[i] != b[i] {
            return false;
        }
        i += 1;
    }
    assert(a@ =~= b@);
    true
}

/// Whether `s` begins with `prefix`.
pub open spec fn has_prefix(s: Seq<u8>, prefix: Seq<u8>) -> bool {
    prefix.len() <= s.len() && s.subrange(0, prefix.len() as int) == prefix
}

/// Executable form of [`has_prefix`].
pub fn starts_with(s: &[u8], prefix: &[u8]) -> (r: bool)
    ensures
        r == has_prefix(s@, prefix@),
{
    if prefix.len() > s.len() {
        return false;
    }
    same_bytes(slice_subrange(s, 0, prefix.len()), prefix)
}

/// The bytes of an ASCII literal, as the compiled program holds them.
pub fn literal(s: &'static str) -> (r: &'static [u8])
    requires
        s.is_ascii(),
    ensures
        r@ == ascii(s),
{
    broadcast use vstd::string::is_ascii_spec_bytes;

    let r = s.as_bytes();
    assert(r@ =~= ascii(s));
    r
}

/// A decimal digit.
pub open spec fn is_digit(b: u8) -> bool {
    48 <= b && b <= 57
}

/// Whether every byte of `s` is a decimal digit.
pub open spec fn all_digits(s: Seq<u8>) -> bool {
    forall|i: int| 0 <= i < s.len() ==> is_digit(#[trigger] s[i])
}

/// The number that the digits of `s` write in base ten.
pub open spec fn decimal_value(s: Seq<u8>) -> nat
    decreases s.len(),
{
    if s.len() == 0 {
        0
    } else {
        10 * decimal_value(s.drop_last()) + (s.last() - 48) as nat
    }
}

/// `s` without a leading plus sign.
pub open spec fn unsigned_part(s: Seq<u8>) -> Seq<u8> {
    if s.len() > 0 && s[0] == 43 {
        s.drop_first()
    } else {
        s
    }
}

/// The number that `s` announces: an optional plus sign followed by one or
/// more decimal digits announces their value, anything else announces zero.
pub open spec fn announced(s: Seq<u8>) -> nat {
    let digits = unsigned_part(s);
    if digits.len() > 0 && all_digits(digits) {
        decimal_value(digits)
    } else {
        0
    }
}

/// The shortest decimal writing of `n`.
pub open spec fn decimal_digits(n: nat) -> Seq<u8>
    decreases n,
{
    if n < 10 {
        seq![(48 + n) as u8]
    } else {
        decimal_digits(n / 10).push((48 + n % 10) as u8)
    }
}

/// Reading back what `decimal_digits` wrote gives the number again.
pub proof fn lemma_decimal_round_trip(n: nat)
    ensures
        decimal_digits(n).len() > 0,
        all_digits(decimal_digits(n)),
        decimal_value(decimal_digits(n)) == n,
        announced(decimal_digits(n)) == n,
    decreases n,
{
    if n < 10 {
        let d = decimal_digits(n);
        assert(d.drop_last() =~= Seq::<u8>::empty());
        assert(decimal_value(d.drop_last()) == 0);
    } else {
        lemma_decimal_round_trip(n / 10);
        let d = decimal_digits(n);
        assert(d.drop_last() =~= decimal_digits(n / 10));
        assert(d[0] == decimal_digits(n / 10)[0]);
    }
    assert(decimal_digits(n)[0] != 43);
}

/// The value of the first `k` digits never exceeds the value of all of them.
proof fn lemma_decimal_prefix(s: Seq<u8>, k: int)
    requires
        0 <= k <= s.len(),
        all_digits(s),
    ensures
        decimal_value(s.subrange(0, k)) <= decimal_value(s),
    decreases s.len() - k,
{
    if k == s.len() {
        assert(s.subrange(0, k) =~= s);
    } else {
        lemma_decimal_prefix(s, k + 1);
        let t = s.subrange(0, k + 1);
        assert(t.drop_last() =~= s.subrange(0, k));
    }
}

/// Reads the number that `s` announces, as far as it fits the machine word.
pub fn read_announced(s: &[u8]) -> (r: Option<usize>)
    ensures
        match r {
            Some(n) => n == announced(s@),
            None => announced(s@) > usize::MAX,
        },
{
    let start: usize = if s.len() > 0 && s[0] == 43 {
        1
    } else {
        0
    };
    let digits = slice_subrange(s, start, s.len());
    assert(digits@ =~= unsigned_part(s@));
    if digits.len() == 0 {
        return Some(0);
    }
    let mut i: usize = 0;
    while i < digits.len()
        invariant
            i <= digits@.len(),
            digits@ == unsigned_part(s@),
            forall|k: int| 0 <= k < i ==> is_digit(#[trigger] digits@[k]),
        decreases digits@.len() - i,
    {
        if digits[i] < 48 || digits[i] > 57 {
            assert(!is_digit(digits@[i as int]));
            return Some(0);
        }
        i += 1;
    }
    let mut value: usize = 0;
    let mut j: usize = 0;
    assert(digits@.subrange(0, 0) =~= Seq::<u8>::empty());
    while j < digits.len()
        invariant
            j <= digits@.len(),
            digits@.len() > 0,
            digits@ == unsigned_part(s@),
            all_digits(digits@),
            value == decimal_value(digits@.subrange(0, j as int)),
        decreases digits@.len() - j,
    {
        let d: usize = (digits[j] - 48) as usize;
        proof {
            let t = digits@.subrange(0, j + 1);
            assert(t.drop_last() =~= digits@.subrange(0, j as int));
            assert(is_digit(digits@[j as int]));
            assert(decimal_value(t) == 10 * value + d);
            lemma_decimal_prefix(digits@, j + 1);
        }
        if value > (usize::MAX - d) / 10 {
            return None;
        }
        value = value * 10 + d;
        j += 1;
    }
    assert(digits@.subrange(0, j as int) =~= digits@);
    Some(value)
}

/// Appends `bytes` to `out`.
pub fn push_all(out: &mut Vec<u8>, bytes: &[u8])
    ensures
        final(out)@ == old(out)@ + bytes@,
{
    out.extend_from_slice(bytes);
    assert(out@ =~= old(out)@ + bytes@);
}

/// Appends the shortest decimal writing of `n` to `out`.
pub fn push_decimal(out: &mut Vec<u8>, n: usize)
    ensures
        final(out)@ == old(out)@ + decimal_digits(n as nat),
    decreases n,
{
    if n < 10 {
        out.push((48 + n) as u8);
        assert(final(out)@ =~= old(out)@ + decimal_digits(n as nat));
    } else {
        push_decimal(out, n / 10);
        out.push((48 + n % 10) as u8);
        assert(final(out)@ =~= old(out)@ + decimal_digits(n as nat));
    }
}

} // verus!
