//! The text-to-date parser: turns a line the OCR collaborator produced into a
//! validated calendar date, or says why it is rejected. Misreads are routine,
//! so a string of the wrong shape is "no match", not an error.

use vstd::prelude::*;
use crate::date::{Date, date_wf};

verus! {

/// What the parser says of one input line.
#[derive(Copy, Clone, PartialEq, Eq, Structural, Debug)]
pub enum ParseOutcome {
    /// The text matched the date shape and all three groups lie in bounds.
    Valid(Date),
    /// The text does not have the `YYYY.MM.DD` shape at all; routine for an
    /// OCR misread and not an error.
    NoMatch,
    /// A digit group failed to read as an unsigned integer. With the fixed
    /// four- and two-digit groups every group fits its type, so the parser
    /// never actually signals this; the variant keeps the taxonomy complete.
    MalformedField,
    /// The shape matched but a group lies outside the calendar bounds.
    OutOfRange,
}

/// ASCII whitespace stripped from both ends before matching.
pub open spec fn is_space(b: u8) -> bool {
    b == 32 || (9 <= b <= 13)
}

/// An ASCII decimal digit.
pub open spec fn is_digit(b: u8) -> bool {
    48 <= b <= 57
}

/// Numeric value of an ASCII digit.
pub open spec fn digit_val(b: u8) -> int {
    b - 48
}

/// The input with leading whitespace removed.
pub open spec fn trim_front(s: Seq<u8>) -> Seq<u8>
    decreases s.len(),
{
    if s.len() > 0 && is_space(s[0]) {
        trim_front(s.drop_first())
    } else {
        s
    }
}

/// The input with trailing whitespace removed.
pub open spec fn trim_back(s: Seq<u8>) -> Seq<u8>
    decreases s.len(),
{
    if s.len() > 0 && is_space(s.last()) {
        trim_back(s.drop_last())
    } else {
        s
    }
}

/// The input with whitespace removed from both ends.
pub open spec fn spec_trim(s: Seq<u8>) -> Seq<u8> {
    trim_back(trim_front(s))
}

/// The accepted shape: exactly ten bytes, digit groups of four, two and two,
/// separated by single non-digit bytes (typically `.`).
pub open spec fn matches_shape(t: Seq<u8>) -> bool {
    &&& t.len() == 10
    &&& is_digit(t[0]) && is_digit(t[1]) && is_digit(t[2]) && is_digit(t[3])
    &&& !is_digit(t[4])
    &&& is_digit(t[5]) && is_digit(t[6])
    &&& !is_digit(t[7])
    &&& is_digit(t[8]) && is_digit(t[9])
}

/// The year group of a matching line.
pub open spec fn group_year(t: Seq<u8>) -> int {
    digit_val(t[0]) * 1000 + digit_val(t[1]) * 100 + digit_val(t[2]) * 10 + digit_val(t[3])
}

/// The month group of a matching line.
pub open spec fn group_month(t: Seq<u8>) -> int {
    digit_val(t[5]) * 10 + digit_val(t[6])
}

/// The day group of a matching line.
pub open spec fn group_day(t: Seq<u8>) -> int {
    digit_val(t[8]) * 10 + digit_val(t[9])
}

/// The calendar bounds the parser enforces: year strictly between 2199 and
/// 3000, month 1..=12, day 1..=30. The lower bounds on month and day are
/// deliberate: a `00` group is rejected as out of range.
pub open spec fn in_calendar_bounds(y: int, m: int, d: int) -> bool {
    &&& 2199 < y < 3000
    &&& 1 <= m <= 12
    &&& 1 <= d <= 30
}

/// What the parser returns for a given input, in full.
pub open spec fn spec_parse(s: Seq<u8>) -> ParseOutcome {
    let t = spec_trim(s);
    if !matches_shape(t) {
        ParseOutcome::NoMatch
    } else if !in_calendar_bounds(group_year(t), group_month(t), group_day(t)) {
        ParseOutcome::OutOfRange
    } else {
        ParseOutcome::Valid(
            Date {
                year: group_year(t) as u16,
                month: group_month(t) as u8,
                day: group_day(t) as u8,
            },
        )
    }
}

/// Removing leading whitespace is the same as skipping past it.
proof fn lemma_trim_front_skip(s: Seq<u8>, lo: int)
    requires
        0 <= lo <= s.len(),
        forall|j: int| 0 <= j < lo ==> is_space(s[j]),
        lo < s.len() ==> !is_space(s[lo]),
    ensures
        trim_front(s) == s.skip(lo),
    decreases lo,
{
    if lo == 0 {
        assert(s.skip(0) =~= s);
    } else {
        lemma_trim_front_skip(s.drop_first(), lo - 1);
        assert(s.drop_first() =~= s.skip(1));
        vstd::seq_lib::lemma_seq_skip_of_skip(s, 1, lo - 1);
        assert(s.skip(1).skip(lo - 1) =~= s.skip(lo));
    }
}

/// Removing trailing whitespace is the same as taking up to it.
proof fn lemma_trim_back_take(s: Seq<u8>, hi: int)
    requires
        0 <= hi <= s.len(),
        forall|j: int| hi <= j < s.len() ==> is_space(s[j]),
        hi > 0 ==> !is_space(s[hi - 1]),
    ensures
        trim_back(s) == s.take(hi),
    decreases s.len() - hi,
{
    if hi == s.len() {
        assert(s.take(hi) =~= s);
    } else {
        lemma_trim_back_take(s.drop_last(), hi);
        assert(s.drop_last() =~= s.take(s.len() - 1));
        assert(s.drop_last().take(hi) =~= s.take(hi));
    }
}

/// True when the byte is ASCII whitespace.
fn is_space_byte(b: u8) -> (r: bool)
    ensures
        r == is_space(b),
{
    b == 32 || (9 <= b && b <= 13)
}

/// True when the byte is an ASCII digit.
fn is_digit_byte(b: u8) -> (r: bool)
    ensures
        r == is_digit(b),
{
    48 <= b && b <= 57
}

/// Parses one line of recognized text: trims ASCII whitespace, matches the
/// fixed `YYYY.MM.DD` shape, and validates the three groups against the
/// calendar bounds. Returns exactly what `spec_parse` says, and any accepted
/// date satisfies the parser's bounds.
pub fn parse_date_text(s: &Vec<u8>) -> (r: ParseOutcome)
    ensures
        r == spec_parse(s@),
        forall|d: Date| r == ParseOutcome::Valid(d) ==> date_wf(d),
{
    let n = s.len();
    let mut lo: usize = 0;
    while lo < n && is_space_byte(s[lo])
        invariant
            lo <= n,
            n == s@.len(),
            forall|j: int| 0 <= j < lo ==> is_space(s@[j]),
        decreases n - lo,
    {
        lo = lo + 1;
    }
    let mut hi: usize = n;
    while hi > lo && is_space_byte(s[hi - 1])
        invariant
            lo <= hi <= n,
            n == s@.len(),
            forall|j: int| hi <= j < n ==> is_space(s@[j]),
        decreases hi,
    {
        hi = hi - 1;
    }
    proof {
        lemma_trim_front_skip(s@, lo as int);
        lemma_trim_back_take(s@.skip(lo as int), hi - lo);
        assert(spec_trim(s@) =~= s@.subrange(lo as int, hi as int));
    }
    let ghost t = spec_trim(s@);

    if hi - lo != 10 {
        return ParseOutcome::NoMatch;
    }
    let shape_ok = is_digit_byte(s[lo]) && is_digit_byte(s[lo + 1]) && is_digit_byte(s[lo + 2])
        && is_digit_byte(s[lo + 3]) && !is_digit_byte(s[lo + 4]) && is_digit_byte(s[lo + 5])
        && is_digit_byte(s[lo + 6]) && !is_digit_byte(s[lo + 7]) && is_digit_byte(s[lo + 8])
        && is_digit_byte(s[lo + 9]);
    if !shape_ok {
        return ParseOutcome::NoMatch;
    }
    assert(matches_shape(t));

    let y: u16 = (s[lo] - 48) as u16 * 1000 + (s[lo + 1] - 48) as u16 * 100 + (s[lo + 2] - 48)
        as u16 * 10 + (s[lo + 3] - 48) as u16;
    let m: u8 = (s[lo + 5] - 48) * 10 + (s[lo + 6] - 48);
    let d: u8 = (s[lo + 8] - 48) * 10 + (s[lo + 9] - 48);
    assert(y == group_year(t) && m == group_month(t) && d == group_day(t));

    if 2199 < y && y < 3000 && 1 <= m && m <= 12 && 1 <= d && d <= 30 {
        ParseOutcome::Valid(Date { year: y, month: m, day: d })
    } else {
        ParseOutcome::OutOfRange
    }
}

} // verus!
