//! The simulated calendar's date value: a fixed year of twelve months with
//! thirty days each, totally ordered by its day count, with "add n days"
//! arithmetic in that fixed radix.

use vstd::prelude::*;

verus! {

/// A date of the simulated calendar. Every month has exactly thirty days and
/// every year exactly twelve months; this is the tracked application's own
/// convention and is intentionally not a real-world calendar.
#[derive(Copy, Clone, PartialEq, Eq, Structural, Debug)]
pub struct Date {
    pub year: u16,
    pub month: u8,
    pub day: u8,
}

/// The calendar shape every date in the system keeps: month in 1..=12 and
/// day in 1..=30. The year is unconstrained here; reminder targets may lie
/// past the parser's year bounds.
pub open spec fn date_valid(d: Date) -> bool {
    &&& 1 <= d.month <= 12
    &&& 1 <= d.day <= 30
}

/// The bounds the text parser accepts: a valid shape with the year strictly
/// between 2199 and 3000.
pub open spec fn date_wf(d: Date) -> bool {
    &&& date_valid(d)
    &&& 2199 < d.year < 3000
}

/// Linearization of a date on the fixed 360-day year; the total order on
/// dates compares these counts.
pub open spec fn spec_day_number(d: Date) -> int {
    d.year * 360 + d.month * 30 + d.day
}

/// `a` is on or before `b` in the simulated calendar.
pub open spec fn date_le(a: Date, b: Date) -> bool {
    spec_day_number(a) <= spec_day_number(b)
}

/// `a` is strictly before `b` in the simulated calendar.
pub open spec fn date_lt(a: Date, b: Date) -> bool {
    spec_day_number(a) < spec_day_number(b)
}

/// The result of adding `n` days: day arithmetic first (carry into months),
/// then month arithmetic (carry into years), in the fixed 30/12 radix.
pub open spec fn spec_add_days(d: Date, n: int) -> Date {
    let day0 = d.day + n;
    let month0 = d.month + (day0 - 1) / 30 - 1;
    Date {
        year: (d.year + month0 / 12) as u16,
        month: ((month0 % 12) + 1) as u8,
        day: (((day0 - 1) % 30) + 1) as u8,
    }
}

impl Date {
    /// Day count of this date on the fixed calendar (360 days per year,
    /// 30 per month); the basis of the total order.
    pub fn days_since_jesus(&self) -> (n: u32)
        ensures
            n == spec_day_number(*self),
    {
        self.year as u32 * 360 + self.month as u32 * 30 + self.day as u32
    }

    /// True when `self` is on or before `other`.
    pub fn le(&self, other: &Date) -> (r: bool)
        ensures
            r == date_le(*self, *other),
    {
        self.days_since_jesus() <= other.days_since_jesus()
    }

    /// True when `self` is strictly before `other`.
    pub fn lt(&self, other: &Date) -> (r: bool)
        ensures
            r == date_lt(*self, *other),
    {
        self.days_since_jesus() < other.days_since_jesus()
    }

    /// The date `days` days later, under the fixed 30-day-month,
    /// 12-month-year arithmetic. Callers validate `days` into
    /// [1, 108000] (300 simulated years) before reaching this operation.
    pub fn with_days_added(&self, days: u32) -> (r: Date)
        requires
            date_wf(*self),
            1 <= days <= 108000,
        ensures
            r == spec_add_days(*self, days as int),
            date_valid(r),
            r.year <= 3299,
            spec_day_number(r) == spec_day_number(*self) + days,
    {
        let day: u32 = self.day as u32 + days;
        let month_added: u32 = (day - 1) / 30;
        let new_day: u8 = ((day - 1) % 30 + 1) as u8;

        let month: u32 = month_added + self.month as u32 - 1;
        let year_added: u32 = month / 12;
        let new_month: u8 = (month % 12 + 1) as u8;

        let new_year: u16 = self.year + year_added as u16;

        proof {
            lemma_add_days_day_number(*self, days as int);
        }

        Date { year: new_year, month: new_month, day: new_day }
    }
}

/// Adding `1..=108000` days to a parser-bounded date moves its day number by
/// exactly that amount, keeps the shape valid, and keeps the year within the
/// reachable horizon (300 years past the parser's upper bound).
pub proof fn lemma_add_days_day_number(d: Date, n: int)
    requires
        date_wf(d),
        1 <= n <= 108000,
    ensures
        date_valid(spec_add_days(d, n)),
        spec_add_days(d, n).year <= 3299,
        spec_day_number(spec_add_days(d, n)) == spec_day_number(d) + n,
{
    let day0 = d.day + n;
    let q1 = (day0 - 1) / 30;
    let r1 = (day0 - 1) % 30;
    vstd::arithmetic::div_mod::lemma_fundamental_div_mod(day0 - 1, 30);
    vstd::arithmetic::div_mod::lemma_mod_bound(day0 - 1, 30);
    assert(30 * q1 + r1 == day0 - 1);
    assert(q1 <= 3600);

    let month0 = d.month + q1 - 1;
    let q2 = month0 / 12;
    let r2 = month0 % 12;
    vstd::arithmetic::div_mod::lemma_fundamental_div_mod(month0, 12);
    vstd::arithmetic::div_mod::lemma_mod_bound(month0, 12);
    assert(12 * q2 + r2 == month0);
    assert(0 <= q2 <= 300);
    assert(d.year + q2 <= 3299);
}

/// The decimal digits of a non-negative number, most significant first,
/// without padding.
pub open spec fn dec_digits(n: int) -> Seq<u8>
    decreases n,
{
    if n < 0 {
        Seq::empty()
    } else if n < 10 {
        seq![(48 + n) as u8]
    } else {
        dec_digits(n / 10).push((48 + n % 10) as u8)
    }
}

/// The displayed text of a date: `year.month.day`, with no zero padding.
pub open spec fn date_text(d: Date) -> Seq<u8> {
    dec_digits(d.year as int) + seq![46u8] + dec_digits(d.month as int) + seq![46u8] + dec_digits(
        d.day as int,
    )
}

/// Appends the decimal digits of `n`.
fn push_decimal(out: &mut Vec<u8>, n: u16)
    ensures
        final(out)@ == old(out)@ + dec_digits(n as int),
{
    let mut rev: Vec<u8> = Vec::new();
    let mut x: u16 = n;
    while x >= 10
        invariant
            dec_digits(n as int) == dec_digits(x as int) + rev@.reverse(),
        decreases x,
    {
        let ghost rev0 = rev@;
        rev.push(48 + (x % 10) as u8);
        proof {
            assert(rev@.reverse() =~= seq![(48 + (x as int) % 10) as u8] + rev0.reverse());
        }
        x = x / 10;
    }
    let ghost rev1 = rev@;
    rev.push(48 + x as u8);
    proof {
        assert(rev@.reverse() =~= seq![(48 + (x as int)) as u8] + rev1.reverse());
        assert(dec_digits(n as int) == rev@.reverse());
    }
    let m = rev.len();
    let mut k: usize = 0;
    while k < m
        invariant
            k <= m,
            m == rev@.len(),
            out@ == old(out)@ + rev@.reverse().take(k as int),
        decreases m - k,
    {
        out.push(rev[m - 1 - k]);
        proof {
            assert(old(out)@ + rev@.reverse().take(k as int) + seq![rev@[m - 1 - k]] =~= old(out)@
                + rev@.reverse().take(k as int + 1));
        }
        k = k + 1;
    }
    proof {
        assert(rev@.reverse().take(m as int) =~= rev@.reverse());
    }
}

impl Date {
    /// The display form of a date, `year.month.day`, with no zero padding.
    pub fn render(&self) -> (r: Vec<u8>)
        ensures
            r@ == date_text(*self),
    {
        let mut out: Vec<u8> = Vec::new();
        push_decimal(&mut out, self.year);
        out.push(46);
        push_decimal(&mut out, self.month as u16);
        out.push(46);
        push_decimal(&mut out, self.day as u16);
        proof {
            assert(out@ =~= date_text(*self));
        }
        out
    }
}

/// Distinct dates of valid shape have distinct day numbers: the
/// linearization is injective on valid dates.
pub proof fn lemma_day_number_injective(a: Date, b: Date)
    requires
        date_valid(a),
        date_valid(b),
        spec_day_number(a) == spec_day_number(b),
    ensures
        a == b,
{
    assert(a.year == b.year && a.month == b.month && a.day == b.day);
}

impl Default for Date {
    /// The sentinel shown before any observation has succeeded: a fixed
    /// far-future date meaning "not yet synced".
    fn default() -> (d: Date)
        ensures
            d == (Date { year: 2200, month: 1, day: 1 }),
            date_wf(d),
    {
        Date { year: 2200, month: 1, day: 1 }
    }
}

/// A wall-clock offset since a fixed epoch: the tiebreaker stamped onto a
/// reminder key at creation time.
#[derive(Copy, Clone, PartialEq, Eq, Structural, Debug)]
pub struct Stamp {
    pub secs: u64,
    pub nanos: u32,
}

/// A well-formed stamp keeps the sub-second part below one second.
pub open spec fn stamp_wf(t: Stamp) -> bool {
    t.nanos < 1_000_000_000
}

/// `a` is strictly earlier than `b` on the wall clock.
pub open spec fn stamp_lt(a: Stamp, b: Stamp) -> bool {
    a.secs < b.secs || (a.secs == b.secs && a.nanos < b.nanos)
}

/// A Calendar Value paired with the wall-clock offset observed when the
/// reminder was created; the unique, orderable key of a reminder.
#[derive(Copy, Clone, PartialEq, Eq, Structural, Debug)]
pub struct StampedDate {
    pub time: Stamp,
    pub date: Date,
}

/// The total order on reminder keys: by calendar date first, and between
/// equal dates by the wall-clock stamp alone.
pub open spec fn stamped_lt(a: StampedDate, b: StampedDate) -> bool {
    ||| date_lt(a.date, b.date)
    ||| (spec_day_number(a.date) == spec_day_number(b.date) && stamp_lt(a.time, b.time))
}

/// Key equality: equal calendar day number and equal stamp. On dates of
/// valid shape this coincides with field equality of the whole key.
pub open spec fn stamped_eq(a: StampedDate, b: StampedDate) -> bool {
    spec_day_number(a.date) == spec_day_number(b.date) && a.time == b.time
}

/// On dates of valid shape, key equality is equality outright: two stamped
/// dates equal as keys are the same value, field for field.
pub proof fn lemma_key_eq_is_equality(a: StampedDate, b: StampedDate)
    requires
        date_valid(a.date),
        date_valid(b.date),
    ensures
        stamped_eq(a, b) <==> a == b,
{
    if stamped_eq(a, b) {
        lemma_day_number_injective(a.date, b.date);
    }
}

impl StampedDate {
    /// Three-way comparison used to keep the store sorted: strictly less,
    /// equal as a key, or strictly greater.
    pub fn key_lt(&self, other: &StampedDate) -> (r: bool)
        ensures
            r == stamped_lt(*self, *other),
    {
        let a = self.date.days_since_jesus();
        let b = other.date.days_since_jesus();
        if a < b {
            true
        } else if a == b {
            self.time.secs < other.time.secs
                || (self.time.secs == other.time.secs && self.time.nanos < other.time.nanos)
        } else {
            false
        }
    }

    /// True when the two keys are equal.
    pub fn key_eq(&self, other: &StampedDate) -> (r: bool)
        ensures
            r == stamped_eq(*self, *other),
    {
        self.date.days_since_jesus() == other.date.days_since_jesus()
            && self.time.secs == other.time.secs
            && self.time.nanos == other.time.nanos
    }
}

} // verus!
