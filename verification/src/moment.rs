//! Points in time, spans of time, and the timestamps in file names.

use crate::calendar::{
    civil_from_days, day_number, is_date, law_dates_in_order, CivilDate,
};
use crate::decimal::{
    all_digits, decimal, digit, digits_value, is_digit, law_decimal_reads_back, padded, padded_text,
};
use crate::order::{parts_at, text_lt};
use vstd::prelude::*;

verus! {

broadcast use vstd::string::group_string_axioms;

/// A point in time: seconds since the Unix epoch, and nanoseconds on top.
#[derive(Debug, Clone, Copy, PartialEq, Eq, Structural)]
pub struct Moment {
    pub secs: i64,
    pub nanos: u32,
}

/// A span of time: seconds, and nanoseconds on top.
#[derive(Debug, Clone, Copy, PartialEq, Eq, Structural)]
pub struct TimeSpan {
    pub secs: u64,
    pub nanos: u32,
}

impl Moment {
    /// Nanoseconds since the Unix epoch.
    pub open spec fn total(self) -> int {
        self.secs * 1_000_000_000 + self.nanos
    }

    pub fn total_nanos(self) -> (r: i128)
        ensures
            r == self.total(),
    {
        self.secs as i128 * 1_000_000_000 + self.nanos as i128
    }

    /// The moment `secs` seconds after the epoch.
    pub fn from_unix_secs(secs: u64) -> (r: Moment)
        requires
            secs <= i64::MAX,
        ensures
            r.total() == secs * 1_000_000_000,
    {
        Moment { secs: secs as i64, nanos: 0 }
    }

    /// Milliseconds since the epoch; 0 before it.
    pub fn unix_millis(self) -> (r: u128)
        ensures
            r == (if self.total() < 0 {
                0
            } else {
                self.total() / 1_000_000
            }),
    {
        let t: i128 = self.total_nanos();
        if t < 0 {
            0
        } else {
            (t as u128) / 1_000_000
        }
    }
}

impl TimeSpan {
    /// Length in nanoseconds.
    pub open spec fn total(self) -> int {
        self.secs * 1_000_000_000 + self.nanos
    }

    pub fn total_nanos(self) -> (r: u128)
        ensures
            r == self.total(),
    {
        self.secs as u128 * 1_000_000_000 + self.nanos as u128
    }

    pub fn from_secs(secs: u64) -> (r: TimeSpan)
        ensures
            r.secs == secs,
            r.nanos == 0,
    {
        TimeSpan { secs, nanos: 0 }
    }

    /// Whole milliseconds.
    pub fn as_millis(self) -> (r: u128)
        ensures
            r == self.total() / 1_000_000,
    {
        self.total_nanos() / 1_000_000
    }
}

/// The date that is `n` days after 1 January 1970, as year, month and day.
pub open spec fn date_of_day(n: int) -> (int, int, int) {
    choose|t: (int, int, int)| is_date(t.0, t.1, t.2) && #[trigger] day_number(t.0, t.1, t.2) == n
}

/// Date and time of day of a second, as `YYYYMMDDTHHMMSSZ`.
pub open spec fn stamp(secs: int) -> Seq<char> {
    let (year, month, day) = date_of_day(secs / 86400);
    let time = secs % 86400;
    padded(year as nat, 4) + padded(month as nat, 2) + padded(day as nat, 2) + seq!['T'] + padded(
        (time / 3600) as nat,
        2,
    ) + padded((time % 3600 / 60) as nat, 2) + padded((time % 60) as nat, 2) + seq!['Z']
}

/// The whole second of a moment; the epoch for any before it.
pub open spec fn stamped_second(now: Moment) -> int {
    if now.secs < 0 {
        0
    } else {
        now.secs as int
    }
}

/// Formats `now` as a filesystem-safe UTC timestamp.
pub fn utc_timestamp(now: Moment) -> (r: String)
    ensures
        r@ == stamp(stamped_second(now)),
{
    let secs: u64 = if now.secs < 0 {
        0
    } else {
        now.secs as u64
    };
    let time: u64 = secs % 86_400;
    let date: CivilDate = civil_from_days(secs / 86_400);
    proof {
        let n = secs as int / 86400;
        let t = date_of_day(n);
        let found = (date.year as int, date.month as int, date.day as int);
        assert(is_date(found.0, found.1, found.2) && day_number(found.0, found.1, found.2) == n);
        law_dates_in_order(t.0, t.1, t.2, found.0, found.1, found.2);
    }
    let mut out = padded_text(date.year as u128, 4);
    out.append(&padded_text(date.month as u128, 2));
    out.append(&padded_text(date.day as u128, 2));
    let ghost day_part = out@;
    out.push('T');
    proof {
        assert(out@ =~= day_part + seq!['T']);
    }
    out.append(&padded_text((time / 3600) as u128, 2));
    out.append(&padded_text((time % 3600 / 60) as u128, 2));
    out.append(&padded_text((time % 60) as u128, 2));
    let ghost so_far = out@;
    out.push('Z');
    proof {
        assert(out@ =~= so_far + seq!['Z']);
    }
    out
}

/// Of equally long digit sequences the smaller number stands first.
pub proof fn lemma_same_digits(a: Seq<char>, b: Seq<char>)
    requires
        a.len() == b.len(),
        forall|i: int| 0 <= i < a.len() ==> is_digit(#[trigger] a[i]),
        forall|i: int| 0 <= i < b.len() ==> is_digit(#[trigger] b[i]),
    ensures
        digits_value(a) == digits_value(b) ==> a == b,
        digits_value(a) < digits_value(b) ==> text_lt(a, b),
    decreases a.len(),
{
    if a.len() > 0 {
        let x = a.drop_last();
        let y = b.drop_last();
        assert(is_digit(a.last()) && is_digit(b.last()));
        assert forall|i: int| 0 <= i < x.len() implies is_digit(#[trigger] x[i]) by {
            assert(x[i] == a[i]);
        }
        assert forall|i: int| 0 <= i < y.len() implies is_digit(#[trigger] y[i]) by {
            assert(y[i] == b[i]);
        }
        lemma_same_digits(x, y);
        assert(a =~= x.push(a.last()));
        assert(b =~= y.push(b.last()));
        if digits_value(a) < digits_value(b) {
            if digits_value(x) < digits_value(y) {
                lemma_lt_before(x, y, seq![a.last()], seq![b.last()]);
                assert(a =~= x + seq![a.last()]);
                assert(b =~= y + seq![b.last()]);
            } else {
                assert(a.take(x.len() as int) =~= b.take(x.len() as int));
                assert(parts_at(a, b, x.len() as int));
            }
        }
    } else {
        assert(a =~= b);
    }
}

/// What follows two texts of one length does not change their order.
pub proof fn lemma_lt_before(a: Seq<char>, b: Seq<char>, x: Seq<char>, y: Seq<char>)
    requires
        text_lt(a, b),
        a.len() == b.len(),
    ensures
        text_lt(a + x, b + y),
{
    let k = choose|k: int| parts_at(a, b, k);
    assert((a + x).take(k) =~= a.take(k));
    assert((b + y).take(k) =~= b.take(k));
    assert(parts_at(a + x, b + y, k));
}

/// What precedes two texts does not change their order.
pub proof fn lemma_lt_after(p: Seq<char>, x: Seq<char>, y: Seq<char>)
    requires
        text_lt(x, y),
    ensures
        text_lt(p + x, p + y),
{
    let k = choose|k: int| parts_at(x, y, k);
    let n = p.len() + k;
    assert((p + x).take(n) =~= p + x.take(k));
    assert((p + y).take(n) =~= p + y.take(k));
    assert(parts_at(p + x, p + y, n));
}

proof fn lemma_two_digits(n: nat)
    requires
        n < 100,
    ensures
        padded(n, 2).len() == 2,
        all_digits(padded(n, 2)),
        digits_value(padded(n, 2)) == n,
{
    law_decimal_reads_back(n);
    reveal_with_fuel(decimal, 3);
    reveal_with_fuel(digits_value, 4);
    if n < 10 {
        assert(padded(n, 2) =~= seq!['0', digit(n as int)]);
        assert(padded(n, 2).drop_last() =~= seq!['0']);
        assert(seq!['0'].drop_last() =~= Seq::<char>::empty());
    } else {
        assert(decimal(n).len() == 2);
    }
}

proof fn lemma_four_digits(n: nat)
    requires
        1000 <= n < 10000,
    ensures
        padded(n, 4).len() == 4,
        all_digits(padded(n, 4)),
        digits_value(padded(n, 4)) == n,
{
    law_decimal_reads_back(n);
    reveal_with_fuel(decimal, 5);
    assert(decimal(n).len() == 4);
}

/// A field of a timestamp that is smaller puts the timestamp first, if the fields
/// before it agree.
proof fn lemma_field_decides(
    p: Seq<char>,
    a: Seq<char>,
    b: Seq<char>,
    x: Seq<char>,
    y: Seq<char>,
)
    requires
        a.len() == b.len(),
        all_digits(a),
        all_digits(b),
        digits_value(a) < digits_value(b),
    ensures
        text_lt(p + a + x, p + b + y),
{
    lemma_same_digits(a, b);
    lemma_lt_before(a, b, x, y);
    lemma_lt_after(p, a + x, b + y);
    assert(p + a + x =~= p + (a + x));
    assert(p + b + y =~= p + (b + y));
}

/// The last second of the year 9999.
pub open spec fn last_four_digit_second() -> int {
    day_number(9999, 12, 31) * 86400 + 86399
}

proof fn lemma_date_exists(n: int)
    requires
        0 <= n,
        exists|t: (int, int, int)| is_date(t.0, t.1, t.2) && #[trigger] day_number(t.0, t.1, t.2) == n,
        n <= day_number(9999, 12, 31),
    ensures
        is_date(date_of_day(n).0, date_of_day(n).1, date_of_day(n).2),
        day_number(date_of_day(n).0, date_of_day(n).1, date_of_day(n).2) == n,
        date_of_day(n).0 <= 9999,
{
    let t = date_of_day(n);
    law_dates_in_order(9999, 12, 31, t.0, t.1, t.2);
}

/// Timestamps sort as the moments they stand for: up to the year 9999 the earlier
/// second has the lesser timestamp.
#[verifier::spinoff_prover]
#[verifier::rlimit(60)]
pub proof fn law_timestamps_sort_by_time(a: int, b: int)
    requires
        0 <= a < b <= last_four_digit_second(),
    ensures
        text_lt(stamp(a), stamp(b)),
{
    crate::calendar::lemma_every_day_has_a_date(a / 86400);
    crate::calendar::lemma_every_day_has_a_date(b / 86400);
    lemma_date_exists(a / 86400);
    lemma_date_exists(b / 86400);
    let (y1, m1, d1) = date_of_day(a / 86400);
    let (y2, m2, d2) = date_of_day(b / 86400);
    law_dates_in_order(y1, m1, d1, y2, m2, d2);
    let t1 = a % 86400;
    let t2 = b % 86400;
    let (ya, ma, da) = (padded(y1 as nat, 4), padded(m1 as nat, 2), padded(d1 as nat, 2));
    let (yb, mb, db) = (padded(y2 as nat, 4), padded(m2 as nat, 2), padded(d2 as nat, 2));
    let (ha, na, sa) = (
        padded((t1 / 3600) as nat, 2),
        padded((t1 % 3600 / 60) as nat, 2),
        padded((t1 % 60) as nat, 2),
    );
    let (hb, nb, sb) = (
        padded((t2 / 3600) as nat, 2),
        padded((t2 % 3600 / 60) as nat, 2),
        padded((t2 % 60) as nat, 2),
    );
    lemma_four_digits(y1 as nat);
    lemma_four_digits(y2 as nat);
    lemma_two_digits(m1 as nat);
    lemma_two_digits(m2 as nat);
    lemma_two_digits(d1 as nat);
    lemma_two_digits(d2 as nat);
    lemma_two_digits((t1 / 3600) as nat);
    lemma_two_digits((t2 / 3600) as nat);
    lemma_two_digits((t1 % 3600 / 60) as nat);
    lemma_two_digits((t2 % 3600 / 60) as nat);
    lemma_two_digits((t1 % 60) as nat);
    lemma_two_digits((t2 % 60) as nat);
    let t = seq!['T'];
    let z = seq!['Z'];
    let none = Seq::<char>::empty();
    if a / 86400 < b / 86400 {
        if y1 < y2 {
            lemma_field_decides(
                none,
                ya,
                yb,
                ma + da + t + ha + na + sa + z,
                mb + db + t + hb + nb + sb + z,
            );
            assert(stamp(a) =~= none + ya + (ma + da + t + ha + na + sa + z));
            assert(stamp(b) =~= none + yb + (mb + db + t + hb + nb + sb + z));
        } else if m1 < m2 {
            lemma_field_decides(ya, ma, mb, da + t + ha + na + sa + z, db + t + hb + nb + sb + z);
            assert(stamp(a) =~= ya + ma + (da + t + ha + na + sa + z));
            assert(stamp(b) =~= yb + mb + (db + t + hb + nb + sb + z));
        } else {
            lemma_field_decides(ya + ma, da, db, t + ha + na + sa + z, t + hb + nb + sb + z);
            assert(stamp(a) =~= ya + ma + da + (t + ha + na + sa + z));
            assert(stamp(b) =~= yb + mb + db + (t + hb + nb + sb + z));
        }
    } else {
        let p = ya + ma + da + t;
        if t1 / 3600 < t2 / 3600 {
            lemma_field_decides(p, ha, hb, na + sa + z, nb + sb + z);
            assert(stamp(a) =~= p + ha + (na + sa + z));
            assert(stamp(b) =~= p + hb + (nb + sb + z));
        } else if t1 % 3600 / 60 < t2 % 3600 / 60 {
            lemma_field_decides(p + ha, na, nb, sa + z, sb + z);
            assert(stamp(a) =~= p + ha + na + (sa + z));
            assert(stamp(b) =~= p + ha + nb + (sb + z));
        } else {
            lemma_field_decides(p + ha + na, sa, sb, z, z);
            assert(stamp(a) =~= p + ha + na + sa + z);
            assert(stamp(b) =~= p + ha + na + sb + z);
        }
    }
}

/// Up to the year 9999 every timestamp has the same length.
pub proof fn lemma_stamp_len(secs: int)
    requires
        0 <= secs <= last_four_digit_second(),
    ensures
        stamp(secs).len() == 16,
{
    crate::calendar::lemma_every_day_has_a_date(secs / 86400);
    lemma_date_exists(secs / 86400);
    let (y, m, d) = date_of_day(secs / 86400);
    let t = secs % 86400;
    lemma_four_digits(y as nat);
    lemma_two_digits(m as nat);
    lemma_two_digits(d as nat);
    lemma_two_digits((t / 3600) as nat);
    lemma_two_digits((t % 3600 / 60) as nat);
    lemma_two_digits((t % 60) as nat);
}

/// A timestamp tells its second: its digits are the year, the month and the day of the
/// date that the second falls on, then the hour, the minute and the second of that day.
/// All but the year have two digits; the year has four up to 9999, and then more.
pub proof fn law_timestamp_tells_its_second(secs: int)
    requires
        0 <= secs,
    ensures
        ({
            let s = stamp(secs);
            let n = s.len() - 12;
            let year = digits_value(s.take(n)) as int;
            let month = digits_value(s.subrange(n, n + 2)) as int;
            let day = digits_value(s.subrange(n + 2, n + 4)) as int;
            let hour = digits_value(s.subrange(n + 5, n + 7)) as int;
            let minute = digits_value(s.subrange(n + 7, n + 9)) as int;
            let second = digits_value(s.subrange(n + 9, n + 11)) as int;
            &&& n >= 4
            &&& secs <= last_four_digit_second() ==> n == 4
            &&& s[n + 4] == 'T'
            &&& s[n + 11] == 'Z'
            &&& is_date(year, month, day)
            &&& 0 <= hour < 24
            &&& 0 <= minute < 60
            &&& 0 <= second < 60
            &&& day_number(year, month, day) * 86400 + hour * 3600 + minute * 60 + second == secs
        }),
{
    crate::calendar::lemma_every_day_has_a_date(secs / 86400);
    let (y, m, d) = date_of_day(secs / 86400);
    assert(is_date(y, m, d) && day_number(y, m, d) == secs / 86400);
    let t = secs % 86400;
    lemma_year_digits(y as nat);
    if secs <= last_four_digit_second() {
        lemma_date_exists(secs / 86400);
        lemma_four_digits(y as nat);
    }
    lemma_two_digits(m as nat);
    lemma_two_digits(d as nat);
    lemma_two_digits((t / 3600) as nat);
    lemma_two_digits((t % 3600 / 60) as nat);
    lemma_two_digits((t % 60) as nat);
    let s = stamp(secs);
    let n = padded(y as nat, 4).len() as int;
    assert(s.len() == n + 12);
    assert(s.take(n) =~= padded(y as nat, 4));
    assert(s.subrange(n, n + 2) =~= padded(m as nat, 2));
    assert(s.subrange(n + 2, n + 4) =~= padded(d as nat, 2));
    assert(s.subrange(n + 5, n + 7) =~= padded((t / 3600) as nat, 2));
    assert(s.subrange(n + 7, n + 9) =~= padded((t % 3600 / 60) as nat, 2));
    assert(s.subrange(n + 9, n + 11) =~= padded((t % 60) as nat, 2));
}

proof fn lemma_year_digits(n: nat)
    requires
        n >= 1000,
    ensures
        padded(n, 4) == decimal(n),
        decimal(n).len() >= 4,
        digits_value(padded(n, 4)) == n,
{
    law_decimal_reads_back(n);
    reveal_with_fuel(decimal, 5);
    assert(decimal(n).len() == decimal(n / 10).len() + 1);
    assert(decimal(n / 10).len() == decimal(n / 10 / 10).len() + 1);
    assert(decimal(n / 10 / 10).len() == decimal(n / 10 / 10 / 10).len() + 1);
    law_decimal_reads_back(n / 10 / 10 / 10);
}

/// A moment is stamped with its own second, and one before the epoch with the epoch's.
pub proof fn law_stamped_second_is_its_own(now: Moment)
    ensures
        now.secs >= 0 ==> stamped_second(now) == now.secs,
        now.secs < 0 ==> stamped_second(now) == 0,
{
}

} // verus!
