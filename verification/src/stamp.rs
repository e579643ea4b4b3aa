//! Names of log files: a local calendar time written out so that the names
//! sort in the order of the times.

use crate::order::{agree_before, lemma_lex_lt_asymmetric, lemma_lex_lt_irreflexive, lex_lt};
use crate::retention::{is_log, log_suffix};
use vstd::prelude::*;

verus! {

/// A local calendar time with millisecond precision, as read off a clock.
#[derive(Clone, Copy, Debug, PartialEq, Eq)]
pub struct Stamp {
    pub year: i32,
    pub month: u32,
    pub day: u32,
    pub hour: u32,
    pub minute: u32,
    pub second: u32,
    pub millis: u32,
}

/// Leap years of the Gregorian calendar.
pub open spec fn is_leap_year(year: int) -> bool {
    year % 4 == 0 && (year % 100 != 0 || year % 400 == 0)
}

/// The number of days of a month of the Gregorian calendar.
pub open spec fn days_in_month(year: int, month: int) -> int {
    if month == 2 {
        if is_leap_year(year) {
            29
        } else {
            28
        }
    } else if month == 4 || month == 6 || month == 9 || month == 11 {
        30
    } else {
        31
    }
}

/// `n` in decimal, in exactly `width` ASCII digits, padded with zeros on the
/// left. Digits beyond `width` are dropped.
pub open spec fn decimal(n: nat, width: nat) -> Seq<u8>
    decreases width,
{
    if width == 0 {
        Seq::empty()
    } else {
        decimal(n / 10, (width - 1) as nat).push((0x30 + n % 10) as u8)
    }
}

/// Ten to the power of `width`.
pub open spec fn pow10(width: nat) -> nat
    decreases width,
{
    if width == 0 {
        1
    } else {
        10 * pow10((width - 1) as nat)
    }
}

impl Stamp {
    /// The time exists in the calendar, lies in the years 0 to 9999 and is no
    /// leap second.
    pub open spec fn is_valid(self) -> bool {
        &&& 0 <= self.year <= 9999
        &&& 1 <= self.month <= 12
        &&& 1 <= self.day <= days_in_month(self.year as int, self.month as int)
        &&& self.hour <= 23
        &&& self.minute <= 59
        &&& self.second <= 59
        &&& self.millis <= 999
    }

    /// The time of day and below: `HHMMSS.mmm`.
    pub open spec fn clock_text(self) -> Seq<u8> {
        decimal(self.hour as nat, 2) + (decimal(self.minute as nat, 2) + (decimal(
            self.second as nat,
            2,
        ) + (seq![0x2eu8] + decimal(self.millis as nat, 3))))
    }

    /// The time as text: `YYYYMMDD-HHMMSS.mmm`.
    pub open spec fn text(self) -> Seq<u8> {
        decimal(self.year as nat, 4) + (decimal(self.month as nat, 2) + (decimal(
            self.day as nat,
            2,
        ) + (seq![0x2du8] + self.clock_text())))
    }

    /// The name of the log file of an invocation that started at this time.
    pub open spec fn file_name(self) -> Seq<u8> {
        self.text() + log_suffix()
    }

    /// This time is earlier than `other`.
    pub open spec fn before(self, other: Stamp) -> bool {
        self.year < other.year || (self.year == other.year && (self.month < other.month || (
        self.month == other.month && (self.day < other.day || (self.day == other.day
            && self.clock_before(other))))))
    }

    /// On the same day, this time of day is earlier than that of `other`.
    pub open spec fn clock_before(self, other: Stamp) -> bool {
        self.hour < other.hour || (self.hour == other.hour && (self.minute < other.minute || (
        self.minute == other.minute && (self.second < other.second || (self.second
            == other.second && self.millis < other.millis)))))
    }

    /// The name of the log file of an invocation that started at this time,
    /// or nothing where the time is not valid. The name is that of a log.
    pub fn log_file_name(&self) -> (name: Option<Vec<u8>>)
        ensures
            match name {
                Some(n) => self.is_valid() && n@ == self.file_name() && is_log(n@),
                None => !self.is_valid(),
            },
    {
        if self.year < 0 || self.year > 9999 || self.millis > 999 {
            return None;
        }
        match calendar_text(self) {
            Some(text) => {
                proof {
                    lemma_file_name_is_log(*self);
                }
                let mut name = text;
                name.push(0x2e);
                name.push(0x6c);
                name.push(0x6f);
                name.push(0x67);
                Some(name)
            },
            None => None,
        }
    }
}

/// Builds the calendar time with chrono's `NaiveDate::from_ymd_opt` and
/// `NaiveDate::and_hms_milli_opt` and writes it with `NaiveDateTime::format`
/// and the pattern `%Y%m%d-%H%M%S%.3f`.
///
/// Not proved: that chrono accepts exactly the times that exist in the
/// Gregorian calendar, and that for a year from 0 to 9999 the pattern yields
/// the zero-padded digits of the fields, four for the year, two for each of
/// month, day, hour, minute and second, three for the milliseconds, with `-`
/// after the day and `.` before the milliseconds.
#[verifier::external_body]
fn calendar_text(stamp: &Stamp) -> (text: Option<Vec<u8>>)
    requires
        0 <= stamp.year <= 9999,
        stamp.millis <= 999,
    ensures
        match text {
            Some(t) => stamp.is_valid() && t@ == stamp.text(),
            None => !stamp.is_valid(),
        },
{
    let date = chrono::NaiveDate::from_ymd_opt(stamp.year, stamp.month, stamp.day)?;
    let at = date.and_hms_milli_opt(stamp.hour, stamp.minute, stamp.second, stamp.millis)?;
    Some(at.format("%Y%m%d-%H%M%S%.3f").to_string().into_bytes())
}

/// A number written in `width` digits has `width` bytes.
pub proof fn lemma_decimal_len(n: nat, width: nat)
    ensures
        decimal(n, width).len() == width,
    decreases width,
{
    if width > 0 {
        lemma_decimal_len(n / 10, (width - 1) as nat);
    }
}

/// Of two numbers that fit in `width` digits, the smaller is written as the
/// text that sorts first.
pub proof fn lemma_decimal_order(x: nat, y: nat, width: nat)
    requires
        x < y < pow10(width),
    ensures
        lex_lt(decimal(x, width), decimal(y, width)),
    decreases width,
{
    if width > 0 {
        let p = decimal(x / 10, (width - 1) as nat);
        let q = decimal(y / 10, (width - 1) as nat);
        let dx = (0x30 + x % 10) as u8;
        let dy = (0x30 + y % 10) as u8;
        lemma_decimal_len(x / 10, (width - 1) as nat);
        lemma_decimal_len(y / 10, (width - 1) as nat);
        if x / 10 < y / 10 {
            lemma_decimal_order(x / 10, y / 10, (width - 1) as nat);
            let k = choose|k: int| #[trigger]
                agree_before(p, q, k) && k < q.len() && (k == p.len() || p[k] < q[k]);
            assert(agree_before(p.push(dx), q.push(dy), k));
        } else {
            let k = (width - 1) as int;
            assert(agree_before(p.push(dx), q.push(dy), k));
        }
    }
}

/// Comparing two texts that start with blocks of the same length: the first
/// blocks decide, and where they are equal the rest decides.
pub proof fn lemma_block_order(pa: Seq<u8>, sa: Seq<u8>, pb: Seq<u8>, sb: Seq<u8>)
    requires
        pa.len() == pb.len(),
        lex_lt(pa, pb) || (pa == pb && lex_lt(sa, sb)),
    ensures
        lex_lt(pa + sa, pb + sb),
{
    let a = pa + sa;
    let b = pb + sb;
    if lex_lt(pa, pb) {
        let k = choose|k: int| #[trigger]
            agree_before(pa, pb, k) && k < pb.len() && (k == pa.len() || pa[k] < pb[k]);
        assert(agree_before(a, b, k));
    } else {
        let k = choose|k: int| #[trigger]
            agree_before(sa, sb, k) && k < sb.len() && (k == sa.len() || sa[k] < sb[k]);
        assert(agree_before(a, b, pa.len() + k));
    }
}

/// The powers of ten that bound the fields of a time.
proof fn lemma_pow10_values()
    ensures
        pow10(2) == 100,
        pow10(3) == 1000,
        pow10(4) == 10000,
{
    reveal_with_fuel(pow10, 5);
}

/// One step of comparing two texts field by field: a field of `width` digits
/// in front of the texts `sa` and `sb`.
proof fn lemma_field_order(x: nat, sa: Seq<u8>, y: nat, sb: Seq<u8>, width: nat)
    requires
        x < pow10(width),
        y < pow10(width),
        x < y || (x == y && lex_lt(sa, sb)),
    ensures
        lex_lt(decimal(x, width) + sa, decimal(y, width) + sb),
{
    lemma_decimal_len(x, width);
    lemma_decimal_len(y, width);
    if x < y {
        lemma_decimal_order(x, y, width);
    }
    lemma_block_order(decimal(x, width), sa, decimal(y, width), sb);
}

/// The name of a valid time is that of a log file, 23 bytes long.
pub proof fn lemma_file_name_is_log(stamp: Stamp)
    requires
        stamp.is_valid(),
    ensures
        stamp.file_name().len() == 23,
        is_log(stamp.file_name()),
{
    lemma_decimal_len(stamp.year as nat, 4);
    lemma_decimal_len(stamp.month as nat, 2);
    lemma_decimal_len(stamp.day as nat, 2);
    lemma_decimal_len(stamp.hour as nat, 2);
    lemma_decimal_len(stamp.minute as nat, 2);
    lemma_decimal_len(stamp.second as nat, 2);
    lemma_decimal_len(stamp.millis as nat, 3);
    assert(stamp.file_name().skip(19) =~= log_suffix());
}

/// The log file of the earlier of two times has the name that sorts first.
pub proof fn lemma_earlier_sorts_first(a: Stamp, b: Stamp)
    requires
        a.is_valid(),
        b.is_valid(),
        a.before(b),
    ensures
        lex_lt(a.file_name(), b.file_name()),
{
    lemma_pow10_values();
    let dot = seq![0x2eu8];
    let dash = seq![0x2du8];
    let a_ms = decimal(a.millis as nat, 3);
    let b_ms = decimal(b.millis as nat, 3);
    let a_s = decimal(a.second as nat, 2) + (dot + a_ms);
    let b_s = decimal(b.second as nat, 2) + (dot + b_ms);
    let a_m = decimal(a.minute as nat, 2) + a_s;
    let b_m = decimal(b.minute as nat, 2) + b_s;
    let a_d = decimal(a.day as nat, 2) + (dash + a.clock_text());
    let b_d = decimal(b.day as nat, 2) + (dash + b.clock_text());
    let a_mo = decimal(a.month as nat, 2) + a_d;
    let b_mo = decimal(b.month as nat, 2) + b_d;
    let same_day = a.year == b.year && a.month == b.month && a.day == b.day;
    let same_second = same_day && a.hour == b.hour && a.minute == b.minute && a.second
        == b.second;
    if same_second {
        lemma_decimal_order(a.millis as nat, b.millis as nat, 3);
        lemma_block_order(dot, a_ms, dot, b_ms);
    }
    if same_day && a.hour == b.hour && a.minute == b.minute {
        lemma_field_order(a.second as nat, dot + a_ms, b.second as nat, dot + b_ms, 2);
    }
    if same_day && a.hour == b.hour {
        lemma_field_order(a.minute as nat, a_s, b.minute as nat, b_s, 2);
    }
    if same_day {
        lemma_field_order(a.hour as nat, a_m, b.hour as nat, b_m, 2);
        lemma_block_order(dash, a.clock_text(), dash, b.clock_text());
    }
    if a.year == b.year && a.month == b.month {
        lemma_field_order(
            a.day as nat,
            dash + a.clock_text(),
            b.day as nat,
            dash + b.clock_text(),
            2,
        );
    }
    if a.year == b.year {
        lemma_field_order(a.month as nat, a_d, b.month as nat, b_d, 2);
    }
    lemma_field_order(a.year as nat, a_mo, b.year as nat, b_mo, 4);
    lemma_file_name_is_log(a);
    lemma_file_name_is_log(b);
    lemma_block_order(a.text(), log_suffix(), b.text(), log_suffix());
}

/// Log files sort by name in the order in which they were created: of two
/// valid times, one is before the other exactly when its file name sorts
/// before the other's.
pub proof fn lemma_names_sort_by_time(a: Stamp, b: Stamp)
    requires
        a.is_valid(),
        b.is_valid(),
    ensures
        a.before(b) <==> lex_lt(a.file_name(), b.file_name()),
{
    if a.before(b) {
        lemma_earlier_sorts_first(a, b);
    } else if b.before(a) {
        lemma_earlier_sorts_first(b, a);
        lemma_lex_lt_asymmetric(a.file_name(), b.file_name());
    } else {
        lemma_lex_lt_irreflexive(a.file_name());
    }
}

} // verus!
