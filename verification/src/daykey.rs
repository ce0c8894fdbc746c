//! The fixed time zone (Istanbul) and the day key: the filename under
//! which one local calendar day's snapshot is kept — day, month and year,
//! unpadded, dash-separated. The civil-time conversion itself is the date
//! library's work; everything around it is verified.
use crate::text::{dec_digits, dec_int, render_i32, render_u64};
use vstd::prelude::*;
use vstd::string::StringExecFns;

verus! {

/// Largest instant (in seconds) accepted for civil-time conversion: safely
/// inside the calendar range the date library supports.
pub const MAX_DAY_KEY_SECS: u64 = 8_000_000_000_000;

/// The civil time (day, month, year, hour, minute) of an instant in the
/// Istanbul time zone: a function of the instant alone, since the zone is
/// fixed.
pub uninterp spec fn istanbul_civil_of(secs: u64) -> (u32, u32, i32, u32, u32);

/// Relies on chrono's `DateTime::from_timestamp` and `with_timezone` with
/// chrono-tz's Istanbul table: the civil time of an instant in that fixed
/// zone depends on the instant alone; `day()` is documented to lie in
/// 1..=31, `month()` in 1..=12, `hour()` in 0..=23 and `minute()` in
/// 0..=59; and `from_timestamp` accepts every second count up to the
/// bound above.
#[verifier::external_body]
pub(crate) fn civil_istanbul(secs: u64) -> (r: (u32, u32, i32, u32, u32))
    requires
        secs <= MAX_DAY_KEY_SECS,
    ensures
        r == istanbul_civil_of(secs),
        1 <= r.0 <= 31,
        1 <= r.1 <= 12,
        r.3 <= 23,
        r.4 <= 59,
{
    let dt = chrono::DateTime::from_timestamp(secs as i64, 0)
        .unwrap()
        .with_timezone(&chrono_tz::Europe::Istanbul);
    (
        chrono::Datelike::day(&dt),
        chrono::Datelike::month(&dt),
        chrono::Datelike::year(&dt),
        chrono::Timelike::hour(&dt),
        chrono::Timelike::minute(&dt),
    )
}

/// Text of a day key built from date parts: day-month-year, no padding.
pub open spec fn day_key_chars(day: u32, month: u32, year: i32) -> Seq<char> {
    dec_digits(day as nat) + seq!['-'] + dec_digits(month as nat) + seq!['-'] + dec_int(year as int)
}

/// Renders a day key from its date parts.
pub fn day_key_from_parts(day: u32, month: u32, year: i32) -> (r: String)
    ensures
        r@ == day_key_chars(day, month, year),
{
    let mut out = render_u64(day as u64);
    out.append("-");
    let month_str = render_u64(month as u64);
    out.append(month_str.as_str());
    out.append("-");
    let year_str = render_i32(year);
    out.append(year_str.as_str());
    proof {
        reveal_strlit("-");
        assert(out@ =~= day_key_chars(day, month, year));
    }
    out
}

/// The key naming the calendar day of `now_secs` in the fixed zone. Stable
/// for every instant of one local day, changing exactly at local midnight,
/// because the date parts are.
pub fn day_key(now_secs: u64) -> (r: String)
    requires
        now_secs <= MAX_DAY_KEY_SECS,
    ensures
        ({
            let (d, m, y, hour, minute) = istanbul_civil_of(now_secs);
            r@ == day_key_chars(d, m, y)
        }),
{
    let (d, m, y, _hour, _minute) = civil_istanbul(now_secs);
    day_key_from_parts(d, m, y)
}

} // verus!
