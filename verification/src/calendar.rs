//! Calendar dates from day counts.
use vstd::prelude::*;

verus! {

/// The number of days from 1970-01-01 to the date `y`-`m`-`d` of the
/// proleptic Gregorian calendar (March-based years of 400-year eras).
pub open spec fn days_from_civil(y: int, m: int, d: int) -> int {
    let yy = if m <= 2 {
        y - 1
    } else {
        y
    };
    let era = yy / 400;
    let yoe = yy - era * 400;
    let mp = if m > 2 {
        m - 3
    } else {
        m + 9
    };
    let doy = (153 * mp + 2) / 5 + d - 1;
    let doe = yoe * 365 + yoe / 4 - yoe / 100 + doy;
    era * 146097 + doe - 719468
}

/// Whether `y` is a leap year of the Gregorian calendar.
pub open spec fn is_leap(y: int) -> bool {
    y % 4 == 0 && (y % 100 != 0 || y % 400 == 0)
}

/// The number of days of month `m` of year `y`.
pub open spec fn days_in_month(y: int, m: int) -> int {
    if m == 2 {
        if is_leap(y) {
            29
        } else {
            28
        }
    } else if m == 4 || m == 6 || m == 9 || m == 11 {
        30
    } else {
        31
    }
}

proof fn lemma_day_of_era(doe: u32)
    requires
        doe <= 146096,
    ensures
        ({
            let yoe = (doe - doe / 1460 + doe / 36524 - doe / 146096) / 365;
            &&& yoe <= 399
            &&& 365 * yoe + yoe / 4 - yoe / 100 <= doe
            &&& doe - (365 * yoe + yoe / 4 - yoe / 100) <= 365
            &&& (doe - (365 * yoe + yoe / 4 - yoe / 100) == 365 ==> (yoe + 1) % 4 == 0 && ((yoe
                + 1) % 100 != 0 || yoe + 1 == 400))
        }),
{
    assert({
        let yoe = (doe - doe / 1460 + doe / 36524 - doe / 146096) / 365;
        &&& yoe <= 399
        &&& 365 * yoe + yoe / 4 - yoe / 100 <= doe
        &&& doe - (365 * yoe + yoe / 4 - yoe / 100) <= 365
        &&& (doe - (365 * yoe + yoe / 4 - yoe / 100) == 365 ==> (yoe + 1) % 4 == 0 && ((yoe + 1)
            % 100 != 0 || yoe + 1 == 400))
    }) by (bit_vector)
        requires
            doe <= 146096,
    ;
}

proof fn lemma_day_of_year(doy: u32)
    requires
        doy <= 365,
    ensures
        ({
            let mp = (5 * doy + 2) / 153;
            &&& mp <= 11
            &&& (153 * mp + 2) / 5 <= doy
            &&& doy - (153 * mp + 2) / 5 <= 30
            &&& (mp == 1 || mp == 3 || mp == 6 || mp == 8) ==> doy - (153 * mp + 2) / 5 <= 29
            &&& mp == 11 ==> doy - (153 * mp + 2) / 5 <= 28
            &&& (mp == 11 && doy - (153 * mp + 2) / 5 == 28) ==> doy == 365
        }),
{
    assert({
        let mp = (5 * doy + 2) / 153;
        &&& mp <= 11
        &&& (153 * mp + 2) / 5 <= doy
        &&& doy - (153 * mp + 2) / 5 <= 30
        &&& (mp == 1 || mp == 3 || mp == 6 || mp == 8) ==> doy - (153 * mp + 2) / 5 <= 29
        &&& mp == 11 ==> doy - (153 * mp + 2) / 5 <= 28
        &&& (mp == 11 && doy - (153 * mp + 2) / 5 == 28) ==> doy == 365
    }) by (bit_vector)
        requires
            doy <= 365,
    ;
}

proof fn lemma_leap(yoe: int, era: int)
    requires
        0 <= yoe <= 399,
        (yoe + 1) % 4 == 0,
        (yoe + 1) % 100 != 0 || yoe + 1 == 400,
    ensures
        is_leap(yoe + 1 + era * 400),
{
    let y = yoe + 1 + era * 400;
    assert(y % 4 == (yoe + 1) % 4) by (nonlinear_arith)
        requires
            y == yoe + 1 + era * 400,
    ;
    assert(y % 100 == (yoe + 1) % 100 || (yoe + 1 == 400 && y % 400 == 0)) by (nonlinear_arith)
        requires
            y == yoe + 1 + era * 400,
            0 <= yoe <= 399,
    ;
    assert(yoe + 1 == 400 ==> y % 400 == 0) by (nonlinear_arith)
        requires
            y == yoe + 1 + era * 400,
    ;
}

/// The date that the steps of `epoch_days_to_ymd` give is `z - 719468` days
/// after 1970-01-01.
proof fn lemma_civil(z: int, era: int, doe: u32, yoe: u32, doy: u32, mp: u32, d: u32, m: u32, y: int)
    requires
        era * 146097 <= z < era * 146097 + 146097,
        doe as int == z - era * 146097,
        yoe as int == (doe - doe / 1460 + doe / 36524 - doe / 146096) / 365,
        yoe <= 399,
        365 * yoe + yoe / 4 - yoe / 100 <= doe,
        doy as int == doe - (365 * yoe + yoe / 4 - yoe / 100),
        doy <= 365,
        doy == 365 ==> (yoe + 1) % 4 == 0 && ((yoe + 1) % 100 != 0 || yoe + 1 == 400),
        mp as int == (5 * doy + 2) / 153,
        mp <= 11,
        (153 * mp + 2) / 5 <= doy,
        d as int == doy - (153 * mp + 2) / 5 + 1,
        (mp == 1 || mp == 3 || mp == 6 || mp == 8) ==> doy - (153 * mp + 2) / 5 <= 29,
        mp == 11 ==> doy - (153 * mp + 2) / 5 <= 28,
        (mp == 11 && doy - (153 * mp + 2) / 5 == 28) ==> doy == 365,
        doy - (153 * mp + 2) / 5 <= 30,
        m as int == if mp < 10 {
            mp + 3
        } else {
            mp - 9
        },
        y == yoe as int + era * 400 + if m <= 2 {
            1int
        } else {
            0int
        },
    ensures
        days_from_civil(y, m as int, d as int) == z - 719468,
        1 <= m <= 12,
        1 <= d <= days_in_month(y, m as int),
{
    let yy = yoe as int + era * 400;
    assert(yy / 400 == era) by (nonlinear_arith)
        requires
            yy == yoe as int + era * 400,
            0 <= yoe <= 399,
    ;
    if m == 2 && d == 29 {
        lemma_leap(yoe as int, era);
    }
}

/// Whether `y`-`m`-`d` is a date of the calendar, `days` days after 1970-01-01.
pub open spec fn is_date_of(y: i64, m: u32, d: u32, days: i64) -> bool {
    &&& 1 <= m <= 12
    &&& 1 <= d <= days_in_month(y as int, m as int)
    &&& days_from_civil(y as int, m as int, d as int) == days
}

/// The date `days` days after 1970-01-01: year (its low 32 bits), month and
/// day.
#[verifier::rlimit(30)]
pub fn epoch_days_to_ymd(days: i64) -> (r: (i32, u32, u32))
    requires
        days <= i64::MAX - 719468,
    ensures
        exists|y: i64| r.0 == y as i32 && #[trigger] is_date_of(y, r.1, r.2, days),
{
    let z = days + 719468;
    // the era is `z / 146097` rounded down
    let era: i64 = if z >= 0 {
        z / 146097
    } else {
        -((146096 - z) / 146097)
    };
    proof {
        assert(era * 146097 <= z < era * 146097 + 146097);
    }
    let doe = (z - era * 146097) as u32;
    let yoe = (doe - doe / 1460 + doe / 36524 - doe / 146096) / 365;
    let y = yoe as i64 + era * 400;
    let doy = doe - (365 * yoe + yoe / 4 - yoe / 100);
    let mp = (5 * doy + 2) / 153;
    let d = doy - (153 * mp + 2) / 5 + 1;
    let m = if mp < 10 {
        mp + 3
    } else {
        mp - 9
    };
    let y = if m <= 2 {
        y + 1
    } else {
        y
    };
    proof {
        lemma_day_of_era(doe);
        lemma_day_of_year(doy);
        lemma_civil(z as int, era as int, doe, yoe, doy, mp, d, m, y as int);
    }
    let r = (y as i32, m, d);
    proof {
        assert(r.0 == y as i32 && is_date_of(y, r.1, r.2, days));
    }
    r
}

} // verus!
