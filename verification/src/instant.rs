//! Parsing an ISO-8601-style timestamp into an absolute instant, counted in
//! milliseconds since the Unix epoch.
//!
//! The accepted shape is `YYYY-MM-DDTHH:MM:SS`, optionally followed by a
//! fractional-second part `.d…`, and closed by a zone: `Z`, `z` or
//! `±HH:MM`. The date/time separator may be `T`, `t` or a space. The year
//! must be at least 0001; month, day, hour, minute and second are
//! range-checked (seconds up to 60, admitting a leap second, which counts
//! as the 61st second of its minute). Fractional digits beyond the third
//! are read but do not contribute below one millisecond.

use crate::bytes::{all_digits, digits_val, is_digit};
use vstd::prelude::*;

verus! {

broadcast use vstd::slice::group_slice_axioms;

pub open spec fn is_leap(y: int) -> bool {
    y % 4 == 0 && (y % 100 != 0 || y % 400 == 0)
}

pub open spec fn days_in_month(y: int, m: int) -> int {
    if m == 2 {
        if is_leap(y) {
            29
        } else {
            28
        }
    } else if m == 4 || m == 6 || m == 9 || m == 11 {
        30
    } else {
        31
    }
}

/// Days in year `y` before the first of month `m`.
pub open spec fn days_before_month(y: int, m: int) -> int {
    let base: int = if m == 1 {
        0
    } else if m == 2 {
        31
    } else if m == 3 {
        59
    } else if m == 4 {
        90
    } else if m == 5 {
        120
    } else if m == 6 {
        151
    } else if m == 7 {
        181
    } else if m == 8 {
        212
    } else if m == 9 {
        243
    } else if m == 10 {
        273
    } else if m == 11 {
        304
    } else {
        334
    };
    if m >= 3 && is_leap(y) {
        base + 1
    } else {
        base
    }
}

/// Days from the first of year 1 (proleptic Gregorian) to the first of year
/// `y`.
pub open spec fn days_before_year(y: int) -> int {
    365 * (y - 1) + (y - 1) / 4 - (y - 1) / 100 + (y - 1) / 400
}

/// Days from 1970-01-01 to the given date; negative for earlier dates.
pub open spec fn days_from_epoch(y: int, m: int, d: int) -> int {
    days_before_year(y) + days_before_month(y, m) + (d - 1) - 719162
}

/// The fixed `YYYY-MM-DDTHH:MM:SS` prefix is shaped right.
pub open spec fn date_time_shape_ok(s: Seq<u8>) -> bool {
    &&& s.len() >= 20
    &&& all_digits(s.subrange(0, 4))
    &&& s[4] == 45
    &&& all_digits(s.subrange(5, 7))
    &&& s[7] == 45
    &&& all_digits(s.subrange(8, 10))
    &&& (s[10] == 84 || s[10] == 116 || s[10] == 32)
    &&& all_digits(s.subrange(11, 13))
    &&& s[13] == 58
    &&& all_digits(s.subrange(14, 16))
    &&& s[16] == 58
    &&& all_digits(s.subrange(17, 19))
}

/// First index at or after `i` that does not hold a digit.
pub open spec fn digit_run_end(s: Seq<u8>, i: int) -> int
    decreases s.len() - i + 1,
{
    if i < 0 || i >= s.len() {
        i
    } else if !is_digit(s[i]) {
        i
    } else {
        digit_run_end(s, i + 1)
    }
}

/// Millisecond value of a fractional-second digit string (first three
/// digits, padded with zeros).
pub open spec fn frac_millis(f: Seq<u8>) -> int {
    let d0: int = if f.len() > 0 {
        f[0] - 48
    } else {
        0
    };
    let d1: int = if f.len() > 1 {
        f[1] - 48
    } else {
        0
    };
    let d2: int = if f.len() > 2 {
        f[2] - 48
    } else {
        0
    };
    d0 * 100 + d1 * 10 + d2
}

/// Index where the zone designator starts: after the fractional part if one
/// is present, else right after the seconds.
pub open spec fn zone_pos(s: Seq<u8>) -> int {
    if s.len() > 19 && s[19] == 46 {
        digit_run_end(s, 20)
    } else {
        19
    }
}

/// Zone offset in minutes east of UTC, when `s[i..]` is exactly `Z`, `z`
/// or `±HH:MM` with in-range fields.
pub open spec fn zone_offset_min(s: Seq<u8>, i: int) -> Option<int> {
    if !(0 <= i < s.len()) {
        None
    } else if (s[i] == 90 || s[i] == 122) && i + 1 == s.len() {
        Some(0)
    } else if (s[i] == 43 || s[i] == 45) && i + 6 == s.len() && all_digits(s.subrange(i + 1, i + 3))
        && s[i + 3] == 58 && all_digits(s.subrange(i + 4, i + 6)) {
        let oh = digits_val(s.subrange(i + 1, i + 3)) as int;
        let om = digits_val(s.subrange(i + 4, i + 6)) as int;
        if oh <= 23 && om <= 59 {
            if s[i] == 43 {
                Some(oh * 60 + om)
            } else {
                Some(-(oh * 60 + om))
            }
        } else {
            None
        }
    } else {
        None
    }
}

/// The instant `s` denotes, in milliseconds since the Unix epoch, or `None`
/// when `s` is not a well-formed timestamp.
pub open spec fn parse_instant(s: Seq<u8>) -> Option<i64> {
    if !date_time_shape_ok(s) {
        None
    } else {
        let y = digits_val(s.subrange(0, 4)) as int;
        let mo = digits_val(s.subrange(5, 7)) as int;
        let d = digits_val(s.subrange(8, 10)) as int;
        let h = digits_val(s.subrange(11, 13)) as int;
        let mi = digits_val(s.subrange(14, 16)) as int;
        let sec = digits_val(s.subrange(17, 19)) as int;
        if !(1 <= y && 1 <= mo <= 12 && 1 <= d <= days_in_month(y, mo) && h <= 23 && mi <= 59 && sec
            <= 60) {
            None
        } else {
            let zp = zone_pos(s);
            if s[19] == 46 && zp == 20 {
                None
            } else {
                let fms: int = if s[19] == 46 {
                    frac_millis(s.subrange(20, zp))
                } else {
                    0
                };
                match zone_offset_min(s, zp) {
                    None => None,
                    Some(off) => Some(
                        (((days_from_epoch(y, mo, d) * 86400 + h * 3600 + mi * 60 + sec) * 1000
                            + fms) - off * 60000) as i64,
                    ),
                }
            }
        }
    }
}

/// Exec form of `is_digit`.
fn is_digit_byte(b: u8) -> (r: bool)
    ensures
        r == is_digit(b),
{
    48 <= b && b <= 57
}

/// All bytes of `s[i..j]` are digits.
fn check_digits(s: &[u8], i: usize, j: usize) -> (r: bool)
    requires
        0 <= i <= j <= s@.len(),
    ensures
        r == all_digits(s@.subrange(i as int, j as int)),
{
    let ghost sub = s@.subrange(i as int, j as int);
    let mut k: usize = i;
    while k < j
        invariant
            i <= k <= j <= s@.len(),
            sub == s@.subrange(i as int, j as int),
            forall|t: int| 0 <= t < k - i ==> is_digit(sub[t]),
        decreases j - k,
    {
        if !is_digit_byte(s[k]) {
            proof {
                assert(sub[k - i] == s@[k as int]);
            }
            return false;
        }
        proof {
            assert(sub[k - i] == s@[k as int]);
        }
        k = k + 1;
    }
    true
}

/// Value of the two digits at `s[i..i+2]`.
fn read2(s: &[u8], i: usize) -> (r: u64)
    requires
        i + 2 <= s@.len(),
        all_digits(s@.subrange(i as int, i + 2)),
    ensures
        r == digits_val(s@.subrange(i as int, i + 2)),
        r <= 99,
{
    let ghost sub = s@.subrange(i as int, i + 2);
    proof {
        assert(sub.drop_last() =~= s@.subrange(i as int, i + 1));
        assert(s@.subrange(i as int, i + 1).drop_last() =~= s@.subrange(i as int, i as int));
        assert(sub[0] == s@[i as int]);
        assert(sub[1] == s@[i + 1]);
        assert(s@.subrange(i as int, i + 1)[0] == s@[i as int]);
        assert(digits_val(s@.subrange(i as int, i as int)) == 0);
        assert(digits_val(s@.subrange(i as int, i + 1)) == s@[i as int] - 48);
        assert(digits_val(sub) == (s@[i as int] - 48) * 10 + s@[i + 1] - 48);
    }
    (s[i] - 48) as u64 * 10 + (s[i + 1] - 48) as u64
}

/// Value of the four digits at `s[i..i+4]`.
fn read4(s: &[u8], i: usize) -> (r: u64)
    requires
        i + 4 <= s@.len(),
        all_digits(s@.subrange(i as int, i + 4)),
    ensures
        r == digits_val(s@.subrange(i as int, i + 4)),
        r <= 9999,
{
    let ghost sub = s@.subrange(i as int, i + 4);
    proof {
        assert(sub.drop_last() =~= s@.subrange(i as int, i + 3));
        assert(s@.subrange(i as int, i + 3).drop_last() =~= s@.subrange(i as int, i + 2));
        assert(s@.subrange(i as int, i + 2).drop_last() =~= s@.subrange(i as int, i + 1));
        assert(s@.subrange(i as int, i + 1).drop_last() =~= s@.subrange(i as int, i as int));
        assert(sub[3] == s@[i + 3]);
        assert(s@.subrange(i as int, i + 3)[2] == s@[i + 2]);
        assert(s@.subrange(i as int, i + 2)[1] == s@[i + 1]);
        assert(s@.subrange(i as int, i + 1)[0] == s@[i as int]);
        assert(digits_val(s@.subrange(i as int, i as int)) == 0);
        assert(digits_val(s@.subrange(i as int, i + 1)) == s@[i as int] - 48);
        assert(digits_val(s@.subrange(i as int, i + 2)) == (s@[i as int] - 48) * 10 + s@[i + 1]
            - 48);
        assert(digits_val(s@.subrange(i as int, i + 3)) == digits_val(s@.subrange(i as int, i + 2))
            * 10 + s@[i + 2] - 48);
        assert(digits_val(sub) == digits_val(s@.subrange(i as int, i + 3)) * 10 + s@[i + 3] - 48);
    }
    ((s[i] - 48) as u64 * 10 + (s[i + 1] - 48) as u64) * 10 * 10 + ((s[i + 2] - 48) as u64 * 10 + (s[
        i + 3] - 48) as u64)
}

/// Check the fixed `YYYY-MM-DDTHH:MM:SS` prefix.
fn shape_check(s: &[u8]) -> (r: bool)
    ensures
        r == date_time_shape_ok(s@),
{
    if s.len() < 20 {
        return false;
    }
    check_digits(s, 0, 4) && s[4] == 45 && check_digits(s, 5, 7) && s[7] == 45 && check_digits(
        s,
        8,
        10,
    ) && (s[10] == 84 || s[10] == 116 || s[10] == 32) && check_digits(s, 11, 13) && s[13] == 58
        && check_digits(s, 14, 16) && s[16] == 58 && check_digits(s, 17, 19)
}

/// Locate the zone start and the millisecond value of the fractional part;
/// `None` when a fraction dot is not followed by any digit.
fn frac_scan(s: &[u8]) -> (r: Option<(u64, usize)>)
    requires
        date_time_shape_ok(s@),
    ensures
        match r {
            Some(p) => {
                &&& p.1 == zone_pos(s@)
                &&& !(s@[19] == 46 && p.1 == 20)
                &&& p.0 == if s@[19] == 46 {
                    frac_millis(s@.subrange(20, p.1 as int))
                } else {
                    0
                }
                &&& p.0 <= 999
                &&& 19 <= p.1 <= s@.len()
            },
            None => s@[19] == 46 && zone_pos(s@) == 20,
        },
{
    let sl: usize = s.len();
    if s[19] != 46 {
        return Some((0, 19));
    }
    let mut fe: usize = 20;
    while fe < sl && is_digit_byte(s[fe])
        invariant
            20 <= fe <= sl,
            s@.len() == sl,
            digit_run_end(s@, 20) == digit_run_end(s@, fe as int),
            forall|t: int| 20 <= t < fe ==> is_digit(s@[t]),
        decreases sl - fe,
    {
        fe = fe + 1;
    }
    proof {
        assert(digit_run_end(s@, fe as int) == fe);
        assert(zone_pos(s@) == fe);
    }
    if fe == 20 {
        return None;
    }
    let ghost f = s@.subrange(20, fe as int);
    let d0 = (s[20] - 48) as u64;
    let d1: u64 = if fe > 21 {
        (s[21] - 48) as u64
    } else {
        0
    };
    let d2: u64 = if fe > 22 {
        (s[22] - 48) as u64
    } else {
        0
    };
    proof {
        assert(f[0] == s@[20]);
        if fe > 21 {
            assert(f[1] == s@[21]);
        }
        if fe > 22 {
            assert(f[2] == s@[22]);
        }
        assert(s@[20] >= 48 && s@[20] <= 57);
    }
    let fms = d0 * 100 + d1 * 10 + d2;
    proof {
        assert(fms == frac_millis(f));
    }
    Some((fms, fe))
}

/// Parse the zone designator starting at `zp`, as minutes east of UTC.
fn zone_parse(s: &[u8], zp: usize) -> (r: Option<i64>)
    requires
        zp <= s@.len(),
    ensures
        match r {
            Some(off) => zone_offset_min(s@, zp as int) == Some(off as int) && -1439 <= off <= 1439,
            None => zone_offset_min(s@, zp as int) is None,
        },
{
    let sl: usize = s.len();
    if zp >= sl {
        return None;
    }
    if s[zp] == 90 || s[zp] == 122 {
        if zp + 1 == sl {
            return Some(0);
        }
        return None;
    }
    if !(s[zp] == 43 || s[zp] == 45) {
        return None;
    }
    if sl - zp != 6 {
        return None;
    }
    if !(check_digits(s, zp + 1, zp + 3) && s[zp + 3] == 58 && check_digits(s, zp + 4, zp + 6)) {
        return None;
    }
    let oh = read2(s, zp + 1);
    let om = read2(s, zp + 4);
    if !(oh <= 23 && om <= 59) {
        return None;
    }
    let magnitude = (oh * 60 + om) as i64;
    if s[zp] == 43 {
        Some(magnitude)
    } else {
        Some(-magnitude)
    }
}

/// Day count from the epoch to the given (range-checked) date.
fn epoch_days(y: u64, mo: u64, d: u64) -> (days: i64)
    requires
        1 <= y <= 9999,
        1 <= mo <= 12,
        1 <= d <= days_in_month(y as int, mo as int),
    ensures
        days == days_from_epoch(y as int, mo as int, d as int),
        -719162 <= days <= 2933000,
{
    let leap = y % 4 == 0 && (y % 100 != 0 || y % 400 == 0);
    let py = y - 1;
    let dby: u64 = 365 * py + py / 4 + py / 400 - py / 100;
    proof {
        assert(py / 4 <= 2499);
        assert(py / 100 <= 99);
        assert(py / 400 <= 24);
        assert(py / 100 <= py);
        assert(dby == days_before_year(y as int));
    }
    let dbm_base: u64 = if mo == 1 {
        0
    } else if mo == 2 {
        31
    } else if mo == 3 {
        59
    } else if mo == 4 {
        90
    } else if mo == 5 {
        120
    } else if mo == 6 {
        151
    } else if mo == 7 {
        181
    } else if mo == 8 {
        212
    } else if mo == 9 {
        243
    } else if mo == 10 {
        273
    } else if mo == 11 {
        304
    } else {
        334
    };
    let dbm: u64 = if mo >= 3 && leap {
        dbm_base + 1
    } else {
        dbm_base
    };
    proof {
        assert(dbm == days_before_month(y as int, mo as int));
    }
    (dby + dbm + (d - 1)) as i64 - 719162
}

/// Parse a timestamp; mirrors `parse_instant`.
pub fn parse_instant_exec(s: &[u8]) -> (r: Option<i64>)
    ensures
        r == parse_instant(s@),
{
    if !shape_check(s) {
        return None;
    }
    let y = read4(s, 0);
    let mo = read2(s, 5);
    let d = read2(s, 8);
    let h = read2(s, 11);
    let mi = read2(s, 14);
    let sec = read2(s, 17);

    let leap = y % 4 == 0 && (y % 100 != 0 || y % 400 == 0);
    let dim: u64 = if mo == 2 {
        if leap {
            29
        } else {
            28
        }
    } else if mo == 4 || mo == 6 || mo == 9 || mo == 11 {
        30
    } else {
        31
    };
    proof {
        assert(dim == days_in_month(y as int, mo as int));
    }
    if !(1 <= y && 1 <= mo && mo <= 12 && 1 <= d && d <= dim && h <= 23 && mi <= 59 && sec <= 60) {
        return None;
    }
    let (fms, zp) = match frac_scan(s) {
        Some(p) => p,
        None => {
            return None;
        },
    };
    let off = match zone_parse(s, zp) {
        Some(o) => o,
        None => {
            return None;
        },
    };
    let days = epoch_days(y, mo, d);
    let total: i64 = ((days * 86400 + h as i64 * 3600 + mi as i64 * 60 + sec as i64) * 1000
        + fms as i64) - off * 60000;
    Some(total)
}

} // verus!
