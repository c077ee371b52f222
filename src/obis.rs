//! OBIS references and the measurement objects they identify.
use crate::text::{
    all_digits, digits_value, find_byte, is_digit, lemma_digits_concat, lemma_find_from_at,
    lemma_saturate_step, pow10, split_once,
};
use crate::Error;
use vstd::prelude::*;
use crate::read::utf8_text;
use vstd::string::StringSliceAdditionalSpecFns;
use vstd::utf8::{encode_utf8, partial_valid_utf8_extend_ascii_block};

verus! {

/// One conductor in a three-phase system.
#[derive(Debug, Clone, Copy, PartialEq, Eq, Structural)]
pub enum Line {
    /// Line 1
    L1,
    /// Line 2
    L2,
    /// Line 3
    L3,
}

/// The type of power measured (*active* or *reactive*).
#[derive(Debug, Clone, Copy, PartialEq, Eq, Structural)]
pub enum Power {
    /// Active power (W).
    Active,
    /// Reactive power (VAr).
    Reactive,
}

/// Direction of the electricity flow.
#[derive(Debug, Clone, Copy, PartialEq, Eq, Structural)]
pub enum Direction {
    /// Energy received from the grid.
    FromGrid,
    /// Energy returned to the grid.
    ToGrid,
}

/// A wall-clock reading of the meter, in Swedish standard time (CET) or
/// summer time (CEST).
#[derive(Debug, Clone, Copy, PartialEq, Eq, Structural)]
pub struct Timestamp {
    /// Calendar year.
    pub year: u16,
    /// Month of the year, 1 to 12.
    pub month: u8,
    /// Day of the month, from 1.
    pub day: u8,
    /// Hour, 0 to 23.
    pub hour: u8,
    /// Minute, 0 to 59.
    pub minute: u8,
    /// Second, 0 to 59.
    pub second: u8,
    /// Daylight-saving time (UTC+2) rather than standard time (UTC+1).
    pub summer: bool,
}

/// A parsed line of the body of a telegram.
#[derive(Debug, Clone, Copy, PartialEq, Eq, Structural)]
pub enum Object {
    /// Timestamp with its time zone (CET/CEST).
    DateTime(Timestamp),
    /// Energy received or returned across all [`Line`]s (Wh or VArh).
    Energy(Power, Direction, u32),
    /// Power of all lines combined (W or VAr).
    TotalPower(Power, Direction, u32),
    /// Power per [`Line`] (W or VAr).
    Power(Line, Power, Direction, u32),
    /// Phase voltage per [`Line`] measured in decivolts (dV, 0.1 V).
    Voltage(Line, u16),
    /// Phase current per [`Line`] (dA, 0.1 A).
    Current(Line, u16),
}

/// An *OBject Identifier System* identifier with the F group omitted.
#[derive(Debug, Clone, Copy, PartialEq, Eq, Structural)]
pub struct Obis(pub u8, pub u8, pub u8, pub u8, pub u8);

// ---------------------------------------------------------------------------
// Specification

/// What `str::parse::<u8>` accepts: an optional `+`, then one or more decimal
/// digits whose value is at most 255.
pub open spec fn u8_text_value(s: Seq<u8>) -> Option<u8> {
    let d = if s.len() > 0 && s[0] == 43 { s.drop_first() } else { s };
    if d.len() > 0 && all_digits(d) && digits_value(d) <= 255 {
        Some(digits_value(d) as u8)
    } else {
        None
    }
}

/// The reference written `a-b:c.d.e`, each component as [`u8_text_value`] reads it.
pub open spec fn obis_spec(s: Seq<u8>) -> Option<Obis> {
    match find_byte(s, 45) {
        None => None,
        Some(p) => {
            let r1 = s.skip(p + 1);
            match find_byte(r1, 58) {
                None => None,
                Some(q) => {
                    let r2 = r1.skip(q + 1);
                    match find_byte(r2, 46) {
                        None => None,
                        Some(u) => {
                            let r3 = r2.skip(u + 1);
                            match find_byte(r3, 46) {
                                None => None,
                                Some(v) => {
                                    match (
                                        u8_text_value(s.take(p)),
                                        u8_text_value(r1.take(q)),
                                        u8_text_value(r2.take(u)),
                                        u8_text_value(r3.take(v)),
                                        u8_text_value(r3.skip(v + 1)),
                                    ) {
                                        (Some(a), Some(b), Some(c), Some(d), Some(e)) => Some(
                                            Obis(a, b, c, d, e),
                                        ),
                                        _ => None,
                                    }
                                },
                            }
                        },
                    }
                },
            }
        },
    }
}

/// The number and the unit of a value written `<number>*<unit>)`.
pub open spec fn split_value_spec(s: Seq<u8>) -> Option<(Seq<u8>, Seq<u8>)> {
    if s.len() >= 1 && s.last() == 41 {
        let inner = s.drop_last();
        match find_byte(inner, 42) {
            Some(k) => Some((inner.take(k), inner.skip(k + 1))),
            None => None,
        }
    } else {
        None
    }
}

/// The magnitude of a value with exactly `idig` integer and `fdig` fraction
/// digits, in units of `10^-fdig`.
pub open spec fn decimal_value(s: Seq<u8>, idig: nat, fdig: nat) -> Option<nat> {
    match split_value_spec(s) {
        None => None,
        Some((num, _unit)) => {
            if num.len() == idig + 1 + fdig && num[idig as int] == 46 && all_digits(num.take(idig as int))
                && all_digits(num.skip(idig + 1 as int)) {
                Some(
                    digits_value(num.take(idig as int)) * pow10(fdig) + digits_value(
                        num.skip(idig + 1 as int),
                    ),
                )
            } else {
                None
            }
        },
    }
}

/// The magnitude of a value, where it also fits in `max`.
pub open spec fn bounded_decimal(s: Seq<u8>, idig: nat, fdig: nat, max: nat) -> Option<nat> {
    match decimal_value(s, idig, fdig) {
        Some(v) if v <= max => Some(v),
        _ => None,
    }
}

/// Kind of power and direction for the codes 1 to 4.
pub open spec fn pow_dir_spec(c: u8) -> Result<(Power, Direction), Error> {
    if c == 1 {
        Ok((Power::Active, Direction::FromGrid))
    } else if c == 2 {
        Ok((Power::Active, Direction::ToGrid))
    } else if c == 3 {
        Ok((Power::Reactive, Direction::FromGrid))
    } else if c == 4 {
        Ok((Power::Reactive, Direction::ToGrid))
    } else {
        Err(Error::InvalidFormat)
    }
}

/// Leap years of the Gregorian calendar.
pub open spec fn is_leap_year(y: int) -> bool {
    (y % 4 == 0 && y % 100 != 0) || y % 400 == 0
}

/// Number of days in month `m` (1 to 12) of year `y`.
pub open spec fn days_in_month(y: int, m: int) -> int {
    if m == 2 {
        if is_leap_year(y) {
            29
        } else {
            28
        }
    } else if m == 4 || m == 6 || m == 9 || m == 11 {
        30
    } else {
        31
    }
}

/// Two decimal digits at `i` and `i + 1`.
pub open spec fn two_digits_spec(s: Seq<u8>, i: int) -> Option<u8> {
    if 0 <= i && i + 2 <= s.len() && is_digit(s[i]) && is_digit(s[i + 1]) {
        Some(((s[i] - 48) * 10 + (s[i + 1] - 48)) as u8)
    } else {
        None
    }
}

/// The reading `YYMMDDhhmmss` followed by `W` (standard time) or `S` (summer
/// time); anything after that is not looked at.
pub open spec fn timestamp_spec(s: Seq<u8>) -> Option<Timestamp> {
    match (
        two_digits_spec(s, 0),
        two_digits_spec(s, 2),
        two_digits_spec(s, 4),
        two_digits_spec(s, 6),
        two_digits_spec(s, 8),
        two_digits_spec(s, 10),
    ) {
        (Some(yy), Some(mo), Some(d), Some(h), Some(mi), Some(se)) => {
            if 1 <= mo <= 12 && 1 <= d <= days_in_month(2000 + yy, mo as int) && h < 24 && mi < 60
                && se < 60 && s.len() >= 13 && (s[12] == 87 || s[12] == 83) {
                Some(
                    Timestamp {
                        year: (2000 + yy) as u16,
                        month: mo,
                        day: d,
                        hour: h,
                        minute: mi,
                        second: se,
                        summer: s[12] == 83,
                    },
                )
            } else {
                None
            }
        },
        _ => None,
    }
}

/// The line that a per-line code (21 to 72) belongs to.
pub open spec fn line_of_group(g: int) -> Line {
    if g == 1 {
        Line::L1
    } else if g == 2 {
        Line::L2
    } else {
        Line::L3
    }
}

/// A per-line power code: 21 to 24, 41 to 44 or 61 to 64.
pub open spec fn is_line_power_code(c: u8) -> bool {
    (21 <= c <= 24) || (41 <= c <= 44) || (61 <= c <= 64)
}

/// A per-line current (ending in 1) or voltage (ending in 2) code.
pub open spec fn is_line_phase_code(c: u8) -> bool {
    (31 <= c <= 32) || (51 <= c <= 52) || (71 <= c <= 72)
}

/// A magnitude in thousandths with `idig` integer digits that fits in `u32`.
pub open spec fn kilo_spec(s: Seq<u8>, idig: nat) -> Result<u32, Error> {
    match bounded_decimal(s, idig, 3, u32::MAX as nat) {
        Some(v) => Ok(v as u32),
        None => Err(Error::InvalidFormat),
    }
}

/// A magnitude in tenths with three integer digits that fits in `u16`.
pub open spec fn deci_spec(s: Seq<u8>) -> Result<u16, Error> {
    match bounded_decimal(s, 3, 1, u16::MAX as nat) {
        Some(v) => Ok(v as u16),
        None => Err(Error::InvalidFormat),
    }
}

/// The object that `body` (the text after the opening parenthesis) holds
/// for the reference `o`.
pub open spec fn decode_spec(o: Obis, body: Seq<u8>) -> Result<Object, Error> {
    let Obis(a, b, c, d, e) = o;
    if a == 0 && b == 0 && c == 1 && d == 0 && e == 0 {
        match timestamp_spec(body) {
            Some(t) => Ok(Object::DateTime(t)),
            None => Err(Error::InvalidFormat),
        }
    } else if a == 1 && b == 0 && 1 <= c <= 4 && (d == 7 || d == 8) && e == 0 {
        let (pow, dir) = pow_dir_spec(c)->Ok_0;
        match kilo_spec(body, if d == 8 { 8 } else { 4 }) {
            Ok(v) => Ok(
                if d == 7 {
                    Object::TotalPower(pow, dir, v)
                } else {
                    Object::Energy(pow, dir, v)
                },
            ),
            Err(err) => Err(err),
        }
    } else if a == 1 && b == 0 && is_line_power_code(c) && d == 7 && e == 0 {
        let (pow, dir) = pow_dir_spec(c % 20)->Ok_0;
        match kilo_spec(body, 4) {
            Ok(v) => Ok(Object::Power(line_of_group((c / 20) as int), pow, dir, v)),
            Err(err) => Err(err),
        }
    } else if a == 1 && b == 0 && is_line_phase_code(c) && d == 7 && e == 0 {
        let line = line_of_group(((c - 11) / 20) as int);
        match deci_spec(body) {
            Ok(v) => Ok(
                if c % 10 == 1 {
                    Object::Current(line, v)
                } else {
                    Object::Voltage(line, v)
                },
            ),
            Err(err) => Err(err),
        }
    } else {
        Err(Error::UnrecognizedReference)
    }
}

/// The object that a body line `<obis>(<value>)` holds.
pub open spec fn object_spec(s: Seq<u8>) -> Result<Object, Error> {
    match find_byte(s, 40) {
        None => Err(Error::InvalidFormat),
        Some(p) => match obis_spec(s.take(p)) {
            None => Err(Error::InvalidFormat),
            Some(o) => decode_spec(o, s.skip(p + 1)),
        },
    }
}


/// `v`, or `cap` where `v` reaches it.
spec fn saturate(v: nat, cap: nat) -> nat {
    if v < cap {
        v
    } else {
        cap
    }
}

/// Reads an unsigned byte the way `str::parse::<u8>` does.
pub fn parse_u8(s: &[u8]) -> (r: Option<u8>)
    ensures
        r == u8_text_value(s@),
{
    let start: usize = if s.len() > 0 && s[0] == 43 {
        1
    } else {
        0
    };
    let ghost d = if s@.len() > 0 && s@[0] == 43 {
        s@.drop_first()
    } else {
        s@
    };
    assert(d =~= s@.subrange(start as int, s@.len() as int));
    if start == s.len() {
        return None;
    }
    let mut acc: u32 = 0;
    let mut i: usize = start;
    while i < s.len()
        invariant
            start <= i <= s@.len(),
            d == s@.subrange(start as int, s@.len() as int),
            d == (if s@.len() > 0 && s@[0] == 43 {
                s@.drop_first()
            } else {
                s@
            }),
            all_digits(s@.subrange(start as int, i as int)),
            acc as nat == saturate(digits_value(s@.subrange(start as int, i as int)), 256),
        decreases s@.len() - i,
    {
        let b = s[i];
        if b < 48 || b > 57 {
            assert(d[i - start] == b);
            assert(!is_digit(d[i - start]));
            assert(!all_digits(d));
            return None;
        }
        let ghost prev = s@.subrange(start as int, i as int);
        let ghost next = s@.subrange(start as int, i + 1);
        assert(next.drop_last() =~= prev);
        assert(next.last() == b);
        proof {
            lemma_saturate_step(digits_value(prev), (b - 48) as nat, 256);
        }
        let v = acc * 10 + (b - 48) as u32;
        acc = if v >= 256 {
            256
        } else {
            v
        };
        i = i + 1;
    }
    assert(s@.subrange(start as int, i as int) =~= d);
    if acc <= 255 {
        Some(acc as u8)
    } else {
        None
    }
}

/// Determine if the power specified is active or reactive, as well as the [`Direction`].
pub fn pow_dir(a: u8) -> (r: Result<(Power, Direction), Error>)
    ensures
        r == pow_dir_spec(a),
{
    match a {
        1 => Ok((Power::Active, Direction::FromGrid)),
        2 => Ok((Power::Active, Direction::ToGrid)),
        3 => Ok((Power::Reactive, Direction::FromGrid)),
        4 => Ok((Power::Reactive, Direction::ToGrid)),
        _ => Err(Error::InvalidFormat),
    }
}

impl Obis {
    /// Parses `a-b:c.d.e`.
    pub fn from_bytes(s: &[u8]) -> (r: Option<Obis>)
        ensures
            r == obis_spec(s@),
    {
        let (a, r1) = split_once(s, 45)?;
        let (b, r2) = split_once(r1, 58)?;
        let (c, r3) = split_once(r2, 46)?;
        let (d, e) = split_once(r3, 46)?;
        let a = parse_u8(a);
        let b = parse_u8(b);
        let c = parse_u8(c);
        let d = parse_u8(d);
        let e = parse_u8(e);
        match (a, b, c, d, e) {
            (Some(a), Some(b), Some(c), Some(d), Some(e)) => Some(Obis(a, b, c, d, e)),
            _ => None,
        }
    }

    /// Parses the text `a-b:c.d.e`.
    pub fn from_str_opt(s: &str) -> (r: Option<Obis>)
        ensures
            r == obis_spec(s.spec_bytes()),
    {
        Obis::from_bytes(s.as_bytes())
    }
}

impl core::str::FromStr for Obis {
    type Err = Error;

    fn from_str(s: &str) -> (r: Result<Obis, Error>)
        ensures
            r == match obis_spec(s.spec_bytes()) {
                Some(o) => Ok::<Obis, Error>(o),
                None => Err(Error::InvalidFormat),
            },
    {
        match Obis::from_str_opt(s) {
            Some(o) => Ok(o),
            None => Err(Error::InvalidFormat),
        }
    }
}

/// Get the number and the unit from a value with a trailing parenthesis.
pub fn split_value(s: &[u8]) -> (r: Option<(&[u8], &[u8])>)
    ensures
        r matches Some((x, y)) ==> split_value_spec(s@) == Some((x@, y@)),
        r is None ==> split_value_spec(s@) is None,
{
    if s.len() == 0 || s[s.len() - 1] != 41 {
        return None;
    }
    let inner = vstd::slice::slice_subrange(s, 0, s.len() - 1);
    assert(inner@ =~= s@.drop_last());
    split_once(inner, 42)
}

/// Parses a magnitude with exactly `int_digits` integer digits and
/// `frac_digits` fraction digits, as an integer count of `10^-frac_digits`.
pub fn parse_decimal(s: &[u8], int_digits: usize, frac_digits: usize) -> (r: Option<u32>)
    ensures
        r matches Some(v) ==> bounded_decimal(s@, int_digits as nat, frac_digits as nat, u32::MAX as nat) == Some(v as nat),
        r is None ==> bounded_decimal(s@, int_digits as nat, frac_digits as nat, u32::MAX as nat) is None,
{
    let (num, unit) = split_value(s)?;
    if int_digits >= num.len() || num.len() - int_digits - 1 != frac_digits {
        return None;
    }
    if num[int_digits] != 46 {
        return None;
    }
    let ghost ip = num@.take(int_digits as int);
    let ghost fp = num@.skip(int_digits + 1 as int);
    let mut acc: u64 = 0;
    let mut k: usize = 0;
    let ghost mut seen: Seq<u8> = Seq::empty();
    while k < num.len()
        invariant
            split_value_spec(s@) == Some((num@, unit@)),
            int_digits < num@.len(),
            num@.len() - int_digits - 1 == frac_digits,
            num@[int_digits as int] == 46,
            ip == num@.take(int_digits as int),
            fp == num@.skip(int_digits + 1 as int),
            0 <= k <= num@.len(),
            k <= int_digits ==> seen == num@.take(k as int),
            k > int_digits ==> seen == ip + num@.subrange(int_digits + 1, k as int),
            all_digits(seen),
            acc as nat == saturate(digits_value(seen), 0x1_0000_0000),
        decreases num@.len() - k,
    {
        let b = num[k];
        if k != int_digits {
            if b < 48 || b > 57 {
                if k < int_digits {
                    assert(ip[k as int] == b);
                    assert(!is_digit(ip[k as int]));
                    assert(!all_digits(ip));
                } else {
                    assert(fp[k - int_digits - 1] == b);
                    assert(!is_digit(fp[k - int_digits - 1]));
                    assert(!all_digits(fp));
                }
                return None;
            }
            let ghost next = seen.push(b);
            assert(next.drop_last() =~= seen);
            proof {
                lemma_saturate_step(digits_value(seen), (b - 48) as nat, 0x1_0000_0000);
            }
            let v = acc * 10 + (b - 48) as u64;
            acc = if v >= 0x1_0000_0000 {
                0x1_0000_0000
            } else {
                v
            };
            proof {
                if k < int_digits {
                    assert(next =~= num@.take(k + 1));
                } else {
                    assert(next =~= ip + num@.subrange(int_digits + 1, k + 1));
                }
                seen = next;
            }
        } else {
            proof {
                assert(num@.subrange(int_digits + 1, k + 1) =~= Seq::<u8>::empty());
                assert(seen + Seq::<u8>::empty() =~= seen);
            }
        }
        k = k + 1;
    }
    assert(num@.subrange(int_digits + 1, num@.len() as int) =~= fp);
    assert(all_digits(ip)) by {
        assert forall|j: int| 0 <= j < ip.len() implies is_digit(#[trigger] ip[j]) by {
            assert(ip[j] == seen[j]);
        }
    }
    assert(all_digits(fp)) by {
        assert forall|j: int| 0 <= j < fp.len() implies is_digit(#[trigger] fp[j]) by {
            assert(fp[j] == seen[ip.len() + j]);
        }
    }
    proof {
        lemma_digits_concat(ip, fp);
    }
    if acc <= 0xffff_ffff {
        Some(acc as u32)
    } else {
        None
    }
}

/// Parses a magnitude with three fraction digits (thousandths).
pub fn parse_kilo(s: &[u8], int_digits: usize) -> (r: Result<u32, Error>)
    ensures
        r == kilo_spec(s@, int_digits as nat),
{
    match parse_decimal(s, int_digits, 3) {
        Some(v) => Ok(v),
        None => Err(Error::InvalidFormat),
    }
}

/// Parses a magnitude with three integer digits and one fraction digit (tenths).
pub fn parse_deci(s: &[u8]) -> (r: Result<u16, Error>)
    ensures
        r == deci_spec(s@),
{
    match parse_decimal(s, 3, 1) {
        Some(v) => {
            if v <= 0xffff {
                Ok(v as u16)
            } else {
                Err(Error::InvalidFormat)
            }
        },
        None => {
            assert(bounded_decimal(s@, 3, 1, u16::MAX as nat) is None);
            Err(Error::InvalidFormat)
        },
    }
}


/// Reads two decimal digits at `i` and `i + 1`.
fn two_digits(s: &[u8], i: usize) -> (r: Option<u8>)
    requires
        i <= 10,
    ensures
        r == two_digits_spec(s@, i as int),
{
    if i + 2 > s.len() {
        return None;
    }
    let hi = s[i];
    let lo = s[i + 1];
    if hi < 48 || hi > 57 || lo < 48 || lo > 57 {
        return None;
    }
    Some((hi - 48) * 10 + (lo - 48))
}

/// Number of days in month `month` (1 to 12) of year `year`.
fn month_length(year: u16, month: u8) -> (r: u8)
    requires
        1 <= month <= 12,
    ensures
        r as int == days_in_month(year as int, month as int),
{
    if month == 2 {
        if (year % 4 == 0 && year % 100 != 0) || year % 400 == 0 {
            29
        } else {
            28
        }
    } else if month == 4 || month == 6 || month == 9 || month == 11 {
        30
    } else {
        31
    }
}

/// Parses a timestamp `YYMMDDhhmmss` followed by `W` or `S`.
pub fn parse_datetime(s: &[u8]) -> (r: Result<Timestamp, Error>)
    ensures
        r matches Ok(t) ==> timestamp_spec(s@) == Some(t) && t.valid(),
        r is Err ==> timestamp_spec(s@) is None && r == Err::<Timestamp, Error>(Error::InvalidFormat),
{
    proof {
        lemma_timestamp_valid(s@);
    }
    let yy = two_digits(s, 0);
    let mo = two_digits(s, 2);
    let d = two_digits(s, 4);
    let h = two_digits(s, 6);
    let mi = two_digits(s, 8);
    let se = two_digits(s, 10);
    match (yy, mo, d, h, mi, se) {
        (Some(yy), Some(mo), Some(d), Some(h), Some(mi), Some(se)) => {
            let year: u16 = 2000 + yy as u16;
            if mo < 1 || mo > 12 {
                return Err(Error::InvalidFormat);
            }
            if d < 1 || d > month_length(year, mo) || h >= 24 || mi >= 60 || se >= 60 {
                return Err(Error::InvalidFormat);
            }
            if s.len() < 13 || (s[12] != 87 && s[12] != 83) {
                return Err(Error::InvalidFormat);
            }
            Ok(
                Timestamp {
                    year,
                    month: mo,
                    day: d,
                    hour: h,
                    minute: mi,
                    second: se,
                    summer: s[12] == 83,
                },
            )
        },
        _ => Err(Error::InvalidFormat),
    }
}

/// Days from 1970-01-01 to the date `y-m-d` of the proleptic Gregorian
/// calendar (negative before it), counting from March so that the leap day
/// ends a year.
pub open spec fn days_from_civil(y: int, m: int, d: int) -> int {
    let ya = if m <= 2 { y - 1 } else { y };
    let era = ya / 400;
    let yoe = ya - era * 400;
    let mp = (m + 9) % 12;
    let doy = (153 * mp + 2) / 5 + d - 1;
    let doe = yoe * 365 + yoe / 4 - yoe / 100 + doy;
    era * 146097 + doe - 719468
}

/// The Unix time, in seconds, of a wall-clock reading at a fixed offset of
/// `offset_hours` from UTC.
pub open spec fn unix_time_of(
    year: int,
    month: int,
    day: int,
    hour: int,
    minute: int,
    second: int,
    offset_hours: int,
) -> int {
    days_from_civil(year, month, day) * 86400 + hour * 3600 + minute * 60 + second - offset_hours
        * 3600
}

/// Relies on the `time` crate: `Date::from_calendar_date`, `Date::with_hms`,
/// `UtcOffset::from_hms`, `PrimitiveDateTime::assume_offset` and
/// `OffsetDateTime::unix_timestamp` compute the instant of a valid reading.
#[verifier::external_body]
fn unix_seconds(year: u16, month: u8, day: u8, hour: u8, minute: u8, second: u8, offset_hours: i8) -> (r: i64)
    requires
        1 <= month <= 12,
        1 <= day <= days_in_month(year as int, month as int),
        hour < 24 && minute < 60 && second < 60,
        year <= 9999,
        -25 < offset_hours < 25,
    ensures
        r as int == unix_time_of(
            year as int,
            month as int,
            day as int,
            hour as int,
            minute as int,
            second as int,
            offset_hours as int,
        ),
{
    let month = time::Month::try_from(month).unwrap();
    let date = time::Date::from_calendar_date(year as i32, month, day).unwrap();
    let offset = time::UtcOffset::from_hms(offset_hours, 0, 0).unwrap();
    date.with_hms(hour, minute, second).unwrap().assume_offset(offset).unix_timestamp()
}

impl Timestamp {
    /// The reading is a real calendar date and time of this century.
    pub open spec fn valid(&self) -> bool {
        &&& 2000 <= self.year <= 2099
        &&& 1 <= self.month <= 12
        &&& 1 <= self.day <= days_in_month(self.year as int, self.month as int)
        &&& self.hour < 24 && self.minute < 60 && self.second < 60
    }

    /// The offset from UTC in hours: 2 in summer time, else 1.
    pub open spec fn offset_spec(&self) -> int {
        if self.summer {
            2
        } else {
            1
        }
    }

    /// Whether this is a real calendar date and time of this century.
    pub fn is_valid(&self) -> (r: bool)
        ensures
            r == self.valid(),
    {
        2000 <= self.year && self.year <= 2099 && 1 <= self.month && self.month <= 12 && 1
            <= self.day && self.day <= month_length(self.year, self.month) && self.hour < 24
            && self.minute < 60 && self.second < 60
    }

    /// The offset from UTC in hours: 2 in summer time, else 1.
    pub fn utc_offset_hours(&self) -> (r: i8)
        ensures
            r as int == self.offset_spec(),
    {
        if self.summer {
            2
        } else {
            1
        }
    }

    /// The instant of this reading, as seconds since the Unix epoch.
    pub fn unix_timestamp(&self) -> (r: i64)
        requires
            self.valid(),
        ensures
            r as int == unix_time_of(
                self.year as int,
                self.month as int,
                self.day as int,
                self.hour as int,
                self.minute as int,
                self.second as int,
                self.offset_spec(),
            ),
    {
        let offset = self.utc_offset_hours();
        unix_seconds(self.year, self.month, self.day, self.hour, self.minute, self.second, offset)
    }
}

/// Every timestamp that a body line can hold is a valid reading.
pub proof fn lemma_timestamp_valid(s: Seq<u8>)
    ensures
        timestamp_spec(s) matches Some(t) ==> t.valid(),
{
}

impl Object {
    /// Decodes the value `body` (the text after the opening parenthesis) of
    /// the reference `obis`.
    pub fn decode(obis: Obis, body: &[u8]) -> (r: Result<Object, Error>)
        ensures
            r == decode_spec(obis, body@),
    {
        match obis {
            Obis(0, 0, 1, 0, 0) => match parse_datetime(body) {
                Ok(t) => Ok(Object::DateTime(t)),
                Err(e) => Err(e),
            },
            Obis(1, 0, c, d, 0) if 1 <= c && c <= 4 && (d == 7 || d == 8) => {
                let (pow, dir) = pow_dir(c)?;
                if d == 7 {
                    Ok(Object::TotalPower(pow, dir, parse_kilo(body, 4)?))
                } else {
                    Ok(Object::Energy(pow, dir, parse_kilo(body, 8)?))
                }
            },
            Obis(1, 0, c, 7, 0) if (21 <= c && c <= 24) || (41 <= c && c <= 44) || (61 <= c
                && c <= 64) => {
                let line = match c / 20 {
                    1 => Line::L1,
                    2 => Line::L2,
                    _ => Line::L3,
                };
                let (pow, dir) = pow_dir(c % 20)?;
                Ok(Object::Power(line, pow, dir, parse_kilo(body, 4)?))
            },
            Obis(1, 0, c, 7, 0) if (31 <= c && c <= 32) || (51 <= c && c <= 52) || (71 <= c
                && c <= 72) => {
                let line = if c <= 32 {
                    Line::L1
                } else if c <= 52 {
                    Line::L2
                } else {
                    Line::L3
                };
                if c % 10 == 1 {
                    Ok(Object::Current(line, parse_deci(body)?))
                } else {
                    Ok(Object::Voltage(line, parse_deci(body)?))
                }
            },
            _ => Err(Error::UnrecognizedReference),
        }
    }

    /// Parses a body line `<obis>(<value>)`.
    pub fn from_bytes(s: &[u8]) -> (r: Result<Object, Error>)
        ensures
            r == object_spec(s@),
    {
        match split_once(s, 40) {
            None => Err(Error::InvalidFormat),
            Some((obis, body)) => match Obis::from_bytes(obis) {
                None => Err(Error::InvalidFormat),
                Some(o) => Object::decode(o, body),
            },
        }
    }

    /// Parses the text of a body line `<obis>(<value>)`.
    pub fn parse(s: &str) -> (r: Result<Object, Error>)
        ensures
            r == object_spec(s.spec_bytes()),
    {
        Object::from_bytes(s.as_bytes())
    }
}

impl core::str::FromStr for Object {
    type Err = Error;

    fn from_str(s: &str) -> (r: Result<Object, Error>)
        ensures
            r == object_spec(s.spec_bytes()),
    {
        Object::parse(s)
    }
}


/// The decimal digits of `n`, without leading zeros.
pub open spec fn dec_text(n: nat) -> Seq<u8>
    decreases n,
{
    if n < 10 {
        seq![(48 + n) as u8]
    } else {
        dec_text(n / 10).push((48 + n % 10) as u8)
    }
}

/// `x`, the separator `c`, then `y`.
pub open spec fn joined(x: Seq<u8>, c: u8, y: Seq<u8>) -> Seq<u8> {
    x + seq![c] + y
}

/// The text `a-b:c.d.e` of a reference.
pub open spec fn obis_text(o: Obis) -> Seq<u8> {
    joined(
        dec_text(o.0 as nat),
        45,
        joined(
            dec_text(o.1 as nat),
            58,
            joined(dec_text(o.2 as nat), 46, joined(dec_text(o.3 as nat), 46, dec_text(o.4 as nat))),
        ),
    )
}

/// The decimal digits of a number are digits and read back as that number.
proof fn lemma_dec_text(n: nat)
    ensures
        dec_text(n).len() >= 1,
        all_digits(dec_text(n)),
        digits_value(dec_text(n)) == n,
    decreases n,
{
    if n < 10 {
        assert(dec_text(n).drop_last() =~= Seq::<u8>::empty());
        assert(digits_value(dec_text(n)) == digits_value(Seq::<u8>::empty()) * 10 + n);
    } else {
        lemma_dec_text(n / 10);
        let t = dec_text(n);
        assert(t.drop_last() =~= dec_text(n / 10));
        assert(t.last() == (48 + n % 10) as u8);
        assert((n / 10) * 10 + n % 10 == n) by (nonlinear_arith);
        assert(digits_value(t) == digits_value(dec_text(n / 10)) * 10 + n % 10);
        assert forall|i: int| 0 <= i < t.len() implies is_digit(#[trigger] t[i]) by {
            if i < t.len() - 1 {
                assert(t[i] == dec_text(n / 10)[i]);
            }
        }
    }
}

/// A byte is the value of its text when that text is its decimal digits.
proof fn lemma_u8_text(v: u8)
    ensures
        u8_text_value(dec_text(v as nat)) == Some(v),
{
    lemma_dec_text(v as nat);
    assert(is_digit(dec_text(v as nat)[0]));
}

/// Splitting digits, a separator that is not a digit, and anything else at
/// that separator gives the two parts back.
proof fn lemma_split_joined(x: Seq<u8>, c: u8, y: Seq<u8>)
    requires
        all_digits(x),
        !is_digit(c),
    ensures
        find_byte(joined(x, c, y), c) == Some(x.len() as int),
        joined(x, c, y).take(x.len() as int) == x,
        joined(x, c, y).skip(x.len() + 1 as int) == y,
{
    let t = joined(x, c, y);
    assert forall|k: int| 0 <= k < x.len() implies t[k] != c by {
        assert(t[k] == x[k]);
        assert(is_digit(x[k]));
    }
    lemma_find_from_at(t, c, 0, x.len() as int);
    assert(t.take(x.len() as int) =~= x);
    assert(t.skip(x.len() + 1 as int) =~= y);
}

/// Five components joined by `-`, `:`, `.` and `.` parse as the reference
/// that they spell.
proof fn lemma_obis_parts(ta: Seq<u8>, tb: Seq<u8>, tc: Seq<u8>, td: Seq<u8>, te: Seq<u8>, o: Obis)
    requires
        all_digits(ta) && all_digits(tb) && all_digits(tc) && all_digits(td),
        u8_text_value(ta) == Some(o.0),
        u8_text_value(tb) == Some(o.1),
        u8_text_value(tc) == Some(o.2),
        u8_text_value(td) == Some(o.3),
        u8_text_value(te) == Some(o.4),
    ensures
        obis_spec(joined(ta, 45, joined(tb, 58, joined(tc, 46, joined(td, 46, te))))) == Some(o),
{
    let r3 = joined(td, 46, te);
    let r2 = joined(tc, 46, r3);
    let r1 = joined(tb, 58, r2);
    let s = joined(ta, 45, r1);
    lemma_split_joined(ta, 45, r1);
    lemma_split_joined(tb, 58, r2);
    lemma_split_joined(tc, 46, r3);
    lemma_split_joined(td, 46, te);
}

/// Formatting a reference as `a-b:c.d.e` and parsing the text gives the
/// same reference back.
pub proof fn lemma_obis_round_trip(o: Obis)
    ensures
        obis_spec(obis_text(o)) == Some(o),
{
    lemma_dec_text(o.0 as nat);
    lemma_dec_text(o.1 as nat);
    lemma_dec_text(o.2 as nat);
    lemma_dec_text(o.3 as nat);
    lemma_u8_text(o.0);
    lemma_u8_text(o.1);
    lemma_u8_text(o.2);
    lemma_u8_text(o.3);
    lemma_u8_text(o.4);
    lemma_obis_parts(
        dec_text(o.0 as nat),
        dec_text(o.1 as nat),
        dec_text(o.2 as nat),
        dec_text(o.3 as nat),
        dec_text(o.4 as nat),
        o,
    );
}

/// Appends the decimal digits of `v`.
fn push_decimal(out: &mut Vec<u8>, v: u8)
    ensures
        final(out)@ == old(out)@ + dec_text(v as nat),
{
    if v >= 100 {
        out.push(48 + v / 100);
        out.push(48 + (v / 10) % 10);
        out.push(48 + v % 10);
        assert(dec_text(v as nat / 100) == seq![(48 + v / 100) as u8]);
        assert(dec_text(v as nat / 10) =~= seq![(48 + v / 100) as u8].push(
            (48 + (v / 10) % 10) as u8,
        ));
    } else if v >= 10 {
        out.push(48 + v / 10);
        out.push(48 + v % 10);
        assert(dec_text(v as nat / 10) == seq![(48 + v / 10) as u8]);
    } else {
        out.push(48 + v);
    }
    assert(final(out)@ =~= old(out)@ + dec_text(v as nat));
}

impl Obis {
    /// The text `a-b:c.d.e` of this reference.
    pub fn to_text(&self) -> (r: Vec<u8>)
        ensures
            r@ == obis_text(*self),
    {
        let mut out: Vec<u8> = Vec::new();
        push_decimal(&mut out, self.0);
        out.push(45);
        push_decimal(&mut out, self.1);
        out.push(58);
        push_decimal(&mut out, self.2);
        out.push(46);
        push_decimal(&mut out, self.3);
        out.push(46);
        push_decimal(&mut out, self.4);
        assert(out@ =~= obis_text(*self));
        out
    }

    /// The text `a-b:c.d.e` of this reference, as a string.
    pub fn to_string(&self) -> (r: String)
        ensures
            encode_utf8(r@) == obis_text(*self),
    {
        let text = self.to_text();
        proof {
            lemma_obis_text_ascii(*self);
            partial_valid_utf8_extend_ascii_block(text@, 0, text@.len() as int);
            assert(text@.subrange(0, 0) =~= Seq::<u8>::empty());
            assert(text@.subrange(0, text@.len() as int) =~= text@);
        }
        match utf8_text(text.as_slice()) {
            Some(t) => t.to_owned(),
            None => String::new(),
        }
    }
}

/// Every byte of the text of a reference is ASCII.
proof fn lemma_obis_text_ascii(o: Obis)
    ensures
        forall|i: int| 0 <= i < obis_text(o).len() ==> #[trigger] obis_text(o)[i] < 128,
{
    lemma_dec_text(o.0 as nat);
    lemma_dec_text(o.1 as nat);
    lemma_dec_text(o.2 as nat);
    lemma_dec_text(o.3 as nat);
    lemma_dec_text(o.4 as nat);
}


/// The value text `<integer>.<fraction>*<unit>)`.
pub open spec fn value_text(ip: Seq<u8>, fp: Seq<u8>, unit: Seq<u8>) -> Seq<u8> {
    ip + seq![46u8] + fp + seq![42u8] + unit + seq![41u8]
}

/// A magnitude written with exactly `ip.len()` integer digits and
/// `fp.len()` fraction digits reads as `integer * 10^fp.len() + fraction`;
/// read with any other count of integer or fraction digits (one more or
/// one fewer among them) it is rejected.
pub proof fn lemma_decimal_layout(ip: Seq<u8>, fp: Seq<u8>, unit: Seq<u8>, idig: nat, fdig: nat)
    requires
        all_digits(ip),
        all_digits(fp),
    ensures
        decimal_value(value_text(ip, fp, unit), ip.len(), fp.len()) == Some(
            digits_value(ip) * pow10(fp.len()) + digits_value(fp),
        ),
        idig != ip.len() || fdig != fp.len() ==> decimal_value(
            value_text(ip, fp, unit),
            idig,
            fdig,
        ) is None,
{
    let num = ip + seq![46u8] + fp;
    let inner = num + seq![42u8] + unit;
    let s = value_text(ip, fp, unit);
    assert(s =~= inner + seq![41u8]);
    assert(s.drop_last() =~= inner);
    assert forall|k: int| 0 <= k < num.len() implies inner[k] != 42 by {
        assert(inner[k] == num[k]);
        if k < ip.len() {
            assert(num[k] == ip[k] && is_digit(ip[k]));
        } else if k > ip.len() {
            assert(num[k] == fp[k - ip.len() - 1] && is_digit(fp[k - ip.len() - 1]));
        }
    }
    lemma_find_from_at(inner, 42, 0, num.len() as int);
    assert(inner.take(num.len() as int) =~= num);
    assert(num.take(ip.len() as int) =~= ip);
    assert(num.skip(ip.len() + 1 as int) =~= fp);
    assert(split_value_spec(s) == Some((num, inner.skip(num.len() + 1 as int))));
    if num.len() == idig + 1 + fdig && num[idig as int] == 46 {
        if idig < ip.len() {
            assert(num[idig as int] == ip[idig as int] && is_digit(ip[idig as int]));
        } else if idig > ip.len() {
            let j = idig - ip.len() - 1;
            assert(num[idig as int] == fp[j] && is_digit(fp[j]));
        }
    }
}

/// The references that the decoder knows: the timestamp, the totals and
/// the per-line readings.
pub open spec fn is_known_reference(o: Obis) -> bool {
    let Obis(a, b, c, d, e) = o;
    (a == 0 && b == 0 && c == 1 && d == 0 && e == 0) || (a == 1 && b == 0 && e == 0 && (((1 <= c
        <= 4) && (d == 7 || d == 8)) || (d == 7 && (is_line_power_code(c) || is_line_phase_code(
        c,
    )))))
}

/// A well-formed reference that the decoder does not know is reported as
/// unrecognized, whatever its value; a known one never is, even where its
/// value is malformed.
pub proof fn lemma_unrecognized_reference(o: Obis, body: Seq<u8>)
    ensures
        decode_spec(o, body) == Err::<Object, Error>(Error::UnrecognizedReference)
            <==> !is_known_reference(o),
{
}

} // verus!
