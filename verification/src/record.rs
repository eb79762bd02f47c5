//! Canonical records and the normalizers that produce them from raw rows.

use vstd::prelude::*;
use crate::errors::EnergyError;
use crate::instant::{
    LocalResolution, helsinki_resolution_of, instant_in_range, resolve_helsinki_local, MAX_INSTANT,
};
use crate::units::{
    SCALE_DIGITS, VALUE_LIMIT, all_digits, decimal_comma_val, from_decimal_comma,
    from_signed_decimal_comma, is_ascii_digit, signed_decimal_comma_val, valid_decimal_comma,
    valid_signed_decimal_comma,
};

verus! {

/// Duration of the interval a single reading represents.
#[derive(Debug, Clone, Copy, PartialEq, Eq, Structural)]
pub enum TimeResolution {
    PT15M,
    PT1H,
}

/// Quality flag a raw Oomi row may carry: measured or derived.
#[derive(Debug, Clone, Copy, PartialEq, Eq, Structural)]
pub enum OomiStatus {
    Mitattu,
    Laskettu,
}

/// One normalized interval reading: the interval's UTC start in epoch
/// seconds, its exact energy in kWh as a scaled mantissa (non-negative by
/// construction), and an optional ambient temperature in degrees Celsius as
/// a scaled mantissa.
#[derive(Debug, Clone, Copy, PartialEq, Eq, Structural)]
pub struct CanonicalRecord {
    pub resolution: TimeResolution,
    pub instant: i64,
    pub energy: u64,
    pub temperature: Option<i64>,
}

impl CanonicalRecord {
    pub open spec fn wf(self) -> bool {
        &&& instant_in_range(self.instant as int)
        &&& self.energy < VALUE_LIMIT
    }
}

/// Fraction digits allowed by the Fingrid energy column.
pub const FINGRID_FRAC_DIGITS: usize = 5;

/// Fraction digits allowed by the Oomi energy column.
pub const OOMI_FRAC_DIGITS: usize = 2;

/// A raw Fingrid row after column splitting: Fingrid reports the interval
/// start already in UTC, and the energy as a decimal-comma string.
pub struct FingridRawRow {
    pub resolution: TimeResolution,
    pub instant: i64,
    pub energy: Vec<u8>,
}

/// A raw Oomi row after column splitting: the timestamp is a local Helsinki
/// wall-clock string `"DD.MM.YYYY HH:MM"`, the energy and the optional
/// temperature are decimal-comma strings.
pub struct OomiRawRow {
    pub timestamp: Vec<u8>,
    pub energy: Vec<u8>,
    pub status: Option<OomiStatus>,
    pub temperature: Option<Vec<u8>>,
    pub resolution: TimeResolution,
}

/// Layout of a local timestamp `"DD.MM.YYYY HH:MM"` with in-range fields;
/// whether the civil date exists is left to the zone resolution.
pub open spec fn valid_local_timestamp(s: Seq<u8>) -> bool {
    &&& s.len() == 16
    &&& is_ascii_digit(s[0]) && is_ascii_digit(s[1])
    &&& s[2] == 46
    &&& is_ascii_digit(s[3]) && is_ascii_digit(s[4])
    &&& s[5] == 46
    &&& is_ascii_digit(s[6]) && is_ascii_digit(s[7]) && is_ascii_digit(s[8]) && is_ascii_digit(
        s[9],
    )
    &&& s[10] == 32
    &&& is_ascii_digit(s[11]) && is_ascii_digit(s[12])
    &&& s[13] == 58
    &&& is_ascii_digit(s[14]) && is_ascii_digit(s[15])
    &&& 1 <= ts_day(s) <= 31
    &&& 1 <= ts_month(s) <= 12
    &&& ts_hour(s) <= 23
    &&& ts_minute(s) <= 59
}

pub open spec fn ts_day(s: Seq<u8>) -> int {
    (s[0] - 48) * 10 + (s[1] - 48)
}

pub open spec fn ts_month(s: Seq<u8>) -> int {
    (s[3] - 48) * 10 + (s[4] - 48)
}

pub open spec fn ts_year(s: Seq<u8>) -> int {
    (s[6] - 48) * 1000 + (s[7] - 48) * 100 + (s[8] - 48) * 10 + (s[9] - 48)
}

pub open spec fn ts_hour(s: Seq<u8>) -> int {
    (s[11] - 48) * 10 + (s[12] - 48)
}

pub open spec fn ts_minute(s: Seq<u8>) -> int {
    (s[14] - 48) * 10 + (s[15] - 48)
}

/// The UTC instant a local Helsinki wall-clock time resolves to. A time in a
/// daylight-saving gap or off the civil calendar resolves to nothing. A time
/// inside a daylight-saving fold is disambiguated by a documented heuristic:
/// in the second half of the year the reading is assumed to belong to
/// standard time and is resolved as if one hour later; in the first half, as
/// if one hour earlier. The shifted time must itself resolve uniquely.
pub open spec fn resolved_local_instant(y: int, mo: int, d: int, h: int, mi: int) -> Option<int> {
    match helsinki_resolution_of(y, mo, d, h, mi) {
        LocalResolution::Invalid => None,
        LocalResolution::Single(u) => Some(u as int),
        LocalResolution::Ambiguous(_a, _b) => if mo > 6 {
            if h < 23 {
                match helsinki_resolution_of(y, mo, d, h + 1, mi) {
                    LocalResolution::Single(u) => Some(u as int),
                    _ => None,
                }
            } else {
                None
            }
        } else {
            if h > 0 {
                match helsinki_resolution_of(y, mo, d, h - 1, mi) {
                    LocalResolution::Single(u) => Some(u as int),
                    _ => None,
                }
            } else {
                None
            }
        },
    }
}

fn digit_pair(a: u8, b: u8) -> (r: u32)
    requires
        is_ascii_digit(a),
        is_ascii_digit(b),
    ensures
        r == (a - 48) * 10 + (b - 48),
{
    ((a - 48) as u32) * 10 + ((b - 48) as u32)
}

/// Parse and resolve a local Helsinki timestamp string into a UTC instant.
pub fn local_timestamp_to_utc(s: &[u8]) -> (r: Result<i64, EnergyError>)
    ensures
        !valid_local_timestamp(s@) ==> r == Err::<i64, EnergyError>(EnergyError::MalformedInput),
        valid_local_timestamp(s@) ==> match resolved_local_instant(
            ts_year(s@),
            ts_month(s@),
            ts_day(s@),
            ts_hour(s@),
            ts_minute(s@),
        ) {
            Some(u) => if instant_in_range(u) {
                r == Ok::<i64, EnergyError>(u as i64)
            } else {
                r == Err::<i64, EnergyError>(EnergyError::AmbiguousOrInvalidTimestamp)
            },
            None => r == Err::<i64, EnergyError>(EnergyError::AmbiguousOrInvalidTimestamp),
        },
{
    if s.len() != 16 {
        return Err(EnergyError::MalformedInput);
    }
    let mut i: usize = 0;
    while i < 16
        invariant
            i <= 16,
            s@.len() == 16,
            forall|j: int|
                0 <= j < i && j != 2 && j != 5 && j != 10 && j != 13 ==> is_ascii_digit(s@[j]),
        decreases 16 - i,
    {
        if i == 2 || i == 5 || i == 10 || i == 13 {
        } else {
            let d = s[i];
            if d < 48 || d > 57 {
                return Err(EnergyError::MalformedInput);
            }
        }
        i = i + 1;
    }
    if s[2] != 46 || s[5] != 46 || s[10] != 32 || s[13] != 58 {
        return Err(EnergyError::MalformedInput);
    }
    let day = digit_pair(s[0], s[1]);
    let month = digit_pair(s[3], s[4]);
    let year = digit_pair(s[6], s[7]) * 100 + digit_pair(s[8], s[9]);
    let hour = digit_pair(s[11], s[12]);
    let minute = digit_pair(s[14], s[15]);
    if day < 1 || day > 31 || month < 1 || month > 12 || hour > 23 || minute > 59 {
        return Err(EnergyError::MalformedInput);
    }
    let resolved = resolve_helsinki_local(year as i32, month, day, hour, minute);
    let utc = match resolved {
        LocalResolution::Invalid => {
            return Err(EnergyError::AmbiguousOrInvalidTimestamp);
        },
        LocalResolution::Single(u) => u,
        LocalResolution::Ambiguous(_a, _b) => {
            // Daylight-saving fold: resolve heuristically by calendar month
            // against the wall-clock time shifted by one hour.
            if month > 6 {
                if hour < 23 {
                    match resolve_helsinki_local(year as i32, month, day, hour + 1, minute) {
                        LocalResolution::Single(u) => u,
                        _ => {
                            return Err(EnergyError::AmbiguousOrInvalidTimestamp);
                        },
                    }
                } else {
                    return Err(EnergyError::AmbiguousOrInvalidTimestamp);
                }
            } else {
                if hour > 0 {
                    match resolve_helsinki_local(year as i32, month, day, hour - 1, minute) {
                        LocalResolution::Single(u) => u,
                        _ => {
                            return Err(EnergyError::AmbiguousOrInvalidTimestamp);
                        },
                    }
                } else {
                    return Err(EnergyError::AmbiguousOrInvalidTimestamp);
                }
            }
        },
    };
    if utc < -MAX_INSTANT || utc > MAX_INSTANT {
        return Err(EnergyError::AmbiguousOrInvalidTimestamp);
    }
    Ok(utc)
}

/// Normalize a raw Fingrid row: the instant is already UTC; the energy
/// string must be a decimal-comma literal under the five-fraction-digit
/// format. Malformed rows fail the whole batch.
pub fn normalize_fingrid(row: &FingridRawRow) -> (r: Result<CanonicalRecord, EnergyError>)
    ensures
        !instant_in_range(row.instant as int) ==> r == Err::<CanonicalRecord, EnergyError>(
            EnergyError::MalformedInput,
        ),
        instant_in_range(row.instant as int) && !valid_decimal_comma(
            row.energy@,
            FINGRID_FRAC_DIGITS as int,
        ) ==> r == Err::<CanonicalRecord, EnergyError>(EnergyError::MalformedInput),
        instant_in_range(row.instant as int) && valid_decimal_comma(
            row.energy@,
            FINGRID_FRAC_DIGITS as int,
        ) ==> (r matches Ok(c) && c.resolution == row.resolution && c.instant == row.instant
            && c.energy == decimal_comma_val(row.energy@) && c.temperature == None::<i64>
            && c.wf()),
{
    if row.instant < -MAX_INSTANT || row.instant > MAX_INSTANT {
        return Err(EnergyError::MalformedInput);
    }
    let energy = from_decimal_comma(row.energy.as_slice(), FINGRID_FRAC_DIGITS)?;
    Ok(
        CanonicalRecord {
            resolution: row.resolution,
            instant: row.instant,
            energy,
            temperature: None,
        },
    )
}

/// Normalize a raw Oomi row: resolve the local Helsinki timestamp to UTC
/// (with the documented daylight-saving heuristic), parse the energy under
/// the two-fraction-digit format, and keep a parsable temperature. An
/// unparsable temperature is dropped, not an error; everything else
/// malformed fails the whole batch.
pub fn normalize_oomi(row: &OomiRawRow) -> (r: Result<CanonicalRecord, EnergyError>)
    ensures
        !valid_local_timestamp(row.timestamp@) ==> r == Err::<CanonicalRecord, EnergyError>(
            EnergyError::MalformedInput,
        ),
        valid_local_timestamp(row.timestamp@) ==> match resolved_local_instant(
            ts_year(row.timestamp@),
            ts_month(row.timestamp@),
            ts_day(row.timestamp@),
            ts_hour(row.timestamp@),
            ts_minute(row.timestamp@),
        ) {
            None => r == Err::<CanonicalRecord, EnergyError>(
                EnergyError::AmbiguousOrInvalidTimestamp,
            ),
            Some(u) => if !instant_in_range(u) {
                r == Err::<CanonicalRecord, EnergyError>(EnergyError::AmbiguousOrInvalidTimestamp)
            } else if !valid_decimal_comma(row.energy@, OOMI_FRAC_DIGITS as int) {
                r == Err::<CanonicalRecord, EnergyError>(EnergyError::MalformedInput)
            } else {
                r matches Ok(c) && c.resolution == row.resolution && c.instant == u && c.energy
                    == decimal_comma_val(row.energy@) && c.temperature == oomi_temperature_spec(
                    row.temperature,
                ) && c.wf()
            },
        },
{
    let instant = local_timestamp_to_utc(row.timestamp.as_slice())?;
    let energy = from_decimal_comma(row.energy.as_slice(), OOMI_FRAC_DIGITS)?;
    let temperature = match &row.temperature {
        Some(t) => from_signed_decimal_comma(t.as_slice(), SCALE_DIGITS as usize),
        None => None,
    };
    Ok(CanonicalRecord { resolution: row.resolution, instant, energy, temperature })
}

/// The temperature a normalized Oomi row carries: the value of a parsable
/// decimal-comma temperature column, nothing otherwise.
pub open spec fn oomi_temperature_spec(t: Option<Vec<u8>>) -> Option<i64> {
    match t {
        Some(bytes) => if valid_signed_decimal_comma(bytes@, SCALE_DIGITS as int) {
            Some(signed_decimal_comma_val(bytes@) as i64)
        } else {
            None
        },
        None => None,
    }
}

/// Capability contract of a source format: how one of its raw rows becomes a
/// canonical record. One implementation per source format, selected at the
/// ingestion boundary.
pub trait EnergyParser<R> {
    fn parse_row(row: &R) -> Result<CanonicalRecord, EnergyError>;
}

/// Normalizer carrier, one instantiation per raw-row shape.
pub struct Parser<R> {
    _marker: core::marker::PhantomData<R>,
}

impl EnergyParser<FingridRawRow> for Parser<FingridRawRow> {
    fn parse_row(row: &FingridRawRow) -> Result<CanonicalRecord, EnergyError> {
        normalize_fingrid(row)
    }
}

impl EnergyParser<OomiRawRow> for Parser<OomiRawRow> {
    fn parse_row(row: &OomiRawRow) -> Result<CanonicalRecord, EnergyError> {
        normalize_oomi(row)
    }
}

} // verus!
