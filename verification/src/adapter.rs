//! Dates, times, decimals and 128-bit identifiers: values of other
//! libraries that travel as plain numbers.
//!
//! A point in time is seconds and nanoseconds since the epoch, a date is
//! days since the epoch, a time of day is seconds since midnight and
//! nanoseconds, a decimal is mantissa and scale, an identifier is a 128-bit
//! number. Whether numbers read from the wire make such a value is asked of
//! the library that owns the type.

use bytes::{Bytes, BytesMut};
use vstd::prelude::*;
use crate::buffer::{get_u128_le, get_u8, put_u128_le, put_u8, remaining, unread, written};
use crate::codec::{Decoder, Encoder};
use crate::error::{EncoderError, Fault};
use crate::spec::lemma_skip_twice;
use crate::text::with_number;
use crate::varint::{lemma_parse_int_bounds, lemma_parse_uint_bounds};
use crate::le::{le_bytes, le_value};
use crate::model::{Datum, Mode};
use crate::spec::tail;
use crate::tag::{
    TAG_CHRONO_DATETIME, TAG_CHRONO_NAIVE_DATE, TAG_CHRONO_NAIVE_TIME, TAG_DECIMAL, TAG_NONE,
    TAG_UUID,
};
use crate::varint::{int_wire, parse_int, parse_uint, uint_wire};

verus! {

/// Whether `chrono` has a point in time for these seconds and nanoseconds
/// since the epoch.
pub uninterp spec fn valid_timestamp(seconds: i64, nanos: u32) -> bool;

/// `chrono::DateTime::from_timestamp`: whether there is a point in time for
/// these seconds and nanoseconds since the epoch. The answer depends on the
/// two numbers alone.
#[verifier::external_body]
pub(crate) fn timestamp_is_valid(seconds: i64, nanos: u32) -> (r: bool)
    ensures
        r == valid_timestamp(seconds, nanos),
{
    chrono::DateTime::from_timestamp(seconds, nanos).is_some()
}

/// Whether `chrono` has the date that lies `days` days after the epoch,
/// 1970-01-01.
pub uninterp spec fn epoch_day_exists(days: i32) -> bool;

/// `chrono::NaiveDate::from_epoch_days`: whether there is a date that many
/// days after 1970-01-01. The answer depends on the number alone.
#[verifier::external_body]
pub(crate) fn date_exists(days: i32) -> (r: bool)
    ensures
        r == epoch_day_exists(days),
{
    chrono::NaiveDate::from_epoch_days(days).is_some()
}

/// Whether there is a time of day for these seconds since midnight and
/// nanoseconds: before the end of the day, with the nanoseconds running
/// past one second only for a leap second, in the last second of a minute.
pub open spec fn valid_time(seconds: u32, nanos: u32) -> bool {
    seconds < 86_400 && nanos < 2_000_000_000 && (nanos < 1_000_000_000 || seconds % 60 == 59)
}

/// `chrono::NaiveTime::from_num_seconds_from_midnight_opt`: whether there is
/// a time of day for these seconds since midnight and nanoseconds.
#[verifier::external_body]
pub(crate) fn time_is_valid(seconds: u32, nanos: u32) -> (r: bool)
    ensures
        r == valid_time(seconds, nanos),
{
    chrono::NaiveTime::from_num_seconds_from_midnight_opt(seconds, nanos).is_some()
}

/// Whether there is a decimal with this mantissa and scale: at most 28
/// digits behind the point and a mantissa of at most 96 bits.
pub open spec fn valid_decimal(mantissa: i128, scale: u32) -> bool {
    scale <= 28 && -0xFFFF_FFFF_FFFF_FFFF_FFFF_FFFF <= mantissa <= 0xFFFF_FFFF_FFFF_FFFF_FFFF_FFFF
}

/// `rust_decimal::Decimal::try_from_i128_with_scale`: whether there is a
/// decimal with this mantissa and scale.
#[verifier::external_body]
pub(crate) fn decimal_is_valid(mantissa: i128, scale: u32) -> (r: bool)
    ensures
        r == valid_decimal(mantissa, scale),
{
    rust_decimal::Decimal::try_from_i128_with_scale(mantissa, scale).is_ok()
}

/// Whether there is a date `days` days after the epoch, 1970-01-01: the
/// number fits 32 bits and `chrono` has the date.
pub open spec fn valid_days(days: i64) -> bool {
    -0x8000_0000 <= days <= 0x7FFF_FFFF && epoch_day_exists(days as i32)
}

/// Whether there is a date `days` days after the epoch.
pub fn days_are_valid(days: i64) -> (r: bool)
    ensures
        r == valid_days(days),
{
    if days < -0x8000_0000 || days > 0x7FFF_FFFF {
        false
    } else {
        date_exists(days as i32)
    }
}

/// A tag, a signed number and an unsigned number.
pub open spec fn pair_wire(tag: u8, first: int, second: nat) -> Seq<u8> {
    seq![tag] + int_wire(first) + uint_wire(second)
}

/// A point in time: its tag, the seconds, the nanoseconds. In packed mode
/// the epoch itself is the tag of absence alone.
pub open spec fn datetime_wire(mode: Mode, seconds: i64, nanos: u32) -> Seq<u8> {
    if mode == Mode::Packed && seconds == 0 && nanos == 0 {
        seq![TAG_NONE]
    } else {
        pair_wire(TAG_CHRONO_DATETIME, seconds as int, nanos as nat)
    }
}

/// A calendar date: its tag and the days since the epoch.
pub open spec fn date_wire(days: i64) -> Seq<u8> {
    seq![TAG_CHRONO_NAIVE_DATE] + int_wire(days as int)
}

/// A time of day: its tag, the seconds since midnight, the nanoseconds.
pub open spec fn time_wire(seconds: u32, nanos: u32) -> Seq<u8> {
    pair_wire(TAG_CHRONO_NAIVE_TIME, seconds as int, nanos as nat)
}

/// A decimal: its tag, the mantissa, the scale.
pub open spec fn decimal_wire(mantissa: i128, scale: u32) -> Seq<u8> {
    pair_wire(TAG_DECIMAL, mantissa as int, scale as nat)
}

/// A 128-bit identifier: its tag and sixteen little-endian bytes. In packed
/// mode the identifier 0 is the tag of absence alone.
pub open spec fn uuid_wire(mode: Mode, id: u128) -> Seq<u8> {
    if mode == Mode::Packed && id == 0 {
        seq![TAG_NONE]
    } else {
        seq![TAG_UUID] + le_bytes(id as nat, 16)
    }
}

/// A signed number of `bits` bits and an unsigned number of 32 bits in a
/// row.
pub open spec fn parse_number_pair(s: Seq<u8>, bits: nat) -> Result<((int, nat), nat), Fault> {
    match parse_int(s, bits) {
        Err(f) => Err(f),
        Ok((first, n)) => match parse_uint(tail(s, n), 32) {
            Err(f) => Err(f),
            Ok((second, m)) => Ok(((first, second), n + m)),
        },
    }
}

/// Reading a point in time. The numbers must make one. In packed mode the
/// tag of absence is the epoch.
pub open spec fn parse_datetime(mode: Mode, s: Seq<u8>) -> Result<(Datum, nat), Fault> {
    if s.len() == 0 {
        Err(Fault::InsufficientData)
    } else if mode == Mode::Packed && s[0] == TAG_NONE {
        Ok((Datum::DateTime { seconds: 0, nanos: 0 }, 1nat))
    } else if s[0] != TAG_CHRONO_DATETIME {
        Err(Fault::Decode)
    } else {
        match parse_number_pair(s.skip(1), 64) {
            Err(f) => Err(f),
            Ok(((seconds, nanos), n)) => if valid_timestamp(seconds as i64, nanos as u32) {
                Ok((Datum::DateTime { seconds: seconds as i64, nanos: nanos as u32 }, n + 1))
            } else {
                Err(Fault::Decode)
            },
        }
    }
}

/// Reading a calendar date. The days must lead to one.
pub open spec fn parse_date(s: Seq<u8>) -> Result<(Datum, nat), Fault> {
    if s.len() == 0 {
        Err(Fault::InsufficientData)
    } else if s[0] != TAG_CHRONO_NAIVE_DATE {
        Err(Fault::Decode)
    } else {
        match parse_int(s.skip(1), 64) {
            Err(f) => Err(f),
            Ok((days, n)) => if valid_days(days as i64) {
                Ok((Datum::Date { days: days as i64 }, n + 1))
            } else {
                Err(Fault::Decode)
            },
        }
    }
}

/// Reading a time of day. The numbers must make one.
pub open spec fn parse_time(s: Seq<u8>) -> Result<(Datum, nat), Fault> {
    if s.len() == 0 {
        Err(Fault::InsufficientData)
    } else if s[0] != TAG_CHRONO_NAIVE_TIME {
        Err(Fault::Decode)
    } else {
        match parse_uint(s.skip(1), 32) {
            Err(f) => Err(f),
            Ok((seconds, n)) => match parse_uint(tail(s.skip(1), n), 32) {
                Err(f) => Err(f),
                Ok((nanos, m)) => if valid_time(seconds as u32, nanos as u32) {
                    Ok((Datum::Time { seconds: seconds as u32, nanos: nanos as u32 }, n + m + 1))
                } else {
                    Err(Fault::Decode)
                },
            },
        }
    }
}

/// Reading a decimal. The numbers must make one.
pub open spec fn parse_decimal(s: Seq<u8>) -> Result<(Datum, nat), Fault> {
    if s.len() == 0 {
        Err(Fault::InsufficientData)
    } else if s[0] != TAG_DECIMAL {
        Err(Fault::Decode)
    } else {
        match parse_number_pair(s.skip(1), 128) {
            Err(f) => Err(f),
            Ok(((mantissa, scale), n)) => if valid_decimal(mantissa as i128, scale as u32) {
                Ok((Datum::Decimal { mantissa: mantissa as i128, scale: scale as u32 }, n + 1))
            } else {
                Err(Fault::Decode)
            },
        }
    }
}

/// Reading a 128-bit identifier. In packed mode the tag of absence is the
/// identifier 0.
pub open spec fn parse_uuid(mode: Mode, s: Seq<u8>) -> Result<(Datum, nat), Fault> {
    if s.len() == 0 {
        Err(Fault::InsufficientData)
    } else if mode == Mode::Packed && s[0] == TAG_NONE {
        Ok((Datum::Uuid(0), 1nat))
    } else if s[0] != TAG_UUID {
        Err(Fault::Decode)
    } else if s.len() < 17 {
        Err(Fault::InsufficientData)
    } else {
        Ok((Datum::Uuid(le_value(s.subrange(1, 17)) as u128), 17nat))
    }
}

/// Writes a tag, a signed number and an unsigned number.
fn write_pair(tag: u8, first: i128, second: u32, writer: &mut BytesMut)
    ensures
        written(*final(writer)) == written(*old(writer)) + pair_wire(
            tag,
            first as int,
            second as nat,
        ),
{
    put_u8(writer, tag);
    let _ = first.encode(writer);
    let _ = second.encode(writer);
    proof {
        assert(written(*writer) =~= written(*old(writer)) + pair_wire(
            tag,
            first as int,
            second as nat,
        ));
    }
}

/// Writes a point in time.
pub fn write_datetime(mode: Mode, seconds: i64, nanos: u32, writer: &mut BytesMut)
    ensures
        written(*final(writer)) == written(*old(writer)) + datetime_wire(mode, seconds, nanos),
{
    if mode == Mode::Packed && seconds == 0 && nanos == 0 {
        put_u8(writer, TAG_NONE);
    } else {
        write_pair(TAG_CHRONO_DATETIME, seconds as i128, nanos, writer);
    }
}

/// Writes a calendar date.
pub fn write_date(days: i64, writer: &mut BytesMut)
    ensures
        written(*final(writer)) == written(*old(writer)) + date_wire(days),
{
    put_u8(writer, TAG_CHRONO_NAIVE_DATE);
    let _ = days.encode(writer);
    proof {
        assert(written(*writer) =~= written(*old(writer)) + date_wire(days));
    }
}

/// Writes a time of day.
pub fn write_time(seconds: u32, nanos: u32, writer: &mut BytesMut)
    ensures
        written(*final(writer)) == written(*old(writer)) + time_wire(seconds, nanos),
{
    write_pair(TAG_CHRONO_NAIVE_TIME, seconds as i128, nanos, writer);
}

/// Writes a decimal.
pub fn write_decimal(mantissa: i128, scale: u32, writer: &mut BytesMut)
    ensures
        written(*final(writer)) == written(*old(writer)) + decimal_wire(mantissa, scale),
{
    write_pair(TAG_DECIMAL, mantissa, scale, writer);
}

/// Writes a 128-bit identifier.
pub fn write_uuid(mode: Mode, id: u128, writer: &mut BytesMut)
    ensures
        written(*final(writer)) == written(*old(writer)) + uuid_wire(mode, id),
{
    if mode == Mode::Packed && id == 0 {
        put_u8(writer, TAG_NONE);
    } else {
        put_u8(writer, TAG_UUID);
        put_u128_le(writer, id);
        proof {
            assert(written(*writer) =~= written(*old(writer)) + uuid_wire(mode, id));
        }
    }
}

/// Reads a signed number of 64 or 128 bits and an unsigned number of 32
/// bits.
fn read_number_pair(wide: bool, reader: &mut Bytes) -> (r: Result<(i128, u32), EncoderError>)
    ensures
        match parse_number_pair(
            unread(*old(reader)),
            if wide {
                128
            } else {
                64
            },
        ) {
            Ok(((first, second), n)) => r matches Ok(v) && v.0 == first && v.1 == second && n
                <= unread(*old(reader)).len() && unread(*final(reader)) == unread(
                *old(reader),
            ).skip(n as int) && (!wide ==> i64::MIN <= v.0 <= i64::MAX),
            Err(f) => r matches Err(e) && e@ == f,
        },
{
    let ghost s = unread(*reader);
    proof {
        lemma_parse_int_bounds(s, 64);
        lemma_parse_int_bounds(s, 128);
    }
    let first: i128 = if wide {
        match i128::decode(reader) {
            Ok(v) => v,
            Err(e) => {
                return Err(e);
            },
        }
    } else {
        match i64::decode(reader) {
            Ok(v) => v as i128,
            Err(e) => {
                return Err(e);
            },
        }
    };
    let ghost rest = unread(*reader);
    proof {
        lemma_parse_uint_bounds(rest, 32);
    }
    let second = match u32::decode(reader) {
        Ok(v) => v,
        Err(e) => {
            return Err(e);
        },
    };
    proof {
        let n = (s.len() - rest.len()) as nat;
        let m = (rest.len() - unread(*reader).len()) as nat;
        lemma_skip_twice(s, n, m);
    }
    Ok((first, second))
}

/// What reading a value made of numbers must have done.
pub open spec fn read_parts<T>(
    expected: Result<(Datum, nat), Fault>,
    before: Seq<u8>,
    after: Seq<u8>,
    r: Result<T, EncoderError>,
    make: spec_fn(T) -> Datum,
) -> bool {
    match expected {
        Ok((d, n)) => r matches Ok(v) && make(v) == d && n <= before.len() && after == before.skip(
            n as int,
        ),
        Err(f) => r matches Err(e) && e@ == f,
    }
}

/// Reads a point in time: seconds and nanoseconds since the epoch.
pub fn read_datetime(mode: Mode, reader: &mut Bytes) -> (r: Result<(i64, u32), EncoderError>)
    ensures
        read_parts(
            parse_datetime(mode, unread(*old(reader))),
            unread(*old(reader)),
            unread(*final(reader)),
            r,
            |v: (i64, u32)| Datum::DateTime { seconds: v.0, nanos: v.1 },
        ),
{
    if remaining(reader) == 0 {
        return Err(EncoderError::InsufficientData);
    }
    let ghost s = unread(*reader);
    let tag = get_u8(reader);
    if mode == Mode::Packed && tag == TAG_NONE {
        return Ok((0, 0));
    }
    if tag != TAG_CHRONO_DATETIME {
        return Err(
            EncoderError::Decode(with_number("Expected DateTime tag (197), got ", tag as u128)),
        );
    }
    let ghost rest = unread(*reader);
    let (seconds, nanos) = match read_number_pair(false, reader) {
        Ok(pair) => pair,
        Err(e) => {
            return Err(e);
        },
    };
    proof {
        let n = (rest.len() - unread(*reader).len()) as nat;
        lemma_skip_twice(s, 1, n);
    }
    if !timestamp_is_valid(seconds as i64, nanos) {
        return Err(EncoderError::Decode(with_number("Invalid timestamp nanoseconds: ", nanos as u128)));
    }
    Ok((seconds as i64, nanos))
}

/// Reads a calendar date: days since the epoch.
pub fn read_date(reader: &mut Bytes) -> (r: Result<i64, EncoderError>)
    ensures
        read_parts(
            parse_date(unread(*old(reader))),
            unread(*old(reader)),
            unread(*final(reader)),
            r,
            |v: i64| Datum::Date { days: v },
        ),
{
    if remaining(reader) == 0 {
        return Err(EncoderError::InsufficientData);
    }
    let ghost s = unread(*reader);
    let tag = get_u8(reader);
    if tag != TAG_CHRONO_NAIVE_DATE {
        return Err(
            EncoderError::Decode(with_number("Expected NaiveDate tag (198), got ", tag as u128)),
        );
    }
    let ghost rest = unread(*reader);
    proof {
        lemma_parse_int_bounds(rest, 64);
    }
    let days = match i64::decode(reader) {
        Ok(days) => days,
        Err(e) => {
            return Err(e);
        },
    };
    proof {
        let n = (rest.len() - unread(*reader).len()) as nat;
        lemma_skip_twice(s, 1, n);
    }
    if !days_are_valid(days) {
        return Err(EncoderError::Decode(String::from_str("Invalid days from epoch")));
    }
    Ok(days)
}

/// Reads a time of day: seconds since midnight and nanoseconds.
pub fn read_time(reader: &mut Bytes) -> (r: Result<(u32, u32), EncoderError>)
    ensures
        read_parts(
            parse_time(unread(*old(reader))),
            unread(*old(reader)),
            unread(*final(reader)),
            r,
            |v: (u32, u32)| Datum::Time { seconds: v.0, nanos: v.1 },
        ),
{
    if remaining(reader) == 0 {
        return Err(EncoderError::InsufficientData);
    }
    let ghost s = unread(*reader);
    let tag = get_u8(reader);
    if tag != TAG_CHRONO_NAIVE_TIME {
        return Err(
            EncoderError::Decode(with_number("Expected NaiveTime tag (199), got ", tag as u128)),
        );
    }
    let ghost rest = unread(*reader);
    proof {
        lemma_parse_uint_bounds(rest, 32);
    }
    let seconds = match u32::decode(reader) {
        Ok(v) => v,
        Err(e) => {
            return Err(e);
        },
    };
    let ghost mid = unread(*reader);
    proof {
        lemma_parse_uint_bounds(mid, 32);
    }
    let nanos = match u32::decode(reader) {
        Ok(v) => v,
        Err(e) => {
            return Err(e);
        },
    };
    proof {
        let n = (rest.len() - mid.len()) as nat;
        let m = (mid.len() - unread(*reader).len()) as nat;
        lemma_skip_twice(rest, n, m);
        lemma_skip_twice(s, 1, n + m);
    }
    if !time_is_valid(seconds, nanos) {
        return Err(
            EncoderError::Decode(with_number("Invalid seconds from midnight: ", seconds as u128)),
        );
    }
    Ok((seconds, nanos))
}

/// Reads a decimal: mantissa and scale.
pub fn read_decimal(reader: &mut Bytes) -> (r: Result<(i128, u32), EncoderError>)
    ensures
        read_parts(
            parse_decimal(unread(*old(reader))),
            unread(*old(reader)),
            unread(*final(reader)),
            r,
            |v: (i128, u32)| Datum::Decimal { mantissa: v.0, scale: v.1 },
        ),
{
    if remaining(reader) == 0 {
        return Err(EncoderError::InsufficientData);
    }
    let ghost s = unread(*reader);
    let tag = get_u8(reader);
    if tag != TAG_DECIMAL {
        return Err(
            EncoderError::Decode(with_number("Expected Decimal tag (200), got ", tag as u128)),
        );
    }
    let ghost rest = unread(*reader);
    let (mantissa, scale) = match read_number_pair(true, reader) {
        Ok(pair) => pair,
        Err(e) => {
            return Err(e);
        },
    };
    proof {
        let n = (rest.len() - unread(*reader).len()) as nat;
        lemma_skip_twice(s, 1, n);
    }
    if !decimal_is_valid(mantissa, scale) {
        return Err(EncoderError::Decode(with_number("Invalid decimal: scale=", scale as u128)));
    }
    Ok((mantissa, scale))
}

/// Reads a 128-bit identifier.
pub fn read_uuid(mode: Mode, reader: &mut Bytes) -> (r: Result<u128, EncoderError>)
    ensures
        read_parts(
            parse_uuid(mode, unread(*old(reader))),
            unread(*old(reader)),
            unread(*final(reader)),
            r,
            |v: u128| Datum::Uuid(v),
        ),
{
    if remaining(reader) == 0 {
        return Err(EncoderError::InsufficientData);
    }
    let ghost s = unread(*reader);
    let tag = get_u8(reader);
    if mode == Mode::Packed && tag == TAG_NONE {
        return Ok(0);
    }
    if tag != TAG_UUID {
        return Err(EncoderError::Decode(with_number("Expected UUID tag (201), got ", tag as u128)));
    }
    if remaining(reader) < 16 {
        return Err(EncoderError::InsufficientData);
    }
    let id = get_u128_le(reader);
    proof {
        assert(s.skip(1).take(16) =~= s.subrange(1, 17));
        lemma_skip_twice(s, 1, 16);
    }
    Ok(id)
}

} // verus!
