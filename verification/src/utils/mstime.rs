//! Packed timestamps of file-listing entries.
use vstd::prelude::*;

verus! {

/// The packed form of a calendar time: bits 25-31 year since 1980, 21-24 month, 16-20 day,
/// 11-15 hour, 5-10 minute, 0-4 second. Packages mask the year with 0xEF.
pub open spec fn ms_timestamp(
    year: u32,
    month: u32,
    day: u32,
    hours: u32,
    minutes: u32,
    seconds: u32,
) -> u32 {
    let years = if year >= 1980 {
        (year - 1980) as u32
    } else {
        (year + 0x1_0000_0000 - 1980) as u32
    };
    ((years & 0xEF) << 25) | ((month & 0xF) << 21) | ((day & 0x1F) << 16) | ((hours & 0x1F) << 11)
        | ((minutes & 0x3F) << 5) | (seconds & 0x1F)
}

/// Packs a calendar time; `month` counts from 1.
pub fn pack_ms_timestamp(
    year: u32,
    month: u32,
    day: u32,
    hours: u32,
    minutes: u32,
    seconds: u32,
) -> (r: u32)
    ensures
        r == ms_timestamp(year, month, day, hours, minutes, seconds),
{
    let years: u32 = year.wrapping_sub(1980) & 0xEF;
    (years << 25) | ((month & 0xF) << 21) | ((day & 0x1F) << 16) | ((hours & 0x1F) << 11) | ((minutes
        & 0x3F) << 5) | (seconds & 0x1F)
}

/// The seconds, minutes, hours and day of a packed time read back from its bits.
pub proof fn ms_timestamp_fields(
    year: u32,
    month: u32,
    day: u32,
    hours: u32,
    minutes: u32,
    seconds: u32,
)
    requires
        1 <= month <= 12,
        1 <= day <= 31,
        hours < 24,
        minutes < 60,
        seconds < 32,
    ensures
        ({
            let t = ms_timestamp(year, month, day, hours, minutes, seconds);
            &&& t & 0x1F == seconds
            &&& (t >> 5) & 0x3F == minutes
            &&& (t >> 11) & 0x1F == hours
            &&& (t >> 16) & 0x1F == day
            &&& (t >> 21) & 0xF == month
        }),
{
    let years = if year >= 1980 {
        (year - 1980) as u32
    } else {
        (year + 0x1_0000_0000 - 1980) as u32
    };
    let t = ms_timestamp(year, month, day, hours, minutes, seconds);
    assert({
        &&& t & 0x1F == seconds
        &&& (t >> 5) & 0x3F == minutes
        &&& (t >> 11) & 0x1F == hours
        &&& (t >> 16) & 0x1F == day
        &&& (t >> 21) & 0xF == month
    }) by (bit_vector)
        requires
            t == ((years & 0xEF) << 25) | ((month & 0xF) << 21) | ((day & 0x1F) << 16) | ((hours
                & 0x1F) << 11) | ((minutes & 0x3F) << 5) | (seconds & 0x1F),
            month <= 12,
            day <= 31,
            hours < 24,
            minutes < 60,
            seconds < 32,
    ;
}

/// The top seven bits of a packed time hold the years since 1980, without the bit of 16. Of every
/// other field the bits count that it has room for, whatever it is.
pub proof fn ms_timestamp_years(
    year: u32,
    month: u32,
    day: u32,
    hours: u32,
    minutes: u32,
    seconds: u32,
)
    requires
        year >= 1980,
    ensures
        ({
            let t = ms_timestamp(year, month, day, hours, minutes, seconds);
            &&& t >> 25 == (year - 1980) as u32 & 0x6F
            &&& t & 0x1F == seconds & 0x1F
            &&& (t >> 5) & 0x3F == minutes & 0x3F
            &&& (t >> 11) & 0x1F == hours & 0x1F
            &&& (t >> 16) & 0x1F == day & 0x1F
            &&& (t >> 21) & 0xF == month & 0xF
        }),
{
    let years = (year - 1980) as u32;
    let t = ms_timestamp(year, month, day, hours, minutes, seconds);
    assert({
        &&& t >> 25 == years & 0x6F
        &&& t & 0x1F == seconds & 0x1F
        &&& (t >> 5) & 0x3F == minutes & 0x3F
        &&& (t >> 11) & 0x1F == hours & 0x1F
        &&& (t >> 16) & 0x1F == day & 0x1F
        &&& (t >> 21) & 0xF == month & 0xF
    }) by (bit_vector)
        requires
            t == ((years & 0xEF) << 25) | ((month & 0xF) << 21) | ((day & 0x1F) << 16) | ((hours
                & 0x1F) << 11) | ((minutes & 0x3F) << 5) | (seconds & 0x1F),
    ;
}

} // verus!
