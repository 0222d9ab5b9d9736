//! Records of activity in wall clock time.

use vstd::prelude::*;

use crate::server::Stamp;

verus! {

/// The first point in time that there is a date for, in microseconds since 1970.
pub const FIRST_US: i64 = -8_334_601_228_800_000_000;

/// The first point in time that there is no date for any more.
pub const END_US: i64 = 8_210_266_876_800_000_000;

/// The date and time at a number of microseconds since 1970, as that number again.
///
/// Calls `chrono::DateTime::from_timestamp_micros`, and `timestamp_micros` on what it
/// gives. Dates run from the first day of the year -262143 to the last day of the year
/// 262142; outside that there is none, and within it the number comes back unchanged.
#[verifier::external_body]
fn dated(us: i64) -> (r: Option<i64>)
    ensures
        r == if FIRST_US <= us < END_US {
            Some(us)
        } else {
            None
        },
{
    chrono::DateTime::from_timestamp_micros(us).map(|t| t.timestamp_micros())
}

/// The microseconds in a stamp, counted on from an offset.
pub open spec fn real_us(offset_us: int, s: Stamp) -> int {
    s.seconds * 1_000_000 + s.microseconds + offset_us
}

/// Whether the wall clock time of a stamp can be computed and has a date.
pub open spec fn has_date(offset_us: int, s: Stamp) -> bool {
    &&& i64::MIN <= s.seconds * 1_000_000 <= i64::MAX
    &&& i64::MIN <= s.seconds * 1_000_000 + s.microseconds <= i64::MAX
    &&& FIRST_US <= real_us(offset_us, s) < END_US
}

/// The wall clock time of a stamp, if it has a date.
pub fn to_real(offset_us: i64, s: Stamp) -> (us: Option<i64>)
    ensures
        us == if has_date(offset_us as int, s) {
            Some(real_us(offset_us as int, s) as i64)
        } else {
            None
        },
{
    let whole: i64 = match s.seconds.checked_mul(1_000_000) {
        Some(v) => v,
        None => {
            return None;
        },
    };
    let exact: i64 = match whole.checked_add(s.microseconds as i64) {
        Some(v) => v,
        None => {
            return None;
        },
    };
    match exact.checked_add(offset_us) {
        Some(us) => dated(us),
        None => None,
    }
}

/// The wall clock time of a stamp.
pub fn mono_to_real(offset_us: i64, s: Stamp) -> (us: i64)
    requires
        has_date(offset_us as int, s),
    ensures
        us == real_us(offset_us as int, s),
{
    to_real(offset_us, s).unwrap()
}

/// What is recorded of a message, in microseconds since 1970.
pub struct LogRecord {
    pub collected_at_us: i64,
    pub rpc_at_us: i64,
    pub readings_us: Vec<i64>,
}

/// Whether all the points in time of a message have dates.
pub open spec fn recordable(collected_at: Stamp, offset_us: int, readings: Seq<Stamp>) -> bool {
    &&& i64::MIN <= offset_us <= i64::MAX
    &&& has_date(offset_us, collected_at)
    &&& forall|i: int| 0 <= i < readings.len() ==> has_date(offset_us, #[trigger] readings[i])
}

/// Whether all the points in time of a message that came at `rpc_at_us`, when the
/// monotonic clock stood at `mono_us`, have dates.
pub fn can_record(collected_at: Stamp, rpc_at_us: i64, mono_us: i64, readings: &[Stamp]) -> (yes:
    bool)
    ensures
        yes == recordable(collected_at, rpc_at_us - mono_us, readings@),
{
    let offset_us: i64 = match rpc_at_us.checked_sub(mono_us) {
        Some(v) => v,
        None => {
            return false;
        },
    };
    if to_real(offset_us, collected_at).is_none() {
        return false;
    }
    let mut i: usize = 0;
    while i < readings.len()
        invariant
            i <= readings.len(),
            offset_us == rpc_at_us - mono_us,
            forall|j: int| 0 <= j < i ==> has_date(offset_us as int, #[trigger] readings@[j]),
        decreases readings.len() - i,
    {
        if to_real(offset_us, readings[i]).is_none() {
            assert(!has_date(offset_us as int, readings@[i as int]));
            return false;
        }
        i = i + 1;
    }
    true
}

/// The record of a message that came at `rpc_at_us`, when the monotonic clock stood at
/// `mono_us`.
pub fn log_record(collected_at: Stamp, rpc_at_us: i64, mono_us: i64, readings: &[Stamp]) -> (r:
    LogRecord)
    requires
        recordable(collected_at, rpc_at_us - mono_us, readings@),
    ensures
        r.collected_at_us == real_us(rpc_at_us - mono_us, collected_at),
        r.rpc_at_us == rpc_at_us,
        r.readings_us@ == readings@.map_values(
            |s: Stamp| real_us(rpc_at_us - mono_us, s) as i64,
        ),
{
    let offset_us: i64 = rpc_at_us - mono_us;
    let mut readings_us: Vec<i64> = Vec::new();
    let mut i: usize = 0;
    while i < readings.len()
        invariant
            i <= readings.len(),
            offset_us == rpc_at_us - mono_us,
            recordable(collected_at, offset_us as int, readings@),
            readings_us@.len() == i,
            forall|j: int|
                0 <= j < i ==> #[trigger] readings_us@[j] == real_us(
                    offset_us as int,
                    readings@[j],
                ),
        decreases readings.len() - i,
    {
        readings_us.push(mono_to_real(offset_us, readings[i]));
        i = i + 1;
    }
    assert(readings_us@ =~= readings@.map_values(
        |s: Stamp| real_us(rpc_at_us - mono_us, s) as i64,
    ));
    LogRecord {
        collected_at_us: mono_to_real(offset_us, collected_at),
        rpc_at_us,
        readings_us,
    }
}

/// What is recorded of a time since the start of the monotonic clock is that time, moved
/// by the offset between the clocks.
pub proof fn law_record_moves_times_by_the_offset(us: i64, offset_us: int)
    requires
        us >= 0,
    ensures
        real_us(offset_us, crate::server::stamp(us as int)) == us + offset_us,
{
}

/// The wall clock time of a stamp is a million times its seconds, its microseconds and the
/// offset.
pub proof fn law_wall_clock_time_of_a_stamp(offset_us: int, s: Stamp)
    ensures
        real_us(offset_us, s) == 1_000_000 * s.seconds + s.microseconds + offset_us,
{
}

/// A time since the start of the monotonic clock has a date if and only if, moved by the
/// offset, it lies in a year from -262143 to 262142.
pub proof fn law_which_times_have_dates(us: i64, offset_us: int)
    requires
        us >= 0,
    ensures
        has_date(offset_us, crate::server::stamp(us as int)) <==> -8_334_601_228_800_000_000 <= us
            + offset_us < 8_210_266_876_800_000_000,
{
}

/// A message can be recorded if and only if the offset between the clocks fits 64 bits, and
/// the time of collecting and all the readings have dates.
pub proof fn law_which_messages_can_be_recorded(
    collected_at: Stamp,
    offset_us: int,
    readings: Seq<Stamp>,
)
    ensures
        recordable(collected_at, offset_us, readings) <==> {
            &&& -0x8000_0000_0000_0000 <= offset_us <= 0x7fff_ffff_ffff_ffff
            &&& has_date(offset_us, collected_at)
            &&& forall|i: int| 0 <= i < readings.len() ==> has_date(offset_us, #[trigger] readings[i])
        },
{
}

} // verus!
