//! When the notifier checks: time windows, days and the jittered interval.

use std::collections::hash_map::{DefaultHasher, RandomState};
use std::hash::{BuildHasher, Hasher};

use vstd::prelude::*;

verus! {

/// Whether time of day `a` is not later than `b`; a time is (seconds since
/// midnight, nanoseconds), ordered like `chrono::NaiveTime`.
pub open spec fn time_le(a: (u32, u32), b: (u32, u32)) -> bool {
    a.0 < b.0 || (a.0 == b.0 && a.1 <= b.1)
}

fn time_before_or_at(a: (u32, u32), b: (u32, u32)) -> (r: bool)
    ensures
        r == time_le(a, b),
{
    a.0 < b.0 || (a.0 == b.0 && a.1 <= b.1)
}

/// Whether `now` falls inside `window`: no window means always, and a window
/// whose start is after its end wraps past midnight.
pub open spec fn in_window(window: Option<((u32, u32), (u32, u32))>, now: (u32, u32)) -> bool {
    match window {
        None => true,
        Some((start, end)) => if time_le(start, end) {
            time_le(start, now) && !time_le(end, now)
        } else {
            time_le(start, now) || !time_le(end, now)
        },
    }
}

/// Whether the local time of day `now` falls inside `window` (start included,
/// end excluded).
pub fn in_check_window(window: Option<((u32, u32), (u32, u32))>, now: (u32, u32)) -> (r: bool)
    ensures
        r == in_window(window, now),
{
    match window {
        None => true,
        Some((start, end)) => {
            if time_before_or_at(start, end) {
                time_before_or_at(start, now) && !time_before_or_at(end, now)
            } else {
                time_before_or_at(start, now) || !time_before_or_at(end, now)
            }
        },
    }
}

/// Whether `day` (days from Monday) is one of `days`, both ends included: no
/// days means every day, and a first day after the last wraps past Sunday.
pub open spec fn on_day(days: Option<(u32, u32)>, day: u32) -> bool {
    match days {
        None => true,
        Some((first, last)) => if first <= last {
            first <= day <= last
        } else {
            day >= first || day <= last
        },
    }
}

/// Whether the local weekday `day` (days from Monday) is a check day.
pub fn on_check_day(days: Option<(u32, u32)>, day: u32) -> (r: bool)
    ensures
        r == on_day(days, day),
{
    match days {
        None => true,
        Some((first, last)) => {
            if first <= last {
                day >= first && day <= last
            } else {
                day >= first || day <= last
            }
        },
    }
}

/// The largest `Duration`, in nanoseconds.
pub open spec fn max_duration_nanos() -> int {
    u64::MAX * 1_000_000_000 + 999_999_999
}

/// The number of nanoseconds that a random `u64` picks from `[0, max]`: the
/// remainder modulo one more than `max` cut to 64 bits, as `max.as_nanos() as
/// u64 + 1` does.
pub open spec fn random_pick(random: u64, max: u128) -> int {
    if max == 0 {
        0
    } else {
        (random as int) % ((max as int) % 0x1_0000_0000_0000_0000int + 1)
    }
}

/// Whether `max` nanoseconds can be drawn from: cut to 64 bits, one more
/// must still fit.
pub open spec fn drawable(max: u128) -> bool {
    max == 0 || (max as int) % 0x1_0000_0000_0000_0000int < u64::MAX
}

/// The duration of at most `max` nanoseconds that `random` picks.
pub fn duration_from_random(random: u64, max: u128) -> (r: u128)
    requires
        drawable(max),
    ensures
        r == random_pick(random, max),
        r <= max,
{
    if max == 0 {
        return 0;
    }
    let low = (max % 0x1_0000_0000_0000_0000u128) as u64;
    (random % (low + 1)) as u128
}

/// std's `RandomState::new`: hash keys drawn at random for this process.
/// Nothing is claimed of it.
#[verifier::external_body]
fn new_random_state() -> RandomState {
    RandomState::new()
}

/// std's `BuildHasher::build_hasher` on a `RandomState`: a hasher seeded with
/// its random keys. Nothing is claimed of it.
#[verifier::external_body]
fn seeded_hasher(state: &RandomState) -> DefaultHasher {
    state.build_hasher()
}

/// std's `Hasher::finish` on a hasher seeded at random: a random number.
/// Nothing is claimed of it.
#[verifier::external_body]
fn random_number(hasher: &DefaultHasher) -> u64 {
    hasher.finish()
}

/// A random duration in `[0, max]` nanoseconds, seeded from `RandomState`'s
/// per-process random keys (the same source `HashMap` uses).
pub fn random_duration_up_to(max: u128) -> (r: u128)
    requires
        drawable(max),
    ensures
        r <= max,
        exists|random: u64| r == #[trigger] random_pick(random, max),
{
    if max == 0 {
        assert(0 == random_pick(0, max));
        return 0;
    }
    let state = new_random_state();
    let hasher = seeded_hasher(&state);
    let random = random_number(&hasher);
    duration_from_random(random, max)
}

/// The base interval with its spread of a fifth on either side.
pub open spec fn jitter_bounds(base: u128) -> (int, int) {
    (base - base / 5, base - base / 5 + 2 * (base / 5))
}

/// Whether `base` nanoseconds can be jittered without leaving `Duration`.
pub open spec fn jitterable(base: u128) -> bool {
    &&& base <= max_duration_nanos()
    &&& drawable((2 * (base / 5)) as u128)
    &&& jitter_bounds(base).1 <= max_duration_nanos()
}

/// `base` nanoseconds randomised by up to ±20%, so checks don't land at a
/// perfectly predictable cadence, which is easy for Dualis to fingerprint as
/// a bot.
pub fn jittered(base: u128) -> (r: u128)
    requires
        jitterable(base),
    ensures
        jitter_bounds(base).0 <= r <= jitter_bounds(base).1,
        exists|random: u64|
            r == base - base / 5 + #[trigger] random_pick(random, (2 * (base / 5)) as u128),
{
    let spread = base / 5;
    base - spread + random_duration_up_to(spread * 2)
}

/// Whether `base` nanoseconds can be jittered without leaving `Duration`.
pub fn can_jitter(base: u128) -> (r: bool)
    ensures
        r == jitterable(base),
{
    let max: u128 = 18_446_744_073_709_551_615u128 * 1_000_000_000u128 + 999_999_999u128;
    if base > max {
        return false;
    }
    let spread = base / 5;
    let twice = spread * 2;
    let drawable_twice = twice == 0 || twice % 0x1_0000_0000_0000_0000u128 < 18_446_744_073_709_551_615u128;
    drawable_twice && base - spread + twice <= max
}

} // verus!
