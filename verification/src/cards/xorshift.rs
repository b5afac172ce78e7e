//! A small xorshift generator of pseudo-random numbers.

use std::time::{Duration, SystemTime, SystemTimeError, UNIX_EPOCH};
use vstd::prelude::*;

verus! {

/// The system clock's point in time, opaque to the verifier.
#[verifier::external_type_specification]
#[verifier::external_body]
pub struct ExSystemTime(SystemTime);

/// The error of a time difference that would be negative, opaque to the
/// verifier.
#[verifier::external_type_specification]
#[verifier::external_body]
pub struct ExSystemTimeError(SystemTimeError);

/// `SystemTime::now`: the current reading of the system clock. Nothing is
/// claimed of it.
#[verifier::external_body]
fn clock_now() -> SystemTime {
    SystemTime::now()
}

/// `SystemTime::duration_since` with `UNIX_EPOCH`: the time from the epoch
/// to `time`, or the error where `time` lies before the epoch. Nothing is
/// claimed of either.
#[verifier::external_body]
fn since_epoch(time: &SystemTime) -> Result<Duration, SystemTimeError> {
    time.duration_since(UNIX_EPOCH)
}

/// `Duration::as_nanos`: the whole nanoseconds of `span`. Nothing is claimed
/// of their number.
#[verifier::external_body]
fn whole_nanos(span: &Duration) -> u128 {
    span.as_nanos()
}

/// The state that follows `state`: three shifts, each folded back in with
/// exclusive or.
pub open spec fn scrambled(state: usize) -> usize {
    let first = state ^ (state << 13);
    let second = first ^ (first >> 17);
    second ^ (second << 5)
}

/// A xorshift generator.
#[derive(Debug, Copy, Clone)]
pub struct XorShift {
    state: usize,
}

impl View for XorShift {
    type V = usize;

    /// The generator's state, which is also the number it gave last.
    closed spec fn view(&self) -> usize {
        self.state
    }
}

impl XorShift {
    /// The generator whose state is `seed`.
    pub fn from_seed(seed: usize) -> (generator: Self)
        ensures
            generator@ == seed,
    {
        Self { state: seed }
    }

    /// A generator seeded from the system clock: `from_clock` on the
    /// nanoseconds since the epoch, or on nothing where the clock reads a
    /// time before the epoch. Which generator that is depends on the clock.
    pub fn new() -> Self {
        let reading = match since_epoch(&clock_now()) {
            Ok(span) => Some(whole_nanos(&span)),
            Err(_) => None,
        };
        Self::from_clock(reading)
    }

    /// The seed that a reading of the clock gives: the nanoseconds since the
    /// epoch, cut to the width of `usize`, and 1 where there is no reading.
    pub open spec fn clock_seed(reading: Option<u128>) -> usize {
        match reading {
            Some(nanos) => (nanos as int % (usize::MAX + 1)) as usize,
            None => 1,
        }
    }

    /// The generator that a reading of the clock gives.
    pub fn from_clock(reading: Option<u128>) -> (generator: Self)
        ensures
            generator@ == Self::clock_seed(reading),
    {
        match reading {
            Some(nanos) => {
                let width: u128 = usize::MAX as u128 + 1;
                Self::from_seed((nanos % width) as usize)
            },
            None => Self::from_seed(1),
        }
    }

    /// Moves the generator on and returns its new state.
    pub fn next(&mut self) -> (number: usize)
        ensures
            number == scrambled(old(self)@),
            final(self)@ == number,
    {
        let mut x = self.state;
        x ^= x << 13;
        x ^= x >> 17;
        x ^= x << 5;
        self.state = x;
        x
    }

    /// Moves the generator on and returns a number from `a` up to, but not
    /// including, `b`: `a` plus the new state reduced modulo `b - a`.
    pub fn gen_range(&mut self, a: usize, b: usize) -> (number: usize)
        requires
            a < b,
        ensures
            final(self)@ == scrambled(old(self)@),
            number == a + scrambled(old(self)@) % ((b - a) as usize),
            a <= number < b,
    {
        a + self.next() % (b - a)
    }
}

} // verus!
