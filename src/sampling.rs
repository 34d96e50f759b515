use vstd::prelude::*;

verus! {

/// Nanoseconds in one second.
pub const NANOS_PER_SEC: u32 = 1_000_000_000;

/// A position on the sample clock.
#[derive(Clone, Copy, Debug, PartialEq, Eq, Structural)]
pub struct SampleIdx(pub usize);

/// A wall-clock offset: whole seconds plus a sub-second part in nanoseconds.
#[derive(Clone, Copy, Debug, PartialEq, Eq, Structural)]
pub struct Time {
    pub secs: u64,
    pub nanos: u32,
}

impl Time {
    /// The offset as a rational number of seconds, scaled by one billion.
    pub open spec fn total_nanos(self) -> int {
        self.secs * NANOS_PER_SEC + self.nanos
    }

    /// `secs` seconds plus `nanos` nanoseconds; nanoseconds past a full second
    /// carry into the seconds.
    pub fn new(secs: u64, nanos: u32) -> (t: Time)
        requires
            secs + nanos / NANOS_PER_SEC <= u64::MAX,
        ensures
            t.nanos < NANOS_PER_SEC,
            t.total_nanos() == secs * NANOS_PER_SEC + nanos,
    {
        let carry = nanos / NANOS_PER_SEC;
        let t = Time { secs: secs + carry as u64, nanos: nanos % NANOS_PER_SEC };
        assert(t.total_nanos() == secs * NANOS_PER_SEC + nanos) by (nonlinear_arith)
            requires
                t.secs == secs + carry,
                t.nanos == nanos % NANOS_PER_SEC,
                carry == nanos / NANOS_PER_SEC,
                NANOS_PER_SEC == 1_000_000_000u32,
        ;
        t
    }

    /// A whole number of seconds.
    pub fn from_secs(secs: u64) -> (t: Time)
        ensures
            t.nanos == 0,
            t.secs == secs,
    {
        Time { secs, nanos: 0 }
    }
}

/// Samples per second.
#[derive(Clone, Copy, Debug, PartialEq, Eq, Structural)]
pub struct SamplingRate(pub u32);

/// The sample index at `t` on a clock of `rate` samples per second:
/// `floor(rate * t)`, capped at the largest index.
pub open spec fn index_at(rate: u32, t: Time) -> int {
    let exact = (rate * t.total_nanos()) / (NANOS_PER_SEC as int);
    if exact <= usize::MAX {
        exact
    } else {
        usize::MAX as int
    }
}

impl SamplingRate {
    /// A clock of `hz` samples per second.
    pub fn new(hz: u32) -> (r: SamplingRate)
        ensures
            r.0 == hz,
    {
        SamplingRate(hz)
    }

    /// The sample index whose wall-clock offset is the nearest at or below `time`.
    pub fn from_time(&self, time: Time) -> (idx: SampleIdx)
        ensures
            idx.0 == index_at(self.0, time),
    {
        let rate = self.0 as u128;
        let secs = time.secs as u128;
        let nanos = time.nanos as u128;
        proof {
            assert(rate * secs <= 0xffff_ffff * 0xffff_ffff_ffff_ffffu128) by (nonlinear_arith)
                requires
                    rate <= 0xffff_ffff,
                    secs <= 0xffff_ffff_ffff_ffffu128,
            ;
            assert(rate * nanos <= 0xffff_ffff * 0xffff_ffff) by (nonlinear_arith)
                requires
                    rate <= 0xffff_ffff,
                    nanos <= 0xffff_ffff,
            ;
            assert(rate * secs * 1_000_000_000 <= 0xffff_ffff * 0xffff_ffff_ffff_ffffu128
                * 1_000_000_000) by (nonlinear_arith)
                requires
                    rate * secs <= 0xffff_ffff * 0xffff_ffff_ffff_ffffu128,
            ;
        }
        let scaled: u128 = rate * secs * (NANOS_PER_SEC as u128) + rate * nanos;
        let whole: u128 = scaled / NANOS_PER_SEC as u128;
        proof {
            assert(scaled == self.0 * time.total_nanos()) by (nonlinear_arith)
                requires
                    scaled == self.0 * time.secs * NANOS_PER_SEC + self.0 * time.nanos,
            ;
        }
        if whole <= usize::MAX as u128 {
            SampleIdx(whole as usize)
        } else {
            SampleIdx(usize::MAX)
        }
    }
}

} // verus!
