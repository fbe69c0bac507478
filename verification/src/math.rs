//! Integer math functions and the runtime's pseudo-random number generator.

use vstd::prelude::*;

verus! {

/// Absolute value (PHP `abs` on integers).
pub fn rt_abs(n: i64) -> (r: i64)
    requires
        n != i64::MIN,
    ensures
        r == (if n < 0 { -n } else { n as int }),
{
    if n < 0 {
        -n
    } else {
        n
    }
}

/// The smaller of two integers (PHP `min`).
pub fn rt_min(a: i64, b: i64) -> (r: i64)
    ensures
        r == (if a <= b { a } else { b }),
{
    if a <= b {
        a
    } else {
        b
    }
}

/// The larger of two integers (PHP `max`).
pub fn rt_max(a: i64, b: i64) -> (r: i64)
    ensures
        r == (if a >= b { a } else { b }),
{
    if a >= b {
        a
    } else {
        b
    }
}

/// The generator's state at start.
pub const RNG_START: u64 = 0x853c49e6748fea9b;

/// Multiplier applied to the state to give an output.
pub const RNG_MULTIPLIER: u64 = 0x2545f4914f6cdd1d;

/// One xorshift step of the state.
pub open spec fn xorshift(s: u64) -> u64 {
    let a = s ^ (s >> 12u64);
    let b = a ^ (a << 25u64);
    b ^ (b >> 27u64)
}

/// The number given out for a state: the state times the multiplier (modulo 2^64),
/// halved.
pub open spec fn rand_output(s: u64) -> i64 {
    ((((s as int) * (RNG_MULTIPLIER as int)) % 0x1_0000_0000_0000_0000int) as u64 >> 1u64) as i64
}

/// A xorshift pseudo-random number generator.
#[derive(Debug, Clone, Copy)]
pub struct Rng {
    pub state: u64,
}

impl Rng {
    /// A generator at the start state.
    pub fn new() -> (r: Self)
        ensures
            r.state == RNG_START,
    {
        Rng { state: RNG_START }
    }

    /// Seeds the generator (PHP `srand`); a zero seed counts as one.
    pub fn seed(&mut self, seed: u64)
        ensures
            final(self).state == (if seed == 0 { 1 } else { seed }),
    {
        self.state = if seed == 0 { 1 } else { seed };
    }

    /// The next number, never negative (PHP `rand`).
    pub fn next(&mut self) -> (r: i64)
        ensures
            final(self).state == xorshift(old(self).state),
            r == rand_output(final(self).state),
            r >= 0,
    {
        let mut s = self.state;
        s = s ^ (s >> 12u64);
        s = s ^ (s << 25u64);
        s = s ^ (s >> 27u64);
        self.state = s;
        let m = s.wrapping_mul(RNG_MULTIPLIER);
        let h = m >> 1u64;
        assert(h >> 63u64 == 0) by (bit_vector)
            requires
                h == m >> 1u64,
        ;
        assert(h <= i64::MAX) by (bit_vector)
            requires
                h >> 63u64 == 0,
        ;
        h as i64
    }

    /// A number from `min` to `max` inclusive (PHP `rand(min, max)`): the next number
    /// modulo the size of the range, above `min`; just `min`, drawing nothing, when the
    /// range is empty or a single number.
    pub fn range(&mut self, min: i64, max: i64) -> (r: i64)
        requires
            min >= max || max - min < i64::MAX,
        ensures
            min >= max ==> r == min && final(self).state == old(self).state,
            min < max ==> {
                &&& final(self).state == xorshift(old(self).state)
                &&& r == min + ((rand_output(final(self).state) as u64) % ((max - min + 1) as u64))
                &&& min <= r <= max
            },
    {
        if min >= max {
            return min;
        }
        let range = (max - min + 1) as u64;
        let x = self.next() as u64;
        let off = x % range;
        min + off as i64
    }
}

} // verus!
