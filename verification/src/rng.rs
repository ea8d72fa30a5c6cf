//! Small, fast xorshift64* random numbers for world generation and the pixel simulation.
use vstd::prelude::*;

verus! {

/// The state used in place of a zero seed (xorshift never leaves zero).
pub const GOLDEN: u64 = 0x9E37_79B9_7F4A_7C15;
/// The output multiplier of xorshift64*.
pub const MULTIPLIER: u64 = 0x2545_F491_4F6C_DD1D;
/// Fallback entropy when the system clock lies before the epoch.
pub const CLOCK_FALLBACK: u64 = 0x1234_5678;

/// One xorshift step on the state.
pub open spec fn xorshift(x: u64) -> u64 {
    let a = x ^ (x >> 12u64);
    let b = a ^ (a << 25u64);
    b ^ (b >> 27u64)
}

/// The state after `n` xorshift steps.
pub open spec fn xorshift_n(x: u64, n: nat) -> u64
    decreases n,
{
    if n == 0 {
        x
    } else {
        xorshift(xorshift_n(x, (n - 1) as nat))
    }
}

/// The value drawn together with a step to `state`.
pub open spec fn output(state: u64) -> u64 {
    vstd::wrapping::u64_specs::wrapping_mul(state, MULTIPLIER)
}

/// The state of a generator seeded with `seed`.
pub open spec fn seeded(seed: u64) -> u64 {
    xorshift_n(if seed == 0 { GOLDEN } else { seed }, 4)
}

/// The state and value of `range_i32(lo, hi)` drawn from `state`.
pub open spec fn range_next(state: u64, lo: int, hi: int) -> (u64, int) {
    if hi <= lo {
        (state, lo)
    } else {
        (xorshift(state), lo + (output(xorshift(state)) % ((hi - lo + 1) as u64)) as int)
    }
}

/// The state and answer of `chance_below(threshold)` drawn from `state`.
pub open spec fn chance_next(state: u64, threshold: u32) -> (u64, bool) {
    (xorshift(state), (output(xorshift(state)) >> 40u64) < threshold)
}

/// The seed made from a clock reading: the reading (or `CLOCK_FALLBACK` without
/// one) mixed with `GOLDEN`.
pub open spec fn entropy_seed(reading: Option<u64>) -> u64 {
    (match reading {
        Some(n) => n,
        None => CLOCK_FALLBACK,
    }) ^ GOLDEN
}

/// The nanoseconds since the Unix epoch (low 64 bits), or `None` when the clock lies
/// before the epoch.
fn clock_reading() -> Option<u64> {
    match crate::clock::elapsed_since_epoch(&crate::clock::now()) {
        Ok(d) => Some(#[verifier::truncate] (crate::clock::nanos(&d) as u64)),
        Err(_) => None,
    }
}

/// One xorshift step.
fn xorshift_step(x: u64) -> (y: u64)
    ensures
        y == xorshift(x),
{
    let a = x ^ (x >> 12u64);
    let b = a ^ (a << 25u64);
    b ^ (b >> 27u64)
}

/// A deterministic generator: the same seed yields the same stream.
#[derive(Clone, Copy, Debug)]
pub struct Rng(u64);

impl View for Rng {
    type V = u64;

    closed spec fn view(&self) -> u64 {
        self.0
    }
}

/// Proof that a xorshift step maps a non-zero state to a non-zero state.
proof fn lemma_xorshift_nonzero(x: u64)
    requires
        x != 0,
    ensures
        xorshift(x) != 0,
{
    assert(x != 0 ==> (x ^ (x >> 12u64)) != 0) by (bit_vector);
    let a = x ^ (x >> 12u64);
    assert(a != 0 ==> (a ^ (a << 25u64)) != 0) by (bit_vector);
    let b = a ^ (a << 25u64);
    assert(b != 0 ==> (b ^ (b >> 27u64)) != 0) by (bit_vector);
}

proof fn lemma_xorshift_n_nonzero(x: u64, n: nat)
    requires
        x != 0,
    ensures
        xorshift_n(x, n) != 0,
    decreases n,
{
    if n > 0 {
        lemma_xorshift_n_nonzero(x, (n - 1) as nat);
        lemma_xorshift_nonzero(xorshift_n(x, (n - 1) as nat));
    }
}

/// The state of a generator made by `Rng::new` is never zero, whatever the seed,
/// so its stream never collapses into the all-zero fixed point.
pub proof fn lemma_seeded_nonzero(seed: u64)
    ensures
        seeded(seed) != 0,
{
    lemma_xorshift_n_nonzero(if seed == 0 { GOLDEN } else { seed }, 4);
}

/// A non-zero state stays non-zero under any number of draws.
pub proof fn lemma_stream_nonzero(state: u64, n: nat)
    requires
        state != 0,
    ensures
        xorshift_n(state, n) != 0,
{
    lemma_xorshift_n_nonzero(state, n);
}

/// The multiplier is odd, so a non-zero state never multiplies to zero: every value
/// drawn from a generator whose state is not zero is itself non-zero.
pub proof fn law_output_nonzero(state: u64)
    requires
        state != 0,
    ensures
        output(state) != 0,
{
    assert(state != 0 ==> ((state as u128 * 0x2545_F491_4F6C_DD1Du128) as u64) != 0) by (bit_vector);
    assert(output(state) == (state as u128 * 0x2545_F491_4F6C_DD1Du128) as u64) by (bit_vector);
}

impl Rng {
    /// The state is never zero: seeding maps zero to `GOLDEN`, and a xorshift step
    /// keeps a non-zero state non-zero.
    #[verifier::type_invariant]
    spec fn state_nonzero(self) -> bool {
        self.0 != 0
    }

    pub fn new(seed: u64) -> (r: Rng)
        ensures
            r@ == seeded(seed),
    {
        let mut x = if seed == 0 {
            GOLDEN
        } else {
            seed
        };
        let ghost start = x;
        let mut i: u32 = 0;
        while i < 4
            invariant
                0 <= i <= 4,
                start == (if seed == 0 { GOLDEN } else { seed }),
                x == xorshift_n(start, i as nat),
            decreases 4 - i,
        {
            x = xorshift_step(x);
            i = i + 1;
        }
        proof {
            lemma_xorshift_n_nonzero(start, 4);
        }
        Rng(x)
    }

    /// A generator seeded from the system clock: the nanoseconds since the Unix
    /// epoch (low 64 bits), or `CLOCK_FALLBACK` when the clock lies before the epoch,
    /// mixed with `GOLDEN`. The reading itself is the clock's; `from_reading` states
    /// what is made of it.
    pub fn from_entropy() -> (r: Rng)
        ensures
            exists|reading: Option<u64>| r@ == seeded(entropy_seed(reading)),
    {
        Rng::from_reading(clock_reading())
    }

    /// The generator `from_entropy` makes from clock reading `reading` (`None` when
    /// the clock lies before the epoch).
    pub fn from_reading(reading: Option<u64>) -> (r: Rng)
        ensures
            r@ == seeded(entropy_seed(reading)),
    {
        let t = match reading {
            Some(n) => n,
            None => CLOCK_FALLBACK,
        };
        Rng::new(t ^ GOLDEN)
    }

    /// Advances the state by one xorshift step and returns the scrambled state.
    pub fn next_u64(&mut self) -> (v: u64)
        ensures
            old(self)@ != 0,
            final(self)@ == xorshift(old(self)@),
            v == output(xorshift(old(self)@)),
            v != 0,
    {
        proof {
            use_type_invariant(&*self);
            lemma_xorshift_nonzero(self.0);
            law_output_nonzero(xorshift(self.0));
        }
        let x = xorshift_step(self.0);
        self.0 = x;
        x.wrapping_mul(MULTIPLIER)
    }

    /// The high 32 bits of the next draw.
    pub fn next_u32(&mut self) -> (v: u32)
        ensures
            final(self)@ == xorshift(old(self)@),
            v == (output(xorshift(old(self)@)) >> 32u64) as u32,
    {
        (self.next_u64() >> 32u64) as u32
    }

    /// The top 24 bits of the next draw; `f32()` is this value divided by 2^24.
    pub fn unit_bits(&mut self) -> (v: u32)
        ensures
            final(self)@ == xorshift(old(self)@),
            v == (output(xorshift(old(self)@)) >> 40u64) as u32,
            v < 0x100_0000,
    {
        let x = self.next_u64();
        assert((x >> 40u64) < 0x100_0000) by (bit_vector);
        (x >> 40u64) as u32
    }

    /// `true` with probability `threshold / 2^24`: exactly what `chance(p)` answers
    /// when `threshold` is the least integer not below `p * 2^24`.
    pub fn chance_below(&mut self, threshold: u32) -> (b: bool)
        ensures
            final(self)@ == xorshift(old(self)@),
            b == ((output(xorshift(old(self)@)) >> 40u64) < threshold),
            (final(self)@, b) == chance_next(old(self)@, threshold),
    {
        let x = self.next_u64();
        (x >> 40u64) < threshold as u64
    }

    /// A uniform integer in the closed range `[lo, hi]` (`lo` when `hi <= lo`).
    pub fn range_i32(&mut self, lo: i32, hi: i32) -> (v: i32)
        ensures
            (final(self)@, v as int) == range_next(old(self)@, lo as int, hi as int),
            hi <= lo ==> v == lo && final(self)@ == old(self)@,
            lo < hi ==> {
                &&& final(self)@ == xorshift(old(self)@)
                &&& v == lo + (output(xorshift(old(self)@)) % ((hi - lo + 1) as u64)) as int
                &&& lo <= v <= hi
            },
    {
        if hi <= lo {
            return lo;
        }
        let span = (hi as i64 - lo as i64 + 1) as u64;
        let r = self.next_u64() % span;
        (lo as i64 + r as i64) as i32
    }

    /// A new, independent stream seeded from the next draw.
    pub fn fork(&mut self) -> (r: Rng)
        ensures
            final(self)@ == xorshift(old(self)@),
            r@ == seeded(output(xorshift(old(self)@))),
    {
        Rng::new(self.next_u64())
    }
}

/// The range law: every value of `range_i32` lies in `[lo, hi]` when `lo <= hi`.
pub proof fn lemma_range_in_bounds(state: u64, lo: i32, hi: i32)
    requires
        lo < hi,
    ensures
        lo <= lo + (output(xorshift(state)) % ((hi - lo + 1) as u64)) as int <= hi,
{
}


} // verus!
