use vstd::prelude::*;

verus! {

/// State used in place of a zero seed, which would stay zero forever.
pub const ZERO_SEED_REPLACEMENT: u64 = 0x9e37_79b9_7f4a_7c15;

/// Multiplier of the xorshift64* output scrambler.
pub const OUTPUT_MULTIPLIER: u64 = 0x2545_f491_4f6c_dd1d;

/// One xorshift64 state transition (shifts 12, 25, 27).
pub open spec fn xorshift_step(x: u64) -> u64 {
    let a = x ^ (x >> 12u64);
    let b = a ^ (a << 25u64);
    b ^ (b >> 27u64)
}

/// The xorshift64* output for a freshly advanced state: the state times the
/// multiplier, modulo 2^64.
pub open spec fn scramble(x: u64) -> u64 {
    ((x as nat * OUTPUT_MULTIPLIER as nat) % 0x1_0000_0000_0000_0000nat) as u64
}

/// Small xorshift64* pseudo-random generator; its state is never zero.
pub struct XorShift64 {
    state: u64,
}

impl XorShift64 {
    /// The generator's current state.
    pub closed spec fn state(&self) -> u64 {
        self.state
    }

    pub closed spec fn wf(&self) -> bool {
        self.state != 0
    }

    /// Seeds the generator; a zero seed is replaced by a fixed nonzero one.
    pub fn new(seed: u64) -> (r: Self)
        ensures
            r.wf(),
            r.state() == (if seed == 0 { ZERO_SEED_REPLACEMENT } else { seed }),
    {
        let s = if seed == 0 { ZERO_SEED_REPLACEMENT } else { seed };
        XorShift64 { state: s }
    }

    /// Advances the state one xorshift step and returns the scrambled state.
    pub fn next_u64(&mut self) -> (r: u64)
        requires
            old(self).wf(),
        ensures
            final(self).wf(),
            final(self).state() == xorshift_step(old(self).state()),
            r == scramble(final(self).state()),
    {
        let mut x = self.state;
        x = x ^ (x >> 12u64);
        x = x ^ (x << 25u64);
        x = x ^ (x >> 27u64);
        proof {
            lemma_xorshift_nonzero(self.state);
        }
        self.state = x;
        proof {
            lemma_wrapping_mul_is_scramble(x);
        }
        x.wrapping_mul(OUTPUT_MULTIPLIER)
    }

    /// The high 32 bits of the next 64-bit output.
    pub fn next_u32(&mut self) -> (r: u32)
        requires
            old(self).wf(),
        ensures
            final(self).wf(),
            final(self).state() == xorshift_step(old(self).state()),
            r as u64 == scramble(final(self).state()) >> 32u64,
    {
        let v = self.next_u64();
        assert(v >> 32u64 <= 0xffff_ffffu64) by (bit_vector);
        (v >> 32u64) as u32
    }
}

/// An xorshift step maps a nonzero state to a nonzero state.
proof fn lemma_xorshift_nonzero(x: u64)
    requires
        x != 0,
    ensures
        xorshift_step(x) != 0,
{
    let a = x ^ (x >> 12u64);
    let b = a ^ (a << 25u64);
    assert(a != 0) by (bit_vector)
        requires
            x != 0,
            a == x ^ (x >> 12u64),
    ;
    assert(b != 0) by (bit_vector)
        requires
            a != 0,
            b == a ^ (a << 25u64),
    ;
    assert(b ^ (b >> 27u64) != 0) by (bit_vector)
        requires
            b != 0,
    ;
}

proof fn lemma_wrapping_mul_is_scramble(x: u64)
    ensures
        vstd::wrapping::u64_specs::wrapping_mul(x, OUTPUT_MULTIPLIER) == scramble(x),
{
}

} // verus!
