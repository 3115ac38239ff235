use vstd::prelude::*;

verus! {

/// Multiplier of the linear congruential recurrence.
pub const MULTIPLIER: u64 = 0x5_DEEC_E66D;

/// Increment of the linear congruential recurrence.
pub const INCREMENT: u64 = 0xB;

/// The state keeps the low 48 bits.
pub const STATE_MASK: u64 = 0xFFFF_FFFF_FFFF;

/// Modulus of the recurrence, 2^48.
pub open spec fn modulus() -> nat {
    0x1_0000_0000_0000
}

/// One step of the recurrence: `(s * 0x5DEECE66D + 0xB) mod 2^48`.
pub open spec fn lcg_step(s: nat) -> nat {
    (s * MULTIPLIER as nat + INCREMENT as nat) % modulus()
}

/// The state that seeding with `seed` yields.
pub open spec fn initial_state(seed: u64) -> nat {
    ((seed ^ MULTIPLIER) & STATE_MASK) as nat
}

/// The state after `n` steps from seed `seed`.
pub open spec fn stream_state(seed: u64, n: nat) -> nat
    decreases n,
{
    if n == 0 {
        initial_state(seed)
    } else {
        lcg_step(stream_state(seed, (n - 1) as nat))
    }
}

/// The `n`-th 24-bit draw of the stream seeded with `seed`: the top 24
/// bits of the state after `n + 1` steps.
pub open spec fn draw(seed: u64, n: nat) -> u32 {
    (stream_state(seed, n + 1) / 0x100_0000) as u32
}

/// Three consecutive draws, starting with draw `3 * k`: the `k`-th vector
/// of the stream, before scaling to `[-1, 1]` and normalising.
pub open spec fn draw3(seed: u64, k: nat) -> (u32, u32, u32) {
    (draw(seed, 3 * k), draw(seed, 3 * k + 1), draw(seed, 3 * k + 2))
}

/// A seeded pseudo-random stream with the recurrence of Java's `Random`.
pub struct Random {
    seed: u64,
}

impl Random {
    /// The current 48-bit state.
    pub closed spec fn state(&self) -> nat {
        self.seed as nat
    }

    pub open spec fn wf(&self) -> bool {
        self.state() < modulus()
    }

    pub fn with_seed(seed: u64) -> (r: Random)
        ensures
            r.wf(),
            r.state() == initial_state(seed),
    {
        let s = (seed ^ MULTIPLIER) & STATE_MASK;
        assert(((seed ^ 0x5_DEEC_E66Du64) & 0xFFFF_FFFF_FFFFu64) < 0x1_0000_0000_0000u64)
            by (bit_vector);
        Random { seed: s }
    }

    /// Advances the state one step and returns its top `bits` bits.
    pub fn next_bits(&mut self, bits: u32) -> (r: u32)
        requires
            old(self).wf(),
            1 <= bits <= 32,
        ensures
            final(self).wf(),
            final(self).state() == lcg_step(old(self).state()),
            r == final(self).state() / vstd::arithmetic::power2::pow2((48 - bits) as nat),
    {
        let s: u128 = self.seed as u128;
        assert(s * 0x5_DEEC_E66D < 0x1_0000_0000_0000 * 0x5_DEEC_E66D) by (nonlinear_arith)
            requires
                s < 0x1_0000_0000_0000,
        ;
        let next: u128 = (s * 0x5_DEEC_E66Du128 + 0xBu128) % 0x1_0000_0000_0000u128;
        self.seed = next as u64;
        let shift: u64 = (48 - bits) as u64;
        proof {
            vstd::bits::lemma_u64_shr_is_div(self.seed, shift);
            vstd::arithmetic::power2::lemma_pow2_pos((48 - bits) as nat);
            if bits < 32 {
                vstd::arithmetic::power2::lemma_pow2_strictly_increases(16, (48 - bits) as nat);
            }
            vstd::arithmetic::power2::lemma2_to64();
            assert(self.seed as nat / vstd::arithmetic::power2::pow2(shift as nat) < 0x1_0000_0000)
                by {
                vstd::arithmetic::div_mod::lemma_div_is_ordered_by_denominator(
                    self.seed as int,
                    0x1_0000,
                    vstd::arithmetic::power2::pow2(shift as nat) as int,
                );
                vstd::arithmetic::power2::lemma_pow2_adds(16, 32);
                vstd::arithmetic::div_mod::lemma_div_by_multiple_is_strongly_ordered(
                    self.seed as int,
                    0x1_0000_0000_0000,
                    0x1_0000_0000,
                    0x1_0000,
                );
            }
        }
        (self.seed >> shift) as u32
    }

    /// The numerator, over 2^24, of the next value in `[0, 1)`.
    pub fn next_fraction(&mut self) -> (r: u32)
        requires
            old(self).wf(),
        ensures
            final(self).wf(),
            final(self).state() == lcg_step(old(self).state()),
            r == final(self).state() / 0x100_0000,
            r < 0x100_0000,
    {
        proof {
            vstd::arithmetic::power2::lemma2_to64();
        }
        self.next_bits(24)
    }

    /// Three consecutive fractions: the coordinates of the next vector
    /// before they are scaled to `[-1, 1]` and normalised.
    pub fn next_fraction3(&mut self) -> (r: (u32, u32, u32))
        requires
            old(self).wf(),
        ensures
            final(self).wf(),
            final(self).state() == lcg_step(lcg_step(lcg_step(old(self).state()))),
            r == (
                (lcg_step(old(self).state()) / 0x100_0000) as u32,
                (lcg_step(lcg_step(old(self).state())) / 0x100_0000) as u32,
                (final(self).state() / 0x100_0000) as u32,
            ),
    {
        let a = self.next_fraction();
        let b = self.next_fraction();
        let c = self.next_fraction();
        (a, b, c)
    }
}

/// After `3 * k` steps of stream `seed`, the next three fractions are the
/// `k`-th vector of that stream.
pub proof fn lemma_draw3(seed: u64, k: nat)
    ensures
        draw3(seed, k) == (
            (lcg_step(stream_state(seed, 3 * k)) / 0x100_0000) as u32,
            (lcg_step(lcg_step(stream_state(seed, 3 * k))) / 0x100_0000) as u32,
            (lcg_step(lcg_step(lcg_step(stream_state(seed, 3 * k)))) / 0x100_0000) as u32,
        ),
        stream_state(seed, 3 * k + 3) == lcg_step(lcg_step(lcg_step(stream_state(seed, 3 * k)))),
{
    assert(stream_state(seed, 3 * k + 1) == lcg_step(stream_state(seed, 3 * k)));
    assert(stream_state(seed, 3 * k + 2) == lcg_step(stream_state(seed, 3 * k + 1)));
    assert(stream_state(seed, 3 * k + 3) == lcg_step(stream_state(seed, 3 * k + 2)));
}

} // verus!
