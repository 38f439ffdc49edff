use vstd::prelude::*;
use rand::Rng;

verus! {

/// A source of bounded random indices.
pub trait RandomNumberGenerator {
    /// A value in `[0, max)`.
    fn random_u32(&mut self, max: u32) -> (r: usize)
        requires
            max > 0,
        ensures
            r < max,
    ;
}

/// Multiplier and increment of the classic C library generator.
pub const LCG_MULTIPLIER: u32 = 1103515245;
pub const LCG_INCREMENT: u32 = 12345;

/// One step of the linear congruential generator, modulo 2^32.
pub open spec fn lcg_step(state: u32) -> u32 {
    ((state as int * LCG_MULTIPLIER as int + LCG_INCREMENT as int) % 0x1_0000_0000) as u32
}

/// The 15-bit draw that a generator state yields.
pub open spec fn lcg_output(state: u32) -> u32 {
    ((state as int / 0x10000) % 0x8000) as u32
}

/// The low 16 bits of a word.
pub open spec fn lo_word_spec(v: u32) -> u16 {
    (v as int % 0x10000) as u16
}

pub fn lo_word(v: u32) -> (r: u16)
    ensures
        r == lo_word_spec(v),
{
    (v % 0x10000) as u16
}

/// Relies on nix::time::clock_gettime on the monotonic clock: seconds and
/// nanoseconds, or `None` where the call fails. Nothing is promised of the values.
#[verifier::external_body]
fn monotonic_clock() -> (r: Option<(i64, i64)>) {
    match nix::time::clock_gettime(nix::time::ClockId::CLOCK_MONOTONIC) {
        Ok(t) => Some((t.tv_sec() as i64, t.tv_nsec() as i64)),
        Err(_) => None,
    }
}

/// Milliseconds of a clock reading of seconds and nanoseconds, wrapped to
/// 32 bits; 0 when there is no reading.
pub open spec fn ticks_spec(clock: Option<(i64, i64)>) -> u32 {
    match clock {
        Some((s, n)) => ((s as u64 as int * 1000 + n as u64 as int / 1_000_000)
            % 0x1_0000_0000) as u32,
        None => 0,
    }
}

/// The tick count of a clock reading.
pub fn ticks_from_clock(clock: Option<(i64, i64)>) -> (r: u32)
    ensures
        r == ticks_spec(clock),
{
    match clock {
        Some((secs, nanos)) => {
            let s = secs as u64;
            let n = nanos as u64;
            let m = s.wrapping_mul(1000);
            let b = n / 1_000_000;
            let t = m.wrapping_add(b);
            proof {
                let x = s as int * 1000;
                assert(m as int == x % 0x1_0000_0000_0000_0000);
                assert(t as int == (m as int + b as int) % 0x1_0000_0000_0000_0000) by {
                    if m as int + b as int >= 0x1_0000_0000_0000_0000 {
                        vstd::arithmetic::div_mod::lemma_mod_sub_multiples_vanish(
                            m as int + b as int,
                            0x1_0000_0000_0000_0000,
                        );
                        vstd::arithmetic::div_mod::lemma_small_mod(
                            (m as int + b as int - 0x1_0000_0000_0000_0000) as nat,
                            0x1_0000_0000_0000_0000,
                        );
                    } else {
                        vstd::arithmetic::div_mod::lemma_small_mod(
                            (m as int + b as int) as nat,
                            0x1_0000_0000_0000_0000,
                        );
                    }
                }
                lemma_mod_sum_mod(x, b as int, 0x1_0000_0000_0000_0000);
                lemma_mod_mod_pow(x + b as int);
            }
            (t % 0x1_0000_0000) as u32
        },
        None => 0,
    }
}

/// `(x mod m) + y` and `x + y` agree modulo `m`.
proof fn lemma_mod_sum_mod(x: int, y: int, m: int)
    requires
        m > 0,
    ensures
        ((x % m) + y) % m == (x + y) % m,
{
    vstd::arithmetic::div_mod::lemma_add_mod_noop(x, y, m);
    vstd::arithmetic::div_mod::lemma_mod_twice(x, m);
    vstd::arithmetic::div_mod::lemma_add_mod_noop(x % m, y, m);
}

/// Reducing modulo 2^64 and then modulo 2^32 is reducing modulo 2^32.
proof fn lemma_mod_mod_pow(x: int)
    ensures
        (x % 0x1_0000_0000_0000_0000) % 0x1_0000_0000 == x % 0x1_0000_0000,
{
    vstd::arithmetic::div_mod::lemma_mod_mod(x, 0x1_0000_0000, 0x1_0000_0000);
}

/// Milliseconds on the monotonic clock, wrapped to 32 bits (0 where the
/// clock cannot be read).
pub fn get_tick_count() -> (r: u32) {
    ticks_from_clock(monotonic_clock())
}

/// The historical generator: a linear congruential generator with its own
/// state, seeded from the tick count. Reproducible from its seed.
pub struct LegacyRandomNumberGenerator {
    state: u32,
}

impl LegacyRandomNumberGenerator {
    pub closed spec fn state_spec(&self) -> u32 {
        self.state
    }

    /// A generator seeded with the low 16 bits of the tick count.
    pub fn new() -> (r: LegacyRandomNumberGenerator)
        ensures
            r.state_spec() < 0x10000,
    {
        LegacyRandomNumberGenerator::from_seed(lo_word(get_tick_count()))
    }

    /// A generator with the given seed.
    pub fn from_seed(seed: u16) -> (r: LegacyRandomNumberGenerator)
        ensures
            r.state_spec() == seed as u32,
    {
        LegacyRandomNumberGenerator { state: seed as u32 }
    }

    /// Advance the state and return the next 15-bit draw.
    pub fn next_raw(&mut self) -> (r: u32)
        ensures
            final(self).state_spec() == lcg_step(old(self).state_spec()),
            r == lcg_output(final(self).state_spec()),
            r < 0x8000,
    {
        let m = self.state.wrapping_mul(LCG_MULTIPLIER);
        let next = m.wrapping_add(LCG_INCREMENT);
        proof {
            let x = self.state as int * LCG_MULTIPLIER as int;
            assert(m as int == x % 0x1_0000_0000);
            assert(next as int == (m as int + LCG_INCREMENT as int) % 0x1_0000_0000) by {
                if m as int + LCG_INCREMENT as int >= 0x1_0000_0000 {
                    vstd::arithmetic::div_mod::lemma_mod_sub_multiples_vanish(
                        m as int + LCG_INCREMENT as int,
                        0x1_0000_0000,
                    );
                    vstd::arithmetic::div_mod::lemma_small_mod(
                        (m as int + LCG_INCREMENT as int - 0x1_0000_0000) as nat,
                        0x1_0000_0000,
                    );
                } else {
                    vstd::arithmetic::div_mod::lemma_small_mod(
                        (m as int + LCG_INCREMENT as int) as nat,
                        0x1_0000_0000,
                    );
                }
            }
            lemma_mod_sum_mod(x, LCG_INCREMENT as int, 0x1_0000_0000);
        }
        self.state = next;
        (self.state / 0x10000) % 0x8000
    }
}

impl RandomNumberGenerator for LegacyRandomNumberGenerator {
    /// The next draw reduced modulo `max`.
    fn random_u32(&mut self, max: u32) -> (r: usize)
        ensures
            final(self).state_spec() == lcg_step(old(self).state_spec()),
            r == lcg_output(final(self).state_spec()) % max,
    {
        let raw = self.next_raw();
        (raw % max) as usize
    }
}

#[verifier::external_type_specification]
#[verifier::external_body]
pub struct ExThreadRng(rand::rngs::ThreadRng);

/// Relies on rand::thread_rng: a handle on the thread's generator, seeded
/// from the operating system.
#[verifier::external_body]
fn thread_rng() -> (r: rand::rngs::ThreadRng) {
    rand::thread_rng()
}

/// Relies on rand::Rng::gen_range over the half-open range `0..max`, which
/// panics on an empty range and otherwise returns a value inside it.
#[verifier::external_body]
fn gen_below(rng: &mut rand::rngs::ThreadRng, max: u32) -> (r: u32)
    requires
        max > 0,
    ensures
        r < max,
{
    rng.gen_range(0..max)
}

/// A general-purpose generator seeded by the host's entropy source. It draws
/// from the half-open range `[0, max)`, so every index it yields lies on the grid.
pub struct ModernRandomNumberGenerator {
    inner: rand::rngs::ThreadRng,
}

impl ModernRandomNumberGenerator {
    pub fn new() -> (r: ModernRandomNumberGenerator) {
        ModernRandomNumberGenerator { inner: thread_rng() }
    }
}

impl RandomNumberGenerator for ModernRandomNumberGenerator {
    fn random_u32(&mut self, max: u32) -> (r: usize) {
        gen_below(&mut self.inner, max) as usize
    }
}

} // verus!
