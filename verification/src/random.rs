//! Sources of bounded random draws.
//!
//! The estimator never touches a generator directly: every random decision is
//! made from a plain integer drawn through the [`RandomSource`] trait. A
//! deterministic source ([`ScriptedRandom`] or [`SeededRandom`]) makes a run
//! replayable; [`ThreadRandom`] draws from the process-wide generator.

use vstd::prelude::*;

verus! {

/// A source of uniform random draws over a bounded range.
///
/// `draw(bound)` returns a value in `[0, bound)`. A source whose draws are a
/// pure function of its own state sets `obeys_draw_spec` and describes one
/// draw with `next_draw` (the value) and `next_self` (the state afterwards);
/// for such a source every run is replayable. A source backed by an outside
/// generator leaves `obeys_draw_spec` false, and only the bound is promised.
pub trait RandomSource: Sized {
    /// Whether draws from this source follow the `next_draw`/`next_self`
    /// state model, so that equal states always yield equal draws.
    spec fn obeys_draw_spec() -> bool;

    /// The value the next draw returns, for a source that obeys the model.
    spec fn next_draw(&self, bound: u64) -> u64;

    /// The state of the source after the next draw, under the same model.
    spec fn next_self(&self, bound: u64) -> Self;

    /// A modelled draw stays below its bound.
    proof fn lemma_next_draw_bounded(&self, bound: u64)
        requires
            Self::obeys_draw_spec(),
            1 <= bound,
        ensures
            self.next_draw(bound) < bound,
    ;

    /// Draw a value uniformly from `[0, bound)`.
    fn draw(&mut self, bound: u64) -> (r: u64)
        requires
            1 <= bound,
        ensures
            r < bound,
            Self::obeys_draw_spec() ==> r == old(self).next_draw(bound) && *final(self) == old(
                self,
            ).next_self(bound),
    ;
}

/// A source that replays a fixed script of values.
///
/// Each draw takes the next scripted value modulo the bound; once the script
/// is exhausted every draw returns zero. Scripts make single transitions easy
/// to pin down in tests.
pub struct ScriptedRandom {
    values: Vec<u64>,
    pos: usize,
}

impl ScriptedRandom {
    /// The scripted values not yet consumed.
    pub closed spec fn pending(&self) -> Seq<u64> {
        if self.pos <= self.values@.len() {
            self.values@.skip(self.pos as int)
        } else {
            Seq::empty()
        }
    }

    /// A source that will replay `values` front to back.
    pub fn new(values: Vec<u64>) -> (r: Self)
        ensures
            r.pending() == values@,
    {
        let r = ScriptedRandom { values, pos: 0 };
        proof {
            assert(r.pending() =~= r.values@);
        }
        r
    }
}

impl RandomSource for ScriptedRandom {
    closed spec fn obeys_draw_spec() -> bool {
        true
    }

    closed spec fn next_draw(&self, bound: u64) -> u64 {
        if self.pos < self.values@.len() {
            self.values@[self.pos as int] % bound
        } else {
            0
        }
    }

    closed spec fn next_self(&self, bound: u64) -> Self {
        if self.pos < self.values@.len() {
            ScriptedRandom { values: self.values, pos: (self.pos + 1) as usize }
        } else {
            *self
        }
    }

    proof fn lemma_next_draw_bounded(&self, bound: u64) {
    }

    fn draw(&mut self, bound: u64) -> (r: u64) {
        if self.pos < self.values.len() {
            let v = self.values[self.pos];
            self.pos = self.pos + 1;
            v % bound
        } else {
            0
        }
    }
}

/// Addition of two 64-bit values, reduced modulo two to the 64th power.
closed spec fn wrap_add64(a: u64, b: u64) -> u64 {
    (((a as int) + (b as int)) % 0x1_0000_0000_0000_0000) as u64
}

/// Multiplication of two 64-bit values, reduced modulo two to the 64th power.
closed spec fn wrap_mul64(a: u64, b: u64) -> u64 {
    (((a as int) * (b as int)) % 0x1_0000_0000_0000_0000) as u64
}

fn wrap_add64_exec(a: u64, b: u64) -> (r: u64)
    ensures
        r == wrap_add64(a, b),
{
    let s: u128 = (a as u128) + (b as u128);
    let m: u128 = s % 0x1_0000_0000_0000_0000u128;
    m as u64
}

fn wrap_mul64_exec(a: u64, b: u64) -> (r: u64)
    ensures
        r == wrap_mul64(a, b),
{
    proof {
        assert((a as int) * (b as int) < 0x1_0000_0000_0000_0000 * 0x1_0000_0000_0000_0000)
            by (nonlinear_arith)
            requires
                a < 0x1_0000_0000_0000_0000,
                b < 0x1_0000_0000_0000_0000,
        ;
    }
    let p: u128 = (a as u128) * (b as u128);
    let m: u128 = p % 0x1_0000_0000_0000_0000u128;
    m as u64
}

/// One step of the generator's state: the state plus a fixed odd increment,
/// modulo two to the 64th power.
closed spec fn seeded_step(state: u64) -> u64 {
    wrap_add64(state, 0x9E3779B97F4A7C15u64)
}

/// The output mixing of a stepped state: two multiply-xorshift rounds and a
/// final shift, so that nearby states give unrelated outputs.
closed spec fn seeded_mix(s: u64) -> u64 {
    let z1 = wrap_mul64(s ^ (s >> 30u64), 0xBF58476D1CE4E5B9u64);
    let z2 = wrap_mul64(z1 ^ (z1 >> 27u64), 0x94D049BB133111EBu64);
    z2 ^ (z2 >> 31u64)
}

/// A deterministic source seeded once and advanced by a fixed recurrence.
///
/// The state walks an additive sequence and each draw mixes the state into an
/// output word, which is reduced modulo the bound. Equal seeds give equal
/// draw sequences, so runs driven by this source can be replayed exactly.
pub struct SeededRandom {
    state: u64,
}

impl SeededRandom {
    /// The current state of the recurrence.
    pub closed spec fn seed_state(&self) -> u64 {
        self.state
    }

    /// A source whose whole draw sequence is fixed by `seed`.
    pub fn new(seed: u64) -> (r: Self)
        ensures
            r.seed_state() == seed,
    {
        SeededRandom { state: seed }
    }
}

impl RandomSource for SeededRandom {
    closed spec fn obeys_draw_spec() -> bool {
        true
    }

    closed spec fn next_draw(&self, bound: u64) -> u64 {
        seeded_mix(seeded_step(self.state)) % bound
    }

    closed spec fn next_self(&self, bound: u64) -> Self {
        SeededRandom { state: seeded_step(self.state) }
    }

    proof fn lemma_next_draw_bounded(&self, bound: u64) {
    }

    fn draw(&mut self, bound: u64) -> (r: u64) {
        self.state = wrap_add64_exec(self.state, 0x9E3779B97F4A7C15u64);
        let s = self.state;
        let z1 = wrap_mul64_exec(s ^ (s >> 30u64), 0xBF58476D1CE4E5B9u64);
        let z2 = wrap_mul64_exec(z1 ^ (z1 >> 27u64), 0x94D049BB133111EBu64);
        let z3 = z2 ^ (z2 >> 31u64);
        z3 % bound
    }
}

/// Relies on `rand::thread_rng` and `rand::Rng::gen_range`: a draw from the
/// thread-local generator over `0..bound` is uniform and below `bound`; the
/// range is non-empty because `bound` is at least one.
#[verifier::external_body]
fn thread_draw(bound: u64) -> (r: u64)
    requires
        1 <= bound,
    ensures
        r < bound,
{
    rand::Rng::gen_range(&mut rand::thread_rng(), 0..bound)
}

/// A source backed by the process-wide generator of the `rand` crate.
///
/// Its draws depend on the generator's hidden state, so no draw value is
/// promised beyond its bound and no run through it is replayable.
pub struct ThreadRandom;

impl ThreadRandom {
    /// A handle on the thread-local generator.
    pub fn new() -> (r: Self) {
        ThreadRandom
    }
}

impl RandomSource for ThreadRandom {
    closed spec fn obeys_draw_spec() -> bool {
        false
    }

    closed spec fn next_draw(&self, bound: u64) -> u64 {
        0
    }

    closed spec fn next_self(&self, bound: u64) -> Self {
        ThreadRandom
    }

    proof fn lemma_next_draw_bounded(&self, bound: u64) {
    }

    fn draw(&mut self, bound: u64) -> (r: u64) {
        thread_draw(bound)
    }
}

} // verus!
