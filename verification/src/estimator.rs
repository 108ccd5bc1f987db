//! The distinct-count estimator.
//!
//! [`CVMHash`] holds a bounded sample of the stream ("the buffer") and a
//! count of how many times the sampling probability has been halved ("the
//! coinflip level"). Each item is kept with probability two to the minus
//! level; when the buffer reaches its capacity the level rises by one and a
//! fair coin is flipped for every buffered item, evicting it on heads. The
//! number of distinct items seen is then estimated as the buffer's size times
//! two to the level.
//!
//! Every random decision is taken from a [`RandomSource`], so a whole run is
//! a function of the starting state, the item sequence and the draws. The
//! spec functions in this module ([`membership_update`], [`thin_keep`],
//! [`ingest_spec`], [`ingest_det`]) state one ingest step over those draws,
//! and the contracts of the methods tie the executable code to them.

use vstd::arithmetic::power2::lemma2_to64;
use vstd::arithmetic::power2::lemma_pow2_adds;
use vstd::arithmetic::power2::lemma_pow2_strictly_increases;
use vstd::arithmetic::power2::pow2;
use vstd::prelude::*;

use crate::random::RandomSource;
use vstd::assert_sets_equal;

verus! {

broadcast use vstd::set::group_set_axioms;

/// The abstract state of an estimator: its capacity, the buffered items in
/// buffer order, and the coinflip level.
#[verifier::ext_equal]
pub ghost struct EstView {
    pub cap: nat,
    pub buf: Seq<u64>,
    pub level: nat,
}

impl EstView {
    /// A state is well formed when the buffer holds no item twice and the
    /// capacity is positive.
    pub open spec fn wf(self) -> bool {
        &&& self.buf.no_duplicates()
        &&& 1 <= self.cap
    }

    /// The distinct-count estimate this state stands for: the buffer's
    /// length scaled back up by two to the level.
    pub open spec fn estimate(self) -> nat {
        self.buf.len() * pow2(self.level)
    }
}

/// The only failure the estimator can raise: a capacity below one at
/// construction.
#[derive(Debug, Clone, Copy, PartialEq, Eq, Structural)]
pub enum EstimatorError {
    InvalidConfiguration,
}

/// The membership phase of one ingest step, given the draw `r`.
///
/// An item already buffered is kept at level zero; at a positive level it
/// stays only when `r` is zero (probability two to the minus level). An item
/// not yet buffered is appended at level zero, and at a positive level only
/// when `r` is zero. `r` is read only when the level is positive.
pub open spec fn membership_update(buf: Seq<u64>, level: nat, item: u64, r: u64) -> Seq<u64> {
    if buf.contains(item) {
        if level != 0 && r != 0 {
            buf.remove(buf.index_of(item))
        } else {
            buf
        }
    } else {
        if level == 0 || r == 0 {
            buf.push(item)
        } else {
            buf
        }
    }
}

/// The thinning pass over a full buffer: item `i` survives exactly when coin
/// `i` is zero. Meaningful when `coins` and `buf` have the same length.
pub open spec fn thin_keep(buf: Seq<u64>, coins: Seq<u64>) -> Seq<u64>
    decreases buf.len(),
{
    if buf.len() == 0 {
        Seq::empty()
    } else {
        let prev = thin_keep(buf.drop_last(), coins.drop_last());
        if coins.last() == 0 {
            prev.push(buf.last())
        } else {
            prev
        }
    }
}

/// How many coins of a thinning pass say "keep" (are zero).
pub open spec fn count_keeps(coins: Seq<u64>) -> nat
    decreases coins.len(),
{
    if coins.len() == 0 {
        0
    } else {
        count_keeps(coins.drop_last()) + if coins.last() == 0 {
            1nat
        } else {
            0nat
        }
    }
}

/// Whether `r` and `coins` are draws that one ingest step on state `s` can
/// consume: the membership draw is below two to the level (and unused, hence
/// zero, at level zero), and the coin sequence covers the post-membership
/// buffer exactly when that buffer has reached the capacity.
pub open spec fn valid_draws(s: EstView, item: u64, r: u64, coins: Seq<u64>) -> bool {
    let buf1 = membership_update(s.buf, s.level, item, r);
    &&& if s.level == 0 {
        r == 0
    } else {
        r < pow2(s.level)
    }
    &&& if buf1.len() >= s.cap {
        coins.len() == buf1.len() && (forall|i: int| 0 <= i < coins.len() ==> coins[i] < 2)
    } else {
        coins.len() == 0
    }
}

/// One ingest step as a function of the state and the draws it consumed:
/// the membership phase, then, if the buffer has reached the capacity, a
/// level increment and the thinning pass.
pub open spec fn ingest_spec(s: EstView, item: u64, r: u64, coins: Seq<u64>) -> EstView {
    let buf1 = membership_update(s.buf, s.level, item, r);
    if buf1.len() >= s.cap {
        EstView { cap: s.cap, buf: thin_keep(buf1, coins), level: s.level + 1 }
    } else {
        EstView { cap: s.cap, buf: buf1, level: s.level }
    }
}

/// The state of a modelled random source after `n` coin draws.
pub open spec fn rng_after<R: RandomSource>(rng: R, n: nat) -> R
    decreases n,
{
    if n == 0 {
        rng
    } else {
        rng_after(rng, (n - 1) as nat).next_self(2)
    }
}

/// The `n` coin values a modelled random source yields in a thinning pass.
pub open spec fn coin_seq<R: RandomSource>(rng: R, n: nat) -> Seq<u64>
    decreases n,
{
    if n == 0 {
        Seq::empty()
    } else {
        coin_seq(rng, (n - 1) as nat).push(rng_after(rng, (n - 1) as nat).next_draw(2))
    }
}

/// One ingest step driven by a modelled random source: the state afterwards
/// and the source afterwards. For a source that obeys its draw model this
/// pins the whole transition, which is what makes runs replayable.
pub open spec fn ingest_det<R: RandomSource>(s: EstView, item: u64, rng: R) -> (EstView, R) {
    let bound = pow2(s.level) as u64;
    let r = if s.level == 0 {
        0u64
    } else {
        rng.next_draw(bound)
    };
    let rng1 = if s.level == 0 {
        rng
    } else {
        rng.next_self(bound)
    };
    let buf1 = membership_update(s.buf, s.level, item, r);
    let n = buf1.len();
    if n >= s.cap {
        (
            EstView { cap: s.cap, buf: thin_keep(buf1, coin_seq(rng1, n)), level: s.level + 1 },
            rng_after(rng1, n),
        )
    } else {
        (EstView { cap: s.cap, buf: buf1, level: s.level }, rng1)
    }
}

/// A streaming distinct-count estimator with a bounded buffer.
pub struct CVMHash {
    storage: usize,
    buffer: Vec<u64>,
    coinflips: u32,
}

impl View for CVMHash {
    type V = EstView;

    closed spec fn view(&self) -> EstView {
        EstView { cap: self.storage as nat, buf: self.buffer@, level: self.coinflips as nat }
    }
}

/// Two to the power `k`, as a 64-bit value.
fn pow2_u64(k: u32) -> (r: u64)
    requires
        k < 64,
    ensures
        r == pow2(k as nat),
        1 <= r,
{
    proof {
        lemma2_to64();
    }
    let mut f: u64 = 1;
    let mut j: u32 = 0;
    while j < k
        invariant
            j <= k,
            k < 64,
            f == pow2(j as nat),
            1 <= f,
        decreases k - j,
    {
        proof {
            lemma2_to64();
            lemma_pow2_adds(j as nat, 1);
            lemma_pow2_strictly_increases((j + 1) as nat, 64);
        }
        f = f * 2;
        j = j + 1;
    }
    f
}

impl CVMHash {
    /// The estimator is well formed: its buffer holds no item twice and its
    /// capacity is positive. Construction establishes this and every method
    /// preserves it.
    pub open spec fn wf(&self) -> bool {
        self@.wf()
    }

    /// A fresh estimator with the given capacity: an empty buffer and level
    /// zero. A capacity below one is invalid and is reported, never clamped.
    pub fn new(storage: usize) -> (r: Result<CVMHash, EstimatorError>)
        ensures
            match r {
                Ok(e) => 1 <= storage && e.wf() && e@.cap == storage && e@.buf
                    == Seq::<u64>::empty() && e@.level == 0,
                Err(err) => storage < 1 && err == EstimatorError::InvalidConfiguration,
            },
    {
        if storage < 1 {
            Err(EstimatorError::InvalidConfiguration)
        } else {
            let e = CVMHash { storage, buffer: Vec::new(), coinflips: 0 };
            proof {
                assert(e@.buf =~= Seq::<u64>::empty());
            }
            Ok(e)
        }
    }

    /// The number of items the buffer physically holds.
    pub fn storage_objects(&self) -> (r: usize)
        ensures
            r == self@.buf.len(),
    {
        self.buffer.len()
    }

    /// The configured capacity.
    pub fn capacity(&self) -> (r: usize)
        ensures
            r == self@.cap,
    {
        self.storage
    }

    /// The coinflip level: how many times the sampling probability has been
    /// halved so far.
    pub fn level(&self) -> (r: u32)
        ensures
            r == self@.level,
    {
        self.coinflips
    }

    /// The position of `item` in the buffer, if it is buffered.
    fn index_of_item(&self, item: u64) -> (r: Option<usize>)
        ensures
            match r {
                Some(i) => i < self.buffer@.len() && self.buffer@[i as int] == item,
                None => !self.buffer@.contains(item),
            },
    {
        let n = self.buffer.len();
        let mut j: usize = 0;
        while j < n
            invariant
                j <= n,
                n == self.buffer@.len(),
                forall|k: int| 0 <= k < j ==> self.buffer@[k] != item,
            decreases n - j,
        {
            if self.buffer[j] == item {
                return Some(j);
            }
            j = j + 1;
        }
        None
    }

    /// Whether `item` is currently buffered.
    pub fn contains(&self, item: u64) -> (r: bool)
        ensures
            r == self@.buf.contains(item),
    {
        match self.index_of_item(item) {
            Some(i) => {
                proof {
                    assert(self@.buf[i as int] == item);
                }
                true
            },
            None => false,
        }
    }

    /// The current distinct-count estimate: the buffer's size times two to
    /// the level. A pure read; the bounds in `requires` only keep the
    /// product inside the machine word.
    pub fn get_estimate(&self) -> (r: usize)
        requires
            self@.level < 64,
            self@.buf.len() * pow2(self@.level) <= usize::MAX,
        ensures
            r == self@.estimate(),
    {
        if self.buffer.len() == 0 {
            proof {
                assert(self@.estimate() == 0) by (nonlinear_arith)
                    requires
                        self@.buf.len() == 0,
                ;
            }
            return 0;
        }
        let factor64 = pow2_u64(self.coinflips);
        proof {
            assert(pow2(self@.level) <= self@.buf.len() * pow2(self@.level)) by (nonlinear_arith)
                requires
                    1 <= self@.buf.len(),
            ;
        }
        let factor = factor64 as usize;
        self.buffer.len() * factor
    }
}

/// A buffer with a fresh item appended stays duplicate free.
pub proof fn lemma_push_no_duplicates(buf: Seq<u64>, v: u64)
    requires
        buf.no_duplicates(),
        !buf.contains(v),
    ensures
        buf.push(v).no_duplicates(),
{
    let r = buf.push(v);
    assert forall|i: int, j: int|
        0 <= i < r.len() && 0 <= j < r.len() && i != j implies r[i] != r[j] by {
        if i < buf.len() && j < buf.len() {
        } else if i < buf.len() && j == buf.len() {
            assert(r[i] == buf[i]);
            assert(r[j] == v);
        } else {
            assert(r[j] == buf[j]);
            assert(r[i] == v);
        }
    }
}

/// Removing one position keeps a buffer duplicate free, drops no other item,
/// and leaves no further copy of the removed one.
pub proof fn lemma_remove_no_duplicates(buf: Seq<u64>, i: int)
    requires
        buf.no_duplicates(),
        0 <= i < buf.len(),
    ensures
        buf.remove(i).no_duplicates(),
        forall|x: u64| #[trigger] buf.remove(i).contains(x) ==> buf.contains(x),
        !buf.remove(i).contains(buf[i]),
{
    buf.remove_ensures(i);
    let r = buf.remove(i);
    assert forall|p: int, q: int|
        0 <= p < r.len() && 0 <= q < r.len() && p != q implies r[p] != r[q] by {
        let p0: int = if p < i {
            p
        } else {
            p + 1
        };
        let q0: int = if q < i {
            q
        } else {
            q + 1
        };
        assert(r[p] == buf[p0]);
        assert(r[q] == buf[q0]);
    }
    assert forall|x: u64| r.contains(x) implies buf.contains(x) by {
        let k = choose|k: int| 0 <= k < r.len() && r[k] == x;
        let k0: int = if k < i {
            k
        } else {
            k + 1
        };
        assert(buf[k0] == x);
    }
    if r.contains(buf[i]) {
        let k = choose|k: int| 0 <= k < r.len() && r[k] == buf[i];
        let k0: int = if k < i {
            k
        } else {
            k + 1
        };
        assert(buf[k0] == buf[i]);
        assert(false);
    }
}

/// The thinning pass returns a duplicate-free selection of the buffer whose
/// size is exactly the number of zero coins.
pub proof fn lemma_thin_keep_props(buf: Seq<u64>, coins: Seq<u64>)
    requires
        buf.no_duplicates(),
        coins.len() == buf.len(),
    ensures
        thin_keep(buf, coins).no_duplicates(),
        forall|x: u64| #[trigger] thin_keep(buf, coins).contains(x) ==> buf.contains(x),
        thin_keep(buf, coins).len() == count_keeps(coins),
    decreases buf.len(),
{
    let r = thin_keep(buf, coins);
    if buf.len() == 0 {
    } else {
        let pb = buf.drop_last();
        let pc = coins.drop_last();
        assert forall|p: int, q: int|
            0 <= p < pb.len() && 0 <= q < pb.len() && p != q implies pb[p] != pb[q] by {
            assert(pb[p] == buf[p]);
            assert(pb[q] == buf[q]);
        }
        lemma_thin_keep_props(pb, pc);
        let prev = thin_keep(pb, pc);
        assert forall|x: u64| prev.contains(x) implies buf.contains(x) by {
            assert(pb.contains(x));
            let j = choose|j: int| 0 <= j < pb.len() && pb[j] == x;
            assert(buf[j] == x);
        }
        if coins.last() == 0 {
            if prev.contains(buf.last()) {
                assert(pb.contains(buf.last()));
                let j = choose|j: int| 0 <= j < pb.len() && pb[j] == buf.last();
                assert(buf[j] == buf[buf.len() - 1]);
                assert(false);
            }
            lemma_push_no_duplicates(prev, buf.last());
            assert forall|x: u64| r.contains(x) implies buf.contains(x) by {
                let k = choose|k: int| 0 <= k < r.len() && r[k] == x;
                if k < prev.len() {
                    assert(prev[k] == x);
                    assert(prev.contains(x));
                } else {
                    assert(x == buf.last());
                    assert(buf[buf.len() - 1] == x);
                }
            }
        }
    }
}

/// At level zero the membership phase never drops anything: the buffer
/// afterwards holds exactly the old items plus the ingested one.
pub proof fn lemma_membership_level_zero(buf: Seq<u64>, item: u64, r: u64)
    requires
        buf.no_duplicates(),
    ensures
        membership_update(buf, 0, item, r).no_duplicates(),
        membership_update(buf, 0, item, r).to_set() == buf.to_set().insert(item),
        buf.len() <= membership_update(buf, 0, item, r).len() <= buf.len() + 1,
{
    let b1 = membership_update(buf, 0, item, r);
    if buf.contains(item) {
        assert(b1 == buf);
        assert(buf.to_set().contains(item));
        assert_sets_equal!(b1.to_set() == buf.to_set().insert(item), x => {
            if x == item {
                assert(b1.to_set().contains(x));
                assert(buf.to_set().insert(item).contains(x));
            } else {
                assert(buf.to_set().insert(item).contains(x) == buf.to_set().contains(x));
            }
        });
    } else {
        assert(b1 == buf.push(item));
        lemma_push_no_duplicates(buf, item);
        assert_sets_equal!(b1.to_set() == buf.to_set().insert(item), x => {
            if b1.to_set().contains(x) {
                let k = choose|k: int| 0 <= k < b1.len() && b1[k] == x;
                if k < buf.len() {
                    assert(buf[k] == x);
                } else {
                    assert(x == item);
                }
            }
            if x == item {
                assert(b1[b1.len() - 1] == item);
                assert(b1.contains(x));
            } else if buf.to_set().contains(x) {
                let k = choose|k: int| 0 <= k < buf.len() && buf[k] == x;
                assert(b1[k] == x);
                assert(b1.contains(x));
            }
        });
    }
}

impl CVMHash {
    /// Feed one stream element into the estimator, drawing the random
    /// decisions from `rng`.
    ///
    /// The contract ties the call to the spec model: some valid draws take
    /// the old state to the new one through `ingest_spec`, and for a source
    /// that obeys its draw model the transition is exactly `ingest_det`, so
    /// such runs replay. The level never falls and rises by at most one; the
    /// capacity is untouched. While the level is zero nothing is ever
    /// dropped: the buffered set afterwards is the old set plus the item,
    /// and the level stays zero as long as that set stays below capacity.
    ///
    /// The algorithm itself never caps the level; the bound in `requires`
    /// only keeps the draw bound (two to the level) inside a 64-bit word,
    /// far beyond any realistic stream.
    pub fn new_input<R: RandomSource>(&mut self, input: u64, rng: &mut R)
        requires
            old(self).wf(),
            old(self)@.level < 64,
        ensures
            final(self).wf(),
            final(self)@.cap == old(self)@.cap,
            old(self)@.level <= final(self)@.level <= old(self)@.level + 1,
            (old(self)@.level == 0 && final(self)@.level == 0) ==> final(self)@.buf.to_set()
                == old(self)@.buf.to_set().insert(input),
            (old(self)@.level == 0 && old(self)@.buf.to_set().insert(input).len() < old(
                self,
            )@.cap) ==> final(self)@.level == 0,
            exists|r: u64, coins: Seq<u64>|
                #[trigger] valid_draws(old(self)@, input, r, coins) && final(self)@ == ingest_spec(
                    old(self)@,
                    input,
                    r,
                    coins,
                ),
            R::obeys_draw_spec() ==> (final(self)@, *final(rng)) == ingest_det(
                old(self)@,
                input,
                *old(rng),
            ),
    {
        let ghost s0 = self@;
        let ghost g0 = *rng;

        // Membership draw: consumed exactly when the level is positive.
        let r: u64;
        if self.coinflips != 0 {
            let bound = pow2_u64(self.coinflips);
            r = rng.draw(bound);
        } else {
            r = 0;
        }
        let ghost g1 = *rng;
        proof {
            if s0.level != 0 {
                assert(pow2(s0.level) as u64 == pow2(s0.level));
            }
        }

        // Membership phase.
        let found = self.index_of_item(input);
        match found {
            Some(i) => {
                proof {
                    assert(s0.buf[i as int] == input);
                    assert(s0.buf.contains(input));
                    let idx = s0.buf.index_of(input);
                    assert(s0.buf[idx] == input);
                    assert(idx == i as int);
                }
                if self.coinflips != 0 && r != 0 {
                    self.buffer.remove(i);
                    proof {
                        lemma_remove_no_duplicates(s0.buf, i as int);
                    }
                }
            },
            None => {
                proof {
                    assert(!s0.buf.contains(input));
                }
                if self.coinflips == 0 || r == 0 {
                    self.buffer.push(input);
                    proof {
                        lemma_push_no_duplicates(s0.buf, input);
                    }
                }
            },
        }
        let ghost buf1 = self.buffer@;
        proof {
            assert(buf1 == membership_update(s0.buf, s0.level, input, r));
            assert(buf1.no_duplicates());
        }

        // Adaptation: raise the level and thin the whole buffer by fair
        // coins, one per buffered item, against the pre-pass snapshot.
        let ghost mut coins: Seq<u64> = Seq::empty();
        if self.buffer.len() >= self.storage {
            self.coinflips = self.coinflips + 1;
            let n = self.buffer.len();
            let mut kept: Vec<u64> = Vec::new();
            let mut i: usize = 0;
            while i < n
                invariant
                    i <= n,
                    n == buf1.len(),
                    self.buffer@ == buf1,
                    coins.len() == i,
                    forall|k: int| 0 <= k < coins.len() ==> coins[k] < 2,
                    kept@ == thin_keep(buf1.take(i as int), coins),
                    R::obeys_draw_spec() ==> coins == coin_seq(g1, i as nat) && *rng == rng_after(
                        g1,
                        i as nat,
                    ),
                decreases n - i,
            {
                let ghost coins0 = coins;
                let c = rng.draw(2);
                if c == 0 {
                    kept.push(self.buffer[i]);
                }
                proof {
                    coins = coins0.push(c);
                    let t1 = buf1.take(i + 1);
                    assert(t1.drop_last() =~= buf1.take(i as int));
                    assert(coins.drop_last() =~= coins0);
                    assert(t1.last() == buf1[i as int]);
                    assert(coins.last() == c);
                    assert(kept@ == thin_keep(t1, coins));
                    if R::obeys_draw_spec() {
                        assert(rng_after(g1, (i + 1) as nat) == rng_after(g1, i as nat).next_self(
                            2,
                        ));
                        assert(coin_seq(g1, (i + 1) as nat) == coin_seq(g1, i as nat).push(
                            rng_after(g1, i as nat).next_draw(2),
                        ));
                        assert(coins == coin_seq(g1, (i + 1) as nat));
                    }
                }
                i = i + 1;
            }
            proof {
                assert(buf1.take(n as int) =~= buf1);
                lemma_thin_keep_props(buf1, coins);
            }
            self.buffer = kept;
        }

        proof {
            assert(valid_draws(s0, input, r, coins));
            assert(self@ =~= ingest_spec(s0, input, r, coins));
            if R::obeys_draw_spec() {
                assert((self@, *rng) == ingest_det(s0, input, g0));
            }
            if s0.level == 0 {
                lemma_membership_level_zero(s0.buf, input, r);
                if self@.level == 0 {
                    assert(self@.buf == buf1);
                }
                if s0.buf.to_set().insert(input).len() < s0.cap {
                    buf1.unique_seq_to_set();
                    assert(buf1.len() < s0.cap);
                }
            }
        }
    }
}

} // verus!
