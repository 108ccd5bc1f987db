//! Laws of the estimator, proved over the ingest model.
//!
//! The contract of `CVMHash::new_input` ties each executable call to one step
//! of [`ingest_spec`] (for some valid draws) or, for a model-obeying source,
//! to [`ingest_det`]. The lemmas here state what then holds of whole runs:
//! monotone levels, the post-ingest size bound, level-zero retention, the
//! exactness of runs that never reach the capacity, and replayability.

use vstd::arithmetic::power2::lemma2_to64;
use vstd::assert_sets_equal;
use vstd::prelude::*;
use vstd::set_lib::lemma_len_subset;

use crate::estimator::count_keeps;
use crate::estimator::ingest_det;
use crate::estimator::ingest_spec;
use crate::estimator::lemma_membership_level_zero;
use crate::estimator::lemma_push_no_duplicates;
use crate::estimator::lemma_remove_no_duplicates;
use crate::estimator::lemma_thin_keep_props;
use crate::estimator::membership_update;
use crate::estimator::valid_draws;
use crate::estimator::EstView;
use crate::random::RandomSource;

verus! {

broadcast use vstd::set::group_set_axioms, vstd::seq_lib::seq_to_set_is_finite;

/// A whole run of the draw-explicit model: the items ingested in order, step
/// `k` consuming membership draw `rs[k]` and coin sequence `coinss[k]`.
pub open spec fn ingest_all(
    s: EstView,
    items: Seq<u64>,
    rs: Seq<u64>,
    coinss: Seq<Seq<u64>>,
) -> EstView
    decreases items.len(),
{
    if items.len() == 0 {
        s
    } else {
        ingest_all(
            ingest_spec(s, items[0], rs[0], coinss[0]),
            items.drop_first(),
            rs.drop_first(),
            coinss.drop_first(),
        )
    }
}

/// A whole run of the source-driven model: the state and the source after
/// ingesting the items in order.
pub open spec fn ingest_all_det<R: RandomSource>(s: EstView, items: Seq<u64>, rng: R) -> (
    EstView,
    R,
)
    decreases items.len(),
{
    if items.len() == 0 {
        (s, rng)
    } else {
        let step = ingest_det(s, items[0], rng);
        ingest_all_det(step.0, items.drop_first(), step.1)
    }
}

/// The membership phase keeps the buffer duplicate free at every level.
pub proof fn lemma_membership_no_duplicates(buf: Seq<u64>, level: nat, item: u64, r: u64)
    requires
        buf.no_duplicates(),
    ensures
        membership_update(buf, level, item, r).no_duplicates(),
{
    if buf.contains(item) {
        if level != 0 && r != 0 {
            let idx = buf.index_of(item);
            assert(0 <= idx < buf.len() && buf[idx] == item);
            lemma_remove_no_duplicates(buf, idx);
        }
    } else {
        if level == 0 || r == 0 {
            lemma_push_no_duplicates(buf, item);
        }
    }
}

/// One ingest step keeps the state well formed and the capacity unchanged.
pub proof fn lemma_step_wf(s: EstView, item: u64, r: u64, coins: Seq<u64>)
    requires
        s.wf(),
        valid_draws(s, item, r, coins),
    ensures
        ingest_spec(s, item, r, coins).wf(),
        ingest_spec(s, item, r, coins).cap == s.cap,
{
    let buf1 = membership_update(s.buf, s.level, item, r);
    lemma_membership_no_duplicates(s.buf, s.level, item, r);
    if buf1.len() >= s.cap {
        lemma_thin_keep_props(buf1, coins);
    }
}

/// Law: one ingest step never lowers the level, and raises it by at most one.
pub proof fn lemma_level_monotonic_step(s: EstView, item: u64, r: u64, coins: Seq<u64>)
    ensures
        s.level <= ingest_spec(s, item, r, coins).level <= s.level + 1,
{
}

/// Law: over a whole run the level never falls below its starting value; as
/// each run step is one `ingest_spec` step, the level after any call is at
/// least the level before it.
pub proof fn lemma_level_monotonic(s: EstView, items: Seq<u64>, rs: Seq<u64>, coinss: Seq<Seq<u64>>)
    ensures
        s.level <= ingest_all(s, items, rs, coinss).level,
    decreases items.len(),
{
    if items.len() == 0 {
    } else {
        lemma_level_monotonic(
            ingest_spec(s, items[0], rs[0], coinss[0]),
            items.drop_first(),
            rs.drop_first(),
            coinss.drop_first(),
        );
    }
}

/// Law: an ingest step leaves the buffer strictly below the capacity whenever
/// the thinning pass, if it runs, keeps fewer than `cap` items. The one
/// family of draws this excludes is a pass whose coins keep `cap` or more
/// items (for instance, every coin zero): a single fair-coin pass cannot
/// promise a hard bound on those outcomes.
pub proof fn lemma_post_ingest_bound(s: EstView, item: u64, r: u64, coins: Seq<u64>)
    requires
        s.wf(),
        valid_draws(s, item, r, coins),
        count_keeps(coins) < s.cap,
    ensures
        ingest_spec(s, item, r, coins).buf.len() < s.cap,
{
    let buf1 = membership_update(s.buf, s.level, item, r);
    if buf1.len() >= s.cap {
        lemma_membership_no_duplicates(s.buf, s.level, item, r);
        lemma_thin_keep_props(buf1, coins);
    }
}

/// Law: while the level is zero and the distinct items seen keep the buffer
/// under the capacity, a run only accumulates, whatever its draws: the level
/// stays zero and the buffered set afterwards is the starting set plus every
/// ingested item.
pub proof fn lemma_level_zero_accumulates(
    s: EstView,
    items: Seq<u64>,
    rs: Seq<u64>,
    coinss: Seq<Seq<u64>>,
)
    requires
        s.wf(),
        s.level == 0,
        s.buf.to_set().union(items.to_set()).len() < s.cap,
    ensures
        ingest_all(s, items, rs, coinss).level == 0,
        ingest_all(s, items, rs, coinss).wf(),
        ingest_all(s, items, rs, coinss).cap == s.cap,
        ingest_all(s, items, rs, coinss).buf.to_set() == s.buf.to_set().union(items.to_set()),
    decreases items.len(),
{
    if items.len() == 0 {
        assert(s.buf.to_set().union(items.to_set()) =~= s.buf.to_set());
    } else {
        let item = items[0];
        let rest = items.drop_first();
        let buf1 = membership_update(s.buf, 0, item, rs[0]);
        lemma_membership_level_zero(s.buf, item, rs[0]);

        // The item is one of the items, so the set seen so far stays inside
        // the full union, hence under the capacity: no adaptation fires.
        assert(items[0] == item);
        assert(items.contains(item));
        assert(buf1.to_set().subset_of(s.buf.to_set().union(items.to_set())));
        lemma_len_subset(buf1.to_set(), s.buf.to_set().union(items.to_set()));
        buf1.unique_seq_to_set();
        assert(buf1.len() < s.cap);

        let s1 = ingest_spec(s, item, rs[0], coinss[0]);
        assert(s1 == (EstView { cap: s.cap, buf: buf1, level: 0nat }));

        // The first item folds into the union of the rest.
        assert_sets_equal!(items.to_set() == rest.to_set().insert(item), x => {
            if items.to_set().contains(x) {
                let k = choose|k: int| 0 <= k < items.len() && items[k] == x;
                if k == 0 {
                } else {
                    assert(rest[k - 1] == x);
                    assert(rest.contains(x));
                }
            }
            if x == item {
                assert(items.contains(x));
            } else if rest.to_set().contains(x) {
                let k = choose|k: int| 0 <= k < rest.len() && rest[k] == x;
                assert(items[k + 1] == x);
                assert(items.contains(x));
            }
        });
        assert_sets_equal!(
            s1.buf.to_set().union(rest.to_set()) == s.buf.to_set().union(items.to_set())
        );

        lemma_level_zero_accumulates(s1, rest, rs.drop_first(), coinss.drop_first());
    }
}

/// Law: ingesting `n` distinct items into a fresh estimator whose capacity
/// exceeds `n` never thins, whatever the draws: the level stays zero, the
/// buffer holds exactly the distinct set, and the estimate is exactly `n`.
pub proof fn lemma_no_thinning_below_capacity(
    cap: nat,
    items: Seq<u64>,
    rs: Seq<u64>,
    coinss: Seq<Seq<u64>>,
)
    requires
        1 <= cap,
        items.no_duplicates(),
        items.len() < cap,
    ensures
        ({
            let f = ingest_all(EstView { cap: cap, buf: Seq::empty(), level: 0 }, items, rs, coinss);
            &&& f.level == 0
            &&& f.buf.to_set() == items.to_set()
            &&& f.buf.len() == items.len()
            &&& f.estimate() == items.len()
        }),
{
    let s = EstView { cap: cap, buf: Seq::empty(), level: 0 };
    assert(s.buf.to_set().union(items.to_set()) =~= items.to_set());
    items.unique_seq_to_set();
    lemma_level_zero_accumulates(s, items, rs, coinss);
    let f = ingest_all(s, items, rs, coinss);
    assert(f.buf.to_set() =~= items.to_set());
    f.buf.unique_seq_to_set();
    lemma2_to64();
}

/// Law: while the level stays zero, an item once buffered is never dropped by
/// any later ingest, whatever the draws.
pub proof fn lemma_level_zero_retention(
    s: EstView,
    items: Seq<u64>,
    rs: Seq<u64>,
    coinss: Seq<Seq<u64>>,
    x: u64,
)
    requires
        s.buf.contains(x),
        ingest_all(s, items, rs, coinss).level == 0,
    ensures
        ingest_all(s, items, rs, coinss).buf.contains(x),
    decreases items.len(),
{
    if items.len() == 0 {
    } else {
        let s1 = ingest_spec(s, items[0], rs[0], coinss[0]);
        lemma_level_monotonic(s1, items.drop_first(), rs.drop_first(), coinss.drop_first());
        assert(s1.level == 0);
        let buf1 = membership_update(s.buf, s.level, items[0], rs[0]);
        assert(s1.buf == buf1);
        if !s.buf.contains(items[0]) {
            assert(buf1 == s.buf.push(items[0]));
            let k = choose|k: int| 0 <= k < s.buf.len() && s.buf[k] == x;
            assert(buf1[k] == x);
        }
        assert(buf1.contains(x));
        lemma_level_zero_retention(s1, items.drop_first(), rs.drop_first(), coinss.drop_first(), x);
    }
}

/// Law: two runs that start from equal states and equal states of a
/// model-obeying source, and ingest the same items, pass through identical
/// states after every step. Together with the `ingest_det` clause of
/// `CVMHash::new_input` this makes every run under such a source replayable
/// bit for bit.
pub proof fn lemma_deterministic_replay<R: RandomSource>(
    s1: EstView,
    rng1: R,
    s2: EstView,
    rng2: R,
    items: Seq<u64>,
)
    requires
        s1 == s2,
        rng1 == rng2,
    ensures
        forall|k: int|
            0 <= k <= items.len() ==> ingest_all_det(s1, items.take(k), rng1) == ingest_all_det(
                s2,
                items.take(k),
                rng2,
            ),
{
}

} // verus!
