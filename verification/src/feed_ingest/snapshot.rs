//! What a book holds after a snapshot, bucket by bucket.

use vstd::arithmetic::power2::lemma_pow2_pos;
use vstd::prelude::*;
use vstd::set_lib::{lemma_int_range, set_int_range};

use crate::feed_ingest::book;
use crate::feed_ingest::book::{BookModel, Level, SideFault};
use crate::feed_ingest::event::{BookEvent, OrderbookSide};
use crate::feed_ingest::state;
use crate::float_bits;
use crate::float_bits::{F64Bits, TWO};
use crate::float_error;
use crate::float_math;
use crate::float_near;
use crate::float_near::{distance, full, near};
use crate::ordering;
use crate::text;

verus! {

/// Whether a bucket of a side is populated: its size is not written `0`.
pub open spec fn populated(side: OrderbookSide, k: int) -> bool {
    side.sz@[k]@ != "0"@
}

/// The populated buckets among the first `n`.
pub open spec fn populated_before(side: OrderbookSide, n: int) -> Set<int> {
    set_int_range(0, n).filter(|k: int| populated(side, k))
}

proof fn lemma_one_more_bucket(side: OrderbookSide, n: int)
    requires
        n >= 0,
    ensures
        populated_before(side, n + 1).len() == populated_before(side, n).len() + (if populated(side, n) {
            1int
        } else {
            0
        }),
{
    lemma_int_range(0, n);
    lemma_int_range(0, n + 1);
    let (before, after) = (populated_before(side, n), populated_before(side, n + 1));
    if populated(side, n) {
        assert(after =~= before.insert(n));
    } else {
        assert(after =~= before);
    }
}

/// A decoded side has one level for each populated bucket, and no other.
pub proof fn law_one_level_per_populated_bucket(side: OrderbookSide, tick_size: F64Bits, n: nat)
    requires
        book::levels_of(side, tick_size, n) is Ok,
    ensures
        book::levels_of(side, tick_size, n)->Ok_0.len() == populated_before(side, n as int).len(),
    decreases n,
{
    if n == 0 {
        lemma_int_range(0, 0);
        assert(populated_before(side, 0) =~= Set::empty());
    } else {
        law_one_level_per_populated_bucket(side, tick_size, (n - 1) as nat);
        lemma_one_more_bucket(side, n - 1);
    }
}

/// The level of a populated bucket stands behind those of the buckets before it: the
/// bucket's index, the index times the tick size as its rate, and the number that the
/// bucket's size writes.
pub proof fn law_a_level_is_its_bucket(side: OrderbookSide, tick_size: F64Bits, n: nat, k: int)
    requires
        book::levels_of(side, tick_size, n) is Ok,
        0 <= k < n,
        populated(side, k),
    ensures
        ({
            let levels = book::levels_of(side, tick_size, n)->Ok_0;
            let i = populated_before(side, k).len() as int;
            &&& 0 <= i < levels.len()
            &&& levels[i].ia == side.ia@[k]
            &&& levels[i].rate == float_math::product(side.ia@[k], tick_size)
            &&& text::signed_value(side.sz@[k]@) == Some(levels[i].size.0)
        }),
    decreases n,
{
    let m = (n - 1) as nat;
    if k < m {
        law_a_level_is_its_bucket(side, tick_size, m, k);
    } else {
        law_one_level_per_populated_bucket(side, tick_size, m);
    }
}

/// The rate of a bucket is its index times the tick size, as far as rounding goes.
pub proof fn law_a_bucket_lies_at_its_index_times_the_tick_size(index: F64Bits, tick_size: F64Bits)
    requires
        float_bits::finite(index),
        float_bits::finite(tick_size),
        full(float_math::product(index, tick_size)),
    ensures
        near(
            float_math::size(float_math::product(index, tick_size)) * float_math::unit(),
            float_math::size(index) * float_math::size(tick_size),
            1,
        ),
        float_bits::signed(float_math::product(index, tick_size)) == (float_bits::signed(index)
            != float_bits::signed(tick_size)),
{
    float_near::law_product_is_near(index, tick_size);
}

/// A side is decoded exactly when its two lists have one length and every populated
/// bucket has a size that is a number.
pub proof fn law_a_side_is_decoded_when_its_sizes_are_numbers(side: OrderbookSide, tick_size: F64Bits)
    ensures
        book::decoded(side, tick_size) is Ok <==> side.ia@.len() == side.sz@.len() && (forall|k: int|
            0 <= k < side.ia@.len() && #[trigger] populated(side, k) ==> text::signed_value(side.sz@[k]@)
                is Some),
        side.ia@.len() != side.sz@.len() ==> book::decoded(side, tick_size) == Err::<Seq<Level>, SideFault>(
            SideFault::Lengths { ia: side.ia@.len(), sz: side.sz@.len() },
        ),
{
    lemma_decodes(side, tick_size, side.ia@.len());
}

proof fn lemma_decodes(side: OrderbookSide, tick_size: F64Bits, n: nat)
    ensures
        book::levels_of(side, tick_size, n) is Ok <==> (forall|k: int|
            0 <= k < n && #[trigger] populated(side, k) ==> text::signed_value(side.sz@[k]@) is Some),
    decreases n,
{
    if n > 0 {
        lemma_decodes(side, tick_size, (n - 1) as nat);
        let last = n - 1;
        if book::levels_of(side, tick_size, n) is Ok {
            assert forall|k: int| 0 <= k < n && #[trigger] populated(side, k) implies text::signed_value(
                side.sz@[k]@,
            ) is Some by {
                assert(k < last || k == last);
            }
        }
        if forall|k: int|
            0 <= k < n && #[trigger] populated(side, k) ==> text::signed_value(side.sz@[k]@) is Some {
            assert(populated(side, last) ==> text::signed_value(side.sz@[last]@) is Some);
        }
    }
}

/// A snapshot replaces both sides: longs become bids, highest rate first, shorts
/// become asks, lowest rate first, and no level is lost or made up. The book keeps its
/// market and tick size and takes the snapshot's block and time.
pub proof fn law_a_snapshot_ranks_both_sides(before: BookModel, event: BookEvent)
    requires
        book::with_snapshot(before, event) is Ok,
    ensures
        ({
            let after = book::with_snapshot(before, event)->Ok_0;
            let longs = book::decoded(event.long, before.tick_size);
            let shorts = book::decoded(event.short, before.tick_size);
            &&& longs is Ok && shorts is Ok
            &&& after.bids.to_multiset() == longs->Ok_0.to_multiset()
            &&& after.asks.to_multiset() == shorts->Ok_0.to_multiset()
            &&& forall|i: int, j: int|
                0 <= i < j < after.bids.len() ==> !float_bits::less(
                    (#[trigger] after.bids[i]).rate,
                    (#[trigger] after.bids[j]).rate,
                )
            &&& forall|i: int, j: int|
                0 <= i < j < after.asks.len() ==> !float_bits::less(
                    (#[trigger] after.asks[j]).rate,
                    (#[trigger] after.asks[i]).rate,
                )
            &&& after.market_id == before.market_id
            &&& after.tick_size == before.tick_size
            &&& after.block_number == event.sync_status.block_number
            &&& after.timestamp == event.sync_status.timestamp
            &&& after.initialized
        }),
{
    let after = book::with_snapshot(before, event)->Ok_0;
    let longs = book::decoded(event.long, before.tick_size)->Ok_0;
    let shorts = book::decoded(event.short, before.tick_size)->Ok_0;
    ordering::law_sorting_permutes_into_order(longs, book::rank_key(true));
    ordering::law_sorting_permutes_into_order(shorts, book::rank_key(false));
    assert forall|i: int, j: int| 0 <= i < j < after.bids.len() implies !float_bits::less(
        (#[trigger] after.bids[i]).rate,
        (#[trigger] after.bids[j]).rate,
    ) by {
        assert(book::rank_key(true)(after.bids[i]) <= book::rank_key(true)(after.bids[j]));
    }
    assert forall|i: int, j: int| 0 <= i < j < after.asks.len() implies !float_bits::less(
        (#[trigger] after.asks[j]).rate,
        (#[trigger] after.asks[i]).rate,
    ) by {
        assert(book::rank_key(false)(after.asks[i]) <= book::rank_key(false)(after.asks[j]));
    }
}

/// A snapshot that cannot be decoded on either side is refused as a whole.
pub proof fn law_a_snapshot_needs_both_sides(before: BookModel, event: BookEvent)
    ensures
        book::with_snapshot(before, event) is Ok <==> book::decoded(event.long, before.tick_size) is Ok
            && book::decoded(event.short, before.tick_size) is Ok,
{
}

/// After a snapshot that decodes, its view shows that snapshot, whether the view is
/// new or not. One that does not decode opens an empty book at most.
pub proof fn law_a_view_shows_its_latest_snapshot(books: Map<u128, BookModel>, event: BookEvent)
    ensures
        ({
            let key = state::key_of(event.market_id, event.tick_size, event.include_amm);
            let after = state::with_event(books, event);
            &&& after.contains_key(key)
            &&& books.contains_key(key) && book::with_snapshot(books[key], event) is Ok ==> after[key]
                == book::with_snapshot(books[key], event)->Ok_0
            &&& !books.contains_key(key) ==> {
                let blank = BookModel {
                    market_id: event.market_id,
                    tick_size: event.tick_size.bits(),
                    bids: Seq::empty(),
                    asks: Seq::empty(),
                    block_number: 0,
                    timestamp: 0,
                    initialized: false,
                };
                after[key] == (match book::with_snapshot(blank, event) {
                    Ok(shown) => shown,
                    Err(_) => blank,
                })
            }
        }),
{
}

/// Best bid and ask are the first of each side, and there is a pair only where both
/// sides have a level.
pub proof fn law_the_best_pair_is_the_first_of_each_side(b: BookModel)
    ensures
        b.bids.len() > 0 && b.asks.len() > 0 ==> book::best_pair(b) == Some((b.bids[0], b.asks[0])),
        b.bids.len() == 0 || b.asks.len() == 0 ==> book::best_pair(b) is None && book::mid_of(b) is None
            && book::spread_of(b) is None,
        b.bids.len() > 0 ==> book::first_of(b.bids) == Some(b.bids[0]),
        b.bids.len() == 0 ==> book::first_of(b.bids) is None,
{
}

/// The spread is the distance of the best ask from the best bid, as far as rounding
/// goes, and zero in a book that is crossed or locked.
pub proof fn law_the_spread_is_the_distance_of_the_best(b: BookModel)
    requires
        b.bids.len() > 0,
        b.asks.len() > 0,
        float_bits::finite(b.bids[0].rate),
        float_bits::finite(b.asks[0].rate),
        float_bits::finite(float_math::difference(b.asks[0].rate, b.bids[0].rate)),
    ensures
        ({
            let gap = float_math::value(b.asks[0].rate) - float_math::value(b.bids[0].rate);
            &&& book::spread_of(b) matches Some(s) && {
                &&& gap > 0 ==> near(float_math::size(s), gap, 1) && !float_bits::signed(s)
                &&& gap <= 0 ==> float_math::zero(s)
            }
        }),
{
    let (bid, ask) = (b.bids[0].rate, b.asks[0].rate);
    float_near::law_difference_is_near(ask, bid);
    float_error::lemma_sizes(float_math::difference(ask, bid));
}

/// Twice the mid rate is the best bid and the best ask together, as far as rounding
/// goes.
pub proof fn law_the_mid_is_half_of_both(b: BookModel)
    requires
        b.bids.len() > 0,
        b.asks.len() > 0,
        float_bits::finite(b.bids[0].rate),
        float_bits::finite(b.asks[0].rate),
        float_bits::finite(float_math::sum(b.bids[0].rate, b.asks[0].rate)),
        full(float_math::quotient(float_math::sum(b.bids[0].rate, b.asks[0].rate), F64Bits(TWO))),
    ensures
        ({
            let both = float_math::value(b.bids[0].rate) + float_math::value(b.asks[0].rate);
            &&& book::mid_of(b) matches Some(m) && {
                &&& near(2 * float_math::size(m), distance(both), 3)
                &&& both != 0 ==> float_bits::signed(m) == (both < 0)
            }
        }),
{
    let u = float_math::unit();
    lemma_pow2_pos(1074);
    float_math::lemma_two();
    let (bid, ask) = (b.bids[0].rate, b.asks[0].rate);
    let sum = float_math::sum(bid, ask);
    let mid = float_math::quotient(sum, F64Bits(TWO));
    float_near::law_sum_is_near(bid, ask);
    float_near::law_quotient_is_near(sum, F64Bits(TWO));
    float_error::lemma_sizes(sum);
    float_error::lemma_sizes(mid);
    let (x, y) = (float_math::size(mid), float_math::size(sum));
    assert(x * (2 * u) == (2 * x) * u) by (nonlinear_arith);
    float_near::law_near_cancels(2 * x, y, u, 1);
    float_near::law_near_chains(2 * x, y, distance(float_math::value(bid) + float_math::value(ask)), 1, 1);
}

/// A depth shows the first levels of a side: as many as asked for, or all there are.
pub proof fn law_a_depth_shows_the_best_levels(levels: Seq<Level>, n: nat, i: int)
    ensures
        book::at_most(levels, n).len() == (if n < levels.len() {
            n as int
        } else {
            levels.len() as int
        }),
        0 <= i < book::at_most(levels, n).len() ==> book::at_most(levels, n)[i] == levels[i],
{
}

} // verus!
