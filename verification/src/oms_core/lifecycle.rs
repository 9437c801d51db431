//! What an order goes through from its placement until it is filled, and what its
//! trades add up to.

use vstd::prelude::*;
use vstd::set_lib::{lemma_int_range, set_int_range};

use crate::float_bits::F64Bits;
use crate::oms_core::error::OmsError;
use crate::oms_core::order_id;
use crate::oms_core::order_id::{OrderId, Side};
use crate::oms_core::tracker;
use crate::oms_core::tracker::LocalOrder;
use crate::oms_core::types;
use crate::oms_core::types::{LocalOrderStatus, Trade};
use crate::tick_math::conversion;
use crate::tick_math::FixedX18;

verus! {

/// Whether the order `k` places behind the start of a range is one of the
/// account's own with something left to fill.
pub open spec fn has_something_left(
    orders: Map<u64, LocalOrder>,
    side: Side,
    tick: i16,
    first: int,
    k: int,
) -> bool {
    let bits = tracker::range_id(side, tick, first, k);
    orders.contains_key(bits) && orders[bits].original_size.0 != orders[bits].filled_size.0
}

/// The places in a range of `n` indices at which an own order has something left.
pub open spec fn places_left(
    orders: Map<u64, LocalOrder>,
    side: Side,
    tick: i16,
    first: int,
    n: int,
) -> Set<int> {
    set_int_range(0, n).filter(|k: int| has_something_left(orders, side, tick, first, k))
}

/// A size with the sign of a side: positive for a long order, negative for a
/// short one.
pub open spec fn on_side(side: Side, size: int) -> int {
    match side {
        Side::Long => size,
        Side::Short => -size,
    }
}

/// What an order of a size still has to fill once a part of it is filled.
spec fn left_of(order: LocalOrder) -> int {
    order.original_size.0 - order.filled_size.0
}

proof fn lemma_remaining(order: LocalOrder)
    ensures
        order.remaining().0 == 0 <==> order.original_size.0 == order.filled_size.0,
        i128::MIN <= left_of(order) <= i128::MAX ==> order.remaining().0 == left_of(order),
{
}

/// Ids of different places in a range differ.
proof fn lemma_places_differ(side: Side, tick: i16, first: int, j: int, k: int)
    requires
        0 <= first + j < order_id::index_span(),
        0 <= first + k < order_id::index_span(),
        j != k,
    ensures
        tracker::range_id(side, tick, first, j) != tracker::range_id(side, tick, first, k),
{
    order_id::law_unpack_of_packed(side, tick, first + j);
    order_id::law_unpack_of_packed(side, tick, first + k);
}

/// The places left in a range that is longer by one.
proof fn lemma_one_more_place(
    orders: Map<u64, LocalOrder>,
    side: Side,
    tick: i16,
    first: int,
    n: int,
)
    requires
        n >= 0,
    ensures
        places_left(orders, side, tick, first, n).finite(),
        places_left(orders, side, tick, first, n + 1).len() == places_left(orders, side, tick, first, n).len()
            + (if has_something_left(orders, side, tick, first, n) {
            1int
        } else {
            0
        }),
{
    lemma_int_range(0, n);
    lemma_int_range(0, n + 1);
    let before = places_left(orders, side, tick, first, n);
    let after = places_left(orders, side, tick, first, n + 1);
    if has_something_left(orders, side, tick, first, n) {
        assert(after =~= before.insert(n));
    } else {
        assert(after =~= before);
    }
}

/// A walk over a range leaves the orders behind it as they were.
proof fn lemma_untouched(
    orders: Map<u64, LocalOrder>,
    tick_step: u8,
    side: Side,
    tick: i16,
    first: int,
    n: nat,
    power: F64Bits,
    k: int,
)
    requires
        0 <= first,
        first + n <= order_id::index_span(),
        n <= k,
        first + k < order_id::index_span(),
    ensures
        ({
            let bits = tracker::range_id(side, tick, first, k);
            let after = tracker::swept(orders, tick_step, side, tick, first, n, power).0;
            &&& after.contains_key(bits) == orders.contains_key(bits)
            &&& orders.contains_key(bits) ==> after[bits] == orders[bits]
        }),
    decreases n,
{
    if n > 0 {
        lemma_untouched(orders, tick_step, side, tick, first, (n - 1) as nat, power, k);
        lemma_places_differ(side, tick, first, n - 1, k);
    }
}

/// A filled range that ends without an error gives one trade for each own order
/// in it that had something left, and no other.
pub proof fn law_one_trade_per_order_with_something_left(
    orders: Map<u64, LocalOrder>,
    tick_step: u8,
    side: Side,
    tick: i16,
    first: int,
    n: nat,
    power: F64Bits,
)
    requires
        0 <= first,
        first + n <= order_id::index_span(),
        tracker::swept(orders, tick_step, side, tick, first, n, power).1 is Ok,
    ensures
        tracker::swept(orders, tick_step, side, tick, first, n, power).1->Ok_0.len() == places_left(
            orders,
            side,
            tick,
            first,
            n as int,
        ).len(),
    decreases n,
{
    if n == 0 {
        lemma_int_range(0, 0);
        assert(places_left(orders, side, tick, first, 0) =~= Set::empty());
    } else {
        let m = (n - 1) as nat;
        law_one_trade_per_order_with_something_left(orders, tick_step, side, tick, first, m, power);
        lemma_one_more_place(orders, side, tick, first, m as int);
        lemma_untouched(orders, tick_step, side, tick, first, m, power, m as int);
        let bits = tracker::range_id(side, tick, first, m as int);
        if orders.contains_key(bits) {
            lemma_remaining(orders[bits]);
        }
    }
}

/// The trade of an own order in a filled range stands behind those of the orders
/// before it, and is for what was left of the order, at the rate of its tick.
pub proof fn law_a_filled_range_trades_what_was_left(
    orders: Map<u64, LocalOrder>,
    tick_step: u8,
    side: Side,
    tick: i16,
    first: int,
    n: nat,
    power: F64Bits,
    k: int,
)
    requires
        0 <= first,
        first + n <= order_id::index_span(),
        0 <= k < n,
        has_something_left(orders, side, tick, first, k),
        i128::MIN < orders[tracker::range_id(side, tick, first, k)].original_size.0
            - orders[tracker::range_id(side, tick, first, k)].filled_size.0 <= i128::MAX,
        tracker::swept(orders, tick_step, side, tick, first, n, power).1 is Ok,
    ensures
        ({
            let order = orders[tracker::range_id(side, tick, first, k)];
            let trades = tracker::swept(orders, tick_step, side, tick, first, n, power).1->Ok_0;
            let i = places_left(orders, side, tick, first, k).len() as int;
            &&& 0 <= i < trades.len()
            &&& trades[i].signed_size.0 == on_side(side, order.original_size.0 - order.filled_size.0)
            &&& conversion::rate_of_tick(tick, tick_step, conversion::magnitude_of(power)) matches Ok(rate)
                && is_cost(trades[i].signed_size.0 as int, rate.0 as int, trades[i].signed_cost.0 as int)
        }),
    decreases n,
{
    let m = (n - 1) as nat;
    let trades = tracker::swept(orders, tick_step, side, tick, first, n, power).1->Ok_0;
    let before = tracker::swept(orders, tick_step, side, tick, first, m, power).1->Ok_0;
    if k < m {
        law_a_filled_range_trades_what_was_left(orders, tick_step, side, tick, first, m, power, k);
        let i = places_left(orders, side, tick, first, k).len() as int;
        assert(trades[i] == before[i]);
    } else {
        law_one_trade_per_order_with_something_left(orders, tick_step, side, tick, first, m, power);
        lemma_untouched(orders, tick_step, side, tick, first, m, power, k);
        let order = orders[tracker::range_id(side, tick, first, k)];
        lemma_remaining(order);
        lemma_fill_trade(tick_step, side, tick, order.remaining(), power);
    }
}

/// Whether an amount is a size times a rate, rounded toward zero: no farther from
/// zero than the exact cost, and less than one raw unit nearer.
pub open spec fn is_cost(size: int, rate: int, cost: int) -> bool {
    let exact = size * rate;
    let scale: int = 1_000_000_000_000_000_000;
    &&& exact >= 0 ==> 0 <= cost && cost * scale <= exact < (cost + 1) * scale
    &&& exact <= 0 ==> cost <= 0 && (cost - 1) * scale < exact <= cost * scale
}

/// The trade of a fill.
proof fn lemma_fill_trade(tick_step: u8, side: Side, tick: i16, delta: FixedX18, power: F64Bits)
    requires
        delta.0 != i128::MIN,
        tracker::fill_trade(tick_step, side, tick, delta, power) is Ok,
    ensures
        ({
            let trade = tracker::fill_trade(tick_step, side, tick, delta, power)->Ok_0;
            &&& trade.signed_size.0 == on_side(side, delta.0 as int)
            &&& conversion::rate_of_tick(tick, tick_step, conversion::magnitude_of(power)) matches Ok(rate)
                && is_cost(trade.signed_size.0 as int, rate.0 as int, trade.signed_cost.0 as int)
        }),
{
    let rate = conversion::rate_of_tick(tick, tick_step, conversion::magnitude_of(power))->Ok_0;
    types::law_cost_rounds_toward_zero(types::signed_for(side, delta), rate);
}

/// What a filled range does to an own order in it, whatever was filled before:
/// all of its size is filled, and its identity stays.
pub proof fn law_a_filled_range_leaves_nothing(
    orders: Map<u64, LocalOrder>,
    tick_step: u8,
    side: Side,
    tick: i16,
    first: int,
    n: nat,
    power: F64Bits,
    k: int,
)
    requires
        0 <= first,
        first + n <= order_id::index_span(),
        0 <= k < n,
        orders.contains_key(tracker::range_id(side, tick, first, k)),
        tracker::swept(orders, tick_step, side, tick, first, n, power).1 is Ok,
    ensures
        ({
            let bits = tracker::range_id(side, tick, first, k);
            let after = tracker::swept(orders, tick_step, side, tick, first, n, power).0;
            &&& after.contains_key(bits)
            &&& after[bits].filled_size == orders[bits].original_size
            &&& after[bits].original_size == orders[bits].original_size
            &&& after[bits].status == LocalOrderStatus::Filled
            &&& after[bits].id == orders[bits].id
            &&& after[bits].side == orders[bits].side
            &&& after[bits].tick_index == orders[bits].tick_index
        }),
    decreases n,
{
    let m = (n - 1) as nat;
    if k < m {
        law_a_filled_range_leaves_nothing(orders, tick_step, side, tick, first, m, power, k);
        lemma_places_differ(side, tick, first, k, m as int);
    } else {
        lemma_untouched(orders, tick_step, side, tick, first, m, power, k);
    }
}

/// A filled range leaves every order outside it as it was, and tracks no new one,
/// also where it ends in an error.
pub proof fn law_a_filled_range_stays_within_its_ids(
    orders: Map<u64, LocalOrder>,
    tick_step: u8,
    side: Side,
    tick: i16,
    first: int,
    n: nat,
    power: F64Bits,
    bits: u64,
)
    requires
        0 <= first,
        first + n <= order_id::index_span(),
        order_id::side_of(bits) != side || order_id::tick_of(bits) != tick || order_id::index_of(bits) < first
            || order_id::index_of(bits) >= first + n,
    ensures
        ({
            let after = tracker::swept(orders, tick_step, side, tick, first, n, power).0;
            &&& after.contains_key(bits) == orders.contains_key(bits)
            &&& orders.contains_key(bits) ==> after[bits] == orders[bits]
        }),
    decreases n,
{
    if n > 0 {
        let m = (n - 1) as nat;
        law_a_filled_range_stays_within_its_ids(orders, tick_step, side, tick, first, m, power, bits);
        order_id::law_unpack_of_packed(side, tick, first + m);
    }
}

/// A filled range ends in an error only where the trade of an own order with
/// something left has no rate or no representable cost.
pub proof fn law_a_filled_range_succeeds(
    orders: Map<u64, LocalOrder>,
    tick_step: u8,
    side: Side,
    tick: i16,
    first: int,
    n: nat,
    power: F64Bits,
)
    requires
        0 <= first,
        first + n <= order_id::index_span(),
        conversion::rate_of_tick(tick, tick_step, conversion::magnitude_of(power)) is Ok,
        forall|k: int|
            0 <= k < n && #[trigger] has_something_left(orders, side, tick, first, k) ==> cost_fits(
                orders[tracker::range_id(side, tick, first, k)].original_size.0
                    - orders[tracker::range_id(side, tick, first, k)].filled_size.0,
                conversion::rate_of_tick(tick, tick_step, conversion::magnitude_of(power))->Ok_0.0 as int,
            ),
    ensures
        tracker::swept(orders, tick_step, side, tick, first, n, power).1 is Ok,
    decreases n,
{
    if n > 0 {
        let m = (n - 1) as nat;
        let rate = conversion::rate_of_tick(tick, tick_step, conversion::magnitude_of(power))->Ok_0;
        law_a_filled_range_succeeds(orders, tick_step, side, tick, first, m, power);
        lemma_untouched(orders, tick_step, side, tick, first, m, power, m as int);
        let bits = tracker::range_id(side, tick, first, m as int);
        if orders.contains_key(bits) {
            lemma_remaining(orders[bits]);
            if has_something_left(orders, side, tick, first, m as int) {
                let left = orders[bits].remaining();
                let (s, r) = (left.0 as int, rate.0 as int);
                types::law_costs_that_fit_are_found(types::signed_for(side, left), rate);
                assert((-s) * r == -(s * r)) by (nonlinear_arith);
            }
        }
    }
}

/// Whether a size fits, and its cost at a rate does.
pub open spec fn cost_fits(size: int, rate: int) -> bool {
    &&& i128::MIN < size <= i128::MAX
    &&& -(i128::MAX + 1) * 1_000_000_000_000_000_000 < size * rate < (i128::MAX + 1)
        * 1_000_000_000_000_000_000
}

/// A partial fill trades exactly what was filled, on the order's side.
pub proof fn law_a_partial_fill_trades_its_size(
    tick_step: u8,
    order: LocalOrder,
    delta: FixedX18,
    power: F64Bits,
)
    requires
        delta.0 != i128::MIN,
        tracker::fill_trade(tick_step, order.side, order.tick_index, delta, power) is Ok,
    ensures
        ({
            let trade = tracker::fill_trade(tick_step, order.side, order.tick_index, delta, power)->Ok_0;
            &&& trade.signed_size.0 == on_side(order.side, delta.0 as int)
            &&& conversion::rate_of_tick(order.tick_index, tick_step, conversion::magnitude_of(power)) matches Ok(
                rate,
            ) && is_cost(trade.signed_size.0 as int, rate.0 as int, trade.signed_cost.0 as int)
        }),
{
    lemma_fill_trade(tick_step, order.side, order.tick_index, delta, power);
}

/// A partial fill adds to what is filled and leaves the rest of the order alone.
/// The order is filled once nothing is left, and partly filled until then.
pub proof fn law_a_partial_fill_adds_up(order: LocalOrder, delta: FixedX18)
    requires
        i128::MIN <= order.filled_size.0 + delta.0 <= i128::MAX,
    ensures
        ({
            let after = order.filled_by(delta);
            &&& after.filled_size.0 == order.filled_size.0 + delta.0
            &&& after.original_size == order.original_size
            &&& after.id == order.id
            &&& after.side == order.side
            &&& after.tick_index == order.tick_index
            &&& after.status == (if order.filled_size.0 + delta.0 == order.original_size.0 {
                LocalOrderStatus::Filled
            } else {
                LocalOrderStatus::PartiallyFilled
            })
        }),
{
}

/// An order after a run of partial fills.
pub open spec fn after_fills(order: LocalOrder, deltas: Seq<FixedX18>) -> LocalOrder
    decreases deltas.len(),
{
    if deltas.len() == 0 {
        order
    } else {
        after_fills(order, deltas.drop_last()).filled_by(deltas.last())
    }
}

/// The sizes of a run of fills, together.
pub open spec fn total_of(deltas: Seq<FixedX18>) -> int
    decreases deltas.len(),
{
    if deltas.len() == 0 {
        0
    } else {
        total_of(deltas.drop_last()) + deltas.last().0
    }
}

/// The signed sizes of the trades of a run of partial fills, together.
pub open spec fn traded_by(tick_step: u8, order: LocalOrder, deltas: Seq<FixedX18>, power: F64Bits) -> int
    decreases deltas.len(),
{
    if deltas.len() == 0 {
        0
    } else {
        traded_by(tick_step, order, deltas.drop_last(), power) + tracker::fill_trade(
            tick_step,
            order.side,
            order.tick_index,
            deltas.last(),
            power,
        )->Ok_0.signed_size.0
    }
}

/// Whether every partial fill of a run has a trade, and what is filled stays
/// within the order after each.
pub open spec fn fills_are_sound(
    tick_step: u8,
    order: LocalOrder,
    deltas: Seq<FixedX18>,
    power: F64Bits,
) -> bool {
    &&& forall|i: int| 0 <= i <= deltas.len() ==> 0 <= #[trigger] total_of(deltas.take(i)) <= order.original_size.0
    &&& forall|i: int|
        0 <= i < deltas.len() ==> (#[trigger] deltas[i]).0 != i128::MIN && tracker::fill_trade(
            tick_step,
            order.side,
            order.tick_index,
            deltas[i],
            power,
        ) is Ok
}

proof fn lemma_after_fills(tick_step: u8, id: OrderId, size: FixedX18, deltas: Seq<FixedX18>, power: F64Bits)
    requires
        fills_are_sound(tick_step, tracker::fresh_order(id, size), deltas, power),
    ensures
        ({
            let order = tracker::fresh_order(id, size);
            let after = after_fills(order, deltas);
            &&& after.filled_size.0 == total_of(deltas)
            &&& after.original_size == size
            &&& after.side == order.side
            &&& after.tick_index == order.tick_index
            &&& traded_by(tick_step, order, deltas, power) == on_side(order.side, total_of(deltas))
        }),
    decreases deltas.len(),
{
    let order = tracker::fresh_order(id, size);
    if deltas.len() > 0 {
        let front = deltas.drop_last();
        assert forall|i: int| 0 <= i <= front.len() implies 0 <= #[trigger] total_of(front.take(i))
            <= order.original_size.0 by {
            assert(front.take(i) =~= deltas.take(i));
        }
        assert forall|i: int| 0 <= i < front.len() implies (#[trigger] front[i]).0 != i128::MIN
            && tracker::fill_trade(tick_step, order.side, order.tick_index, front[i], power) is Ok by {
            assert(front[i] == deltas[i]);
        }
        lemma_after_fills(tick_step, id, size, front, power);
        assert(deltas.take(deltas.len() as int) =~= deltas);
        assert(0 <= total_of(deltas.take(deltas.len() as int)) <= size.0);
        let last = deltas[deltas.len() - 1];
        assert(last.0 != i128::MIN);
        lemma_fill_trade(tick_step, order.side, order.tick_index, last, power);
        law_a_partial_fill_adds_up(after_fills(order, front), last);
    }
}

/// The trades of an order add up to the order: what its partial fills traded and
/// what the range that filled it traded, together, is its whole size, on its side.
pub proof fn law_trades_of_an_order_add_up_to_its_size(
    orders: Map<u64, LocalOrder>,
    tick_step: u8,
    side: Side,
    tick: i16,
    first: int,
    n: nat,
    power: F64Bits,
    k: int,
    id: OrderId,
    size: FixedX18,
    deltas: Seq<FixedX18>,
)
    requires
        0 <= first,
        first + n <= order_id::index_span(),
        0 <= k < n,
        id.bits() == tracker::range_id(side, tick, first, k),
        orders.contains_key(id.bits()),
        orders[id.bits()] == after_fills(tracker::fresh_order(id, size), deltas),
        fills_are_sound(tick_step, tracker::fresh_order(id, size), deltas, power),
        tracker::swept(orders, tick_step, side, tick, first, n, power).1 is Ok,
    ensures
        ({
            let trades = tracker::swept(orders, tick_step, side, tick, first, n, power).1->Ok_0;
            let partly = traded_by(tick_step, tracker::fresh_order(id, size), deltas, power);
            let place = places_left(orders, side, tick, first, k).len() as int;
            let finally = if has_something_left(orders, side, tick, first, k) {
                trades[place].signed_size.0 as int
            } else {
                0
            };
            &&& has_something_left(orders, side, tick, first, k) ==> place < trades.len()
            &&& partly + finally == on_side(side, size.0 as int)
        }),
{
    order_id::law_unpack_of_packed(side, tick, first + k);
    lemma_after_fills(tick_step, id, size, deltas, power);
    assert(deltas.take(deltas.len() as int) =~= deltas);
    assert(0 <= total_of(deltas.take(deltas.len() as int)) <= size.0);
    if has_something_left(orders, side, tick, first, k) {
        law_a_filled_range_trades_what_was_left(orders, tick_step, side, tick, first, n, power, k);
    }
}

/// A batch of placements tracks each of its ids as a fresh order: the size of its
/// last listing, nothing filled, open, on the side and tick of the id. No other
/// order changes.
pub proof fn law_placed_orders_are_open_and_unfilled(
    orders: Map<u64, LocalOrder>,
    ids: Seq<OrderId>,
    sizes: Seq<FixedX18>,
    n: nat,
    bits: u64,
)
    requires
        n <= ids.len(),
        ids.len() == sizes.len(),
    ensures
        ({
            let after = tracker::placed(orders, ids, sizes, n);
            &&& forall|k: int|
                0 <= k < n && (#[trigger] ids[k]).bits() == bits && (forall|j: int|
                    k < j < n ==> (#[trigger] ids[j]).bits() != bits) ==> {
                    &&& after.contains_key(bits)
                    &&& after[bits].id == ids[k]
                    &&& after[bits].side == order_id::side_of(bits)
                    &&& after[bits].tick_index == order_id::tick_of(bits)
                    &&& after[bits].original_size == sizes[k]
                    &&& after[bits].filled_size.0 == 0
                    &&& after[bits].status == LocalOrderStatus::Open
                }
            &&& (forall|j: int| 0 <= j < n ==> (#[trigger] ids[j]).bits() != bits) ==> {
                &&& after.contains_key(bits) == orders.contains_key(bits)
                &&& orders.contains_key(bits) ==> after[bits] == orders[bits]
            }
        }),
    decreases n,
{
    if n > 0 {
        let m = (n - 1) as nat;
        law_placed_orders_are_open_and_unfilled(orders, ids, sizes, m, bits);
        let last = ids[m as int];
        let after = tracker::placed(orders, ids, sizes, n);
        assert forall|k: int|
            0 <= k < n && (#[trigger] ids[k]).bits() == bits && (forall|j: int|
                k < j < n ==> (#[trigger] ids[j]).bits() != bits) implies {
            &&& after.contains_key(bits)
            &&& after[bits].id == ids[k]
            &&& after[bits].side == order_id::side_of(bits)
            &&& after[bits].tick_index == order_id::tick_of(bits)
            &&& after[bits].original_size == sizes[k]
            &&& after[bits].filled_size.0 == 0
            &&& after[bits].status == LocalOrderStatus::Open
        } by {
            if k < m {
                assert(ids[m as int].bits() != bits);
            }
        }
        if forall|j: int| 0 <= j < n ==> (#[trigger] ids[j]).bits() != bits {
            assert(ids[m as int].bits() != bits);
        }
    }
}

/// A cancellation moves the listed orders to its status and changes nothing else
/// about them, and nothing at all about the others. Unknown ids stay unknown.
pub proof fn law_a_cancellation_changes_only_the_status(
    orders: Map<u64, LocalOrder>,
    ids: Seq<OrderId>,
    status: LocalOrderStatus,
    bits: u64,
)
    ensures
        ({
            let after = tracker::with_status(orders, ids, status);
            let listed = exists|i: int| 0 <= i < ids.len() && (#[trigger] ids[i]).bits() == bits;
            &&& after.contains_key(bits) == orders.contains_key(bits)
            &&& orders.contains_key(bits) ==> {
                &&& after[bits].status == (if listed {
                    status
                } else {
                    orders[bits].status
                })
                &&& after[bits].id == orders[bits].id
                &&& after[bits].side == orders[bits].side
                &&& after[bits].tick_index == orders[bits].tick_index
                &&& after[bits].original_size == orders[bits].original_size
                &&& after[bits].filled_size == orders[bits].filled_size
            }
        }),
{
}

/// An order rests exactly while it is open or partly filled.
pub proof fn law_resting_orders_are_not_terminal(order: LocalOrder)
    ensures
        order.terminal() <==> !(order.status == LocalOrderStatus::Open || order.status
            == LocalOrderStatus::PartiallyFilled),
        i128::MIN <= order.original_size.0 - order.filled_size.0 <= i128::MAX ==> order.remaining().0
            == order.original_size.0 - order.filled_size.0,
{
}

/// A filled range is refused exactly where its ends lie on different sides or
/// ticks, or the last index lies before the first, and then nothing changes.
pub proof fn law_a_range_runs_along_one_tick(
    orders: Map<u64, LocalOrder>,
    tick_step: u8,
    from: OrderId,
    to: OrderId,
    power: F64Bits,
)
    ensures
        ({
            let apart = order_id::side_of(from.bits()) != order_id::side_of(to.bits()) || order_id::tick_of(
                from.bits(),
            ) != order_id::tick_of(to.bits());
            let inverted = order_id::index_of(to.bits()) < order_id::index_of(from.bits());
            let (after, trades) = tracker::sweep(orders, tick_step, from, to, power);
            &&& apart ==> trades == Err::<Seq<Trade>, OmsError>(OmsError::InvalidFillRange { from, to })
            &&& !apart && inverted ==> trades == Err::<Seq<Trade>, OmsError>(
                OmsError::InvertedFillRange(
                    order_id::index_of(to.bits()) as u64,
                    order_id::index_of(from.bits()) as u64,
                ),
            )
            &&& apart || inverted ==> after == orders
            &&& !apart && !inverted ==> (after, trades) == tracker::swept(
                orders,
                tick_step,
                order_id::side_of(from.bits()),
                order_id::tick_of(from.bits()),
                order_id::index_of(from.bits()),
                (order_id::index_of(to.bits()) - order_id::index_of(from.bits()) + 1) as nat,
                power,
            )
        }),
{
}

} // verus!
