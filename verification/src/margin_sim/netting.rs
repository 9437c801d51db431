//! What the margins of an account amount to, in plain arithmetic.

use vstd::prelude::*;

use crate::float_bits;
use crate::float_bits::{F64Bits, INFINITY};
use crate::float_order;
use crate::margin_sim::engine;
use crate::margin_sim::engine::Totals;
use crate::margin_sim::error::MarginError;
use crate::margin_sim::types;
use crate::margin_sim::types::{
    AccountMarginState, AccountModel, MarginConfig, MarketId, MarketState, OpenOrder, OrderSide, Position, TokenId,
};
use crate::tick_math::fixed;
use crate::tick_math::math;
use crate::tick_math::{FixedX18, MathError};

verus! {

/// A number without its sign.
pub open spec fn distance(n: int) -> int {
    if n < 0 {
        -n
    } else {
        n
    }
}

/// The larger of two numbers.
pub open spec fn larger(a: int, b: int) -> int {
    if a < b {
        b
    } else {
        a
    }
}

/// Size times rate, both without their sign and the rate at least the least one,
/// in whole raw units.
pub open spec fn margin_at(size: int, rate: int, least_rate: int) -> int {
    distance(size) * larger(distance(rate), least_rate) / 1_000_000_000_000_000_000
}

/// The position margins of a run of orders, together.
pub open spec fn orders_margin(orders: Seq<OpenOrder>, least_rate: int) -> int
    decreases orders.len(),
{
    if orders.len() == 0 {
        0
    } else {
        orders_margin(orders.drop_last(), least_rate) + margin_at(
            orders.last().size.0 as int,
            orders.last().rate.0 as int,
            least_rate,
        )
    }
}

/// The sizes of a run of orders, together.
pub open spec fn orders_size(orders: Seq<OpenOrder>) -> int
    decreases orders.len(),
{
    if orders.len() == 0 {
        0
    } else {
        orders_size(orders.drop_last()) + orders.last().size.0
    }
}

/// The position margin of a size at a rate is their product without signs, the
/// rate raised to the least one, in whole raw units. It is refused only where it
/// is out of range.
pub proof fn law_position_margin_is_size_times_rate(size: FixedX18, rate: FixedX18, k_i_thresh: FixedX18)
    ensures
        ({
            let margin = margin_at(size.0 as int, rate.0 as int, k_i_thresh.0 as int);
            &&& margin >= 0
            &&& margin <= i128::MAX ==> engine::pm_from_rate(size, rate, k_i_thresh) == Ok::<
                FixedX18,
                MarginError,
            >(FixedX18(margin as i128))
            &&& margin > i128::MAX ==> engine::pm_from_rate(size, rate, k_i_thresh) == Err::<
                FixedX18,
                MarginError,
            >(MarginError::Math(MathError::Overflow))
        }),
{
    let (s, r) = (distance(size.0 as int), larger(distance(rate.0 as int), k_i_thresh.0 as int));
    assert(s * r >= 0) by (nonlinear_arith)
        requires
            s >= 0,
            r >= 0,
    ;
}

/// Whether the sizes and margins of a run of orders stay in range, and no size is
/// negative.
pub open spec fn orders_fit(orders: Seq<OpenOrder>, least_rate: int) -> bool {
    &&& forall|i: int| 0 <= i < orders.len() ==> (#[trigger] orders[i]).size.0 >= 0
    &&& orders_size(orders) <= i128::MAX
    &&& orders_margin(orders, least_rate) <= i128::MAX
}

proof fn lemma_orders(orders: Seq<OpenOrder>, k_i_thresh: FixedX18)
    requires
        orders_fit(orders, k_i_thresh.0 as int),
    ensures
        0 <= orders_size(orders),
        0 <= orders_margin(orders, k_i_thresh.0 as int),
        engine::orders_pm(orders, k_i_thresh) == Ok::<(FixedX18, FixedX18), MarginError>(
            (
                FixedX18(orders_size(orders) as i128),
                FixedX18(orders_margin(orders, k_i_thresh.0 as int) as i128),
            ),
        ),
    decreases orders.len(),
{
    if orders.len() > 0 {
        let front = orders.drop_last();
        let last = orders.last();
        assert(orders[orders.len() - 1] == last);
        law_position_margin_is_size_times_rate(last.size, last.rate, k_i_thresh);
        assert forall|i: int| 0 <= i < front.len() implies (#[trigger] front[i]).size.0 >= 0 by {
            assert(front[i] == orders[i]);
        }
        lemma_orders(front, k_i_thresh);
    }
}

/// The worst case of a position and its resting orders. Orders on the position's
/// own side add their margins to the position's. Orders on the other side add
/// nothing while all of them together stay within the position; beyond it they
/// count for what exceeds the margin of the position. The margin is that of the
/// worse side. Without a position it is that of the side with more order margin.
pub proof fn law_worst_case_nets_each_side(
    size: FixedX18,
    mark_rate: FixedX18,
    k_i_thresh: FixedX18,
    long_orders: Seq<OpenOrder>,
    short_orders: Seq<OpenOrder>,
)
    requires
        size.0 != i128::MIN,
        orders_fit(long_orders, k_i_thresh.0 as int),
        orders_fit(short_orders, k_i_thresh.0 as int),
        margin_at(size.0 as int, mark_rate.0 as int, k_i_thresh.0 as int) + orders_margin(
            long_orders,
            k_i_thresh.0 as int,
        ) <= i128::MAX,
        margin_at(size.0 as int, mark_rate.0 as int, k_i_thresh.0 as int) + orders_margin(
            short_orders,
            k_i_thresh.0 as int,
        ) <= i128::MAX,
    ensures
        ({
            let alone = margin_at(size.0 as int, mark_rate.0 as int, k_i_thresh.0 as int);
            let long = orders_margin(long_orders, k_i_thresh.0 as int);
            let short = orders_margin(short_orders, k_i_thresh.0 as int);
            let worst = engine::worst_case_pm(size, mark_rate, k_i_thresh, long_orders, short_orders);
            &&& worst matches Ok(pm) && {
                &&& size.0 > 0 && orders_size(short_orders) <= size.0 ==> pm.0 == alone + long
                &&& size.0 > 0 && orders_size(short_orders) > size.0 ==> pm.0 == larger(
                    alone + long,
                    short - alone,
                )
                &&& size.0 < 0 && orders_size(long_orders) <= -size.0 ==> pm.0 == alone + short
                &&& size.0 < 0 && orders_size(long_orders) > -size.0 ==> pm.0 == larger(
                    alone + short,
                    long - alone,
                )
                &&& size.0 == 0 ==> pm.0 == larger(long, short)
            }
        }),
{
    let least = k_i_thresh.0 as int;
    law_position_margin_is_size_times_rate(size, mark_rate, k_i_thresh);
    lemma_orders(long_orders, k_i_thresh);
    lemma_orders(short_orders, k_i_thresh);
    if size.0 == 0 {
        let r = larger(distance(mark_rate.0 as int), least);
        assert(distance(0) * r == 0) by (nonlinear_arith)
            requires
                distance(0) == 0,
        ;
    }
}

/// A further order on the position's own side raises the worst case by exactly its
/// own position margin, as long as the orders on the other side do no more than
/// close the position.
pub proof fn law_an_order_on_the_own_side_adds_its_margin(
    size: FixedX18,
    mark_rate: FixedX18,
    k_i_thresh: FixedX18,
    own: Seq<OpenOrder>,
    other: Seq<OpenOrder>,
    order: OpenOrder,
)
    requires
        size.0 != 0,
        size.0 != i128::MIN,
        orders_fit(own.push(order), k_i_thresh.0 as int),
        orders_fit(other, k_i_thresh.0 as int),
        orders_size(other) <= distance(size.0 as int),
        margin_at(size.0 as int, mark_rate.0 as int, k_i_thresh.0 as int) + orders_margin(
            own.push(order),
            k_i_thresh.0 as int,
        ) <= i128::MAX,
        margin_at(size.0 as int, mark_rate.0 as int, k_i_thresh.0 as int) + orders_margin(
            other,
            k_i_thresh.0 as int,
        ) <= i128::MAX,
    ensures
        ({
            let (before, after) = if size.0 > 0 {
                (
                    engine::worst_case_pm(size, mark_rate, k_i_thresh, own, other),
                    engine::worst_case_pm(size, mark_rate, k_i_thresh, own.push(order), other),
                )
            } else {
                (
                    engine::worst_case_pm(size, mark_rate, k_i_thresh, other, own),
                    engine::worst_case_pm(size, mark_rate, k_i_thresh, other, own.push(order)),
                )
            };
            &&& before is Ok && after is Ok
            &&& after->Ok_0.0 - before->Ok_0.0 == margin_at(
                order.size.0 as int,
                order.rate.0 as int,
                k_i_thresh.0 as int,
            )
        }),
{
    let least = k_i_thresh.0 as int;
    let more = own.push(order);
    assert(more.drop_last() =~= own);
    assert(more[more.len() - 1] == order);
    assert forall|i: int| 0 <= i < own.len() implies (#[trigger] own[i]).size.0 >= 0 by {
        assert(more[i] == own[i]);
    }
    law_position_margin_is_size_times_rate(order.size, order.rate, k_i_thresh);
    if size.0 > 0 {
        law_worst_case_nets_each_side(size, mark_rate, k_i_thresh, own, other);
        law_worst_case_nets_each_side(size, mark_rate, k_i_thresh, more, other);
    } else {
        law_worst_case_nets_each_side(size, mark_rate, k_i_thresh, other, own);
        law_worst_case_nets_each_side(size, mark_rate, k_i_thresh, other, more);
    }
}

/// A year in seconds, at the scale of a fixed-point value.
pub open spec fn scaled_year() -> int {
    31_536_000_000_000_000_000_000_000int
}

/// Whether an amount is a whole number of raw units that covers an exact one of
/// so many parts, by less than one unit.
pub open spec fn covers(amount: int, exact: int, parts: int) -> bool {
    (amount - 1) * parts < exact <= amount * parts
}

/// The initial margin is the position margin times the ratio times the time to
/// maturity in years, the time at least the threshold, rounded up.
pub proof fn law_initial_margin_covers_its_share(pm: FixedX18, cfg: MarginConfig, market: MarketState)
    ensures
        ({
            let time = larger(market.time_to_maturity_secs as int, cfg.t_thresh as int);
            let exact = distance(pm.0 as int) * distance(cfg.k_im.0 as int) * time;
            &&& engine::im_of(pm, cfg, market) matches Ok(im) ==> im.0 >= 0 && covers(
                im.0 as int,
                exact,
                scaled_year(),
            )
            &&& engine::im_of(pm, cfg, market) is Ok <==> exact <= i128::MAX * scaled_year()
        }),
{
    lemma_share(pm, cfg.k_im, market.time_to_maturity_secs, cfg.t_thresh);
}

proof fn lemma_share(pm: FixedX18, ratio: FixedX18, secs: u32, t_thresh: u32)
    ensures
        ({
            let exact = math::magnitude(pm.0 as int) * math::magnitude(ratio.0 as int) * engine::max_of(
                secs as int,
                t_thresh as int,
            );
            let share = math::ceil_div(exact, scaled_year());
            &&& exact >= 0
            &&& 0 <= share
            &&& covers(share, exact, scaled_year())
            &&& share <= i128::MAX <==> exact <= i128::MAX * scaled_year()
        }),
{
    let (p, k) = (math::magnitude(pm.0 as int), math::magnitude(ratio.0 as int));
    let t = engine::max_of(secs as int, t_thresh as int);
    let pk = p * k;
    assert(pk >= 0) by (nonlinear_arith)
        requires
            pk == p * k,
            p >= 0,
            k >= 0,
    ;
    assert(pk * t >= 0) by (nonlinear_arith)
        requires
            pk >= 0,
            t >= 0,
    ;
}

/// The maintenance margin of a position, away from maturity or where the position
/// loses from the rate that it is marked at: its position margin times the ratio
/// times the time to maturity in years, the time at least the threshold, rounded
/// up.
pub proof fn law_maintenance_margin_covers_its_share(size: FixedX18, market: MarketState, cfg: MarginConfig)
    requires
        margin_at(size.0 as int, market.mark_rate.0 as int, cfg.k_i_thresh.0 as int) <= i128::MAX,
        !runs_out(size, market, cfg),
        cfg.t_thresh * distance(cfg.k_mm.0 as int) <= u128::MAX * 1_000_000_000_000_000_000,
    ensures
        ({
            let pm = margin_at(size.0 as int, market.mark_rate.0 as int, cfg.k_i_thresh.0 as int);
            let time = larger(market.time_to_maturity_secs as int, cfg.t_thresh as int);
            let exact = pm * distance(cfg.k_mm.0 as int) * time;
            &&& engine::mm_of(size, market, cfg) matches Ok(mm) ==> mm.0 >= 0 && covers(
                mm.0 as int,
                exact,
                scaled_year(),
            )
            &&& engine::mm_of(size, market, cfg) is Ok <==> exact <= i128::MAX * scaled_year()
        }),
{
    law_position_margin_is_size_times_rate(size, market.mark_rate, cfg.k_i_thresh);
    let pm = engine::pm_from_rate(size, market.mark_rate, cfg.k_i_thresh)->Ok_0;
    lemma_share(pm, cfg.k_mm, market.time_to_maturity_secs, cfg.t_thresh);
}

/// Whether a position that gains from the rate that it is marked at is so close to
/// maturity that the shorter rule holds: less time left than the threshold times
/// the maintenance ratio, and a mark above the least rate.
pub open spec fn runs_out(size: FixedX18, market: MarketState, cfg: MarginConfig) -> bool {
    &&& (size.0 > 0 && market.mark_rate.0 > 0) || (size.0 < 0 && market.mark_rate.0 < 0)
    &&& distance(market.mark_rate.0 as int) > cfg.k_i_thresh.0
    &&& market.time_to_maturity_secs < u32::MAX
    &&& market.time_to_maturity_secs * 1_000_000_000_000_000_000 < cfg.t_thresh * distance(
        cfg.k_mm.0 as int,
    )
}

/// The seconds that the shorter rule fills up: the threshold times the maintenance
/// ratio, rounded up, within 32 bits.
pub open spec fn is_short_threshold(seconds: int, cfg: MarginConfig) -> bool {
    let exact = cfg.t_thresh * distance(cfg.k_mm.0 as int);
    if covers(u32::MAX as int, exact, 1_000_000_000_000_000_000) || exact > u32::MAX
        * 1_000_000_000_000_000_000 {
        seconds == u32::MAX
    } else {
        covers(seconds, exact, 1_000_000_000_000_000_000)
    }
}

/// The maintenance margin under the shorter rule: the mark rate for the time left
/// and the least rate for what is missing to the shorter threshold, times the
/// size, in years and rounded up.
pub proof fn law_short_rule_margin_covers_its_share(
    size: FixedX18,
    market: MarketState,
    cfg: MarginConfig,
    seconds: int,
)
    requires
        runs_out(size, market, cfg),
        is_short_threshold(seconds, cfg),
        cfg.k_i_thresh.0 >= 0,
        cfg.t_thresh * distance(cfg.k_mm.0 as int) <= u128::MAX * 1_000_000_000_000_000_000,
        distance(market.mark_rate.0 as int) * market.time_to_maturity_secs + cfg.k_i_thresh.0 * (seconds
            - market.time_to_maturity_secs) <= i128::MAX,
    ensures
        ({
            let t = market.time_to_maturity_secs as int;
            let rate = distance(market.mark_rate.0 as int) * t + cfg.k_i_thresh.0 * (seconds - t);
            let exact = distance(size.0 as int) * rate;
            &&& engine::mm_of(size, market, cfg) matches Ok(mm) ==> mm.0 >= 0 && covers(
                mm.0 as int,
                exact,
                scaled_year(),
            )
            &&& engine::mm_of(size, market, cfg) is Ok <==> exact <= i128::MAX * scaled_year()
        }),
{
    let t = market.time_to_maturity_secs as int;
    let exact = cfg.t_thresh * distance(cfg.k_mm.0 as int);
    let threshold = engine::scaled_threshold(cfg)->Ok_0;
    assert(exact >= 0) by (nonlinear_arith)
        requires
            exact == cfg.t_thresh * distance(cfg.k_mm.0 as int),
            distance(cfg.k_mm.0 as int) >= 0,
    ;
    assert(engine::scaled_threshold(cfg) is Ok);
    assert(threshold == seconds);
    assert(t < threshold);
    let left = distance(market.mark_rate.0 as int) * t;
    let missing = cfg.k_i_thresh.0 * (seconds - t);
    assert(left >= 0) by (nonlinear_arith)
        requires
            left == distance(market.mark_rate.0 as int) * t,
            distance(market.mark_rate.0 as int) >= 0,
            t >= 0,
    ;
    assert(missing >= 0) by (nonlinear_arith)
        requires
            missing == cfg.k_i_thresh.0 * (seconds - t),
            cfg.k_i_thresh.0 >= 0,
            seconds - t >= 0,
    ;
    let n = distance(size.0 as int) * (left + missing);
    assert(n >= 0) by (nonlinear_arith)
        requires
            n == distance(size.0 as int) * (left + missing),
            distance(size.0 as int) >= 0,
            left + missing >= 0,
    ;
}

/// A position is worth its size times the mark rate times the time to maturity in
/// years, rounded down once.
pub proof fn law_value_is_size_times_mark_times_time(size: FixedX18, market: MarketState)
    ensures
        ({
            let exact = size.0 * market.mark_rate.0 * market.time_to_maturity_secs;
            &&& types::value_of(size, market) matches Ok(value) ==> value.0 * scaled_year() <= exact < (value.0
                + 1) * scaled_year()
            &&& types::value_of(size, market) is Ok <==> distance(exact) < (i128::MAX + 1) * scaled_year()
        }),
{
}

/// A market is visited exactly where the account has a position or an order in
/// it, and once.
pub proof fn law_every_market_of_an_account_counts(account: AccountModel, id: u32)
    ensures
        engine::touched(account).contains(id) <==> (exists|i: int|
            0 <= i < account.positions.len() && (#[trigger] account.positions[i]).market_id.0 == id) || (exists|
            i: int,
        |
            0 <= i < account.open_orders.len() && (#[trigger] account.open_orders[i]).market_id.0 == id),
        forall|i: int, j: int|
            0 <= i < j < engine::touched(account).len() ==> (#[trigger] engine::touched(account)[i]) < (
            #[trigger] engine::touched(account)[j]),
{
    let listed = engine::listed_markets(account.positions, account.open_orders);
    engine::law_ascending_lists_each_once(listed);
    let n = account.positions.len() as int;
    if listed.contains(id) {
        let i = choose|i: int| 0 <= i < listed.len() && listed[i] == id;
        if i < n {
            assert(account.positions[i].market_id.0 == id);
        } else {
            assert(account.open_orders[i - n].market_id.0 == id);
        }
    }
    if exists|i: int| 0 <= i < account.positions.len() && (#[trigger] account.positions[i]).market_id.0 == id {
        let i = choose|i: int|
            0 <= i < account.positions.len() && (#[trigger] account.positions[i]).market_id.0 == id;
        assert(listed[i] == id);
    }
    if exists|i: int| 0 <= i < account.open_orders.len() && (#[trigger] account.open_orders[i]).market_id.0 == id {
        let i = choose|i: int|
            0 <= i < account.open_orders.len() && (#[trigger] account.open_orders[i]).market_id.0 == id;
        assert(listed[n + i] == id);
    }
}

/// The position in a market is the first one that the account lists there.
pub proof fn law_the_first_position_counts(positions: Seq<Position>, id: u32, i: int)
    requires
        0 <= i < positions.len(),
        positions[i].market_id.0 == id,
        forall|j: int| 0 <= j < i ==> (#[trigger] positions[j]).market_id.0 != id,
    ensures
        engine::position_in(positions, id) == Some(positions[i]),
        engine::size_in(positions, id) == positions[i].size,
    decreases i,
{
    if i > 0 {
        let rest = positions.drop_first();
        assert(positions[0].market_id.0 != id);
        assert(rest[i - 1] == positions[i]);
        assert forall|j: int| 0 <= j < i - 1 implies (#[trigger] rest[j]).market_id.0 != id by {
            assert(rest[j] == positions[j + 1]);
        }
        law_the_first_position_counts(rest, id, i - 1);
    }
}

/// Without a listed position there is none, and no size.
pub proof fn law_no_listed_position_is_no_size(positions: Seq<Position>, id: u32)
    requires
        forall|j: int| 0 <= j < positions.len() ==> (#[trigger] positions[j]).market_id.0 != id,
    ensures
        engine::position_in(positions, id) is None,
        engine::size_in(positions, id).0 == 0,
    decreases positions.len(),
{
    if positions.len() > 0 {
        let rest = positions.drop_first();
        assert(positions[0].market_id.0 != id);
        assert forall|j: int| 0 <= j < rest.len() implies (#[trigger] rest[j]).market_id.0 != id by {
            assert(rest[j] == positions[j + 1]);
        }
        law_no_listed_position_is_no_size(rest, id);
    }
}

/// An order counts in its own market and on its own side, and nowhere else.
pub proof fn law_an_order_counts_in_its_market_and_side(
    orders: Seq<OpenOrder>,
    order: OpenOrder,
    id: u32,
    side: OrderSide,
)
    ensures
        engine::orders_in(Seq::empty(), id, side) == Seq::<OpenOrder>::empty(),
        order.market_id.0 == id && order.side == side ==> engine::orders_in(orders.push(order), id, side)
            == engine::orders_in(orders, id, side).push(order),
        order.market_id.0 != id || order.side != side ==> engine::orders_in(orders.push(order), id, side)
            == engine::orders_in(orders, id, side),
{
    reveal(Seq::filter);
    assert(orders.push(order).drop_last() == orders);
}

/// A market adds its own value and margins to the totals: the value of the
/// position there, the initial margin of its worst case, and the maintenance
/// margin of the position.
pub proof fn law_a_market_adds_its_own_amounts(
    totals: Totals,
    account: AccountModel,
    id: u32,
    cfg: MarginConfig,
    market: MarketState,
)
    requires
        engine::with_market(totals, account, id, cfg, market) is Ok,
    ensures
        ({
            let after = engine::with_market(totals, account, id, cfg, market)->Ok_0;
            let size = engine::size_in(account.positions, id);
            let worst = engine::worst_case_pm(
                size,
                market.mark_rate,
                cfg.k_i_thresh,
                engine::orders_in(account.open_orders, id, OrderSide::Long),
                engine::orders_in(account.open_orders, id, OrderSide::Short),
            );
            &&& types::value_of(size, market) matches Ok(value) && after.pv.0 - totals.pv.0 == value.0
            &&& worst matches Ok(pm) && engine::im_of(pm, cfg, market) matches Ok(im) && after.im.0
                - totals.im.0 == im.0
            &&& engine::mm_of(size, market, cfg) matches Ok(mm) && after.mm.0 - totals.mm.0 == mm.0
        }),
{
    if engine::position_in(account.positions, id) is None {
        let (r, t) = (market.mark_rate.0 as int, market.time_to_maturity_secs as int);
        assert(0 * r * t == 0) by (nonlinear_arith);
    }
}

/// The shares of the first `n` of a list of markets, together.
pub open spec fn shares(amounts: spec_fn(u32) -> int, ids: Seq<u32>, n: nat) -> int
    decreases n,
{
    if n == 0 {
        0
    } else {
        shares(amounts, ids, (n - 1) as nat) + amounts(ids[n - 1])
    }
}

/// What an account has in one market, on its own.
pub open spec fn in_market(
    configs: Map<u32, MarginConfig>,
    markets: Map<u32, MarketState>,
    account: AccountModel,
    id: u32,
) -> Totals {
    engine::with_market(
        Totals { pv: FixedX18(0), im: FixedX18(0), mm: FixedX18(0) },
        account,
        id,
        configs[id],
        markets[id],
    )->Ok_0
}

proof fn lemma_shares(
    configs: Map<u32, MarginConfig>,
    markets: Map<u32, MarketState>,
    account: AccountModel,
    ids: Seq<u32>,
    n: nat,
)
    requires
        engine::totals_over(configs, markets, account, ids, n) is Ok,
    ensures
        ({
            let totals = engine::totals_over(configs, markets, account, ids, n)->Ok_0;
            &&& totals.pv.0 == shares(|id: u32| in_market(configs, markets, account, id).pv.0 as int, ids, n)
            &&& totals.im.0 == shares(|id: u32| in_market(configs, markets, account, id).im.0 as int, ids, n)
            &&& totals.mm.0 == shares(|id: u32| in_market(configs, markets, account, id).mm.0 as int, ids, n)
        }),
    decreases n,
{
    if n > 0 {
        let m = (n - 1) as nat;
        lemma_shares(configs, markets, account, ids, m);
        let id = ids[n - 1];
        let before = engine::totals_over(configs, markets, account, ids, m)->Ok_0;
        let none = Totals { pv: FixedX18(0), im: FixedX18(0), mm: FixedX18(0) };
        law_a_market_adds_its_own_amounts(before, account, id, configs[id], markets[id]);
        assert(engine::with_market(none, account, id, configs[id], markets[id]) is Ok);
        law_a_market_adds_its_own_amounts(none, account, id, configs[id], markets[id]);
    }
}

/// The margins of an account are those of its markets, together, and its value is
/// its cash and the values of its positions, together.
pub proof fn law_an_account_is_the_sum_of_its_markets(
    configs: Map<u32, MarginConfig>,
    markets: Map<u32, MarketState>,
    account: AccountModel,
)
    requires
        engine::account_state(configs, markets, account) is Ok,
    ensures
        ({
            let state = engine::account_state(configs, markets, account)->Ok_0;
            let ids = engine::touched(account);
            &&& state.total_value.0 == account.cash.0 + shares(
                |id: u32| in_market(configs, markets, account, id).pv.0 as int,
                ids,
                ids.len(),
            )
            &&& state.total_im.0 == shares(
                |id: u32| in_market(configs, markets, account, id).im.0 as int,
                ids,
                ids.len(),
            )
            &&& state.total_mm.0 == shares(
                |id: u32| in_market(configs, markets, account, id).mm.0 as int,
                ids,
                ids.len(),
            )
        }),
{
    let ids = engine::touched(account);
    lemma_shares(configs, markets, account, ids, ids.len());
}

/// The headroom of an order is what the value exceeds the initial margin by, the
/// order counted.
pub proof fn law_headroom_is_value_beyond_initial_margin(
    configs: Map<u32, MarginConfig>,
    markets: Map<u32, MarketState>,
    account: AccountModel,
    order: OpenOrder,
)
    requires
        engine::account_state(configs, markets, account.with_order(order)) is Ok,
    ensures
        ({
            let state = engine::account_state(configs, markets, account.with_order(order))->Ok_0;
            let left = state.total_value.0 - state.total_im.0;
            let headroom = engine::headroom_of(
                engine::account_state(configs, markets, account.with_order(order)),
            );
            &&& account.with_order(order).open_orders == account.open_orders.push(order)
            &&& account.with_order(order).positions == account.positions
            &&& account.with_order(order).cash == account.cash
            &&& i128::MIN <= left <= i128::MAX <==> headroom is Ok
            &&& headroom matches Ok(h) ==> h.0 == left
        }),
{
}

/// An account can be liquidated exactly when it owes maintenance margin and its
/// value is below it, both to the precision of a float. Without maintenance margin
/// its health has no bound.
pub proof fn law_liquidation_is_value_below_maintenance(
    configs: Map<u32, MarginConfig>,
    markets: Map<u32, MarketState>,
    account: AccountModel,
)
    requires
        engine::account_state(configs, markets, account) is Ok,
    ensures
        ({
            let state = engine::account_state(configs, markets, account)->Ok_0;
            &&& state.is_liquidatable <==> state.total_mm.0 > 0 && float_bits::less(
                fixed::to_float(state.total_value),
                fixed::to_float(state.total_mm),
            )
            &&& state.total_mm.0 == 0 ==> state.health_ratio == F64Bits(INFINITY)
        }),
{
    engine::law_liquidation_needs_uncovered_maintenance(configs, markets, account);
    let state = engine::account_state(configs, markets, account)->Ok_0;
    let (value, mm) = (fixed::to_float(state.total_value), fixed::to_float(state.total_mm));
    if state.total_mm.0 > 0 {
        fixed::law_to_float_is_positive(state.total_mm);
        if state.total_value.0 <= 0 {
            fixed::law_to_float_keeps_order(state.total_value, FixedX18(0));
            fixed::lemma_to_float_zero();
        } else {
            fixed::law_to_float_is_positive(state.total_value);
            if float_bits::less(value, mm) {
                float_order::law_quotient_of_the_smaller(value, mm);
            } else {
                float_order::law_quotient_of_the_larger(value, mm);
            }
        }
    }
}

/// A cross account whose markets settle in its own token, all of them known, with
/// totals in range, has a margin state.
pub proof fn law_a_known_account_has_a_margin_state(
    configs: Map<u32, MarginConfig>,
    markets: Map<u32, MarketState>,
    account: AccountModel,
)
    requires
        forall|i: int|
            0 <= i < engine::touched(account).len() ==> {
                let id = #[trigger] engine::touched(account)[i];
                &&& configs.contains_key(id)
                &&& markets.contains_key(id)
                &&& account.margin_mode is Cross ==> configs[id].token_id == account.token_id
                &&& engine::with_market(
                    Totals { pv: FixedX18(0), im: FixedX18(0), mm: FixedX18(0) },
                    account,
                    id,
                    configs[id],
                    markets[id],
                ) is Ok
            },
        forall|n: nat| n <= engine::touched(account).len() ==> #[trigger] totals_fit(configs, markets, account, n),
        i128::MIN <= account.cash.0 + shares(
            |id: u32| in_market(configs, markets, account, id).pv.0 as int,
            engine::touched(account),
            engine::touched(account).len(),
        ) <= i128::MAX,
    ensures
        engine::account_state(configs, markets, account) is Ok,
{
    let ids = engine::touched(account);
    lemma_no_fault(configs, account, ids.len());
    lemma_totals_exist(configs, markets, account, ids.len());
    lemma_shares(configs, markets, account, ids, ids.len());
}

/// Whether the totals over the first `n` markets of an account are in range.
pub open spec fn totals_fit(
    configs: Map<u32, MarginConfig>,
    markets: Map<u32, MarketState>,
    account: AccountModel,
    n: nat,
) -> bool {
    let ids = engine::touched(account);
    let pv = shares(|id: u32| in_market(configs, markets, account, id).pv.0 as int, ids, n);
    let im = shares(|id: u32| in_market(configs, markets, account, id).im.0 as int, ids, n);
    let mm = shares(|id: u32| in_market(configs, markets, account, id).mm.0 as int, ids, n);
    &&& i128::MIN <= pv <= i128::MAX
    &&& im <= i128::MAX
    &&& mm <= i128::MAX
}

proof fn lemma_no_fault(configs: Map<u32, MarginConfig>, account: AccountModel, n: nat)
    requires
        n <= engine::touched(account).len(),
        account.margin_mode is Cross ==> forall|i: int|
            0 <= i < n ==> configs.contains_key(#[trigger] engine::touched(account)[i])
                && configs[engine::touched(account)[i]].token_id == account.token_id,
    ensures
        account.margin_mode is Cross ==> engine::first_token_fault(
            configs,
            account,
            engine::touched(account),
            n,
        ) is None,
    decreases n,
{
    if n > 0 {
        lemma_no_fault(configs, account, (n - 1) as nat);
    }
}

proof fn lemma_totals_exist(
    configs: Map<u32, MarginConfig>,
    markets: Map<u32, MarketState>,
    account: AccountModel,
    n: nat,
)
    requires
        n <= engine::touched(account).len(),
        forall|i: int|
            0 <= i < engine::touched(account).len() ==> {
                let id = #[trigger] engine::touched(account)[i];
                &&& configs.contains_key(id)
                &&& markets.contains_key(id)
                &&& engine::with_market(
                    Totals { pv: FixedX18(0), im: FixedX18(0), mm: FixedX18(0) },
                    account,
                    id,
                    configs[id],
                    markets[id],
                ) is Ok
            },
        forall|k: nat| k <= n ==> #[trigger] totals_fit(configs, markets, account, k),
    ensures
        engine::totals_over(configs, markets, account, engine::touched(account), n) is Ok,
        engine::totals_over(configs, markets, account, engine::touched(account), n)->Ok_0.im.0 >= 0,
        engine::totals_over(configs, markets, account, engine::touched(account), n)->Ok_0.mm.0 >= 0,
    decreases n,
{
    if n > 0 {
        let ids = engine::touched(account);
        let m = (n - 1) as nat;
        lemma_totals_exist(configs, markets, account, m);
        lemma_shares(configs, markets, account, ids, m);
        let id = ids[n - 1];
        let none = Totals { pv: FixedX18(0), im: FixedX18(0), mm: FixedX18(0) };
        law_a_market_adds_its_own_amounts(none, account, id, configs[id], markets[id]);
        assert(totals_fit(configs, markets, account, n));
        let before = engine::totals_over(configs, markets, account, ids, m)->Ok_0;
        let own = in_market(configs, markets, account, id);
        assert(own.im.0 >= 0 && own.mm.0 >= 0);
        assert(engine::with_market(before, account, id, configs[id], markets[id]) is Ok);
    }
}

/// The first market of a cross account that is unknown or settles in another token
/// is what the account is refused for. An isolated account may hold any token.
pub proof fn law_cross_accounts_hold_one_token(
    configs: Map<u32, MarginConfig>,
    markets: Map<u32, MarketState>,
    account: AccountModel,
    i: int,
)
    requires
        account.margin_mode is Cross,
        0 <= i < engine::touched(account).len(),
        forall|j: int|
            0 <= j < i ==> configs.contains_key(#[trigger] engine::touched(account)[j])
                && configs[engine::touched(account)[j]].token_id == account.token_id,
    ensures
        ({
            let id = engine::touched(account)[i];
            &&& !configs.contains_key(id) ==> engine::account_state(configs, markets, account) == Err::<
                AccountMarginState,
                MarginError,
            >(MarginError::UnknownMarket(id))
            &&& configs.contains_key(id) && configs[id].token_id != account.token_id ==> engine::account_state(
                configs,
                markets,
                account,
            ) == Err::<AccountMarginState, MarginError>(
                MarginError::TokenMismatch {
                    market_id: MarketId(id),
                    market_token: configs[id].token_id,
                    account_token: account.token_id,
                },
            )
        }),
{
    let ids = engine::touched(account);
    lemma_no_fault(configs, account, i as nat);
    if engine::token_fault(configs, account, ids[i]) is Some {
        engine::lemma_fault_stays(configs, account, ids, (i + 1) as nat, ids.len());
    }
}

/// The token of an account matters to cross margin only.
pub proof fn law_isolated_accounts_may_hold_any_token(
    configs: Map<u32, MarginConfig>,
    markets: Map<u32, MarketState>,
    account: AccountModel,
    token_id: TokenId,
)
    requires
        !(account.margin_mode is Cross),
    ensures
        engine::account_state(configs, markets, account) == engine::account_state(
            configs,
            markets,
            AccountModel { token_id, ..account },
        ),
{
    let other = AccountModel { token_id, ..account };
    let ids = engine::touched(account);
    lemma_same_totals(configs, markets, account, other, ids, ids.len());
}

proof fn lemma_same_totals(
    configs: Map<u32, MarginConfig>,
    markets: Map<u32, MarketState>,
    a: AccountModel,
    b: AccountModel,
    ids: Seq<u32>,
    n: nat,
)
    requires
        a.positions == b.positions,
        a.open_orders == b.open_orders,
    ensures
        engine::totals_over(configs, markets, a, ids, n) == engine::totals_over(configs, markets, b, ids, n),
    decreases n,
{
    if n > 0 {
        lemma_same_totals(configs, markets, a, b, ids, (n - 1) as nat);
    }
}

/// An account with a position or an order in a market without a config or a state
/// has no margin state.
pub proof fn law_an_unknown_market_is_refused(
    configs: Map<u32, MarginConfig>,
    markets: Map<u32, MarketState>,
    account: AccountModel,
    i: int,
)
    requires
        0 <= i < engine::touched(account).len(),
        !configs.contains_key(engine::touched(account)[i]) || !markets.contains_key(engine::touched(account)[i]),
    ensures
        engine::account_state(configs, markets, account) is Err,
{
    let ids = engine::touched(account);
    engine::lemma_totals_stop(configs, markets, account, ids, (i + 1) as nat, ids.len());
}

} // verus!
