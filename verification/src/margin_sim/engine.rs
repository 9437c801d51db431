use vstd::prelude::*;
use std::collections::HashMap;

use crate::float_bits;
use crate::float_bits::{F64Bits, INFINITY};
use crate::float_math;
use crate::float_order;
use crate::margin_sim::error::MarginError;
use crate::margin_sim::types;
use crate::margin_sim::types::{
    AccountMarginState, AccountModel, MarginAccount, MarginConfig, MarketId, MarketState, OpenOrder, OrderSide,
    Position, LIQUIDATION_HEALTH_RATIO,
};
use crate::tick_math::fixed;
use crate::tick_math::math;
use crate::tick_math::math::unsigned_magnitude;
use crate::tick_math::{mul3_div_up_u32, mul_div_down, mul_div_up, FixedX18, MathError, ONE_MUL_YEAR};

verus! {

/// A magnitude as a margin amount: it has to fit the signed type.
pub open spec fn as_margin(r: Result<u128, MathError>) -> Result<FixedX18, MarginError> {
    match r {
        Err(e) => Err(MarginError::Math(e)),
        Ok(v) => if v > i128::MAX {
            Err(MarginError::Math(MathError::Overflow))
        } else {
            Ok(FixedX18(v as i128))
        },
    }
}

fn margin_amount(r: Result<u128, MathError>) -> (out: Result<FixedX18, MarginError>)
    ensures
        out == as_margin(r),
{
    match r {
        Err(e) => Err(MarginError::Math(e)),
        Ok(v) => if v > i128::MAX as u128 {
            Err(MarginError::Math(MathError::Overflow))
        } else {
            Ok(FixedX18(v as i128))
        },
    }
}

/// The larger of two integers.
pub open spec fn max_of(a: int, b: int) -> int {
    if a >= b {
        a
    } else {
        b
    }
}

/// Position margin of a size at a rate: the magnitude of the size times the
/// magnitude of the rate, the latter at least `k_i_thresh`, rounded down.
pub open spec fn pm_from_rate(size: FixedX18, rate: FixedX18, k_i_thresh: FixedX18) -> Result<
    FixedX18,
    MarginError,
> {
    as_margin(
        math::down_outcome(
            math::magnitude(size.0 as int) * max_of(
                math::magnitude(rate.0 as int),
                k_i_thresh.0 as int,
            ),
            FixedX18::SCALE as int,
        ),
    )
}

fn calc_pm_from_rate(abs_size: FixedX18, rate: FixedX18, k_i_thresh: FixedX18) -> (r: Result<
    FixedX18,
    MarginError,
>)
    requires
        rate.0 != i128::MIN,
    ensures
        r == pm_from_rate(abs_size, rate, k_i_thresh),
{
    let effective_rate: FixedX18 = rate.abs().max(k_i_thresh);
    margin_amount(
        mul_div_down(
            unsigned_magnitude(abs_size.0),
            unsigned_magnitude(effective_rate.0),
            FixedX18::SCALE as u128,
        ),
    )
}

/// Total size and total position margin of a run of orders.
pub open spec fn orders_pm(orders: Seq<OpenOrder>, k_i_thresh: FixedX18) -> Result<
    (FixedX18, FixedX18),
    MarginError,
>
    decreases orders.len(),
{
    if orders.len() == 0 {
        Ok((FixedX18(0), FixedX18(0)))
    } else {
        match orders_pm(orders.drop_last(), k_i_thresh) {
            Err(e) => Err(e),
            Ok((size, pm)) => match pm_from_rate(orders.last().size, orders.last().rate, k_i_thresh) {
                Err(e) => Err(e),
                Ok(own) => Ok(
                    (
                        FixedX18(fixed::wrapped_add(size.0, orders.last().size.0)),
                        FixedX18(fixed::wrapped_add(pm.0, own.0)),
                    ),
                ),
            },
        }
    }
}

/// Every order rate that the sums come to has a magnitude. An error ends the
/// sums, so the orders behind it do not matter.
pub open spec fn orders_computable(orders: Seq<OpenOrder>, k_i_thresh: FixedX18) -> bool {
    forall|i: int|
        0 <= i < orders.len() && orders_pm(orders.take(i), k_i_thresh) is Ok ==> (
        #[trigger] orders[i]).rate.0 != i128::MIN
}

fn sum_orders_pm(orders: &Vec<OpenOrder>, k_i_thresh: FixedX18) -> (r: Result<
    (FixedX18, FixedX18),
    MarginError,
>)
    requires
        orders_computable(orders@, k_i_thresh),
    ensures
        r == orders_pm(orders@, k_i_thresh),
{
    let mut sum_size: FixedX18 = FixedX18::zero();
    let mut sum_pm: FixedX18 = FixedX18::zero();
    let mut i: usize = 0;
    assert(orders@.take(0) == Seq::<OpenOrder>::empty());
    while i < orders.len()
        invariant
            i <= orders.len(),
            orders_computable(orders@, k_i_thresh),
            orders_pm(orders@.take(i as int), k_i_thresh) == Ok::<(FixedX18, FixedX18), MarginError>(
                (sum_size, sum_pm),
            ),
        decreases orders.len() - i,
    {
        let order: OpenOrder = orders[i];
        proof {
            assert(orders@.take(i + 1).drop_last() == orders@.take(i as int));
            assert(orders@.take(i + 1).last() == order);
            assert(orders@[i as int].rate.0 != i128::MIN);
        }
        match calc_pm_from_rate(order.size, order.rate, k_i_thresh) {
            Err(e) => {
                proof {
                    lemma_orders_pm_stops(orders@, i + 1, k_i_thresh);
                }
                return Err(e);
            },
            Ok(own) => {
                sum_size = sum_size + order.size;
                sum_pm = sum_pm + own;
            },
        }
        i = i + 1;
    }
    assert(orders@.take(i as int) == orders@);
    Ok((sum_size, sum_pm))
}

fn are_orders_computable(orders: &Vec<OpenOrder>, k_i_thresh: FixedX18) -> (r: bool)
    ensures
        r == orders_computable(orders@, k_i_thresh),
{
    let mut i: usize = 0;
    assert(orders@.take(0) == Seq::<OpenOrder>::empty());
    while i < orders.len()
        invariant
            i <= orders.len(),
            orders_pm(orders@.take(i as int), k_i_thresh) is Ok,
            forall|j: int| 0 <= j < i ==> (#[trigger] orders@[j]).rate.0 != i128::MIN,
        decreases orders.len() - i,
    {
        let order: OpenOrder = orders[i];
        if order.rate.0 == i128::MIN {
            assert(orders@[i as int].rate.0 == i128::MIN);
            return false;
        }
        proof {
            assert(orders@.take(i + 1).drop_last() == orders@.take(i as int));
            assert(orders@.take(i + 1).last() == order);
        }
        match calc_pm_from_rate(order.size, order.rate, k_i_thresh) {
            Err(_) => {
                proof {
                    assert forall|j: int|
                        0 <= j < orders@.len() && orders_pm(orders@.take(j), k_i_thresh) is Ok implies (
                    #[trigger] orders@[j]).rate.0 != i128::MIN by {
                        if j > i {
                            assert(orders@.take(j).take(i + 1) == orders@.take(i + 1));
                            lemma_orders_pm_stops(orders@.take(j), i + 1, k_i_thresh);
                        }
                    }
                }
                return true;
            },
            Ok(_) => {},
        }
        i = i + 1;
    }
    true
}

proof fn lemma_orders_pm_stops(orders: Seq<OpenOrder>, n: int, k_i_thresh: FixedX18)
    requires
        0 <= n <= orders.len(),
        orders_pm(orders.take(n), k_i_thresh) is Err,
    ensures
        orders_pm(orders, k_i_thresh) == orders_pm(orders.take(n), k_i_thresh),
    decreases orders.len(),
{
    if n == orders.len() {
        assert(orders.take(n) == orders);
    } else {
        assert(orders.drop_last().take(n) == orders.take(n));
        lemma_orders_pm_stops(orders.drop_last(), n, k_i_thresh);
    }
}

/// Worst-case margin of one side: orders that only close the position add
/// nothing, orders on the position's own side add to it, and orders that flip
/// it count for what exceeds the position alone.
pub open spec fn side_pm(
    closes_position: bool,
    adds_to_position: bool,
    orders_size: FixedX18,
    orders_margin: FixedX18,
    abs_size: FixedX18,
    pm_alone: FixedX18,
) -> FixedX18 {
    if closes_position && orders_size.0 <= abs_size.0 {
        FixedX18(0)
    } else if adds_to_position {
        FixedX18(fixed::wrapped_add(orders_margin.0, pm_alone.0))
    } else if orders_margin.0 > pm_alone.0 {
        FixedX18(fixed::wrapped_sub(orders_margin.0, pm_alone.0))
    } else {
        FixedX18(0)
    }
}

/// Worst-case position margin, the position netted against each side's orders.
pub open spec fn worst_case_pm(
    size: FixedX18,
    mark_rate: FixedX18,
    k_i_thresh: FixedX18,
    long_orders: Seq<OpenOrder>,
    short_orders: Seq<OpenOrder>,
) -> Result<FixedX18, MarginError> {
    match pm_from_rate(size, mark_rate, k_i_thresh) {
        Err(e) => Err(e),
        Ok(alone) => match orders_pm(long_orders, k_i_thresh) {
            Err(e) => Err(e),
            Ok((long_size, long_pm)) => match orders_pm(short_orders, k_i_thresh) {
                Err(e) => Err(e),
                Ok((short_size, short_pm)) => {
                    let abs = fixed::abs_of(size);
                    let long = side_pm(size.0 < 0, size.0 > 0, long_size, long_pm, abs, alone);
                    let short = side_pm(size.0 > 0, size.0 < 0, short_size, short_pm, abs, alone);
                    Ok(
                        if long.0 >= short.0 {
                            long
                        } else {
                            short
                        },
                    )
                },
            },
        },
    }
}

/// Every magnitude that the worst case takes before its first error exists.
pub open spec fn worst_case_computable(
    size: FixedX18,
    mark_rate: FixedX18,
    k_i_thresh: FixedX18,
    long_orders: Seq<OpenOrder>,
    short_orders: Seq<OpenOrder>,
) -> bool {
    &&& size.0 != i128::MIN
    &&& mark_rate.0 != i128::MIN
    &&& pm_from_rate(size, mark_rate, k_i_thresh) is Ok ==> {
        &&& orders_computable(long_orders, k_i_thresh)
        &&& orders_pm(long_orders, k_i_thresh) is Ok ==> orders_computable(short_orders, k_i_thresh)
    }
}

fn is_worst_case_computable(
    signed_size: FixedX18,
    mark_rate: FixedX18,
    k_i_thresh: FixedX18,
    long_orders: &Vec<OpenOrder>,
    short_orders: &Vec<OpenOrder>,
) -> (r: bool)
    ensures
        r == worst_case_computable(
            signed_size,
            mark_rate,
            k_i_thresh,
            long_orders@,
            short_orders@,
        ),
{
    if signed_size.0 == i128::MIN || mark_rate.0 == i128::MIN {
        return false;
    }
    if calc_pm_from_rate(signed_size.abs(), mark_rate, k_i_thresh).is_err() {
        return true;
    }
    if !are_orders_computable(long_orders, k_i_thresh) {
        return false;
    }
    if sum_orders_pm(long_orders, k_i_thresh).is_err() {
        return true;
    }
    are_orders_computable(short_orders, k_i_thresh)
}

fn net_side(
    closes_position: bool,
    adds_to_position: bool,
    orders_size: FixedX18,
    orders_margin: FixedX18,
    abs_size: FixedX18,
    pm_alone: FixedX18,
) -> (r: FixedX18)
    ensures
        r == side_pm(
            closes_position,
            adds_to_position,
            orders_size,
            orders_margin,
            abs_size,
            pm_alone,
        ),
{
    if closes_position && orders_size.0 <= abs_size.0 {
        FixedX18::zero()
    } else if adds_to_position {
        orders_margin + pm_alone
    } else if orders_margin.0 > pm_alone.0 {
        orders_margin - pm_alone
    } else {
        FixedX18::zero()
    }
}

fn calc_pm(
    signed_size: FixedX18,
    mark_rate: FixedX18,
    k_i_thresh: FixedX18,
    long_orders: &Vec<OpenOrder>,
    short_orders: &Vec<OpenOrder>,
) -> (r: Result<FixedX18, MarginError>)
    requires
        worst_case_computable(
            signed_size,
            mark_rate,
            k_i_thresh,
            long_orders@,
            short_orders@,
        ),
    ensures
        r == worst_case_pm(signed_size, mark_rate, k_i_thresh, long_orders@, short_orders@),
{
    let abs_size: FixedX18 = signed_size.abs();
    let pm_alone: FixedX18 = match calc_pm_from_rate(abs_size, mark_rate, k_i_thresh) {
        Ok(pm) => pm,
        Err(e) => {
            return Err(e);
        },
    };
    let (b_long, pm_long) = match sum_orders_pm(long_orders, k_i_thresh) {
        Ok(sums) => sums,
        Err(e) => {
            return Err(e);
        },
    };
    let pm_total_long: FixedX18 = net_side(
        signed_size.is_negative(),
        signed_size.is_positive(),
        b_long,
        pm_long,
        abs_size,
        pm_alone,
    );
    let (b_short, pm_short) = match sum_orders_pm(short_orders, k_i_thresh) {
        Ok(sums) => sums,
        Err(e) => {
            return Err(e);
        },
    };
    let pm_total_short: FixedX18 = net_side(
        signed_size.is_positive(),
        signed_size.is_negative(),
        b_short,
        pm_short,
        abs_size,
        pm_alone,
    );
    Ok(pm_total_long.max(pm_total_short))
}

/// Initial margin of a position margin: scaled by the ratio and by the time to
/// maturity, the latter at least the threshold, rounded up.
pub open spec fn im_of(pm: FixedX18, cfg: MarginConfig, market: MarketState) -> Result<
    FixedX18,
    MarginError,
> {
    as_margin(
        math::up_outcome(
            math::magnitude(pm.0 as int) * math::magnitude(cfg.k_im.0 as int) * max_of(
                market.time_to_maturity_secs as int,
                cfg.t_thresh as int,
            ),
            ONE_MUL_YEAR as int,
        ),
    )
}

fn max_secs(a: u32, b: u32) -> (r: u32)
    ensures
        r == max_of(a as int, b as int),
{
    if a >= b {
        a
    } else {
        b
    }
}

fn calc_im_from_pm(pm: FixedX18, cfg: &MarginConfig, market: &MarketState) -> (r: Result<
    FixedX18,
    MarginError,
>)
    ensures
        r == im_of(pm, *cfg, *market),
{
    let t: u32 = max_secs(market.time_to_maturity_secs, cfg.t_thresh);
    margin_amount(
        mul3_div_up_u32(
            unsigned_magnitude(pm.0),
            unsigned_magnitude(cfg.k_im.0),
            t,
            ONE_MUL_YEAR as u128,
        ),
    )
}

/// The threshold of the near-maturity rule: `t_thresh * k_mm` rounded up, at
/// most what 32 bits of seconds hold.
pub open spec fn scaled_threshold(cfg: MarginConfig) -> Result<u32, MathError> {
    match math::up_outcome(
        cfg.t_thresh * math::magnitude(cfg.k_mm.0 as int),
        FixedX18::SCALE as int,
    ) {
        Err(e) => Err(e),
        Ok(v) => Ok(
            if v > u32::MAX {
                u32::MAX
            } else {
                v as u32
            },
        ),
    }
}

/// Whether a raw value is representable.
pub open spec fn fits(v: int) -> bool {
    i128::MIN <= v <= i128::MAX
}

/// Maintenance margin away from maturity: the position margin scaled by the
/// ratio and by the time to maturity, the latter at least the threshold.
pub open spec fn regular_mm(size: FixedX18, market: MarketState, cfg: MarginConfig) -> Result<
    FixedX18,
    MarginError,
> {
    match pm_from_rate(size, market.mark_rate, cfg.k_i_thresh) {
        Err(e) => Err(e),
        Ok(pm) => as_margin(
            math::up_outcome(
                math::magnitude(pm.0 as int) * math::magnitude(cfg.k_mm.0 as int) * max_of(
                    market.time_to_maturity_secs as int,
                    cfg.t_thresh as int,
                ),
                ONE_MUL_YEAR as int,
            ),
        ),
    }
}

/// Maintenance margin close to maturity: the mark rate for the time left and
/// the least rate for what is missing to the scaled threshold.
pub open spec fn near_maturity_mm(
    size: FixedX18,
    market: MarketState,
    cfg: MarginConfig,
    threshold: u32,
) -> Result<FixedX18, MarginError> {
    let left = math::magnitude(market.mark_rate.0 as int) * market.time_to_maturity_secs;
    let missing = cfg.k_i_thresh.0 * (threshold - market.time_to_maturity_secs);
    if !fits(left) || !fits(missing) || !fits(left + missing) {
        Err(MarginError::Math(MathError::Overflow))
    } else {
        as_margin(
            math::up_outcome(
                math::magnitude(size.0 as int) * math::magnitude(left + missing),
                ONE_MUL_YEAR as int,
            ),
        )
    }
}

/// Whether the position gains from the rate that it is marked at.
pub open spec fn same_sign(size: FixedX18, mark_rate: FixedX18) -> bool {
    (size.0 > 0 && mark_rate.0 > 0) || (size.0 < 0 && mark_rate.0 < 0)
}

/// Maintenance margin of a position.
pub open spec fn mm_of(size: FixedX18, market: MarketState, cfg: MarginConfig) -> Result<
    FixedX18,
    MarginError,
> {
    if math::magnitude(market.mark_rate.0 as int) > cfg.k_i_thresh.0 {
        match scaled_threshold(cfg) {
            Err(e) => Err(MarginError::Math(e)),
            Ok(threshold) => if market.time_to_maturity_secs < threshold && same_sign(
                size,
                market.mark_rate,
            ) {
                near_maturity_mm(size, market, cfg, threshold)
            } else {
                regular_mm(size, market, cfg)
            },
        }
    } else {
        regular_mm(size, market, cfg)
    }
}

fn calc_mm(signed_size: FixedX18, market: &MarketState, cfg: &MarginConfig) -> (r: Result<
    FixedX18,
    MarginError,
>)
    requires
        signed_size.0 != i128::MIN,
        market.mark_rate.0 != i128::MIN,
    ensures
        r == mm_of(signed_size, *market, *cfg),
{
    let abs_size: FixedX18 = signed_size.abs();
    let abs_mark_rate: FixedX18 = market.mark_rate.abs();
    let t: u32 = market.time_to_maturity_secs;
    if abs_mark_rate.0 > cfg.k_i_thresh.0 {
        let scaled_t_thresh: u32 = match mul_div_up(
            cfg.t_thresh as u128,
            unsigned_magnitude(cfg.k_mm.0),
            FixedX18::SCALE as u128,
        ) {
            Err(e) => {
                return Err(MarginError::Math(e));
            },
            Ok(v) => if v > u32::MAX as u128 {
                u32::MAX
            } else {
                v as u32
            },
        };
        let gains: bool = !signed_size.is_zero() && !market.mark_rate.is_zero()
            && signed_size.is_positive() == market.mark_rate.is_positive();
        if t < scaled_t_thresh && gains {
            let left: i128 = match abs_mark_rate.0.checked_mul(t as i128) {
                Some(v) => v,
                None => {
                    return Err(MarginError::Math(MathError::Overflow));
                },
            };
            let remaining: i128 = (scaled_t_thresh - t) as i128;
            let missing: i128 = match cfg.k_i_thresh.0.checked_mul(remaining) {
                Some(v) => v,
                None => {
                    return Err(MarginError::Math(MathError::Overflow));
                },
            };
            let sum: i128 = match left.checked_add(missing) {
                Some(v) => v,
                None => {
                    return Err(MarginError::Math(MathError::Overflow));
                },
            };
            return margin_amount(
                mul_div_up(
                    unsigned_magnitude(abs_size.0),
                    unsigned_magnitude(sum),
                    ONE_MUL_YEAR as u128,
                ),
            );
        }
    }
    let pm: FixedX18 = match calc_pm_from_rate(abs_size, market.mark_rate, cfg.k_i_thresh) {
        Ok(pm) => pm,
        Err(e) => {
            return Err(e);
        },
    };
    let t_eff: u32 = max_secs(t, cfg.t_thresh);
    margin_amount(
        mul3_div_up_u32(
            unsigned_magnitude(pm.0),
            unsigned_magnitude(cfg.k_mm.0),
            t_eff,
            ONE_MUL_YEAR as u128,
        ),
    )
}

/// A strictly ascending list of ids with one more id.
pub open spec fn with_id(ids: Seq<u32>, id: u32) -> Seq<u32>
    decreases ids.len(),
{
    if ids.len() == 0 {
        seq![id]
    } else if ids.last() < id {
        ids.push(id)
    } else if ids.last() == id {
        ids
    } else {
        with_id(ids.drop_last(), id).push(ids.last())
    }
}

/// The distinct ids of a list, ascending.
pub open spec fn ascending(all: Seq<u32>) -> Seq<u32>
    decreases all.len(),
{
    if all.len() == 0 {
        Seq::empty()
    } else {
        with_id(ascending(all.drop_last()), all.last())
    }
}

/// Each id is greater than the one before it.
pub open spec fn strictly_ascends(ids: Seq<u32>) -> bool {
    forall|i: int, j: int| 0 <= i < j < ids.len() ==> #[trigger] ids[i] < #[trigger] ids[j]
}

/// The market ids of an account's positions and orders, as they are listed.
pub open spec fn listed_markets(positions: Seq<Position>, orders: Seq<OpenOrder>) -> Seq<u32> {
    positions.map_values(|p: Position| p.market_id.0) + orders.map_values(
        |o: OpenOrder| o.market_id.0,
    )
}

/// The markets that an account touches, ascending.
pub open spec fn touched(account: AccountModel) -> Seq<u32> {
    ascending(listed_markets(account.positions, account.open_orders))
}

proof fn lemma_with_id(ids: Seq<u32>, id: u32, pos: int)
    requires
        strictly_ascends(ids),
        0 <= pos <= ids.len(),
        forall|i: int| 0 <= i < pos ==> #[trigger] ids[i] < id,
        forall|i: int| pos <= i < ids.len() ==> #[trigger] ids[i] > id,
    ensures
        with_id(ids, id) == ids.insert(pos, id),
    decreases ids.len(),
{
    if ids.len() == 0 {
        assert(ids.insert(pos, id) == seq![id]);
    } else if pos == ids.len() {
        assert(ids[ids.len() - 1] < id);
        assert(ids.insert(pos, id) == ids.push(id));
    } else {
        assert(ids[ids.len() - 1] > id);
        lemma_with_id(ids.drop_last(), id, pos);
        assert(ids.insert(pos, id) == ids.drop_last().insert(pos, id).push(ids.last()));
    }
}

proof fn lemma_with_known_id(ids: Seq<u32>, id: u32, pos: int)
    requires
        strictly_ascends(ids),
        0 <= pos < ids.len(),
        ids[pos] == id,
    ensures
        with_id(ids, id) == ids,
    decreases ids.len(),
{
    if pos < ids.len() - 1 {
        assert(ids[pos] < ids[ids.len() - 1]);
        lemma_with_known_id(ids.drop_last(), id, pos);
        assert(ids.drop_last().push(ids.last()) == ids);
    }
}

/// Adds an id to a strictly ascending list.
fn insert_id(ids: &mut Vec<u32>, id: u32)
    requires
        strictly_ascends(old(ids)@),
    ensures
        strictly_ascends(final(ids)@),
        final(ids)@ == with_id(old(ids)@, id),
{
    let mut pos: usize = 0;
    while pos < ids.len() && ids[pos] < id
        invariant
            pos <= ids.len(),
            forall|i: int| 0 <= i < pos ==> #[trigger] ids@[i] < id,
        decreases ids.len() - pos,
    {
        pos = pos + 1;
    }
    let ghost before = ids@;
    if pos < ids.len() && ids[pos] == id {
        proof {
            lemma_with_known_id(before, id, pos as int);
        }
        return ;
    }
    proof {
        assert forall|i: int| pos <= i < before.len() implies #[trigger] before[i] > id by {
            if i > pos {
                assert(before[pos as int] < before[i]);
            }
        }
        lemma_with_id(before, id, pos as int);
    }
    ids.insert(pos, id);
}

/// Running totals over the markets of an account.
#[derive(Clone, Copy)]
pub struct Totals {
    pub pv: FixedX18,
    pub im: FixedX18,
    pub mm: FixedX18,
}

/// The first position that an account lists in a market.
pub open spec fn position_in(positions: Seq<Position>, id: u32) -> Option<Position>
    decreases positions.len(),
{
    if positions.len() == 0 {
        None
    } else if positions[0].market_id.0 == id {
        Some(positions[0])
    } else {
        position_in(positions.drop_first(), id)
    }
}

/// The size that an account holds in a market.
pub open spec fn size_in(positions: Seq<Position>, id: u32) -> FixedX18 {
    match position_in(positions, id) {
        Some(p) => p.size,
        None => FixedX18(0),
    }
}

/// An account's resting orders on one side of a market.
pub open spec fn orders_in(orders: Seq<OpenOrder>, id: u32, side: OrderSide) -> Seq<OpenOrder> {
    orders.filter(|o: OpenOrder| o.market_id.0 == id && o.side == side)
}

fn find_position(positions: &Vec<Position>, id: u32) -> (r: Option<Position>)
    ensures
        r == position_in(positions@, id),
{
    let mut i: usize = 0;
    assert(positions@.skip(0) == positions@);
    while i < positions.len()
        invariant
            i <= positions.len(),
            position_in(positions@.skip(i as int), id) == position_in(positions@, id),
        decreases positions.len() - i,
    {
        assert(positions@.skip(i as int).drop_first() == positions@.skip(i + 1));
        if positions[i].market_id.0 == id {
            return Some(positions[i]);
        }
        i = i + 1;
    }
    None
}

fn select_orders(orders: &Vec<OpenOrder>, id: u32, side: OrderSide) -> (r: Vec<OpenOrder>)
    ensures
        r@ == orders_in(orders@, id, side),
{
    let mut out: Vec<OpenOrder> = Vec::new();
    let mut i: usize = 0;
    proof {
        reveal(Seq::filter);
        assert(orders@.take(0) == Seq::<OpenOrder>::empty());
    }
    while i < orders.len()
        invariant
            i <= orders.len(),
            out@ == orders_in(orders@.take(i as int), id, side),
        decreases orders.len() - i,
    {
        let order: OpenOrder = orders[i];
        proof {
            reveal(Seq::filter);
            assert(orders@.take(i + 1).drop_last() == orders@.take(i as int));
            assert(orders@.take(i + 1).last() == order);
        }
        if order.market_id.0 == id && order.side == side {
            out.push(order);
        }
        i = i + 1;
    }
    assert(orders@.take(i as int) == orders@);
    out
}

/// A running total with one more amount.
pub open spec fn accrued(total: FixedX18, amount: FixedX18) -> Result<FixedX18, MarginError> {
    match fixed::checked_sum(total, amount) {
        Some(v) => Ok(v),
        None => Err(MarginError::Math(MathError::Overflow)),
    }
}

fn accrue(total: FixedX18, amount: FixedX18) -> (r: Result<FixedX18, MarginError>)
    ensures
        r == accrued(total, amount),
{
    match total.checked_add(amount) {
        Some(v) => Ok(v),
        None => Err(MarginError::Math(MathError::Overflow)),
    }
}

/// Total value with one market's position, where the account has one there.
pub open spec fn with_value(pv: FixedX18, position: Option<Position>, market: MarketState) -> Result<
    FixedX18,
    MarginError,
> {
    match position {
        None => Ok(pv),
        Some(p) => match types::value_of(p.size, market) {
            Err(e) => Err(MarginError::Math(e)),
            Ok(value) => accrued(pv, value),
        },
    }
}

/// Totals with one more market.
pub open spec fn with_market(
    totals: Totals,
    account: AccountModel,
    id: u32,
    cfg: MarginConfig,
    market: MarketState,
) -> Result<Totals, MarginError> {
    let position = position_in(account.positions, id);
    let size = size_in(account.positions, id);
    let long_orders = orders_in(account.open_orders, id, OrderSide::Long);
    let short_orders = orders_in(account.open_orders, id, OrderSide::Short);
    match with_value(totals.pv, position, market) {
        Err(e) => Err(e),
        Ok(pv) => match worst_case_pm(
            size,
            market.mark_rate,
            cfg.k_i_thresh,
            long_orders,
            short_orders,
        ) {
            Err(e) => Err(e),
            Ok(pm) => match im_of(pm, cfg, market) {
                Err(e) => Err(e),
                Ok(own_im) => match mm_of(size, market, cfg) {
                    Err(e) => Err(e),
                    Ok(own_mm) => match accrued(totals.im, own_im) {
                        Err(e) => Err(e),
                        Ok(im) => match accrued(totals.mm, own_mm) {
                            Err(e) => Err(e),
                            Ok(mm) => Ok(Totals { pv, im, mm }),
                        },
                    },
                },
            },
        },
    }
}

/// Totals over the first `n` of a list of markets, or the first error in order.
pub open spec fn totals_over(
    configs: Map<u32, MarginConfig>,
    markets: Map<u32, MarketState>,
    account: AccountModel,
    ids: Seq<u32>,
    n: nat,
) -> Result<Totals, MarginError>
    decreases n,
{
    if n == 0 {
        Ok(Totals { pv: FixedX18(0), im: FixedX18(0), mm: FixedX18(0) })
    } else {
        match totals_over(configs, markets, account, ids, (n - 1) as nat) {
            Err(e) => Err(e),
            Ok(totals) => {
                let id = ids[n - 1];
                if !configs.contains_key(id) || !markets.contains_key(id) {
                    Err(MarginError::UnknownMarket(id))
                } else {
                    with_market(totals, account, id, configs[id], markets[id])
                }
            },
        }
    }
}

/// What is wrong with a market of a cross account, if anything.
pub open spec fn token_fault(
    configs: Map<u32, MarginConfig>,
    account: AccountModel,
    id: u32,
) -> Option<MarginError> {
    if !configs.contains_key(id) {
        Some(MarginError::UnknownMarket(id))
    } else if configs[id].token_id != account.token_id {
        Some(
            MarginError::TokenMismatch {
                market_id: MarketId(id),
                market_token: configs[id].token_id,
                account_token: account.token_id,
            },
        )
    } else {
        None
    }
}

/// The first fault among the first `n` of a list of markets.
pub open spec fn first_token_fault(
    configs: Map<u32, MarginConfig>,
    account: AccountModel,
    ids: Seq<u32>,
    n: nat,
) -> Option<MarginError>
    decreases n,
{
    if n == 0 {
        None
    } else {
        match first_token_fault(configs, account, ids, (n - 1) as nat) {
            Some(e) => Some(e),
            None => token_fault(configs, account, ids[n - 1]),
        }
    }
}

/// Total value over total maintenance margin; infinite without a requirement.
pub open spec fn health_ratio_of(total_value: FixedX18, total_mm: FixedX18) -> F64Bits {
    if total_mm.0 == 0 {
        F64Bits(INFINITY)
    } else {
        float_math::quotient(fixed::to_float(total_value), fixed::to_float(total_mm))
    }
}

fn health_ratio_f64(total_value: FixedX18, total_mm: FixedX18) -> (r: F64Bits)
    ensures
        r == health_ratio_of(total_value, total_mm),
{
    if total_mm.is_zero() {
        return F64Bits(INFINITY);
    }
    total_value.to_f64().over(total_mm.to_f64())
}

/// The margin state that totals and cash amount to.
pub open spec fn state_of(cash: FixedX18, totals: Totals) -> Result<AccountMarginState, MarginError> {
    match accrued(cash, totals.pv) {
        Err(e) => Err(e),
        Ok(total_value) => Ok(
            AccountMarginState {
                total_value,
                total_im: totals.im,
                total_mm: totals.mm,
                health_ratio: health_ratio_of(total_value, totals.mm),
                is_liquidatable: float_bits::less(
                    health_ratio_of(total_value, totals.mm),
                    F64Bits(LIQUIDATION_HEALTH_RATIO),
                ),
            },
        ),
    }
}

/// The margin state of an account, or why it cannot be computed. The token
/// check of a cross account comes before any amount.
pub open spec fn account_state(
    configs: Map<u32, MarginConfig>,
    markets: Map<u32, MarketState>,
    account: AccountModel,
) -> Result<AccountMarginState, MarginError> {
    let ids = touched(account);
    let fault = if account.margin_mode is Cross {
        first_token_fault(configs, account, ids, ids.len())
    } else {
        None
    };
    match fault {
        Some(e) => Err(e),
        None => match totals_over(configs, markets, account, ids, ids.len()) {
            Err(e) => Err(e),
            Ok(totals) => state_of(account.cash, totals),
        },
    }
}

/// Total value minus initial margin of a margin state.
pub open spec fn headroom_of(state: Result<AccountMarginState, MarginError>) -> Result<
    FixedX18,
    MarginError,
> {
    match state {
        Err(e) => Err(e),
        Ok(st) => if fits(st.total_value.0 - st.total_im.0) {
            Ok(FixedX18((st.total_value.0 - st.total_im.0) as i128))
        } else {
            Err(MarginError::Math(MathError::Overflow))
        },
    }
}

/// Every magnitude that one market's margin takes before its first error
/// exists.
pub open spec fn market_computable(
    totals: Totals,
    account: AccountModel,
    id: u32,
    cfg: MarginConfig,
    market: MarketState,
) -> bool {
    with_value(totals.pv, position_in(account.positions, id), market) is Ok
        ==> worst_case_computable(
        size_in(account.positions, id),
        market.mark_rate,
        cfg.k_i_thresh,
        orders_in(account.open_orders, id, OrderSide::Long),
        orders_in(account.open_orders, id, OrderSide::Short),
    )
}

/// Every magnitude that the totals take on their way from the first `i` of a
/// list of markets to the next one exists.
pub open spec fn step_computable(
    configs: Map<u32, MarginConfig>,
    markets: Map<u32, MarketState>,
    account: AccountModel,
    ids: Seq<u32>,
    i: int,
) -> bool {
    configs.contains_key(ids[i]) && markets.contains_key(ids[i]) ==> (totals_over(
        configs,
        markets,
        account,
        ids,
        i as nat,
    ) matches Ok(totals) ==> market_computable(
        totals,
        account,
        ids[i],
        configs[ids[i]],
        markets[ids[i]],
    ))
}

/// Every magnitude that an account's margin takes before its first error
/// exists: only the least raw value has none, and no size, order rate or mark
/// rate that the computation comes to is that value.
pub open spec fn computable(
    configs: Map<u32, MarginConfig>,
    markets: Map<u32, MarketState>,
    account: AccountModel,
) -> bool {
    let ids = touched(account);
    (account.margin_mode is Cross ==> first_token_fault(configs, account, ids, ids.len()) is None)
        ==> forall|i: int|
        0 <= i < ids.len() ==> #[trigger] step_computable(configs, markets, account, ids, i)
}

/// Shadow margin engine over the configs and states of the known markets.
pub struct MarginEngine {
    configs: HashMap<u32, MarginConfig>,
    market_states: HashMap<u32, MarketState>,
}

impl MarginEngine {
    /// Margin config by market.
    pub closed spec fn config_map(&self) -> Map<u32, MarginConfig> {
        self.configs@
    }

    /// Market state by market.
    pub closed spec fn state_map(&self) -> Map<u32, MarketState> {
        self.market_states@
    }

    /// An engine over the given markets, keyed by market id.
    pub fn new(
        configs: HashMap<u32, MarginConfig>,
        market_states: HashMap<u32, MarketState>,
    ) -> (r: Self)
        ensures
            r.config_map() == configs@,
            r.state_map() == market_states@,
    {
        MarginEngine { configs, market_states }
    }

    /// Sets the config of a market.
    pub fn insert_config(&mut self, market_id: MarketId, config: MarginConfig)
        ensures
            final(self).config_map() == old(self).config_map().insert(market_id.0, config),
            final(self).state_map() == old(self).state_map(),
    {
        self.configs.insert(market_id.0, config);
    }

    /// Sets the mark rate and time to maturity of a market.
    pub fn update_market_state(&mut self, market_id: MarketId, state: MarketState)
        ensures
            final(self).state_map() == old(self).state_map().insert(market_id.0, state),
            final(self).config_map() == old(self).config_map(),
    {
        self.market_states.insert(market_id.0, state);
    }

    /// Seconds until maturity: zero once expired, at most what 32 bits hold.
    pub fn seconds_to_maturity(maturity_ts: u64, now_ts: u64) -> (r: u32)
        ensures
            maturity_ts <= now_ts ==> r == 0,
            now_ts < maturity_ts && maturity_ts - now_ts <= u32::MAX ==> r == maturity_ts - now_ts,
            maturity_ts - now_ts > u32::MAX ==> r == u32::MAX,
    {
        if maturity_ts <= now_ts {
            0
        } else {
            let left: u64 = maturity_ts - now_ts;
            if left > u32::MAX as u64 {
                u32::MAX
            } else {
                left as u32
            }
        }
    }

    fn config(&self, market_id: u32) -> (r: Result<MarginConfig, MarginError>)
        ensures
            r == (if self.config_map().contains_key(market_id) {
                Ok::<MarginConfig, MarginError>(self.config_map()[market_id])
            } else {
                Err(MarginError::UnknownMarket(market_id))
            }),
    {
        match self.configs.get(&market_id) {
            Some(cfg) => Ok(*cfg),
            None => Err(MarginError::UnknownMarket(market_id)),
        }
    }

    fn market(&self, market_id: u32) -> (r: Result<MarketState, MarginError>)
        ensures
            r == (if self.state_map().contains_key(market_id) {
                Ok::<MarketState, MarginError>(self.state_map()[market_id])
            } else {
                Err(MarginError::UnknownMarket(market_id))
            }),
    {
        match self.market_states.get(&market_id) {
            Some(state) => Ok(*state),
            None => Err(MarginError::UnknownMarket(market_id)),
        }
    }

    fn markets_touched(&self, account: &MarginAccount) -> (r: Vec<u32>)
        ensures
            r@ == touched(account@),
            strictly_ascends(r@),
    {
        let mut ids: Vec<u32> = Vec::new();
        let ghost listed = listed_markets(account.positions@, account.open_orders@);
        let mut i: usize = 0;
        assert(listed.take(0) == Seq::<u32>::empty());
        while i < account.positions.len()
            invariant
                i <= account.positions.len(),
                listed == listed_markets(account.positions@, account.open_orders@),
                ids@ == ascending(listed.take(i as int)),
                strictly_ascends(ids@),
            decreases account.positions.len() - i,
        {
            proof {
                assert(listed.take(i + 1).drop_last() == listed.take(i as int));
                assert(listed.take(i + 1).last() == account.positions[i as int].market_id.0);
            }
            insert_id(&mut ids, account.positions[i].market_id.0);
            i = i + 1;
        }
        let mut j: usize = 0;
        let ghost offset = account.positions.len();
        while j < account.open_orders.len()
            invariant
                j <= account.open_orders.len(),
                offset == account.positions.len(),
                listed == listed_markets(account.positions@, account.open_orders@),
                ids@ == ascending(listed.take(offset + j)),
                strictly_ascends(ids@),
            decreases account.open_orders.len() - j,
        {
            proof {
                let n = offset + j;
                assert(listed.take(n + 1).drop_last() == listed.take(n));
                assert(listed.take(n + 1).last() == account.open_orders[j as int].market_id.0);
            }
            insert_id(&mut ids, account.open_orders[j].market_id.0);
            j = j + 1;
        }
        assert(listed.take(offset + j) == listed);
        ids
    }

    /// A cross account nets everything together, so every market that it
    /// touches has to settle in the account's token.
    fn check_cross_token_consistency(&self, account: &MarginAccount) -> (r: Result<(), MarginError>)
        ensures
            r == (match first_token_fault(
                self.config_map(),
                account@,
                touched(account@),
                touched(account@).len(),
            ) {
                Some(e) => Err::<(), MarginError>(e),
                None => Ok(()),
            }),
    {
        let ids: Vec<u32> = self.markets_touched(account);
        let mut i: usize = 0;
        while i < ids.len()
            invariant
                i <= ids.len(),
                ids@ == touched(account@),
                first_token_fault(self.config_map(), account@, ids@, i as nat) is None,
            decreases ids.len() - i,
        {
            let id: u32 = ids[i];
            match self.config(id) {
                Err(e) => {
                    proof {
                        lemma_fault_stays(self.config_map(), account@, ids@, (i + 1) as nat, ids@.len());
                    }
                    return Err(e);
                },
                Ok(cfg) => {
                    if cfg.token_id != account.token_id {
                        proof {
                            lemma_fault_stays(
                                self.config_map(),
                                account@,
                                ids@,
                                (i + 1) as nat,
                                ids@.len(),
                            );
                        }
                        return Err(
                            MarginError::TokenMismatch {
                                market_id: MarketId(id),
                                market_token: cfg.token_id,
                                account_token: account.token_id,
                            },
                        );
                    }
                },
            }
            i = i + 1;
        }
        Ok(())
    }

    /// Adds one market's value, initial and maintenance margin to the totals.
    fn add_market(&self, totals: Totals, account: &MarginAccount, id: u32) -> (r: Result<
        Totals,
        MarginError,
    >)
        requires
            self.config_map().contains_key(id) && self.state_map().contains_key(id)
                ==> market_computable(
                totals,
                account@,
                id,
                self.config_map()[id],
                self.state_map()[id],
            ),
        ensures
            r == (if !self.config_map().contains_key(id) || !self.state_map().contains_key(id) {
                Err(MarginError::UnknownMarket(id))
            } else {
                with_market(totals, account@, id, self.config_map()[id], self.state_map()[id])
            }),
    {
        let cfg: MarginConfig = match self.config(id) {
            Ok(cfg) => cfg,
            Err(e) => {
                return Err(e);
            },
        };
        let market: MarketState = match self.market(id) {
            Ok(market) => market,
            Err(e) => {
                return Err(e);
            },
        };
        let position: Option<Position> = find_position(&account.positions, id);
        let (signed_size, pv) = match position {
            None => (FixedX18::zero(), totals.pv),
            Some(p) => match p.value(&market) {
                Err(e) => {
                    return Err(MarginError::Math(e));
                },
                Ok(value) => match accrue(totals.pv, value) {
                    Err(e) => {
                        return Err(e);
                    },
                    Ok(pv) => (p.size, pv),
                },
            },
        };
        let long_orders: Vec<OpenOrder> = select_orders(&account.open_orders, id, OrderSide::Long);
        let short_orders: Vec<OpenOrder> = select_orders(&account.open_orders, id, OrderSide::Short);
        let pm: FixedX18 = match calc_pm(
            signed_size,
            market.mark_rate,
            cfg.k_i_thresh,
            &long_orders,
            &short_orders,
        ) {
            Ok(pm) => pm,
            Err(e) => {
                return Err(e);
            },
        };
        let own_im: FixedX18 = match calc_im_from_pm(pm, &cfg, &market) {
            Ok(im) => im,
            Err(e) => {
                return Err(e);
            },
        };
        let own_mm: FixedX18 = match calc_mm(signed_size, &market, &cfg) {
            Ok(mm) => mm,
            Err(e) => {
                return Err(e);
            },
        };
        let im: FixedX18 = match accrue(totals.im, own_im) {
            Ok(im) => im,
            Err(e) => {
                return Err(e);
            },
        };
        let mm: FixedX18 = match accrue(totals.mm, own_mm) {
            Ok(mm) => mm,
            Err(e) => {
                return Err(e);
            },
        };
        Ok(Totals { pv, im, mm })
    }

    /// Whether every magnitude that one market's margin takes exists.
    fn is_market_computable(
        &self,
        totals: Totals,
        account: &MarginAccount,
        id: u32,
        cfg: &MarginConfig,
        market: &MarketState,
    ) -> (r: bool)
        ensures
            r == market_computable(totals, account@, id, *cfg, *market),
    {
        let signed_size: FixedX18 = match find_position(&account.positions, id) {
            None => FixedX18::zero(),
            Some(p) => match p.value(market) {
                Err(_) => {
                    return true;
                },
                Ok(value) => {
                    if accrue(totals.pv, value).is_err() {
                        return true;
                    }
                    p.size
                },
            },
        };
        let long_orders: Vec<OpenOrder> = select_orders(&account.open_orders, id, OrderSide::Long);
        let short_orders: Vec<OpenOrder> = select_orders(&account.open_orders, id, OrderSide::Short);
        is_worst_case_computable(
            signed_size,
            market.mark_rate,
            cfg.k_i_thresh,
            &long_orders,
            &short_orders,
        )
    }

    /// Whether every magnitude that an account's margin takes exists.
    pub fn is_computable(&self, account: &MarginAccount) -> (r: bool)
        ensures
            r == computable(self.config_map(), self.state_map(), account@),
    {
        if account.is_cross() && self.check_cross_token_consistency(account).is_err() {
            return true;
        }
        let ids: Vec<u32> = self.markets_touched(account);
        let mut totals: Totals = Totals {
            pv: FixedX18::zero(),
            im: FixedX18::zero(),
            mm: FixedX18::zero(),
        };
        let mut i: usize = 0;
        while i < ids.len()
            invariant
                i <= ids.len(),
                ids@ == touched(account@),
                account.margin_mode is Cross ==> first_token_fault(
                    self.config_map(),
                    account@,
                    ids@,
                    ids@.len(),
                ) is None,
                totals_over(self.config_map(), self.state_map(), account@, ids@, i as nat) == Ok::<
                    Totals,
                    MarginError,
                >(totals),
                forall|k: int|
                    0 <= k < i ==> #[trigger] step_computable(
                        self.config_map(),
                        self.state_map(),
                        account@,
                        ids@,
                        k,
                    ),
            decreases ids.len() - i,
        {
            let id: u32 = ids[i];
            match (self.config(id), self.market(id)) {
                (Ok(cfg), Ok(market)) => {
                    if !self.is_market_computable(totals, account, id, &cfg, &market) {
                        assert(!step_computable(
                            self.config_map(),
                            self.state_map(),
                            account@,
                            ids@,
                            i as int,
                        ));
                        return false;
                    }
                },
                _ => {},
            }
            assert(step_computable(
                self.config_map(),
                self.state_map(),
                account@,
                ids@,
                i as int,
            ));
            match self.add_market(totals, account, id) {
                Ok(next) => {
                    totals = next;
                },
                Err(_) => {
                    proof {
                        assert forall|k: int| i < k < ids@.len() implies #[trigger] step_computable(
                            self.config_map(),
                            self.state_map(),
                            account@,
                            ids@,
                            k,
                        ) by {
                            lemma_totals_stop(
                                self.config_map(),
                                self.state_map(),
                                account@,
                                ids@,
                                (i + 1) as nat,
                                k as nat,
                            );
                        }
                    }
                    return true;
                },
            }
            i = i + 1;
        }
        true
    }

    /// The margin state of an account at the current market states.
    pub fn compute_account_state(&self, account: &MarginAccount) -> (r: Result<
        AccountMarginState,
        MarginError,
    >)
        requires
            computable(self.config_map(), self.state_map(), account@),
        ensures
            r == account_state(self.config_map(), self.state_map(), account@),
    {
        if account.is_cross() {
            match self.check_cross_token_consistency(account) {
                Ok(()) => {},
                Err(e) => {
                    return Err(e);
                },
            }
        }
        let ids: Vec<u32> = self.markets_touched(account);
        let mut totals: Totals = Totals {
            pv: FixedX18::zero(),
            im: FixedX18::zero(),
            mm: FixedX18::zero(),
        };
        let mut i: usize = 0;
        while i < ids.len()
            invariant
                i <= ids.len(),
                ids@ == touched(account@),
                computable(self.config_map(), self.state_map(), account@),
                account.margin_mode is Cross ==> first_token_fault(
                    self.config_map(),
                    account@,
                    ids@,
                    ids@.len(),
                ) is None,
                totals_over(self.config_map(), self.state_map(), account@, ids@, i as nat) == Ok::<
                    Totals,
                    MarginError,
                >(totals),
            decreases ids.len() - i,
        {
            let id: u32 = ids[i];
            assert(step_computable(
                self.config_map(),
                self.state_map(),
                account@,
                ids@,
                i as int,
            ));
            match self.add_market(totals, account, id) {
                Ok(next) => {
                    totals = next;
                },
                Err(e) => {
                    proof {
                        lemma_totals_stop(
                            self.config_map(),
                            self.state_map(),
                            account@,
                            ids@,
                            (i + 1) as nat,
                            ids@.len(),
                        );
                    }
                    return Err(e);
                },
            }
            i = i + 1;
        }
        let total_value: FixedX18 = match accrue(account.cash, totals.pv) {
            Ok(v) => v,
            Err(e) => {
                return Err(e);
            },
        };
        let health_ratio: F64Bits = health_ratio_f64(total_value, totals.mm);
        let is_liquidatable: bool = health_ratio.is_less(F64Bits(LIQUIDATION_HEALTH_RATIO));
        Ok(
            AccountMarginState {
                total_value,
                total_im: totals.im,
                total_mm: totals.mm,
                health_ratio,
                is_liquidatable,
            },
        )
    }

    /// Total value minus initial margin if the order were resting. Negative
    /// means that it should not be placed.
    pub fn margin_headroom_for_order(&self, account: &MarginAccount, order: &OpenOrder) -> (r: Result<
        FixedX18,
        MarginError,
    >)
        requires
            computable(self.config_map(), self.state_map(), account@.with_order(*order)),
        ensures
            r == headroom_of(
                account_state(self.config_map(), self.state_map(), account@.with_order(*order)),
            ),
    {
        let with_order: MarginAccount = account.with_order(*order);
        match self.compute_account_state(&with_order) {
            Err(e) => Err(e),
            Ok(state) => match state.total_value.checked_sub(state.total_im) {
                Some(v) => Ok(v),
                None => Err(MarginError::Math(MathError::Overflow)),
            },
        }
    }
}

pub proof fn lemma_fault_stays(
    configs: Map<u32, MarginConfig>,
    account: AccountModel,
    ids: Seq<u32>,
    n: nat,
    total: nat,
)
    requires
        n <= total,
        first_token_fault(configs, account, ids, n) is Some,
    ensures
        first_token_fault(configs, account, ids, total) == first_token_fault(configs, account, ids, n),
    decreases total,
{
    if n < total {
        lemma_fault_stays(configs, account, ids, n, (total - 1) as nat);
    }
}

pub proof fn lemma_totals_stop(
    configs: Map<u32, MarginConfig>,
    markets: Map<u32, MarketState>,
    account: AccountModel,
    ids: Seq<u32>,
    n: nat,
    total: nat,
)
    requires
        n <= total,
        totals_over(configs, markets, account, ids, n) is Err,
    ensures
        totals_over(configs, markets, account, ids, total) == totals_over(
            configs,
            markets,
            account,
            ids,
            n,
        ),
    decreases total,
{
    if n < total {
        lemma_totals_stop(configs, markets, account, ids, n, (total - 1) as nat);
    }
}

proof fn lemma_with_id_members(ids: Seq<u32>, id: u32)
    requires
        strictly_ascends(ids),
    ensures
        strictly_ascends(with_id(ids, id)),
        forall|x: u32| #[trigger] with_id(ids, id).contains(x) <==> x == id || ids.contains(x),
    decreases ids.len(),
{
    let out = with_id(ids, id);
    if ids.len() == 0 {
        assert(out[0] == id);
    } else if ids.last() < id {
        assert forall|i: int, j: int| 0 <= i < j < out.len() implies #[trigger] out[i] < #[trigger] out[j] by {
            assert(ids[i] <= ids[ids.len() - 1]);
        }
        assert forall|x: u32| #[trigger] out.contains(x) <==> x == id || ids.contains(x) by {
            if x == id {
                assert(out[out.len() - 1] == x);
            }
            if ids.contains(x) {
                let k = choose|k: int| 0 <= k < ids.len() && ids[k] == x;
                assert(out[k] == x);
            }
        }
    } else if ids.last() == id {
        assert(ids[ids.len() - 1] == id);
    } else {
        let front = ids.drop_last();
        let inner = with_id(front, id);
        lemma_with_id_members(front, id);
        assert forall|i: int, j: int| 0 <= i < j < out.len() implies #[trigger] out[i] < #[trigger] out[j] by {
            if j == inner.len() {
                assert(inner.contains(inner[i]));
                if inner[i] != id {
                    let k = choose|k: int| 0 <= k < front.len() && front[k] == inner[i];
                    assert(ids[k] < ids[ids.len() - 1]);
                }
            } else {
                assert(inner[i] < inner[j]);
            }
        }
        assert forall|x: u32| #[trigger] out.contains(x) <==> x == id || ids.contains(x) by {
            if out.contains(x) {
                let k = choose|k: int| 0 <= k < out.len() && out[k] == x;
                if k < inner.len() {
                    assert(inner[k] == x);
                    assert(inner.contains(x));
                    if x != id {
                        let m = choose|m: int| 0 <= m < front.len() && front[m] == x;
                        assert(ids[m] == x);
                    }
                } else {
                    assert(ids[ids.len() - 1] == x);
                }
            }
            if x == id || ids.contains(x) {
                if x == id || front.contains(x) {
                    assert(inner.contains(x));
                    let k = choose|k: int| 0 <= k < inner.len() && inner[k] == x;
                    assert(out[k] == x);
                } else {
                    let k = choose|k: int| 0 <= k < ids.len() && ids[k] == x;
                    if k < front.len() {
                        assert(front[k] == x);
                    }
                    assert(out[out.len() - 1] == x);
                }
            }
        }
    }
}

/// The markets of an account are visited in ascending order, each exactly once.
pub proof fn law_ascending_lists_each_once(all: Seq<u32>)
    ensures
        strictly_ascends(ascending(all)),
        forall|x: u32| #[trigger] ascending(all).contains(x) <==> all.contains(x),
    decreases all.len(),
{
    if all.len() > 0 {
        let front = all.drop_last();
        law_ascending_lists_each_once(front);
        lemma_with_id_members(ascending(front), all.last());
        assert forall|x: u32| #[trigger] ascending(all).contains(x) <==> all.contains(x) by {
            if all.contains(x) {
                let k = choose|k: int| 0 <= k < all.len() && all[k] == x;
                if k < front.len() {
                    assert(front[k] == x);
                }
            }
            if ascending(all).contains(x) {
                if x == all.last() {
                    assert(all[all.len() - 1] == x);
                } else {
                    let k = choose|k: int| 0 <= k < front.len() && front[k] == x;
                    assert(all[k] == x);
                }
            }
        }
    }
}

/// Total size of a run of orders.
pub open spec fn total_size(orders: Seq<OpenOrder>) -> int
    decreases orders.len(),
{
    if orders.len() == 0 {
        0
    } else {
        total_size(orders.drop_last()) + orders.last().size.0
    }
}

/// The side on which orders close a position of a size.
pub open spec fn closing_side(size: FixedX18) -> OrderSide {
    if size.0 < 0 {
        OrderSide::Long
    } else {
        OrderSide::Short
    }
}

/// Every order has a size that is not negative.
pub open spec fn sizes_are_valid(orders: Seq<OpenOrder>) -> bool {
    forall|i: int| 0 <= i < orders.len() ==> (#[trigger] orders[i]).size.0 >= 0
}

/// The same account with a run of further resting orders.
pub open spec fn with_orders(account: AccountModel, orders: Seq<OpenOrder>) -> AccountModel {
    AccountModel { open_orders: account.open_orders + orders, ..account }
}

proof fn lemma_total_size(orders: Seq<OpenOrder>, k_i_thresh: FixedX18)
    requires
        sizes_are_valid(orders),
        total_size(orders) <= i128::MAX,
        orders_pm(orders, k_i_thresh) is Ok,
    ensures
        0 <= total_size(orders),
        orders_pm(orders, k_i_thresh)->Ok_0.0.0 == total_size(orders),
    decreases orders.len(),
{
    if orders.len() > 0 {
        let front = orders.drop_last();
        assert(orders.last() == orders[orders.len() - 1]);
        assert(sizes_are_valid(front)) by {
            assert forall|i: int| 0 <= i < front.len() implies (#[trigger] front[i]).size.0 >= 0 by {
                assert(front[i] == orders[i]);
            }
        }
        lemma_total_size(front, k_i_thresh);
    }
}

proof fn lemma_orders_in_push(orders: Seq<OpenOrder>, order: OpenOrder, id: u32, side: OrderSide)
    ensures
        orders_in(orders.push(order), id, side) == (if order.market_id.0 == id && order.side == side {
            orders_in(orders, id, side).push(order)
        } else {
            orders_in(orders, id, side)
        }),
{
    reveal(Seq::filter);
    assert(orders.push(order).drop_last() == orders);
}

proof fn lemma_orders_in_are_valid(orders: Seq<OpenOrder>, id: u32, side: OrderSide)
    requires
        sizes_are_valid(orders),
    ensures
        sizes_are_valid(orders_in(orders, id, side)),
    decreases orders.len(),
{
    reveal(Seq::filter);
    if orders.len() > 0 {
        let front = orders.drop_last();
        assert(front.push(orders.last()) == orders);
        assert forall|i: int| 0 <= i < front.len() implies (#[trigger] front[i]).size.0 >= 0 by {
            assert(front[i] == orders[i]);
        }
        lemma_orders_in_are_valid(front, id, side);
        lemma_orders_in_push(front, orders.last(), id, side);
        assert(orders.last() == orders[orders.len() - 1]);
    }
}

proof fn lemma_position_is_listed(positions: Seq<Position>, id: u32)
    requires
        position_in(positions, id) is Some,
    ensures
        exists|i: int| 0 <= i < positions.len() && (#[trigger] positions[i]).market_id.0 == id,
    decreases positions.len(),
{
    if positions[0].market_id.0 != id {
        let rest = positions.drop_first();
        lemma_position_is_listed(rest, id);
        let i = choose|i: int| 0 <= i < rest.len() && (#[trigger] rest[i]).market_id.0 == id;
        assert(positions[i + 1].market_id.0 == id);
    }
}

/// An order in a market where the account has a position touches no new market.
proof fn lemma_touched_stays(account: AccountModel, order: OpenOrder)
    requires
        position_in(account.positions, order.market_id.0) is Some,
    ensures
        touched(account.with_order(order)) == touched(account),
{
    let id = order.market_id.0;
    let listed = listed_markets(account.positions, account.open_orders);
    let more = listed_markets(account.positions, account.with_order(order).open_orders);
    assert(more =~= listed.push(id));
    assert(more.drop_last() =~= listed);
    lemma_position_is_listed(account.positions, id);
    let i = choose|i: int|
        0 <= i < account.positions.len() && (#[trigger] account.positions[i]).market_id.0 == id;
    assert(listed[i] == id);
    law_ascending_lists_each_once(listed);
    assert(ascending(listed).contains(id));
    let pos = choose|pos: int| 0 <= pos < ascending(listed).len() && ascending(listed)[pos] == id;
    lemma_with_known_id(ascending(listed), id, pos);
}

proof fn lemma_faults_agree(
    configs: Map<u32, MarginConfig>,
    a: AccountModel,
    b: AccountModel,
    ids: Seq<u32>,
    n: nat,
)
    requires
        a.token_id == b.token_id,
    ensures
        first_token_fault(configs, a, ids, n) == first_token_fault(configs, b, ids, n),
    decreases n,
{
    if n > 0 {
        lemma_faults_agree(configs, a, b, ids, (n - 1) as nat);
    }
}

/// Whether a further order closes a position, all orders that do so together
/// within its size.
spec fn only_closes(account: AccountModel, order: OpenOrder) -> bool {
    let id = order.market_id.0;
    let size = size_in(account.positions, id);
    &&& sizes_are_valid(account.with_order(order).open_orders)
    &&& size.0 != 0
    &&& size.0 != i128::MIN
    &&& order.side == closing_side(size)
    &&& total_size(orders_in(account.with_order(order).open_orders, id, order.side)) <= fixed::abs_of(
        size,
    ).0
}

proof fn lemma_closing_order_in_market(
    totals: Totals,
    account: AccountModel,
    order: OpenOrder,
    id: u32,
    cfg: MarginConfig,
    market: MarketState,
)
    requires
        only_closes(account, order),
        with_market(totals, account.with_order(order), id, cfg, market) is Ok,
    ensures
        with_market(totals, account, id, cfg, market) == with_market(
            totals,
            account.with_order(order),
            id,
            cfg,
            market,
        ),
{
    let more = account.with_order(order);
    lemma_orders_in_push(account.open_orders, order, id, OrderSide::Long);
    lemma_orders_in_push(account.open_orders, order, id, OrderSide::Short);
    if id == order.market_id.0 {
        let closing = orders_in(account.open_orders, id, order.side);
        assert(sizes_are_valid(account.open_orders)) by {
            assert forall|i: int| 0 <= i < account.open_orders.len() implies (
            #[trigger] account.open_orders[i]).size.0 >= 0 by {
                assert(more.open_orders[i] == account.open_orders[i]);
            }
        }
        lemma_orders_in_are_valid(account.open_orders, id, order.side);
        lemma_orders_in_are_valid(more.open_orders, id, order.side);
        assert(closing.push(order).drop_last() == closing);
        assert(more.open_orders[more.open_orders.len() - 1] == order);
        assert(orders_pm(closing.push(order), cfg.k_i_thresh) is Ok);
        assert(total_size(closing.push(order)) == total_size(closing) + order.size.0);
        lemma_total_size(closing, cfg.k_i_thresh);
        lemma_total_size(closing.push(order), cfg.k_i_thresh);
    }
}

proof fn lemma_closing_order_in_totals(
    configs: Map<u32, MarginConfig>,
    markets: Map<u32, MarketState>,
    account: AccountModel,
    order: OpenOrder,
    ids: Seq<u32>,
    n: nat,
)
    requires
        only_closes(account, order),
        totals_over(configs, markets, account.with_order(order), ids, n) is Ok,
    ensures
        totals_over(configs, markets, account, ids, n) == totals_over(
            configs,
            markets,
            account.with_order(order),
            ids,
            n,
        ),
    decreases n,
{
    if n > 0 {
        lemma_closing_order_in_totals(configs, markets, account, order, ids, (n - 1) as nat);
        let totals = totals_over(configs, markets, account, ids, (n - 1) as nat)->Ok_0;
        let id = ids[n - 1];
        lemma_closing_order_in_market(totals, account, order, id, configs[id], markets[id]);
    }
}

/// Orders that do no more than close a position need no margin of their own.
/// An account that gets further orders on the closing side of one market, all
/// orders there together within the position's size, keeps its margin state,
/// whatever rests on the position's own side.
pub proof fn law_closing_orders_add_no_margin(
    configs: Map<u32, MarginConfig>,
    markets: Map<u32, MarketState>,
    account: AccountModel,
    id: u32,
    closing: Seq<OpenOrder>,
)
    requires
        size_in(account.positions, id).0 != 0,
        size_in(account.positions, id).0 != i128::MIN,
        sizes_are_valid(account.open_orders + closing),
        forall|i: int|
            0 <= i < closing.len() ==> (#[trigger] closing[i]).market_id.0 == id && closing[i].side
                == closing_side(size_in(account.positions, id)),
        total_size(
            orders_in(
                account.open_orders + closing,
                id,
                closing_side(size_in(account.positions, id)),
            ),
        ) <= fixed::abs_of(size_in(account.positions, id)).0,
        account_state(configs, markets, with_orders(account, closing)) is Ok,
    ensures
        account_state(configs, markets, account) == account_state(
            configs,
            markets,
            with_orders(account, closing),
        ),
    decreases closing.len(),
{
    let more = with_orders(account, closing);
    if closing.len() == 0 {
        assert(more =~= account);
    } else {
        let size = size_in(account.positions, id);
        let side = closing_side(size);
        let front = closing.drop_last();
        let last = closing.last();
        let fewer = with_orders(account, front);
        assert(closing[closing.len() - 1] == last);
        assert(fewer.with_order(last) =~= more);
        assert(fewer.open_orders.push(last) == account.open_orders + closing);
        assert(only_closes(fewer, last));
        lemma_touched_stays(fewer, last);
        let ids = touched(more);
        lemma_faults_agree(configs, fewer, more, ids, ids.len());
        lemma_closing_order_in_totals(configs, markets, fewer, last, ids, ids.len());
        lemma_orders_in_push(fewer.open_orders, last, id, side);
        let kept = orders_in(fewer.open_orders, id, side);
        assert(kept.push(last).drop_last() == kept);
        assert(more.open_orders[more.open_orders.len() - 1] == last);
        assert forall|i: int| 0 <= i < fewer.open_orders.len() implies (
        #[trigger] fewer.open_orders[i]).size.0 >= 0 by {
            assert(more.open_orders[i] == fewer.open_orders[i]);
        }
        assert forall|i: int| 0 <= i < front.len() implies (#[trigger] front[i]).market_id.0 == id
            && front[i].side == side by {
            assert(front[i] == closing[i]);
        }
        law_closing_orders_add_no_margin(configs, markets, account, id, front);
    }
}

/// An account with no positions and no orders is worth its cash, owes no
/// margin, and cannot be liquidated.
pub proof fn law_idle_account_is_infinitely_healthy(
    configs: Map<u32, MarginConfig>,
    markets: Map<u32, MarketState>,
    account: AccountModel,
)
    requires
        account.positions.len() == 0,
        account.open_orders.len() == 0,
    ensures
        account_state(configs, markets, account) == Ok::<AccountMarginState, MarginError>(
            AccountMarginState {
                total_value: account.cash,
                total_im: FixedX18(0),
                total_mm: FixedX18(0),
                health_ratio: F64Bits(INFINITY),
                is_liquidatable: false,
            },
        ),
{
    assert(touched(account).len() == 0);
}

proof fn lemma_totals_never_negative(
    configs: Map<u32, MarginConfig>,
    markets: Map<u32, MarketState>,
    account: AccountModel,
    ids: Seq<u32>,
    n: nat,
)
    requires
        totals_over(configs, markets, account, ids, n) is Ok,
    ensures
        totals_over(configs, markets, account, ids, n)->Ok_0.im.0 >= 0,
        totals_over(configs, markets, account, ids, n)->Ok_0.mm.0 >= 0,
    decreases n,
{
    if n > 0 {
        lemma_totals_never_negative(configs, markets, account, ids, (n - 1) as nat);
    }
}

/// Required margins are never negative. An account whose value covers its
/// maintenance margin is not liquidatable; one that owes margin and is worth
/// nothing or less is.
pub proof fn law_liquidation_needs_uncovered_maintenance(
    configs: Map<u32, MarginConfig>,
    markets: Map<u32, MarketState>,
    account: AccountModel,
)
    requires
        account_state(configs, markets, account) is Ok,
    ensures
        ({
            let state = account_state(configs, markets, account)->Ok_0;
            &&& state.total_im.0 >= 0
            &&& state.total_mm.0 >= 0
            &&& state.total_value.0 >= state.total_mm.0 ==> !state.is_liquidatable
            &&& state.total_mm.0 > 0 && state.total_value.0 <= 0 ==> state.is_liquidatable
            &&& state.total_mm.0 == 0 ==> !state.is_liquidatable
        }),
{
    let ids = touched(account);
    lemma_totals_never_negative(configs, markets, account, ids, ids.len());
    let state = account_state(configs, markets, account)->Ok_0;
    let value = state.total_value;
    let mm = state.total_mm;
    if mm.0 > 0 {
        fixed::law_to_float_is_positive(mm);
        if value.0 >= mm.0 {
            fixed::law_to_float_keeps_order(mm, value);
            float_order::law_quotient_of_the_larger(fixed::to_float(value), fixed::to_float(mm));
        } else if value.0 <= 0 {
            fixed::law_to_float_keeps_order(value, FixedX18(0));
            fixed::lemma_to_float_zero();
            float_order::law_quotient_keeps_order(
                fixed::to_float(value),
                fixed::to_float(FixedX18(0)),
                fixed::to_float(mm),
            );
            float_math::lemma_quotient_sign(fixed::to_float(FixedX18(0)), fixed::to_float(mm));
        }
    }
}

/// Away from maturity a long and a short of one size need the same margin.
pub proof fn law_regular_margin_ignores_direction(
    size: FixedX18,
    market: MarketState,
    cfg: MarginConfig,
)
    requires
        size.0 != i128::MIN,
    ensures
        regular_mm(size, market, cfg) == regular_mm(FixedX18((-size.0) as i128), market, cfg),
{
}

} // verus!
