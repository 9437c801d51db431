use vstd::prelude::*;
use std::collections::HashMap;

use crate::float_bits;
use crate::float_bits::{F64Bits, MINUS_INFINITY};
use crate::float_math;
use crate::float_order;
use crate::margin_sim::engine;
use crate::margin_sim::{
    AccountMarginState, MarginAccount, MarginEngine, MarginError, MarketState, OpenOrder, Position,
};
use crate::risk_engine::dv01;
use crate::risk_engine::dv01::position_dv01;
use crate::risk_engine::error::RiskViolation;
use crate::risk_engine::types::PreTradeLimits;
use crate::tick_math::fixed;

verus! {

/// Rate sensitivity and notional of an account's covered positions.
#[derive(Debug, Clone, Copy, PartialEq, Eq, Structural)]
pub struct Exposure {
    pub net_dv01: F64Bits,
    pub gross_dv01: F64Bits,
    pub notional: F64Bits,
}

/// The sum over the first `n` positions, of those whose market is known.
pub open spec fn summed(
    positions: Seq<Position>,
    markets: Map<u32, MarketState>,
    n: nat,
) -> Exposure
    decreases n,
{
    if n == 0 {
        Exposure { net_dv01: F64Bits(0), gross_dv01: F64Bits(0), notional: F64Bits(0) }
    } else {
        let rest = summed(positions, markets, (n - 1) as nat);
        let p = positions[n - 1];
        if markets.contains_key(p.market_id.0) {
            let d = dv01::dv01(p.size, markets[p.market_id.0].time_to_maturity_secs);
            Exposure {
                net_dv01: float_math::sum(rest.net_dv01, d),
                gross_dv01: float_math::sum(rest.gross_dv01, float_bits::unsigned(d)),
                notional: float_math::sum(
                    rest.notional,
                    float_bits::unsigned(fixed::to_float(p.size)),
                ),
            }
        } else {
            rest
        }
    }
}

/// The exposure of an account's positions in known markets. Resting orders have
/// none: an order is no position until it fills.
pub fn exposure(account: &MarginAccount, market_states: &HashMap<u32, MarketState>) -> (r: Exposure)
    ensures
        r == summed(account.positions@, market_states@, account.positions@.len()),
{
    let mut total: Exposure = Exposure {
        net_dv01: F64Bits(0),
        gross_dv01: F64Bits(0),
        notional: F64Bits(0),
    };
    let mut i: usize = 0;
    while i < account.positions.len()
        invariant
            i <= account.positions@.len(),
            total == summed(account.positions@, market_states@, i as nat),
        decreases account.positions@.len() - i,
    {
        let p: Position = account.positions[i];
        match market_states.get(&p.market_id.0) {
            Some(market) => {
                let d: F64Bits = position_dv01(p.size, market.time_to_maturity_secs);
                total = Exposure {
                    net_dv01: total.net_dv01.plus(d),
                    gross_dv01: total.gross_dv01.plus(d.abs()),
                    notional: total.notional.plus(p.size.to_f64().abs()),
                };
            },
            None => {},
        }
        i = i + 1;
    }
    total
}

/// A list with one more violation, where there is one.
pub open spec fn and_violation(
    found: Seq<RiskViolation>,
    breached: bool,
    violation: RiskViolation,
) -> Seq<RiskViolation> {
    if breached {
        found.push(violation)
    } else {
        found
    }
}

/// Negative infinity, which stands for a health ratio that could not be
/// projected.
pub open spec fn no_ratio() -> F64Bits {
    F64Bits(MINUS_INFINITY)
}

/// Every breached limit: net and gross sensitivity, notional, order rate, and
/// the projected health ratio. A ratio that could not be projected is a breach
/// whatever the floor.
pub open spec fn violations(
    limits: PreTradeLimits,
    exposure: Exposure,
    count: u32,
    projected: Option<F64Bits>,
) -> Seq<RiskViolation> {
    let net = float_bits::unsigned(exposure.net_dv01);
    let s1 = and_violation(
        Seq::empty(),
        float_bits::less(limits.max_net_dv01, net),
        RiskViolation::NetDv01Exceeded { would_be: net, cap: limits.max_net_dv01 },
    );
    let s2 = and_violation(
        s1,
        float_bits::less(limits.max_gross_dv01, exposure.gross_dv01),
        RiskViolation::GrossDv01Exceeded { would_be: exposure.gross_dv01, cap: limits.max_gross_dv01 },
    );
    let s3 = and_violation(
        s2,
        float_bits::less(limits.max_notional, exposure.notional),
        RiskViolation::NotionalExceeded { would_be: exposure.notional, cap: limits.max_notional },
    );
    let s4 = and_violation(
        s3,
        count >= limits.max_orders_per_window,
        RiskViolation::OrderRateThrottled {
            count_in_window: count,
            cap: limits.max_orders_per_window,
        },
    );
    let floor = limits.min_projected_health_ratio;
    match projected {
        Some(ratio) => and_violation(
            s4,
            float_bits::less(ratio, floor),
            RiskViolation::ProjectedHealthRatioTooLow { projected: ratio, floor },
        ),
        None => s4.push(RiskViolation::ProjectedHealthRatioTooLow { projected: no_ratio(), floor }),
    }
}

/// The projected health ratio, where it could be computed.
pub open spec fn projected_ratio(state: Result<AccountMarginState, MarginError>) -> Option<F64Bits> {
    match state {
        Ok(s) => Some(s.health_ratio),
        Err(_) => None,
    }
}

/// Checks every limit and reports all violations, not just the first.
/// `market_states` holds the markets that the account has positions in.
pub fn check_pre_trade(
    engine: &MarginEngine,
    account: &MarginAccount,
    hypothetical_order: OpenOrder,
    market_states: &HashMap<u32, MarketState>,
    limits: &PreTradeLimits,
    recent_order_count_in_window: u32,
) -> (r: Result<(), Vec<RiskViolation>>)
    requires
        engine::computable(
            engine.config_map(),
            engine.state_map(),
            account@.with_order(hypothetical_order),
        ),
    ensures
        ({
            let state = engine::account_state(
                engine.config_map(),
                engine.state_map(),
                account@.with_order(hypothetical_order),
            );
            let found = violations(
                *limits,
                summed(account.positions@, market_states@, account.positions@.len()),
                recent_order_count_in_window,
                projected_ratio(state),
            );
            match r {
                Ok(_) => found.len() == 0,
                Err(v) => found.len() > 0 && v@ == found,
            }
        }),
{
    let mut found: Vec<RiskViolation> = Vec::new();
    let with_order: MarginAccount = account.with_order(hypothetical_order);
    let exposure: Exposure = exposure(account, market_states);
    let net: F64Bits = exposure.net_dv01.abs();
    if limits.max_net_dv01.is_less(net) {
        found.push(RiskViolation::NetDv01Exceeded { would_be: net, cap: limits.max_net_dv01 });
    }
    if limits.max_gross_dv01.is_less(exposure.gross_dv01) {
        found.push(
            RiskViolation::GrossDv01Exceeded {
                would_be: exposure.gross_dv01,
                cap: limits.max_gross_dv01,
            },
        );
    }
    if limits.max_notional.is_less(exposure.notional) {
        found.push(
            RiskViolation::NotionalExceeded { would_be: exposure.notional, cap: limits.max_notional },
        );
    }
    if recent_order_count_in_window >= limits.max_orders_per_window {
        found.push(
            RiskViolation::OrderRateThrottled {
                count_in_window: recent_order_count_in_window,
                cap: limits.max_orders_per_window,
            },
        );
    }
    match engine.compute_account_state(&with_order) {
        Ok(state) => {
            let projected: F64Bits = state.health_ratio;
            if projected.is_less(limits.min_projected_health_ratio) {
                found.push(
                    RiskViolation::ProjectedHealthRatioTooLow {
                        projected,
                        floor: limits.min_projected_health_ratio,
                    },
                );
            }
        },
        Err(_) => {
            found.push(
                RiskViolation::ProjectedHealthRatioTooLow {
                    projected: F64Bits(MINUS_INFINITY),
                    floor: limits.min_projected_health_ratio,
                },
            );
        },
    }
    if found.len() == 0 {
        Ok(())
    } else {
        Err(found)
    }
}

/// Net sensitivity never exceeds gross sensitivity: positions offset each other
/// in the net, never in the gross.
pub proof fn law_net_is_within_gross(positions: Seq<Position>, markets: Map<u32, MarketState>, n: nat)
    requires
        n <= positions.len(),
    ensures
        ({
            let e = summed(positions, markets, n);
            float_order::at_most(float_bits::unsigned(e.net_dv01), e.gross_dv01)
        }),
    decreases n,
{
    if n > 0 {
        law_net_is_within_gross(positions, markets, (n - 1) as nat);
        let p = positions[n - 1];
        if markets.contains_key(p.market_id.0) {
            let secs = markets[p.market_id.0].time_to_maturity_secs;
            let rest = summed(positions, markets, (n - 1) as nat);
            dv01::law_sensitivity_follows_the_position(p.size, secs);
            float_order::law_sums_are_within_sums_of_magnitudes(
                rest.net_dv01,
                dv01::dv01(p.size, secs),
                rest.gross_dv01,
            );
        }
    }
}

/// A margin state that cannot be computed always refuses the order.
pub proof fn law_unknown_margin_refuses(limits: PreTradeLimits, exposure: Exposure, count: u32)
    ensures
        violations(limits, exposure, count, None).len() > 0,
        violations(limits, exposure, count, None).last() == (RiskViolation::ProjectedHealthRatioTooLow {
            projected: no_ratio(),
            floor: limits.min_projected_health_ratio,
        }),
{
}

/// Violations do not mask each other: each limit is reported exactly when it is
/// breached, whatever the others are.
pub proof fn law_violations_do_not_mask_each_other(
    limits: PreTradeLimits,
    exposure: Exposure,
    count: u32,
    ratio: F64Bits,
)
    ensures
        ({
            let found = violations(limits, exposure, count, Some(ratio));
            let net = float_bits::unsigned(exposure.net_dv01);
            &&& found.contains(
                RiskViolation::NetDv01Exceeded { would_be: net, cap: limits.max_net_dv01 },
            ) <==> float_bits::less(limits.max_net_dv01, net)
            &&& found.contains(
                RiskViolation::GrossDv01Exceeded {
                    would_be: exposure.gross_dv01,
                    cap: limits.max_gross_dv01,
                },
            ) <==> float_bits::less(limits.max_gross_dv01, exposure.gross_dv01)
            &&& found.contains(
                RiskViolation::NotionalExceeded {
                    would_be: exposure.notional,
                    cap: limits.max_notional,
                },
            ) <==> float_bits::less(limits.max_notional, exposure.notional)
            &&& found.contains(
                RiskViolation::OrderRateThrottled {
                    count_in_window: count,
                    cap: limits.max_orders_per_window,
                },
            ) <==> count >= limits.max_orders_per_window
            &&& found.contains(
                RiskViolation::ProjectedHealthRatioTooLow {
                    projected: ratio,
                    floor: limits.min_projected_health_ratio,
                },
            ) <==> float_bits::less(ratio, limits.min_projected_health_ratio)
        }),
{
    let net = float_bits::unsigned(exposure.net_dv01);
    let v1 = RiskViolation::NetDv01Exceeded { would_be: net, cap: limits.max_net_dv01 };
    let s1 = and_violation(Seq::empty(), float_bits::less(limits.max_net_dv01, net), v1);
    let v2 = RiskViolation::GrossDv01Exceeded {
        would_be: exposure.gross_dv01,
        cap: limits.max_gross_dv01,
    };
    let s2 = and_violation(s1, float_bits::less(limits.max_gross_dv01, exposure.gross_dv01), v2);
    let v3 = RiskViolation::NotionalExceeded {
        would_be: exposure.notional,
        cap: limits.max_notional,
    };
    let s3 = and_violation(s2, float_bits::less(limits.max_notional, exposure.notional), v3);
    let v4 = RiskViolation::OrderRateThrottled {
        count_in_window: count,
        cap: limits.max_orders_per_window,
    };
    let s4 = and_violation(s3, count >= limits.max_orders_per_window, v4);
    let v5 = RiskViolation::ProjectedHealthRatioTooLow {
        projected: ratio,
        floor: limits.min_projected_health_ratio,
    };
    lemma_and_violation(Seq::empty(), float_bits::less(limits.max_net_dv01, net), v1);
    lemma_and_violation(s1, float_bits::less(limits.max_gross_dv01, exposure.gross_dv01), v2);
    lemma_and_violation(s2, float_bits::less(limits.max_notional, exposure.notional), v3);
    lemma_and_violation(s3, count >= limits.max_orders_per_window, v4);
    lemma_and_violation(s4, float_bits::less(ratio, limits.min_projected_health_ratio), v5);
}

proof fn lemma_and_violation(found: Seq<RiskViolation>, breached: bool, violation: RiskViolation)
    ensures
        forall|v: RiskViolation| #[trigger]
            and_violation(found, breached, violation).contains(v) <==> found.contains(v) || (breached
                && v == violation),
{
    let more = and_violation(found, breached, violation);
    assert forall|v: RiskViolation| #[trigger] more.contains(v) <==> found.contains(v) || (breached && v
        == violation) by {
        if found.contains(v) {
            let i = choose|i: int| 0 <= i < found.len() && found[i] == v;
            assert(more[i] == v);
        }
        if breached && v == violation {
            assert(more[more.len() - 1] == v);
        }
        if more.contains(v) {
            let i = choose|i: int| 0 <= i < more.len() && more[i] == v;
            assert(i < found.len() ==> found[i] == v);
        }
    }
}

} // verus!
