use vstd::prelude::*;

use crate::float_bits;
use crate::float_bits::{F64Bits, TWO};
use crate::float_math;
use crate::quoting_engine::bounds;
use crate::quoting_engine::bounds::{clamp_ask, clamp_bid};
use crate::quoting_engine::error::QuoteError;
use crate::quoting_engine::reservation;
use crate::quoting_engine::reservation::{optimal_spread, reservation_rate};
use crate::quoting_engine::types;
use crate::quoting_engine::types::{AvellanedaStoikovParams, InventoryState, MakerRateBounds, Quote};
use crate::tick_math::fixed;
use crate::tick_math::FixedX18;

verus! {

/// A quote before it is rounded to fixed-point rates.
#[derive(Debug, Clone, Copy, PartialEq, Eq, Structural)]
pub struct QuoteRates {
    pub bid: F64Bits,
    pub ask: F64Bits,
    pub reservation: F64Bits,
}

/// The bid before its cap.
pub open spec fn raw_bid(
    params: AvellanedaStoikovParams,
    reference_rate: FixedX18,
    inventory: InventoryState,
    log: F64Bits,
) -> F64Bits {
    float_math::difference(
        reservation::reservation_of(fixed::to_float(reference_rate), inventory, params),
        half_spread(params, log),
    )
}

/// The ask before its floor.
pub open spec fn raw_ask(
    params: AvellanedaStoikovParams,
    reference_rate: FixedX18,
    inventory: InventoryState,
    log: F64Bits,
) -> F64Bits {
    float_math::sum(
        reservation::reservation_of(fixed::to_float(reference_rate), inventory, params),
        half_spread(params, log),
    )
}

/// Half of the spread.
pub open spec fn half_spread(params: AvellanedaStoikovParams, log: F64Bits) -> F64Bits {
    float_math::quotient(reservation::spread_of(params, log), F64Bits(TWO))
}

/// The reservation rate with half the spread to each side, clamped to the maker
/// bounds.
pub open spec fn rates_of(
    params: AvellanedaStoikovParams,
    reference_rate: FixedX18,
    mark_rate: FixedX18,
    k_i_thresh: FixedX18,
    inventory: InventoryState,
    bounds: MakerRateBounds,
    log: F64Bits,
) -> QuoteRates {
    let mark = fixed::to_float(mark_rate);
    let thresh = fixed::to_float(k_i_thresh);
    QuoteRates {
        bid: bounds::bid_of(raw_bid(params, reference_rate, inventory, log), bounds, mark, thresh),
        ask: bounds::ask_of(raw_ask(params, reference_rate, inventory, log), bounds, mark, thresh),
        reservation: reservation::reservation_of(
            fixed::to_float(reference_rate),
            inventory,
            params,
        ),
    }
}

/// Whether the bid is not below the ask. Something that is not a number does
/// not compare, so it does not cross either.
pub open spec fn crossed(rates: QuoteRates) -> bool {
    float_bits::less(rates.ask, rates.bid) || float_bits::equal(rates.ask, rates.bid)
}

/// Whether all rates of a quote are finite.
pub open spec fn all_finite(rates: QuoteRates) -> bool {
    float_bits::finite(rates.bid) && float_bits::finite(rates.ask) && float_bits::finite(
        rates.reservation,
    )
}

/// A quote of fixed-point rates.
pub open spec fn quote_of(rates: QuoteRates) -> Result<Quote, QuoteError> {
    if crossed(rates) {
        Err(QuoteError::CrossedAfterClamp { bid: rates.bid, ask: rates.ask })
    } else {
        Ok(
            Quote {
                bid_rate: fixed::from_float(rates.bid),
                ask_rate: fixed::from_float(rates.ask),
                reservation_rate: fixed::from_float(rates.reservation),
            },
        )
    }
}

/// A quoting engine with checked parameters.
pub struct QuotingEngine {
    params: AvellanedaStoikovParams,
}

impl QuotingEngine {
    /// The calibration.
    pub closed spec fn params_view(&self) -> AvellanedaStoikovParams {
        self.params
    }

    /// Takes parameters that are all in range.
    pub fn new(params: AvellanedaStoikovParams) -> (r: Result<Self, QuoteError>)
        ensures
            match types::param_fault(params) {
                Some(rule) => r matches Err(QuoteError::InvalidParams(m)) && m@ == rule,
                None => r matches Ok(engine) && engine.params_view() == params,
            },
    {
        match params.validate() {
            Ok(()) => Ok(QuotingEngine { params }),
            Err(e) => Err(e),
        }
    }

    /// The calibration.
    pub fn params(&self) -> (r: AvellanedaStoikovParams)
        ensures
            r == self.params_view(),
    {
        self.params
    }

    /// The rates that [`QuotingEngine::quote`] rounds.
    pub fn rates(
        &self,
        reference_rate: FixedX18,
        mark_rate: FixedX18,
        k_i_thresh: FixedX18,
        inventory: &InventoryState,
        bounds: &MakerRateBounds,
        log: F64Bits,
    ) -> (r: QuoteRates)
        ensures
            r == rates_of(
                self.params_view(),
                reference_rate,
                mark_rate,
                k_i_thresh,
                *inventory,
                *bounds,
                log,
            ),
    {
        let mark: F64Bits = mark_rate.to_f64();
        let thresh: F64Bits = k_i_thresh.to_f64();
        let reservation: F64Bits = reservation_rate(reference_rate.to_f64(), inventory, &self.params);
        let half: F64Bits = optimal_spread(&self.params, log).over(F64Bits(TWO));
        QuoteRates {
            bid: clamp_bid(reservation.minus(half), bounds, mark, thresh),
            ask: clamp_ask(reservation.plus(half), bounds, mark, thresh),
            reservation,
        }
    }

    /// Computes a bid and an ask around the reference rate. Mark rate, threshold
    /// and bounds are those of the market itself. `log` is as
    /// [`optimal_spread`] takes it.
    pub fn quote(
        &self,
        reference_rate: FixedX18,
        mark_rate: FixedX18,
        k_i_thresh: FixedX18,
        inventory: &InventoryState,
        bounds: &MakerRateBounds,
        log: F64Bits,
    ) -> (r: Result<Quote, QuoteError>)
        requires
            ({
                let rates = rates_of(
                    self.params_view(),
                    reference_rate,
                    mark_rate,
                    k_i_thresh,
                    *inventory,
                    *bounds,
                    log,
                );
                crossed(rates) || all_finite(rates)
            }),
        ensures
            r == quote_of(
                rates_of(
                    self.params_view(),
                    reference_rate,
                    mark_rate,
                    k_i_thresh,
                    *inventory,
                    *bounds,
                    log,
                ),
            ),
    {
        let rates: QuoteRates = self.rates(
            reference_rate,
            mark_rate,
            k_i_thresh,
            inventory,
            bounds,
            log,
        );
        if rates.ask.is_at_most(rates.bid) {
            return Err(QuoteError::CrossedAfterClamp { bid: rates.bid, ask: rates.ask });
        }
        Ok(
            Quote {
                bid_rate: FixedX18::from_f64(rates.bid),
                ask_rate: FixedX18::from_f64(rates.ask),
                reservation_rate: FixedX18::from_f64(rates.reservation),
            },
        )
    }
}

/// A positive spread is always quoted: whatever the bounds, clamping leaves the
/// bid below the ask.
pub proof fn law_positive_spread_is_quoted(
    params: AvellanedaStoikovParams,
    reference_rate: FixedX18,
    mark_rate: FixedX18,
    k_i_thresh: FixedX18,
    inventory: InventoryState,
    bounds: MakerRateBounds,
    log: F64Bits,
)
    requires
        float_bits::less(
            raw_bid(params, reference_rate, inventory, log),
            raw_ask(params, reference_rate, inventory, log),
        ),
    ensures
        !crossed(
            rates_of(params, reference_rate, mark_rate, k_i_thresh, inventory, bounds, log),
        ),
{
    bounds::law_clamps_never_cross(
        raw_bid(params, reference_rate, inventory, log),
        raw_ask(params, reference_rate, inventory, log),
        bounds,
        fixed::to_float(mark_rate),
        fixed::to_float(k_i_thresh),
    );
}

/// A quote of numbers has its bid rate at most at its ask rate.
pub proof fn law_quotes_are_ordered(rates: QuoteRates)
    requires
        !float_bits::nan(rates.bid),
        !float_bits::nan(rates.ask),
        !crossed(rates),
    ensures
        quote_of(rates) matches Ok(quote) && quote.bid_rate.0 <= quote.ask_rate.0,
{
    fixed::law_from_float_keeps_order(rates.bid, rates.ask);
}

} // verus!
