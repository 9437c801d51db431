# boros_mm

The core of a market maker for an on-chain order book of interest-rate swaps,
written in Verus. Each function of the library states in its contract what it
returns, and the contract is proved.

## Layout

- `src/tick_math`: fixed-point values with 18 decimals, exact multiply-and-divide
  over two and three limbs, and the tick grid (`rate = 1.00005^(tick * step) - 1`).
- `src/oms_core`: packed order ids, trades, the upfront fixed cost, and the local
  state of resting orders.
- `src/margin_sim`: position value, initial and maintenance margin with
  worst-case netting, and account health.
- `src/settlement_ledger`: lazy settlement along published index records.
- `src/curve_engine`: a monotone cubic curve through the maturities of a zone, and
  maturities that lie off the line between their neighbours. `evaluation` bounds
  what rounding does to the curve: no overshoot, no turning back.
- `src/quoting_engine`: reservation rate, spread, maker bounds and quotes.
- `src/risk_engine`: rate sensitivity, pre-trade limits, divergence alerts and the
  kill switch.
- `src/arb_engine`: calendar spreads and cross-venue basis.
- `src/feed_ingest`: order books from snapshots, subscription plans and routing,
  session and reconnect rules, and the funding messages of other venues.
- `src/float_bits.rs`, `src/float_round.rs`, `src/float_math.rs`,
  `src/float_order.rs`, `src/float_error.rs`, `src/float_text.rs`: 64-bit floats by
  their bit patterns. Sum, product, quotient and square root are proved to be the
  exact result rounded once, to the nearest float and to the even one of two;
  `float_order` proves that they keep order, `float_error` how far rounding moves
  them, and `float_text` writes small fractions with the fewest decimal places
  that read back.
- `src/ordering.rs`, `src/text.rs`, `src/keys.rs`: stable sorting, text and
  numbers, keys of a map.
- `app`: sockets, wire formats, and the powers and logarithms that the library
  takes as arguments.
- `tests`: scenarios on concrete values; arithmetic on floats is compared with
  the hardware bit for bit.

## What is trusted

Two outside functions are called from the library through declared contracts:
`serde_json::to_string` on a text, which is stated to quote and escape it, and
`str::to_lowercase`, of which it is stated only that the result depends on the
argument.

Powers and logarithms are not specified exactly by the platform, so functions
that need one take it as an argument and are proved for every value of it.
