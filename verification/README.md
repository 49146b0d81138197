# backpack_grid

A grid-trading bot for the Backpack exchange, whose decisions are verified
with Verus.

## Layout

- `src/` — the verified library:
  - `decimal.rs`: fixed-point amounts (1 unit = 10^-8), parsing and writing
    decimal texts; parsing what was written gives the amount back.
  - `text.rs`: comparisons and searches on text.
  - `config.rs`: the configuration and its validation.
  - `api/signing.rs`: ed25519 signatures in base64 (through `ed25519-dalek`
    and `base64`).
  - `api/rest.rs`: the REST requests, their signing text (parameters in key
    order) and the check of order responses.
  - `api/websocket.rs`: market events, which stream a message belongs to, the
    subscriptions, and the session's reconnection and silence decisions.
  - `order_manager.rs`: open orders and last prices.
  - `risk_manager.rs`: error counting and panic mode.
  - `strategy/grid.rs`: the grid, the nearest grid level of a price, and the
    orders to place and cancel at start, on every update and after a fill.
- `tests/` — tests of the library.
- `app/` — the program around it: configuration file, HTTP and websocket
  transport, clocks, logging, and the loops that carry out the library's
  decisions.

## Amounts

Prices and quantities are integers of 10^-8; fractions of the configuration
(grid bounds) are parts per million. The configuration file keeps its
decimal numbers; `app/` converts them once, when it reads the file. Every
computation of the strategy is exact in these units: grid prices are the
exact grid points rounded half up to the price precision, as the configured
precision asks.

Decimal texts are read as an optional '+', digits with at most one '.',
and an optional exponent of ten ("1.5e3", "25E-2"); what falls below one
unit is dropped. Prices are held up to 10^10 wholes, so that every grid
price fits in 64 bits; quantities up to what 64 bits hold. Infinities, NaN
and negative amounts have no fixed-point value: a text that writes one
counts as no amount.

Order requests write their price and quantity with two decimal places,
rounding halves to even.
