# bocik

A pump.fun sniper bot for Solana, whose decision logic is a library with
machine-checked contracts.

## Layout

- `src/` — the library:
  - `sniffer.rs`: recognising token creations in program logs, the
    deduplication window, reconnection pacing.
  - `engine.rs`: what the main loop does with each event in each mode, and
    how a trade changes the mode.
  - `execution/durable_nonce_manager.rs`: the pool of durable nonce accounts
    (round-robin acquisition, return for advancing, stuck detection, reading
    nonce hashes from account data, reload backoff).
  - `execution/quantum_race.rs`: acquiring accounts, building one transaction
    variant per account, settling a race.
  - `execution/rpc_manager.rs`: circuit breakers, request counts, endpoint
    selection, location inference and leader schedules.
  - `pumpfun_tx_builder.rs`: bonding-curve quotes with slippage.
  - `wallet.rs`, `keys.rs`, `config.rs`, `ui.rs`, `state.rs`, `text.rs`,
    `clock.rs`: key files, public keys, defaults, sell shortcuts, shared
    types, string search, the clock.
- `tests/` — tests of the library on concrete values.
- `app/` — the program around it: configuration loading, the network
  clients, the async tasks, the floating-point endpoint scoring and the GUI.
