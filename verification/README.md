# fusion

Money, price, and stake arithmetic of the Fusion protocol, an overcollateralized stablecoin, as a verified
Rust library. Every function carries its contract, and [Verus](https://github.com/verus-lang/verus) proves the
code against it.

## Layout

| module | what it holds |
|--------|---------------|
| `math` | WAD/RAY fixed point, interest, the Reactor Pool (`P`/`S` product-sum), redistribution, the loss waterfall, the redemption fee, rate buckets, price scaling |
| `oracle` | the price aggregator and the time-weighted average price ring |
| `stake` | stake planning: reserve, directed and neutral targets, churn limits, validator lifecycle, preferences, rewards |
| `view` | read-only views of foreign accounts, parsed from raw bytes |

A contract states the result over mathematical integers and sequences. Where a function fails, the contract
says on which inputs, and how. Properties that span functions are public proof functions named `law_*`: for
example that the pool stays solvent over any run of offsets, that redistribution conserves, that the collateral
price never exceeds the debt price, or that a truncated vote account is always refused.

`app/` holds the ring in the fixed byte layout of an account.

## What is trusted

256-bit arithmetic is [bnum](https://crates.io/crates/bnum)'s. The wrappers in `math::u256` state what its
operations return; nothing else is taken on trust. `math::wide` computes the same quotients over native words,
proved without them.

## Tests

`tests/` runs the library, one file per module; `tests/laws_*.rs` hold the laws on concrete values. The account
views are tested against the encodings of `solana-vote-interface` and `solana-stake-interface`.
