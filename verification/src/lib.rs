//! Money, price, and stake arithmetic of the Fusion protocol.
//!
//! - [`math`]: fixed-point arithmetic, interest, the Reactor Pool, redistribution, redemption.
//! - [`oracle`]: price aggregation and the time-weighted average price ring.
//! - [`stake`]: planning the stake of the liquid staking pool.
//! - [`view`]: reading foreign account data from raw bytes.
//!
//! Every function is total on the inputs its `requires` admits and states in `ensures` what
//! it returns, as a value over mathematical integers.

pub mod math;
pub mod oracle;
pub mod stake;
pub mod view;
