//! Read-only views of foreign accounts, parsed from raw bytes at fixed offsets.
//!
//! Every access is bounds-checked and all arithmetic is checked, so truncated or hostile data gives an
//! error or `None`, never a panic. Checking the owner of an account is the caller's part.

pub mod bytes;
pub mod position;
pub mod stake_account;
pub mod stake_pool;
pub mod validator_list;
pub mod vote_state;
