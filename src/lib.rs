//! The state-transition core of a pay-to-participate room platform: rooms,
//! membership, fee splits, disband votes, red packets and deferred rewards.
//!
//! `platform::Listen` holds the whole state. Each operation takes an
//! authenticated caller, the current tick or session where it needs one, and
//! either refuses with an `error::Error`, leaving the state as it was, or
//! applies its effect in full. Every operation keeps `Listen::inv`, which
//! says among other things that the value the platform holds (balances, room
//! pools, red packets, unpaid rewards and the sink) equals
//! `total_issuance`: only `Listen::deposit` adds value, and nothing removes it.
pub mod account_set;
pub mod disband;
pub mod error;
pub mod fees;
pub mod ledger;
pub mod membership;
pub mod platform;
pub mod red_packet;
pub mod reward;
pub mod sort;
pub mod table;
pub mod types;
pub mod vote;
