//! Client-side engine of a coin wallet that mines coins, keeps the ones not
//! yet confirmed in a local resource, reconciles them against validator
//! reports, pairs mined coins with cheaper fee coins and dispatches them
//! through a failover client over a list of validators.

pub mod appdata;
pub mod cli;
pub mod coin;
pub mod failover;
pub mod mining;
pub mod pairing;
pub mod resource;
pub mod storage;
pub mod transfer;
pub mod utils;
