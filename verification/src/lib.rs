//! Storage keys, typed storage containers and a chain-simulation model for CosmWasm contracts.

pub mod helpers;
pub mod int_key;
pub mod keys;
pub mod de;
pub mod storage;
pub mod item;
pub mod path;
pub mod map;
pub mod deque;
pub mod queue;
pub mod addr;
pub mod bound;
pub mod prefix;
pub mod cw4;
pub mod keys_old;
pub mod indexes;
pub mod indexed_map;
pub mod snapshot;
pub mod multitest;
pub mod cw721;
