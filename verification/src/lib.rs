//! cdDB: a columnar storage engine whose data structures, codecs and
//! bookkeeping rules are specified and proved with Verus.
#![allow(non_snake_case)]

pub mod codec;
pub mod hashing;
pub mod map;
pub mod column;
pub mod commands;
pub mod qsbr;
pub mod rcu;
pub mod platform;
pub mod storage;
pub mod wal;
pub mod bloom;
pub mod query;
pub mod partition;
pub mod queue;
pub mod index;
pub mod cache;
pub mod facade;
pub mod audit;
pub mod ops;
pub mod dispatcher;
pub mod archive;
pub mod stores;
