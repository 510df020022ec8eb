//! An associative container mapping string keys to string values.
//!
//! The table uses open addressing with double hashing: two independent
//! polynomial hashes of the key determine the sequence of slots probed on a
//! collision. Deleted entries leave tombstones so that probe sequences stay
//! intact, and the table rehashes itself into a larger or smaller prime
//! capacity whenever the load factor leaves its configured band.
#![verifier::loop_isolation(false)]

pub mod hashing;
pub mod prime;
pub mod table;
