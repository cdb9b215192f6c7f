//! An embedded, single-writer key/value store that keeps every record ever
//! written and commits its index in all-or-nothing batches.
//!
//! The store is made of four byte regions: an append-only content log
//! ([`datafile`]), an append-only link log of hash-chain records
//! ([`linkfile`]), a paged table of bucket heads ([`table`]) and a recovery
//! log ([`logfile`]). All four are held in memory here, and what is proved of
//! them is stated over their bytes. The write-back index ([`memtable`]) keeps
//! what was put since the last batch; [`walk`] says what a lookup finds along
//! a bucket's chain and [`flushing`] what a flush writes. The engine
//! ([`bcdb`]) ties them together; [`model`] and [`laws`] say what it holds in
//! terms of the records that were put.

pub mod bcdb;
pub mod bytes;
pub mod datafile;
pub mod error;
pub mod flushing;
pub mod hashing;
pub mod inmemory;
pub mod laws;
pub mod linkfile;
pub mod logfile;
pub mod memtable;
pub mod model;
pub mod offset;
pub mod table;
pub mod walk;
