//! A single-node key-value server's core: the wire protocol codec, the
//! expiring store with uniform random sampling, the snapshot decoder, and
//! command dispatch, each with its contracts proved.
use vstd::prelude::*;

pub mod bytes;
pub mod commands;
pub mod framing;
pub mod parser;
pub mod rdb;
pub mod resp;
pub mod server;
pub mod store;

verus! {

} // verus!
