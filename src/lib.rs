//! An authoritative DNS name server core: a label-indexed zone tree, the
//! query-resolution algorithm shared by every record-type strategy, zone
//! transfer (AXFR and IXFR), transport dispatch decisions and flow control.
use vstd::prelude::*;

pub mod record;
pub mod names;
pub mod zone;
pub mod event;
pub mod resolve;
pub mod transfer;
pub mod throttle;
pub mod tracker;
pub mod dispatch;
pub mod database;
pub mod laws;
pub mod net;

verus! {

/// Most records of one type copied into a single answer.
pub const MAX_ANSWERS: usize = 3;

/// Most CNAME hops followed while answering one question.
pub const MAX_CNAME_CHAIN_SIZE: usize = 10;

} // verus!
