//! Runtime primitives and the wire protocol of a rack of boards: a controller and its
//! extensions on one shared serial bus.

use vstd::prelude::*;

pub mod sendable;
pub mod options;
pub mod packet;
pub mod extension;
pub mod controller;
pub mod executor;
pub mod timer;
pub mod allocator;
pub mod queue;
pub mod logging;
pub mod serial;

verus! {

/// The protocol version this library speaks.
pub const VERSION: u8 = 0;

} // verus!
