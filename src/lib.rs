use vstd::prelude::*;

/// Deciding one poll cycle: what to fetch, what to forward, where the cursor goes.
pub mod pipeline;
/// The background poller's timing.
pub mod poller;
/// The configuration shared by the poller and the request handlers.
pub mod state;
/// Wire timestamps: rendering, reading back, and their order.
pub mod timestamp;

verus! {

} // verus!
