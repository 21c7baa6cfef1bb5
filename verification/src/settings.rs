//! The configuration surface of the scheduler.

use vstd::prelude::*;

verus! {

/// Per-cycle configuration. It is loaded once per cycle by the embedding
/// program and passed explicitly into the scheduling core, never read from
/// ambient global state.
///
/// `area_weight` is the category weight table as an association list; the
/// first entry for a category wins. `rooms_per_worker` is the capacity
/// target of every worker.
#[derive(Debug)]
pub struct Settings {
    pub mongo_liveroom: String,
    pub mongo_worker: String,
    pub area_weight: Vec<(String, i64)>,
    pub rooms_per_worker: i32,
}

} // verus!
