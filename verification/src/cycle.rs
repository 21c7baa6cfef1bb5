//! The in-memory portion of one scheduling cycle, sequencing the pool
//! builder and the rebalancer.

use vstd::prelude::*;

use crate::pool::{
    all_categories_known, fill_rooms_pool, reports_first_unknown, spec_pool, PoolError,
};
use crate::rebalance::{adjust_workers, spec_rebalance};
use crate::room::{Room, RoomState};
use crate::settings::Settings;
use crate::worker::{views, RoomsWorker};

verus! {

/// The pool one cycle works with: capacity is `rooms_per_worker` for every
/// worker, so the pool is cut to `rooms_per_worker × workers`, saturated at
/// the machine's addressable size.
pub open spec fn cycle_pool(
    forced: Seq<Room>,
    dynamic: Seq<RoomState>,
    entries: Seq<(String, i64)>,
    rooms_per_worker: i32,
    n_workers: int,
) -> Seq<Room> {
    let cap = if rooms_per_worker * n_workers <= usize::MAX as int {
        rooms_per_worker * n_workers
    } else {
        usize::MAX as int
    };
    spec_pool(forced, dynamic, entries, cap)
}

/// The in-memory part of one scheduling cycle: build the ranked candidate
/// pool from the fetched sources, then reconcile the fetched workers with
/// it. On a configuration error nothing is mutated and the cycle is aborted;
/// fetching and persisting belong to the embedding program.
pub fn run_cycle(
    settings: &Settings,
    forced: &Vec<Room>,
    dynamic: &Vec<RoomState>,
    workers: &mut Vec<RoomsWorker>,
) -> (r: Result<(), PoolError>)
    requires
        settings.rooms_per_worker >= 0,
        forall|i: int| 0 <= i < old(workers)@.len() ==> (#[trigger] old(workers)@[i]).wf(),
    ensures
        match r {
            Ok(()) => {
                &&& all_categories_known(dynamic@, settings.area_weight@)
                &&& final(workers)@.len() == old(workers)@.len()
                &&& forall|i: int|
                    0 <= i < final(workers)@.len() ==> (#[trigger] final(workers)@[i]).wf()
                &&& views(final(workers)@) == spec_rebalance(
                    views(old(workers)@),
                    cycle_pool(
                        forced@,
                        dynamic@,
                        settings.area_weight@,
                        settings.rooms_per_worker,
                        old(workers)@.len() as int,
                    ),
                    settings.rooms_per_worker as int,
                )
            },
            Err(e) => {
                &&& !all_categories_known(dynamic@, settings.area_weight@)
                &&& final(workers)@ == old(workers)@
                &&& (match e {
                    PoolError::UnknownCategory(c) => reports_first_unknown(
                        dynamic@,
                        settings.area_weight@,
                        c@,
                    ),
                })
            },
        },
{
    let cap: usize = match (settings.rooms_per_worker as usize).checked_mul(workers.len()) {
        Some(c) => c,
        None => usize::MAX,
    };
    let pool = match fill_rooms_pool(forced, dynamic, &settings.area_weight, cap) {
        Ok(pool) => pool,
        Err(e) => {
            return Err(e);
        },
    };
    proof {
        assert(cap as int == (if settings.rooms_per_worker * old(workers)@.len() as int
            <= usize::MAX as int {
            settings.rooms_per_worker * old(workers)@.len() as int
        } else {
            usize::MAX as int
        }));
    }
    adjust_workers(workers, &pool, settings.rooms_per_worker);
    Ok(())
}

} // verus!
