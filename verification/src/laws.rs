//! What the rebalancer guarantees, stated and proved once and for all:
//! stability, uniqueness, the capacity bound, the no-drop condition and
//! idempotence.

use vstd::prelude::*;

use crate::rebalance::{
    assigned_rooms, fill_seq, in_avail, lemma_assigned_contains, not_assigned, residual_of,
    retained, retention, spec_rebalance,
};
use crate::room::Room;
use crate::seq_help::{filtered, lemma_filtered_all, lemma_filtered_props};
use crate::worker::WorkerView;

verus! {

/// No room is held by two workers.
pub open spec fn pairwise_disjoint(ws: Seq<WorkerView>) -> bool {
    forall|i: int, j: int, r: Room|
        #![trigger ws[i].rooms.contains(r), ws[j].rooms.contains(r)]
        0 <= i < j < ws.len() ==> !(ws[i].rooms.contains(r) && ws[j].rooms.contains(r))
}

/// No worker holds a room twice.
pub open spec fn all_no_dup(ws: Seq<WorkerView>) -> bool {
    forall|i: int| 0 <= i < ws.len() ==> (#[trigger] ws[i]).rooms.no_duplicates()
}

/// Every held room lies in `avail`.
spec fn all_rooms_in(ws: Seq<WorkerView>, avail: Set<Room>) -> bool {
    forall|i: int, r: Room|
        #![trigger ws[i].rooms.contains(r)]
        0 <= i < ws.len() && ws[i].rooms.contains(r) ==> avail.contains(r)
}

/// Total spare capacity under `cap`, over the workers in order.
pub open spec fn spare_of(ws: Seq<WorkerView>, cap: int) -> int
    decreases ws.len(),
{
    if ws.len() == 0 {
        0
    } else {
        (if ws[0].rooms.len() < cap {
            cap - ws[0].rooms.len()
        } else {
            0
        }) + spare_of(ws.drop_first(), cap)
    }
}

proof fn lemma_retention_shape(ws: Seq<WorkerView>, avail: Set<Room>)
    ensures
        retention(ws, avail).len() == ws.len(),
        forall|i: int|
            0 <= i < ws.len() ==> (#[trigger] retention(ws, avail)[i]).id == ws[i].id,
        forall|i: int|
            0 <= i < ws.len() ==> (#[trigger] retention(ws, avail)[i]).rooms.len()
                <= ws[i].rooms.len(),
        forall|i: int, r: Room|
            #![trigger retention(ws, avail)[i].rooms.contains(r)]
            0 <= i < ws.len() && retention(ws, avail)[i].rooms.contains(r) ==> ws[i].rooms.contains(
                r,
            ) && avail.contains(r),
        forall|i: int|
            0 <= i < ws.len() && ws[i].rooms.no_duplicates() ==> (#[trigger] retention(
                ws,
                avail,
            )[i]).rooms.no_duplicates(),
    decreases ws.len(),
{
    if ws.len() == 0 {
    } else {
        let kept = retained(ws[0].rooms, avail);
        let availp = avail.difference(kept.to_set());
        let rest = retention(ws.drop_first(), availp);
        let out = retention(ws, avail);
        lemma_filtered_props::<Room>(ws[0].rooms, in_avail(avail));
        lemma_retention_shape(ws.drop_first(), availp);
        assert(forall|i: int| 0 <= i < ws.len() - 1 ==> #[trigger] ws.drop_first()[i] == ws[i + 1]);
        assert(out[0].rooms == kept);
        assert forall|i: int, r: Room|
            #![trigger out[i].rooms.contains(r)]
            0 <= i < ws.len() && out[i].rooms.contains(r) implies ws[i].rooms.contains(r)
            && avail.contains(r) by {
            if i == 0 {
                let kk = choose|kk: int| 0 <= kk < kept.len() && kept[kk] == r;
                assert(in_avail(avail)(kept[kk]));
                assert(ws[0].rooms.contains(kept[kk]));
            } else {
                assert(out[i] == rest[i - 1]);
                assert(rest[i - 1].rooms.contains(r));
                assert(ws.drop_first()[i - 1] == ws[i]);
            }
        }
    }
}

proof fn lemma_retention_disjoint(ws: Seq<WorkerView>, avail: Set<Room>)
    ensures
        pairwise_disjoint(retention(ws, avail)),
        all_rooms_in(retention(ws, avail), avail),
    decreases ws.len(),
{
    lemma_retention_shape(ws, avail);
    if ws.len() == 0 {
    } else {
        let kept = retained(ws[0].rooms, avail);
        let availp = avail.difference(kept.to_set());
        let rest = retention(ws.drop_first(), availp);
        let out = retention(ws, avail);
        lemma_filtered_props::<Room>(ws[0].rooms, in_avail(avail));
        lemma_retention_disjoint(ws.drop_first(), availp);
        lemma_retention_shape(ws.drop_first(), availp);
        assert(out[0].rooms == kept);
        assert forall|i: int, j: int, r: Room|
            #![trigger out[i].rooms.contains(r), out[j].rooms.contains(r)]
            0 <= i < j < out.len() implies !(out[i].rooms.contains(r) && out[j].rooms.contains(
            r,
        )) by {
            if out[i].rooms.contains(r) && out[j].rooms.contains(r) {
                if i == 0 {
                    assert(out[j] == rest[j - 1]);
                    assert(availp.contains(r));
                    assert(kept.to_set().contains(r));
                    assert(false);
                } else {
                    assert(out[i] == rest[i - 1]);
                    assert(out[j] == rest[j - 1]);
                    assert(false);
                }
            }
        }
        assert forall|i: int, r: Room|
            #![trigger out[i].rooms.contains(r)]
            0 <= i < out.len() && out[i].rooms.contains(r) implies avail.contains(r) by {}
    }
}

proof fn lemma_retention_keeps(ws: Seq<WorkerView>, avail: Set<Room>, i: int, r: Room)
    requires
        0 <= i < ws.len(),
        ws[i].rooms.contains(r),
        avail.contains(r),
        forall|j: int| 0 <= j < i ==> !(#[trigger] ws[j]).rooms.contains(r),
    ensures
        retention(ws, avail)[i].rooms.contains(r),
    decreases i,
{
    let kept = retained(ws[0].rooms, avail);
    let availp = avail.difference(kept.to_set());
    lemma_filtered_props::<Room>(ws[0].rooms, in_avail(avail));
    if i == 0 {
        assert(in_avail(avail)(r));
        assert(kept.contains(r));
        assert(retention(ws, avail)[0].rooms == kept);
    } else {
        assert(!kept.contains(r)) by {
            if kept.contains(r) {
                let kk = choose|kk: int| 0 <= kk < kept.len() && kept[kk] == r;
                assert(ws[0].rooms.contains(kept[kk]));
            }
        }
        assert(!kept.to_set().contains(r));
        assert(availp.contains(r));
        assert(forall|j: int| 0 <= j < i - 1 ==> #[trigger] ws.drop_first()[j] == ws[j + 1]);
        assert(ws.drop_first()[i - 1] == ws[i]);
        lemma_retention_keeps(ws.drop_first(), availp, i - 1, r);
        lemma_retention_shape(ws.drop_first(), availp);
        assert(retention(ws, avail)[i] == retention(ws.drop_first(), availp)[i - 1]);
    }
}

proof fn lemma_fill_shape(ws: Seq<WorkerView>, rooms: Seq<Room>, cap: int)
    ensures
        fill_seq(ws, rooms, cap).len() == ws.len(),
        forall|i: int|
            0 <= i < ws.len() ==> (#[trigger] fill_seq(ws, rooms, cap)[i]).id == ws[i].id,
        forall|i: int, r: Room|
            #![trigger fill_seq(ws, rooms, cap)[i].rooms.contains(r)]
            0 <= i < ws.len() && ws[i].rooms.contains(r) ==> fill_seq(ws, rooms, cap)[
                i
            ].rooms.contains(r),
        forall|i: int, r: Room|
            #![trigger fill_seq(ws, rooms, cap)[i].rooms.contains(r)]
            0 <= i < ws.len() && fill_seq(ws, rooms, cap)[i].rooms.contains(r) ==> ws[
                i
            ].rooms.contains(r) || rooms.contains(r),
        forall|i: int|
            0 <= i < ws.len() ==> (#[trigger] fill_seq(ws, rooms, cap)[i]).rooms.len() <= (
            if ws[i].rooms.len() as int >= cap {
                ws[i].rooms.len() as int
            } else {
                cap
            }),
        forall|i: int|
            0 <= i < ws.len() ==> (#[trigger] fill_seq(ws, rooms, cap)[i]).rooms.len()
                >= ws[i].rooms.len(),
    decreases ws.len(),
{
    if ws.len() == 0 {
    } else {
        let w = ws[0];
        let want = if w.rooms.len() < cap {
            cap - w.rooms.len()
        } else {
            0
        };
        let n = if want <= rooms.len() {
            want
        } else {
            rooms.len() as int
        };
        let head = WorkerView { id: w.id, rooms: w.rooms + rooms.take(n) };
        let rest = fill_seq(ws.drop_first(), rooms.skip(n), cap);
        let out = fill_seq(ws, rooms, cap);
        lemma_fill_shape(ws.drop_first(), rooms.skip(n), cap);
        assert(forall|i: int| 0 <= i < ws.len() - 1 ==> #[trigger] ws.drop_first()[i] == ws[i + 1]);
        assert(out[0] == head);
        assert forall|i: int, r: Room|
            #![trigger out[i].rooms.contains(r)]
            0 <= i < ws.len() && ws[i].rooms.contains(r) implies out[i].rooms.contains(r) by {
            if i == 0 {
                let kk = choose|kk: int| 0 <= kk < w.rooms.len() && w.rooms[kk] == r;
                assert(head.rooms[kk] == r);
            }
        }
        assert forall|i: int, r: Room|
            #![trigger out[i].rooms.contains(r)]
            0 <= i < ws.len() && out[i].rooms.contains(r) implies ws[i].rooms.contains(r)
            || rooms.contains(r) by {
            if i == 0 {
                let kk = choose|kk: int| 0 <= kk < head.rooms.len() && head.rooms[kk] == r;
                if kk < w.rooms.len() {
                    assert(w.rooms[kk] == r);
                } else {
                    assert(rooms.take(n)[kk - w.rooms.len()] == r);
                    assert(rooms[kk - w.rooms.len()] == r);
                }
            } else {
                assert(out[i] == rest[i - 1]);
                assert(rest[i - 1].rooms.contains(r));
                if rooms.skip(n).contains(r) {
                    let kk = choose|kk: int|
                        0 <= kk < rooms.skip(n).len() && rooms.skip(n)[kk] == r;
                    assert(rooms[n + kk] == r);
                }
            }
        }
    }
}

proof fn lemma_fill_wf(ws: Seq<WorkerView>, rooms: Seq<Room>, cap: int)
    requires
        all_no_dup(ws),
        pairwise_disjoint(ws),
        rooms.no_duplicates(),
        forall|i: int, t: int|
            #![trigger ws[i].rooms.contains(rooms[t])]
            0 <= i < ws.len() && 0 <= t < rooms.len() ==> !ws[i].rooms.contains(rooms[t]),
    ensures
        all_no_dup(fill_seq(ws, rooms, cap)),
        pairwise_disjoint(fill_seq(ws, rooms, cap)),
    decreases ws.len(),
{
    if ws.len() == 0 {
    } else {
        let w = ws[0];
        let want = if w.rooms.len() < cap {
            cap - w.rooms.len()
        } else {
            0
        };
        let n = if want <= rooms.len() {
            want
        } else {
            rooms.len() as int
        };
        let head = WorkerView { id: w.id, rooms: w.rooms + rooms.take(n) };
        let rest = fill_seq(ws.drop_first(), rooms.skip(n), cap);
        let out = fill_seq(ws, rooms, cap);
        assert(forall|i: int| 0 <= i < ws.len() - 1 ==> #[trigger] ws.drop_first()[i] == ws[i + 1]);
        assert(forall|t: int|
            0 <= t < rooms.len() - n ==> #[trigger] rooms.skip(n)[t] == rooms[n + t]);
        assert(forall|t: int| 0 <= t < n ==> #[trigger] rooms.take(n)[t] == rooms[t]);
        // the hypotheses carry to the tail
        assert forall|i: int, t: int|
            #![trigger ws.drop_first()[i].rooms.contains(rooms.skip(n)[t])]
            0 <= i < ws.drop_first().len() && 0 <= t < rooms.skip(n).len() implies !ws.drop_first()[
            i
        ].rooms.contains(rooms.skip(n)[t]) by {
            assert(ws.drop_first()[i] == ws[i + 1]);
            assert(rooms.skip(n)[t] == rooms[n + t]);
            assert(!ws[i + 1].rooms.contains(rooms[n + t]));
        }
        assert(rooms.skip(n).no_duplicates());
        lemma_fill_wf(ws.drop_first(), rooms.skip(n), cap);
        lemma_fill_shape(ws.drop_first(), rooms.skip(n), cap);
        // the head keeps no duplicates
        assert(head.rooms.no_duplicates()) by {
            assert forall|a: int, b: int|
                0 <= a < head.rooms.len() && 0 <= b < head.rooms.len() && a != b implies head.rooms[a]
                != head.rooms[b] by {
                if a < w.rooms.len() && b < w.rooms.len() {
                } else if a < w.rooms.len() {
                    assert(head.rooms[b] == rooms[b - w.rooms.len()]);
                    if head.rooms[a] == head.rooms[b] {
                        assert(w.rooms.contains(rooms[b - w.rooms.len()]));
                    }
                } else if b < w.rooms.len() {
                    assert(head.rooms[a] == rooms[a - w.rooms.len()]);
                    if head.rooms[a] == head.rooms[b] {
                        assert(w.rooms.contains(rooms[a - w.rooms.len()]));
                    }
                } else {
                    assert(head.rooms[a] == rooms[a - w.rooms.len()]);
                    assert(head.rooms[b] == rooms[b - w.rooms.len()]);
                }
            }
        }
        assert(out[0] == head);
        // the head is disjoint from every later worker
        assert forall|i: int, j: int, r: Room|
            #![trigger out[i].rooms.contains(r), out[j].rooms.contains(r)]
            0 <= i < j < out.len() implies !(out[i].rooms.contains(r) && out[j].rooms.contains(
            r,
        )) by {
            if out[i].rooms.contains(r) && out[j].rooms.contains(r) {
                if i == 0 {
                    assert(out[j] == rest[j - 1]);
                    assert(rest[j - 1].rooms.contains(r));
                    // r is in the old tail worker or in the leftover rooms
                    assert(ws.drop_first()[j - 1].rooms.contains(r) || rooms.skip(n).contains(r));
                    let kk = choose|kk: int| 0 <= kk < head.rooms.len() && head.rooms[kk] == r;
                    if kk < w.rooms.len() {
                        assert(w.rooms.contains(r));
                        if ws[j].rooms.contains(r) {
                            assert(false);
                        }
                        let tt = choose|tt: int|
                            0 <= tt < rooms.skip(n).len() && rooms.skip(n)[tt] == r;
                        assert(rooms[n + tt] == r);
                        assert(ws[0].rooms.contains(rooms[n + tt]));
                        assert(false);
                    } else {
                        let a = kk - w.rooms.len();
                        assert(head.rooms[kk] == rooms[a]);
                        if ws[j].rooms.contains(r) {
                            assert(ws[j].rooms.contains(rooms[a]));
                            assert(false);
                        }
                        let tt = choose|tt: int|
                            0 <= tt < rooms.skip(n).len() && rooms.skip(n)[tt] == r;
                        assert(rooms[n + tt] == rooms[a]);
                        assert(a < n);
                        assert(false);
                    }
                } else {
                    assert(out[i] == rest[i - 1]);
                    assert(out[j] == rest[j - 1]);
                    assert(false);
                }
            }
        }
    }
}

proof fn lemma_fill_no_drop(ws: Seq<WorkerView>, rooms: Seq<Room>, cap: int, r: Room)
    requires
        rooms.len() <= spare_of(ws, cap),
        rooms.contains(r),
    ensures
        exists|i: int| 0 <= i < ws.len() && (#[trigger] fill_seq(ws, rooms, cap)[i]).rooms.contains(
            r,
        ),
    decreases ws.len(),
{
    if ws.len() == 0 {
        assert(rooms.len() == 0);
        let t = choose|t: int| 0 <= t < rooms.len() && rooms[t] == r;
        assert(false);
    }
    let w = ws[0];
    let want = if w.rooms.len() < cap {
        cap - w.rooms.len()
    } else {
        0
    };
    let n = if want <= rooms.len() {
        want
    } else {
        rooms.len() as int
    };
    let head = WorkerView { id: w.id, rooms: w.rooms + rooms.take(n) };
    let out = fill_seq(ws, rooms, cap);
    lemma_fill_shape(ws.drop_first(), rooms.skip(n), cap);
    assert(out[0] == head);
    let t = choose|t: int| 0 <= t < rooms.len() && rooms[t] == r;
    if t < n {
        assert(rooms.take(n)[t] == r);
        assert(head.rooms[w.rooms.len() + t] == r);
        assert(out[0].rooms.contains(r));
    } else {
        assert(rooms.skip(n)[t - n] == r);
        assert(rooms.skip(n).contains(r));
        assert(n == want);
        assert(rooms.skip(n).len() <= spare_of(ws.drop_first(), cap));
        lemma_fill_no_drop(ws.drop_first(), rooms.skip(n), cap, r);
        let i = choose|i: int|
            0 <= i < ws.drop_first().len() && (#[trigger] fill_seq(
                ws.drop_first(),
                rooms.skip(n),
                cap,
            )[i]).rooms.contains(r);
        assert(out[i + 1] == fill_seq(ws.drop_first(), rooms.skip(n), cap)[i]);
        assert(out[i + 1].rooms.contains(r));
    }
}

proof fn lemma_fill_leftover_full(ws: Seq<WorkerView>, rooms: Seq<Room>, cap: int, r: Room)
    requires
        rooms.contains(r),
        forall|i: int|
            0 <= i < ws.len() ==> !(#[trigger] fill_seq(ws, rooms, cap)[i]).rooms.contains(r),
    ensures
        forall|i: int| 0 <= i < ws.len() ==> (#[trigger] ws[i]).rooms.len() >= cap || fill_seq(
            ws,
            rooms,
            cap,
        )[i].rooms.len() >= cap,
    decreases ws.len(),
{
    if ws.len() == 0 {
    } else {
        let w = ws[0];
        let want = if w.rooms.len() < cap {
            cap - w.rooms.len()
        } else {
            0
        };
        let n = if want <= rooms.len() {
            want
        } else {
            rooms.len() as int
        };
        let head = WorkerView { id: w.id, rooms: w.rooms + rooms.take(n) };
        let out = fill_seq(ws, rooms, cap);
        lemma_fill_shape(ws.drop_first(), rooms.skip(n), cap);
        assert(out[0] == head);
        let t = choose|t: int| 0 <= t < rooms.len() && rooms[t] == r;
        assert(!head.rooms.contains(r));
        assert(t >= n) by {
            if t < n {
                assert(rooms.take(n)[t] == r);
                assert(head.rooms[w.rooms.len() + t] == r);
            }
        }
        assert(rooms.skip(n)[t - n] == r);
        assert(rooms.skip(n).contains(r));
        assert(n < rooms.len());
        assert(n == want);
        assert(head.rooms.len() == w.rooms.len() + want);
        assert forall|i: int|
            0 <= i < ws.drop_first().len() implies !(#[trigger] fill_seq(
            ws.drop_first(),
            rooms.skip(n),
            cap,
        )[i]).rooms.contains(r) by {
            assert(out[i + 1] == fill_seq(ws.drop_first(), rooms.skip(n), cap)[i]);
        }
        lemma_fill_leftover_full(ws.drop_first(), rooms.skip(n), cap, r);
        assert forall|i: int| 0 <= i < ws.len() implies (#[trigger] ws[i]).rooms.len() >= cap
            || fill_seq(ws, rooms, cap)[i].rooms.len() >= cap by {
            if i == 0 {
                assert(out[0].rooms.len() == w.rooms.len() + want);
            } else {
                assert(ws.drop_first()[i - 1] == ws[i]);
                assert(out[i] == fill_seq(ws.drop_first(), rooms.skip(n), cap)[i - 1]);
            }
        }
    }
}

proof fn lemma_residual_props(pool: Seq<Room>, kept: Seq<WorkerView>)
    requires
        pool.no_duplicates(),
    ensures
        residual_of(pool, kept).no_duplicates(),
        forall|x: Room| #[trigger]
            residual_of(pool, kept).contains(x) ==> pool.contains(x) && !assigned_rooms(
                kept,
            ).contains(x),
        forall|x: Room|
            pool.contains(x) && !assigned_rooms(kept).contains(x) ==> residual_of(
                pool,
                kept,
            ).contains(x),
        forall|i: int, t: int|
            #![trigger kept[i].rooms.contains(residual_of(pool, kept)[t])]
            0 <= i < kept.len() && 0 <= t < residual_of(pool, kept).len() ==> !kept[
                i
            ].rooms.contains(residual_of(pool, kept)[t]),
{
    let res = residual_of(pool, kept);
    lemma_filtered_props::<Room>(pool, not_assigned(kept));
    lemma_assigned_contains(kept);
    assert forall|x: Room| #[trigger] res.contains(x) implies pool.contains(x) && !assigned_rooms(
        kept,
    ).contains(x) by {
        let k = choose|k: int| 0 <= k < res.len() && res[k] == x;
        assert(not_assigned(kept)(res[k]));
    }
    assert forall|i: int, t: int|
        #![trigger kept[i].rooms.contains(res[t])]
        0 <= i < kept.len() && 0 <= t < res.len() implies !kept[i].rooms.contains(res[t]) by {
        assert(not_assigned(kept)(res[t]));
        if kept[i].rooms.contains(res[t]) {
            assert(assigned_rooms(kept).contains(res[t]));
        }
    }
}

/// Capacity bound: no worker that starts within its capacity ever ends a
/// rebalance above `cap`.
pub proof fn lemma_rebalance_capacity(ws: Seq<WorkerView>, pool: Seq<Room>, cap: int)
    requires
        forall|i: int| 0 <= i < ws.len() ==> (#[trigger] ws[i]).rooms.len() <= cap,
    ensures
        spec_rebalance(ws, pool, cap).len() == ws.len(),
        forall|i: int|
            0 <= i < ws.len() ==> (#[trigger] spec_rebalance(ws, pool, cap)[i]).rooms.len() <= cap,
{
    let avail = pool.to_set();
    let kept = retention(ws, avail);
    lemma_retention_shape(ws, avail);
    lemma_fill_shape(kept, residual_of(pool, kept), cap);
}

/// Stability: in a fleet where no room is held twice, a room a worker
/// already holds, and which is still in the pool, stays with that worker —
/// it is never moved to another worker in the same cycle.
pub proof fn lemma_rebalance_stability(
    ws: Seq<WorkerView>,
    pool: Seq<Room>,
    cap: int,
    i: int,
    r: Room,
)
    requires
        0 <= i < ws.len(),
        ws[i].rooms.contains(r),
        pool.contains(r),
        pairwise_disjoint(ws),
    ensures
        spec_rebalance(ws, pool, cap).len() == ws.len(),
        spec_rebalance(ws, pool, cap)[i].rooms.contains(r),
{
    let avail = pool.to_set();
    let kept = retention(ws, avail);
    assert forall|j: int| 0 <= j < i implies !(#[trigger] ws[j]).rooms.contains(r) by {
        if ws[j].rooms.contains(r) {
            assert(!(ws[j].rooms.contains(r) && ws[i].rooms.contains(r)));
        }
    }
    lemma_retention_keeps(ws, avail, i, r);
    lemma_retention_shape(ws, avail);
    lemma_fill_shape(kept, residual_of(pool, kept), cap);
}

/// Uniqueness: after a rebalance no room is held twice, neither within one
/// worker nor across two workers.
pub proof fn lemma_rebalance_uniqueness(ws: Seq<WorkerView>, pool: Seq<Room>, cap: int)
    requires
        pool.no_duplicates(),
        all_no_dup(ws),
    ensures
        all_no_dup(spec_rebalance(ws, pool, cap)),
        pairwise_disjoint(spec_rebalance(ws, pool, cap)),
{
    let avail = pool.to_set();
    let kept = retention(ws, avail);
    let res = residual_of(pool, kept);
    lemma_retention_shape(ws, avail);
    lemma_retention_disjoint(ws, avail);
    lemma_residual_props(pool, kept);
    assert forall|i: int| 0 <= i < kept.len() implies (#[trigger] kept[i]).rooms.no_duplicates() by {
        assert(ws[i].rooms.no_duplicates());
    }
    lemma_fill_wf(kept, res, cap);
}

/// No drop: whenever the total spare capacity after retention can seat the
/// whole residual pool, every pool room ends the cycle held by some worker.
pub proof fn lemma_rebalance_no_drop(ws: Seq<WorkerView>, pool: Seq<Room>, cap: int, r: Room)
    requires
        pool.no_duplicates(),
        pool.contains(r),
        residual_of(pool, retention(ws, pool.to_set())).len() <= spare_of(
            retention(ws, pool.to_set()),
            cap,
        ),
    ensures
        exists|i: int|
            0 <= i < ws.len() && (#[trigger] spec_rebalance(ws, pool, cap)[i]).rooms.contains(r),
{
    let avail = pool.to_set();
    let kept = retention(ws, avail);
    let res = residual_of(pool, kept);
    lemma_retention_shape(ws, avail);
    lemma_fill_shape(kept, res, cap);
    lemma_assigned_contains(kept);
    lemma_residual_props(pool, kept);
    if assigned_rooms(kept).contains(r) {
        let i = choose|i: int| 0 <= i < kept.len() && (#[trigger] kept[i]).rooms.contains(r);
        assert(fill_seq(kept, res, cap)[i].rooms.contains(r));
        assert(spec_rebalance(ws, pool, cap)[i].rooms.contains(r));
    } else {
        assert(res.contains(r));
        lemma_fill_no_drop(kept, res, cap, r);
        let i = choose|i: int|
            0 <= i < kept.len() && (#[trigger] fill_seq(kept, res, cap)[i]).rooms.contains(r);
        assert(spec_rebalance(ws, pool, cap)[i].rooms.contains(r));
    }
}

proof fn lemma_fill_none(ws: Seq<WorkerView>, rooms: Seq<Room>, cap: int)
    requires
        rooms.len() == 0 || forall|i: int|
            0 <= i < ws.len() ==> (#[trigger] ws[i]).rooms.len() >= cap,
    ensures
        fill_seq(ws, rooms, cap) == ws,
    decreases ws.len(),
{
    if ws.len() == 0 {
        assert(fill_seq(ws, rooms, cap) =~= ws);
    } else {
        let w = ws[0];
        let want = if w.rooms.len() < cap {
            cap - w.rooms.len()
        } else {
            0
        };
        let n = if want <= rooms.len() {
            want
        } else {
            rooms.len() as int
        };
        assert(n == 0);
        assert(w.rooms + rooms.take(0) =~= w.rooms);
        assert(WorkerView { id: w.id, rooms: w.rooms + rooms.take(0) } == w);
        assert(rooms.skip(0) =~= rooms);
        assert(forall|i: int| 0 <= i < ws.len() - 1 ==> #[trigger] ws.drop_first()[i] == ws[i + 1]);
        lemma_fill_none(ws.drop_first(), rooms, cap);
        assert(seq![w] + ws.drop_first() =~= ws);
    }
}

proof fn lemma_retention_identity(ws: Seq<WorkerView>, avail: Set<Room>)
    requires
        all_rooms_in(ws, avail),
        pairwise_disjoint(ws),
    ensures
        retention(ws, avail) == ws,
    decreases ws.len(),
{
    if ws.len() == 0 {
        assert(retention(ws, avail) =~= ws);
    } else {
        let kept = retained(ws[0].rooms, avail);
        assert forall|k: int| 0 <= k < ws[0].rooms.len() implies in_avail(avail)(
            #[trigger] ws[0].rooms[k],
        ) by {
            assert(ws[0].rooms.contains(ws[0].rooms[k]));
        }
        lemma_filtered_all::<Room>(ws[0].rooms, in_avail(avail));
        assert(kept == ws[0].rooms);
        let availp = avail.difference(kept.to_set());
        assert(forall|i: int| 0 <= i < ws.len() - 1 ==> #[trigger] ws.drop_first()[i] == ws[i + 1]);
        assert forall|i: int, r: Room|
            #![trigger ws.drop_first()[i].rooms.contains(r)]
            0 <= i < ws.drop_first().len() && ws.drop_first()[i].rooms.contains(
                r,
            ) implies availp.contains(r) by {
            assert(ws[i + 1].rooms.contains(r));
            assert(avail.contains(r));
            if ws[0].rooms.contains(r) {
                assert(false);
            }
        }
        assert forall|i: int, j: int, r: Room|
            #![trigger ws.drop_first()[i].rooms.contains(r), ws.drop_first()[j].rooms.contains(r)]
            0 <= i < j < ws.drop_first().len() implies !(ws.drop_first()[i].rooms.contains(r)
            && ws.drop_first()[j].rooms.contains(r)) by {
            assert(ws.drop_first()[i] == ws[i + 1]);
            assert(ws.drop_first()[j] == ws[j + 1]);
        }
        lemma_retention_identity(ws.drop_first(), availp);
        assert(WorkerView { id: ws[0].id, rooms: kept } == ws[0]);
        assert(seq![ws[0]] + ws.drop_first() =~= ws);
    }
}

/// Idempotence: a second rebalance against the same pool, run on the result
/// of a first one, changes nothing — everything is retained and the
/// residual pool is either empty or every worker is already full.
pub proof fn lemma_rebalance_idempotent(ws: Seq<WorkerView>, pool: Seq<Room>, cap: int)
    requires
        pool.no_duplicates(),
        all_no_dup(ws),
    ensures
        spec_rebalance(spec_rebalance(ws, pool, cap), pool, cap) == spec_rebalance(ws, pool, cap),
{
    let avail = pool.to_set();
    let kept = retention(ws, avail);
    let res = residual_of(pool, kept);
    let out = spec_rebalance(ws, pool, cap);
    lemma_retention_shape(ws, avail);
    lemma_retention_disjoint(ws, avail);
    lemma_residual_props(pool, kept);
    assert forall|i: int| 0 <= i < kept.len() implies (#[trigger] kept[i]).rooms.no_duplicates() by {
        assert(ws[i].rooms.no_duplicates());
    }
    lemma_fill_wf(kept, res, cap);
    lemma_fill_shape(kept, res, cap);
    // every room the first rebalance hands out is a pool room
    assert forall|i: int, r: Room|
        #![trigger out[i].rooms.contains(r)]
        0 <= i < out.len() && out[i].rooms.contains(r) implies avail.contains(r) by {
        assert(kept[i].rooms.contains(r) || res.contains(r));
        if kept[i].rooms.contains(r) {
        } else {
            assert(pool.contains(r));
        }
    }
    lemma_retention_identity(out, avail);
    let res2 = residual_of(pool, out);
    lemma_filtered_props::<Room>(pool, not_assigned(out));
    lemma_assigned_contains(out);
    lemma_assigned_contains(kept);
    if res2.len() == 0 {
        lemma_fill_none(out, res2, cap);
    } else {
        let rr = res2[0];
        assert(not_assigned(out)(rr));
        assert(pool.contains(rr));
        assert(!assigned_rooms(out).contains(rr));
        assert forall|i: int| 0 <= i < out.len() implies !(#[trigger] out[i]).rooms.contains(
            rr,
        ) by {
            if out[i].rooms.contains(rr) {
                assert(assigned_rooms(out).contains(rr));
            }
        }
        // rr was already left over by the first fill pass
        assert(res.contains(rr)) by {
            if assigned_rooms(kept).contains(rr) {
                let i = choose|i: int|
                    0 <= i < kept.len() && (#[trigger] kept[i]).rooms.contains(rr);
                assert(out[i].rooms.contains(rr));
                assert(false);
            }
        }
        lemma_fill_leftover_full(kept, res, cap, rr);
        assert forall|i: int| 0 <= i < out.len() implies (#[trigger] out[i]).rooms.len() >= cap by {
            if kept[i].rooms.len() >= cap {
                assert(out[i].rooms.len() >= kept[i].rooms.len());
            }
        }
        lemma_fill_none(out, res2, cap);
    }
}

} // verus!
