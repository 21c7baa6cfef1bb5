//! Reconciling the current worker assignments with a freshly built pool:
//! retention first, then a greedy, order-sensitive fill of the residual
//! rooms, trading balance for assignment stability.

use vstd::prelude::*;

use crate::room::{contains_room, Room};
use crate::seq_help::{filtered, lemma_add_contains, lemma_filtered_props, lemma_filtered_push};
use crate::worker::{views, RoomsWorker, WorkerView};

verus! {

/// Availability as a predicate on rooms.
pub open spec fn in_avail(avail: Set<Room>) -> spec_fn(Room) -> bool {
    |r: Room| avail.contains(r)
}

/// The rooms of `rooms` still available under `avail`, in their held order.
pub open spec fn retained(rooms: Seq<Room>, avail: Set<Room>) -> Seq<Room> {
    filtered(rooms, in_avail(avail))
}

/// The retention pass: each worker, in the given order, keeps exactly those
/// of its rooms that are still available; what it keeps stops being
/// available to every later worker.
pub open spec fn retention(workers: Seq<WorkerView>, avail: Set<Room>) -> Seq<WorkerView>
    decreases workers.len(),
{
    if workers.len() == 0 {
        Seq::empty()
    } else {
        let kept = retained(workers[0].rooms, avail);
        seq![WorkerView { id: workers[0].id, rooms: kept }] + retention(
            workers.drop_first(),
            avail.difference(kept.to_set()),
        )
    }
}

/// All rooms held by some worker.
pub open spec fn assigned_rooms(workers: Seq<WorkerView>) -> Set<Room>
    decreases workers.len(),
{
    if workers.len() == 0 {
        Set::empty()
    } else {
        workers[0].rooms.to_set().union(assigned_rooms(workers.drop_first()))
    }
}

/// Not being held by any worker of `kept`, as a predicate on rooms.
pub open spec fn not_assigned(kept: Seq<WorkerView>) -> spec_fn(Room) -> bool {
    |r: Room| !assigned_rooms(kept).contains(r)
}

/// The residual pool: the pool rooms nobody retained, in pool order.
pub open spec fn residual_of(pool: Seq<Room>, kept: Seq<WorkerView>) -> Seq<Room> {
    filtered(pool, not_assigned(kept))
}

/// The fill pass: walking the workers in order, each under-capacity worker
/// takes rooms from the front of the residual pool until it reaches `cap` or
/// the pool runs dry; rooms left when every worker has been visited are
/// dropped for this cycle.
pub open spec fn fill_seq(workers: Seq<WorkerView>, rooms: Seq<Room>, cap: int) -> Seq<WorkerView>
    decreases workers.len(),
{
    if workers.len() == 0 {
        workers
    } else {
        let w = workers[0];
        let want = if w.rooms.len() < cap {
            cap - w.rooms.len()
        } else {
            0
        };
        let n = if want <= rooms.len() {
            want
        } else {
            rooms.len() as int
        };
        seq![WorkerView { id: w.id, rooms: w.rooms + rooms.take(n) }] + fill_seq(
            workers.drop_first(),
            rooms.skip(n),
            cap,
        )
    }
}

/// One whole rebalance: retain what is still eligible, then greedily hand
/// the residual pool, in rank order, to the under-capacity workers in
/// worker order.
pub open spec fn spec_rebalance(workers: Seq<WorkerView>, pool: Seq<Room>, cap: int) -> Seq<
    WorkerView,
> {
    let kept = retention(workers, pool.to_set());
    fill_seq(kept, residual_of(pool, kept), cap)
}

/// A room is assigned exactly when some worker holds it.
pub proof fn lemma_assigned_contains(ws: Seq<WorkerView>)
    ensures
        forall|r: Room| #[trigger]
            assigned_rooms(ws).contains(r) <==> exists|i: int|
                0 <= i < ws.len() && (#[trigger] ws[i]).rooms.contains(r),
    decreases ws.len(),
{
    if ws.len() == 0 {
    } else {
        let d = ws.drop_first();
        lemma_assigned_contains(d);
        assert forall|r: Room| #[trigger] assigned_rooms(ws).contains(r) implies exists|i: int|
            0 <= i < ws.len() && (#[trigger] ws[i]).rooms.contains(r) by {
            if ws[0].rooms.to_set().contains(r) {
                assert(ws[0].rooms.contains(r));
            } else {
                assert(assigned_rooms(d).contains(r));
                let i = choose|i: int| 0 <= i < d.len() && (#[trigger] d[i]).rooms.contains(r);
                assert(ws[i + 1].rooms.contains(r));
            }
        }
        assert forall|r: Room|
            exists|i: int| 0 <= i < ws.len() && (#[trigger] ws[i]).rooms.contains(r) implies #[trigger]
            assigned_rooms(ws).contains(r) by {
            let i = choose|i: int| 0 <= i < ws.len() && (#[trigger] ws[i]).rooms.contains(r);
            if i == 0 {
                assert(ws[0].rooms.to_set().contains(r));
            } else {
                assert(d[i - 1].rooms.contains(r));
                assert(assigned_rooms(d).contains(r));
            }
        }
    }
}

/// Appending a worker adds exactly its rooms to the assigned set.
proof fn lemma_assigned_push(ws: Seq<WorkerView>, w: WorkerView)
    ensures
        assigned_rooms(ws.push(w)) == assigned_rooms(ws).union(w.rooms.to_set()),
{
    lemma_assigned_contains(ws);
    lemma_assigned_contains(ws.push(w));
    assert forall|r: Room| #[trigger]
        assigned_rooms(ws.push(w)).contains(r) <==> assigned_rooms(ws).union(
        w.rooms.to_set(),
    ).contains(r) by {
        if assigned_rooms(ws.push(w)).contains(r) {
            let i = choose|i: int|
                0 <= i < ws.push(w).len() && (#[trigger] ws.push(w)[i]).rooms.contains(r);
            if i < ws.len() {
                assert(ws[i].rooms.contains(r));
                assert(assigned_rooms(ws).contains(r));
            } else {
                assert(ws.push(w)[i] == w);
            }
        }
        if assigned_rooms(ws).contains(r) {
            let i = choose|i: int| 0 <= i < ws.len() && (#[trigger] ws[i]).rooms.contains(r);
            assert(ws.push(w)[i] == ws[i]);
            assert((ws.push(w)[i]).rooms.contains(r));
        }
        if w.rooms.to_set().contains(r) {
            assert(ws.push(w)[ws.len() as int] == w);
            assert((ws.push(w)[ws.len() as int]).rooms.contains(r));
        }
    }
    assert(assigned_rooms(ws.push(w)) =~= assigned_rooms(ws).union(w.rooms.to_set()));
}

/// Reconciles the current worker assignments with the freshly built pool.
///
/// First every worker, in order, retains exactly those of its rooms that are
/// still in the pool and were not already retained by an earlier worker.
/// Then the residual pool — pool rooms nobody retained, in pool order — is
/// handed out: each under-capacity worker in turn takes rooms until it
/// reaches `rooms_per_worker`; when no under-capacity worker is left, the
/// remaining residual rooms are dropped for this cycle.
#[verifier::rlimit(50)]
pub fn adjust_workers(workers: &mut Vec<RoomsWorker>, rooms_pool: &Vec<Room>, rooms_per_worker: i32)
    requires
        rooms_pool@.no_duplicates(),
        forall|i: int| 0 <= i < old(workers)@.len() ==> (#[trigger] old(workers)@[i]).wf(),
        rooms_per_worker >= 0,
    ensures
        final(workers)@.len() == old(workers)@.len(),
        forall|i: int| 0 <= i < final(workers)@.len() ==> (#[trigger] final(workers)@[i]).wf(),
        views(final(workers)@) == spec_rebalance(
            views(old(workers)@),
            rooms_pool@,
            rooms_per_worker as int,
        ),
{
    let ghost ws0 = views(workers@);
    let ghost pool_set = rooms_pool@.to_set();

    // Retention pass: rebuild each worker from its still-eligible rooms.
    let mut kept: Vec<RoomsWorker> = Vec::new();
    let mut taken: Vec<Room> = Vec::new();
    let mut k: usize = 0;
    proof {
        assert(ws0.skip(0) =~= ws0);
        assert(taken@.to_set() =~= Set::<Room>::empty());
        assert(pool_set.difference(taken@.to_set()) =~= pool_set);
        assert(views(kept@) =~= Seq::<WorkerView>::empty());
        assert(views(kept@) + retention(ws0, pool_set) =~= retention(ws0, pool_set));
    }
    while k < workers.len()
        invariant
            k <= ws0.len(),
            workers@.len() == ws0.len(),
            views(workers@) == ws0,
            forall|i: int| 0 <= i < ws0.len() ==> (#[trigger] workers@[i]).wf(),
            kept@.len() == k,
            forall|i: int| 0 <= i < kept@.len() ==> (#[trigger] kept@[i]).wf(),
            pool_set == rooms_pool@.to_set(),
            views(kept@) + retention(ws0.skip(k as int), pool_set.difference(taken@.to_set()))
                == retention(ws0, pool_set),
            forall|r: Room| #[trigger]
                taken@.contains(r) <==> assigned_rooms(views(kept@)).contains(r),
        decreases ws0.len() - k,
    {
        let ghost avail = pool_set.difference(taken@.to_set());
        let ghost taken0 = taken@;
        let ghost wr = workers@[k as int].rooms@;
        proof {
            assert(views(workers@)[k as int] == workers@[k as int]@);
            assert(workers@[k as int].wf());
            assert(wr.take(0) =~= Seq::<Room>::empty());
            assert(filtered(wr.take(0), in_avail(avail)) =~= Seq::<Room>::empty());
            assert(taken@ =~= taken0 + Seq::<Room>::empty());
        }
        let mut new_rooms: Vec<Room> = Vec::new();
        let mut j: usize = 0;
        while j < workers[k].rooms.len()
            invariant
                k < workers@.len(),
                j <= wr.len(),
                wr == workers@[k as int].rooms@,
                wr.no_duplicates(),
                new_rooms@ == filtered(wr.take(j as int), in_avail(avail)),
                taken@ == taken0 + new_rooms@,
                avail == rooms_pool@.to_set().difference(taken0.to_set()),
            decreases wr.len() - j,
        {
            let r = workers[k].rooms[j];
            let in_pool = contains_room(rooms_pool, r);
            let in_taken = contains_room(&taken, r);
            proof {
                assert(r == wr[j as int]);
                lemma_filtered_props::<Room>(wr.take(j as int), in_avail(avail));
                if new_rooms@.contains(r) {
                    let jj = choose|jj: int|
                        0 <= jj < wr.take(j as int).len() && wr.take(j as int)[jj] == r;
                    assert(wr[jj] == wr[j as int]);
                    assert(false);
                }
                lemma_add_contains(taken0, new_rooms@);
                assert(taken@.contains(r) == taken0.contains(r));
                assert(in_avail(avail)(r) == (in_pool && !in_taken));
                lemma_filtered_push(wr.take(j as int), in_avail(avail), r);
                assert(wr.take(j as int + 1) =~= wr.take(j as int).push(r));
            }
            if in_pool && !in_taken {
                new_rooms.push(r);
                taken.push(r);
                proof {
                    assert(taken@ =~= taken0 + new_rooms@);
                }
            }
            j = j + 1;
        }
        proof {
            assert(wr.take(wr.len() as int) =~= wr);
            lemma_filtered_props::<Room>(wr, in_avail(avail));
        }
        let wid = workers[k].id;
        let new_len = new_rooms.len();
        proof {
            assert(new_rooms@.len() <= wr.len());
            assert(wr.len() <= i32::MAX as int);
        }
        let ghost keptv0 = views(kept@);
        let w_new = RoomsWorker { id: wid, length: new_len as i32, rooms: new_rooms };
        kept.push(w_new);
        proof {
            assert(w_new.wf());
            assert(views(kept@) =~= keptv0.push(w_new@));
            lemma_assigned_push(keptv0, w_new@);
            lemma_add_contains(taken0, w_new.rooms@);
            // the new availability equals the pool minus everything taken
            assert(avail.difference(w_new.rooms@.to_set()) =~= pool_set.difference(
                taken@.to_set(),
            ));
            // unfold the remaining retention one step
            assert(ws0.skip(k as int).len() > 0);
            assert(ws0.skip(k as int)[0] == ws0[k as int]);
            assert(ws0.skip(k as int).drop_first() =~= ws0.skip(k as int + 1));
            assert(ws0[k as int] == workers@[k as int]@);
            assert(retained(ws0.skip(k as int)[0].rooms, avail) == w_new.rooms@);
            assert(WorkerView {
                id: ws0.skip(k as int)[0].id,
                rooms: retained(ws0.skip(k as int)[0].rooms, avail),
            } == w_new@);
            assert(retention(ws0.skip(k as int), avail) == seq![w_new@] + retention(
                ws0.skip(k as int + 1),
                avail.difference(w_new.rooms@.to_set()),
            ));
            assert(keptv0 + (seq![w_new@] + retention(
                ws0.skip(k as int + 1),
                pool_set.difference(taken@.to_set()),
            )) =~= keptv0.push(w_new@) + retention(
                ws0.skip(k as int + 1),
                pool_set.difference(taken@.to_set()),
            ));
        }
        k = k + 1;
    }
    proof {
        assert(ws0.skip(ws0.len() as int) =~= Seq::<WorkerView>::empty());
        assert(retention(Seq::<WorkerView>::empty(), pool_set.difference(taken@.to_set()))
            == Seq::<WorkerView>::empty());
        assert(views(kept@) + Seq::<WorkerView>::empty() =~= views(kept@));
        assert(views(kept@) == retention(ws0, pool_set));
    }

    // Residual pool: pool rooms nobody retained, in pool order.
    let ghost kviews = views(kept@);
    let mut residual: Vec<Room> = Vec::new();
    let mut p: usize = 0;
    proof {
        assert(rooms_pool@.take(0) =~= Seq::<Room>::empty());
        assert(filtered(rooms_pool@.take(0), not_assigned(kviews)) =~= Seq::<Room>::empty());
    }
    while p < rooms_pool.len()
        invariant
            p <= rooms_pool@.len(),
            kviews == views(kept@),
            residual@ == filtered(rooms_pool@.take(p as int), not_assigned(kviews)),
            forall|r: Room| #[trigger] taken@.contains(r) <==> assigned_rooms(kviews).contains(r),
        decreases rooms_pool@.len() - p,
    {
        let r = rooms_pool[p];
        let t = contains_room(&taken, r);
        proof {
            lemma_filtered_push(rooms_pool@.take(p as int), not_assigned(kviews), r);
            assert(rooms_pool@.take(p as int + 1) =~= rooms_pool@.take(p as int).push(r));
            assert(not_assigned(kviews)(r) == !t);
        }
        if !t {
            residual.push(r);
        }
        p = p + 1;
    }
    proof {
        assert(rooms_pool@.take(rooms_pool@.len() as int) =~= rooms_pool@);
        assert(residual@ == residual_of(rooms_pool@, kviews));
        lemma_filtered_props::<Room>(rooms_pool@, not_assigned(kviews));
        lemma_assigned_contains(kviews);
    }

    // Fill pass: hand the residual rooms to the under-capacity workers.
    let ghost rres = residual@;
    let mut out: Vec<RoomsWorker> = Vec::new();
    let mut c: usize = 0;
    proof {
        assert(rres.skip(0) =~= rres);
        assert(views(out@) =~= Seq::<WorkerView>::empty());
        assert(views(out@) + fill_seq(views(kept@), rres, rooms_per_worker as int) =~= fill_seq(
            kviews,
            rres,
            rooms_per_worker as int,
        ));
        assert forall|i: int, t: int|
            #![trigger kept@[i], rres[t]]
            0 <= i < kept@.len() && c <= t < rres.len() implies !kept@[i].rooms@.contains(
            rres[t],
        ) by {
            assert(rres[t] == filtered(rooms_pool@, not_assigned(kviews))[t]);
            assert(not_assigned(kviews)(rres[t]));
            assert(kviews[i] == kept@[i]@);
            if kept@[i].rooms@.contains(rres[t]) {
                assert(kviews[i].rooms.contains(rres[t]));
                assert(assigned_rooms(kviews).contains(rres[t]));
                assert(false);
            }
        }
    }
    while kept.len() > 0
        invariant
            c <= rres.len(),
            rres == residual@,
            rooms_per_worker >= 0,
            views(out@) + fill_seq(views(kept@), rres.skip(c as int), rooms_per_worker as int)
                == fill_seq(kviews, rres, rooms_per_worker as int),
            forall|i: int| 0 <= i < kept@.len() ==> (#[trigger] kept@[i]).wf(),
            forall|i: int| 0 <= i < out@.len() ==> (#[trigger] out@[i]).wf(),
            out@.len() + kept@.len() == ws0.len(),
            rres.no_duplicates(),
            forall|i: int, t: int|
                #![trigger kept@[i], rres[t]]
                0 <= i < kept@.len() && c <= t < rres.len() ==> !kept@[i].rooms@.contains(rres[t]),
        decreases kept@.len(),
    {
        let ghost keptv_before = views(kept@);
        let mut w = kept.remove(0);
        let ghost wv0 = w@;
        let ghost c0 = c;
        proof {
            assert(keptv_before[0] == wv0);
            assert(views(kept@) =~= keptv_before.drop_first());
            assert(wv0.rooms + rres.subrange(c0 as int, c as int) =~= wv0.rooms);
            assert(forall|t: int|
                c <= t < rres.len() ==> !keptv_before[0].rooms.contains(#[trigger] rres[t]));
        }
        while w.length < rooms_per_worker && c < residual.len()
            invariant
                w.wf(),
                rooms_per_worker >= 0,
                c0 <= c <= rres.len(),
                rres == residual@,
                rres.no_duplicates(),
                w@.id == wv0.id,
                wv0.rooms.len() + (c - c0) == w@.rooms.len(),
                w@.rooms == wv0.rooms + rres.subrange(c0 as int, c as int),
                wv0.rooms.len() < rooms_per_worker as int ==> w@.rooms.len()
                    <= rooms_per_worker as int,
                wv0.rooms.len() >= rooms_per_worker as int ==> c == c0,
                forall|t: int| c <= t < rres.len() ==> !w@.rooms.contains(#[trigger] rres[t]),
            decreases rres.len() - c,
        {
            let r = residual[c];
            proof {
                assert(!w@.rooms.contains(r));
            }
            let ghost wrooms0 = w@.rooms;
            w.rooms_append(r);
            c = c + 1;
            proof {
                assert(w@.rooms == wrooms0.push(r));
                assert(wv0.rooms + rres.subrange(c0 as int, c as int) =~= wrooms0.push(r));
                assert forall|t: int|
                    c <= t < rres.len() implies !w@.rooms.contains(#[trigger] rres[t]) by {
                    if w@.rooms.contains(rres[t]) {
                        let idx = choose|idx: int|
                            0 <= idx < w@.rooms.len() && w@.rooms[idx] == rres[t];
                        if idx < wrooms0.len() {
                            assert(wrooms0[idx] == rres[t]);
                            assert(wrooms0.contains(rres[t]));
                            assert(false);
                        } else {
                            assert(rres[c - 1] == rres[t]);
                            assert(false);
                        }
                    }
                }
            }
        }
        let ghost outv0 = views(out@);
        out.push(w);
        proof {
            let capint = rooms_per_worker as int;
            let tail = rres.skip(c0 as int);
            let want = if wv0.rooms.len() < capint {
                capint - wv0.rooms.len()
            } else {
                0
            };
            let n = if want <= tail.len() {
                want
            } else {
                tail.len() as int
            };
            // the inner loop consumed exactly the chunk the fill pass assigns
            assert(c - c0 == n) by {
                if wv0.rooms.len() >= capint {
                } else {
                    if w.length >= rooms_per_worker {
                        assert(w@.rooms.len() == capint);
                    } else {
                        assert(c == rres.len());
                    }
                }
            };
            assert(tail.take(n) =~= rres.subrange(c0 as int, c as int));
            assert(WorkerView { id: wv0.id, rooms: wv0.rooms + tail.take(n) } == w@);
            assert(tail.skip(n) =~= rres.skip(c as int));
            // unfold the fill pass one step and restitch
            assert(fill_seq(keptv_before, tail, capint) == seq![w@] + fill_seq(
                keptv_before.drop_first(),
                rres.skip(c as int),
                capint,
            ));
            assert(views(out@) =~= outv0.push(w@));
            assert(outv0 + (seq![w@] + fill_seq(
                keptv_before.drop_first(),
                rres.skip(c as int),
                capint,
            )) =~= outv0.push(w@) + fill_seq(
                keptv_before.drop_first(),
                rres.skip(c as int),
                capint,
            ));
        }
    }
    proof {
        assert(views(kept@) =~= Seq::<WorkerView>::empty());
        assert(fill_seq(Seq::<WorkerView>::empty(), rres.skip(c as int), rooms_per_worker as int)
            == Seq::<WorkerView>::empty());
        assert(views(out@) + Seq::<WorkerView>::empty() =~= views(out@));
    }
    *workers = out;
    proof {
        assert(views(final(workers)@) == fill_seq(kviews, rres, rooms_per_worker as int));
        assert(final(workers)@.len() == ws0.len());
        assert(ws0.len() == old(workers)@.len());
    }
}

} // verus!
