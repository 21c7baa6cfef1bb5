//! Building the ranked candidate pool: weighted sources are merged,
//! stably sorted by descending weight, deduplicated keeping the
//! highest-ranked occurrence, and truncated to the cycle's capacity.

use vstd::prelude::*;

use crate::room::{Room, RoomState, WeightedRoom};
use crate::seq_help::{filtered, lemma_filtered_none, lemma_filtered_push};

verus! {

/// Weight given to every forced room. It dominates every dynamic weight a
/// category table can express, so forced rooms always rank first.
pub const FORCED_WEIGHT: i128 = 1000000;

/// A fatal configuration error found while building the pool.
#[derive(Debug)]
pub enum PoolError {
    /// A dynamic room's category has no entry in the weight table.
    UnknownCategory(String),
}

/// The first weight recorded for category `name` in the table, if any.
pub open spec fn lookup_weight(entries: Seq<(String, i64)>, name: Seq<char>) -> Option<i64>
    decreases entries.len(),
{
    if entries.len() == 0 {
        None
    } else if entries[0].0@ == name {
        Some(entries[0].1)
    } else {
        lookup_weight(entries.drop_first(), name)
    }
}

/// Looks `name` up in the category weight table.
pub fn lookup_area_weight(entries: &Vec<(String, i64)>, name: &String) -> (r: Option<i64>)
    ensures
        r == lookup_weight(entries@, name@),
{
    let mut i: usize = 0;
    proof {
        assert(entries@.skip(0) =~= entries@);
    }
    while i < entries.len()
        invariant
            i <= entries@.len(),
            lookup_weight(entries@, name@) == lookup_weight(entries@.skip(i as int), name@),
        decreases entries@.len() - i,
    {
        let e = &entries[i];
        proof {
            assert(entries@.skip(i as int)[0] == entries@[i as int]);
            assert(entries@.skip(i as int).drop_first() =~= entries@.skip(i as int + 1));
        }
        if e.0 == *name {
            return Some(e.1);
        }
        i = i + 1;
    }
    proof {
        assert(entries@.skip(i as int) =~= Seq::<(String, i64)>::empty());
    }
    None
}

/// Where a room of weight `x.weight` comes to rest in `s`: after every
/// element that weighs at least as much, before the first that weighs less.
pub open spec fn insert_desc(x: WeightedRoom, s: Seq<WeightedRoom>) -> Seq<WeightedRoom>
    decreases s.len(),
{
    if s.len() == 0 {
        seq![x]
    } else if s[0].weight >= x.weight {
        seq![s[0]] + insert_desc(x, s.drop_first())
    } else {
        seq![x] + s
    }
}

/// Stable sort of weighted rooms, descending by weight: each element is
/// inserted, in input order, behind all equal-or-heavier ones.
pub open spec fn sort_by_weight(s: Seq<WeightedRoom>) -> Seq<WeightedRoom>
    decreases s.len(),
{
    if s.len() == 0 {
        Seq::empty()
    } else {
        insert_desc(s.last(), sort_by_weight(s.drop_last()))
    }
}

/// Weights never increase along the sequence.
pub open spec fn sorted_desc(s: Seq<WeightedRoom>) -> bool {
    forall|i: int, j: int|
        #![trigger s[i], s[j]]
        0 <= i < j < s.len() ==> s[i].weight >= s[j].weight
}

proof fn lemma_insert_desc_split(x: WeightedRoom, s: Seq<WeightedRoom>, i: int)
    requires
        0 <= i <= s.len(),
        forall|j: int| 0 <= j < i ==> (#[trigger] s[j]).weight >= x.weight,
        i < s.len() ==> s[i].weight < x.weight,
    ensures
        insert_desc(x, s) == s.insert(i, x),
    decreases i,
{
    if i == 0 {
        if s.len() == 0 {
            assert(insert_desc(x, s) =~= s.insert(0, x));
        } else {
            assert(insert_desc(x, s) =~= s.insert(0, x));
        }
    } else {
        assert(s[0].weight >= x.weight);
        assert(forall|j: int|
            0 <= j < i - 1 ==> (#[trigger] s.drop_first()[j]).weight >= x.weight) by {
            assert(forall|j: int| 0 <= j < i - 1 ==> s.drop_first()[j] == s[j + 1]);
        }
        lemma_insert_desc_split(x, s.drop_first(), i - 1);
        assert(seq![s[0]] + s.drop_first().insert(i - 1, x) =~= s.insert(i, x));
    }
}

/// The position `insert_desc` inserts at.
spec fn insert_pos(x: WeightedRoom, s: Seq<WeightedRoom>) -> int
    decreases s.len(),
{
    if s.len() == 0 {
        0
    } else if s[0].weight >= x.weight {
        1 + insert_pos(x, s.drop_first())
    } else {
        0
    }
}

proof fn lemma_insert_pos_props(x: WeightedRoom, s: Seq<WeightedRoom>)
    ensures
        0 <= insert_pos(x, s) <= s.len(),
        forall|j: int| 0 <= j < insert_pos(x, s) ==> (#[trigger] s[j]).weight >= x.weight,
        insert_pos(x, s) < s.len() ==> s[insert_pos(x, s)].weight < x.weight,
        insert_desc(x, s) == s.insert(insert_pos(x, s), x),
    decreases s.len(),
{
    if s.len() == 0 {
    } else if s[0].weight >= x.weight {
        lemma_insert_pos_props(x, s.drop_first());
        let p = insert_pos(x, s);
        assert forall|j: int| 0 <= j < p implies (#[trigger] s[j]).weight >= x.weight by {
            if j > 0 {
                assert(s.drop_first()[j - 1] == s[j]);
                assert(s.drop_first()[j - 1].weight >= x.weight);
            }
        }
        if p < s.len() {
            assert(s.drop_first()[p - 1] == s[p]);
        }
    }
    lemma_insert_desc_split(x, s, insert_pos(x, s));
}

proof fn lemma_insert_desc_sorted(x: WeightedRoom, s: Seq<WeightedRoom>)
    requires
        sorted_desc(s),
    ensures
        sorted_desc(insert_desc(x, s)),
{
    lemma_insert_pos_props(x, s);
    let p = insert_pos(x, s);
    let out = s.insert(p, x);
    s.insert_ensures(p, x);
    assert forall|i: int, j: int|
        #![trigger out[i], out[j]]
        0 <= i < j < out.len() implies out[i].weight >= out[j].weight by {
        if i < p && j < p {
        } else if i < p && j == p {
        } else if i < p && j > p {
            assert(out[j] == s[j - 1]);
            assert(s[p].weight < x.weight);
        } else if i == p {
            assert(out[j] == s[j - 1]);
            assert(s[p].weight < x.weight);
            assert(s[p].weight >= s[j - 1].weight);
        } else {
            assert(out[i] == s[i - 1]);
            assert(out[j] == s[j - 1]);
        }
    }
}

/// The sort really sorts.
pub proof fn lemma_sort_sorted(s: Seq<WeightedRoom>)
    ensures
        sorted_desc(sort_by_weight(s)),
        sort_by_weight(s).len() == s.len(),
    decreases s.len(),
{
    if s.len() == 0 {
    } else {
        lemma_sort_sorted(s.drop_last());
        lemma_insert_pos_props(s.last(), sort_by_weight(s.drop_last()));
        lemma_insert_desc_sorted(s.last(), sort_by_weight(s.drop_last()));
    }
}

proof fn lemma_insert_desc_stable(x: WeightedRoom, s: Seq<WeightedRoom>, w: i128)
    requires
        sorted_desc(s),
    ensures
        filtered(insert_desc(x, s), |e: WeightedRoom| e.weight == w) == if x.weight == w {
            filtered(s, |e: WeightedRoom| e.weight == w).push(x)
        } else {
            filtered(s, |e: WeightedRoom| e.weight == w)
        },
{
    let pred = |e: WeightedRoom| e.weight == w;
    lemma_insert_pos_props(x, s);
    let p = insert_pos(x, s);
    s.insert_ensures(p, x);
    // insert_desc(x, s) == s.take(p).push(x) + s.skip(p)
    assert(s.insert(p, x) =~= s.take(p).push(x) + s.skip(p));
    assert(s =~= s.take(p) + s.skip(p));
    lemma_filtered_add(s.take(p).push(x), s.skip(p), pred);
    lemma_filtered_add(s.take(p), s.skip(p), pred);
    lemma_filtered_push(s.take(p), pred, x);
    if x.weight == w {
        // no element at or after p can weigh w: s[p] < x.weight and sorted
        assert(forall|i: int| 0 <= i < s.skip(p).len() ==> !pred(#[trigger] s.skip(p)[i])) by {
            assert(forall|i: int| 0 <= i < s.len() - p ==> #[trigger] s.skip(p)[i] == s[p + i]);
        }
        lemma_filtered_none(s.skip(p), pred);
        assert(filtered(s, pred) =~= filtered(s.take(p), pred));
        assert(filtered(insert_desc(x, s), pred) =~= filtered(s, pred).push(x));
    } else {
        assert(filtered(insert_desc(x, s), pred) =~= filtered(s, pred));
    }
}

/// Filtering distributes over concatenation.
proof fn lemma_filtered_add(a: Seq<WeightedRoom>, b: Seq<WeightedRoom>, pred: spec_fn(WeightedRoom) -> bool)
    ensures
        filtered(a + b, pred) == filtered(a, pred) + filtered(b, pred),
    decreases b.len(),
{
    if b.len() == 0 {
        assert(a + b =~= a);
        assert(filtered(a, pred) + filtered(b, pred) =~= filtered(a, pred));
    } else {
        lemma_filtered_add(a, b.drop_last(), pred);
        assert((a + b).drop_last() =~= a + b.drop_last());
        assert((a + b).last() == b.last());
        if pred(b.last()) {
            assert(filtered(a, pred) + filtered(b.drop_last(), pred).push(b.last()) =~= (
            filtered(a, pred) + filtered(b.drop_last(), pred)).push(b.last()));
        }
    }
}

/// Stability: among rooms of one and the same weight, the sort keeps the
/// input order — the sorted sequence restricted to any weight `w` is exactly
/// the input restricted to `w`.
pub proof fn lemma_sort_stable(s: Seq<WeightedRoom>, w: i128)
    ensures
        filtered(sort_by_weight(s), |e: WeightedRoom| e.weight == w) == filtered(
            s,
            |e: WeightedRoom| e.weight == w,
        ),
    decreases s.len(),
{
    let pred = |e: WeightedRoom| e.weight == w;
    if s.len() == 0 {
        assert(sort_by_weight(s) =~= s);
    } else {
        lemma_sort_stable(s.drop_last(), w);
        lemma_sort_sorted(s.drop_last());
        lemma_insert_desc_stable(s.last(), sort_by_weight(s.drop_last()), w);
        lemma_filtered_push(s.drop_last(), pred, s.last());
        assert(s.drop_last().push(s.last()) =~= s);
    }
}

/// Deduplication by room identity: of equal rooms, the first (and therefore
/// highest-ranked) occurrence survives.
pub open spec fn dedup_first(s: Seq<Room>) -> Seq<Room>
    decreases s.len(),
{
    if s.len() == 0 {
        Seq::empty()
    } else {
        let rest = dedup_first(s.drop_last());
        if s.drop_last().contains(s.last()) {
            rest
        } else {
            rest.push(s.last())
        }
    }
}

/// Deduplication keeps membership, never invents rooms, and leaves no
/// duplicates behind.
pub proof fn lemma_dedup_props(s: Seq<Room>)
    ensures
        dedup_first(s).no_duplicates(),
        forall|r: Room| #[trigger] dedup_first(s).contains(r) <==> s.contains(r),
        dedup_first(s).len() <= s.len(),
    decreases s.len(),
{
    if s.len() == 0 {
    } else {
        let d = s.drop_last();
        lemma_dedup_props(d);
        assert(forall|r: Room| d.contains(r) ==> s.contains(r)) by {
            assert forall|r: Room| d.contains(r) implies s.contains(r) by {
                let i = choose|i: int| 0 <= i < d.len() && d[i] == r;
                assert(s[i] == r);
            }
        }
        assert(s.contains(s.last())) by {
            assert(s[s.len() - 1] == s.last());
        }
        assert forall|r: Room| s.contains(r) implies dedup_first(s).contains(r) by {
            let i = choose|i: int| 0 <= i < s.len() && s[i] == r;
            if i < s.len() - 1 {
                assert(d[i] == r);
                assert(d.contains(r));
                assert(dedup_first(d).contains(r));
                let k = choose|k: int| 0 <= k < dedup_first(d).len() && dedup_first(d)[k] == r;
                assert(dedup_first(s)[k] == r);
                assert(dedup_first(s).contains(r));
            } else {
                assert(s.last() == r);
                if d.contains(s.last()) {
                    assert(dedup_first(d).contains(r));
                    let k = choose|k: int|
                        0 <= k < dedup_first(d).len() && dedup_first(d)[k] == r;
                    assert(dedup_first(s)[k] == r);
                    assert(dedup_first(s).contains(r));
                } else {
                    assert(dedup_first(s)[dedup_first(s).len() - 1] == r);
                    assert(dedup_first(s).contains(r));
                }
            }
        }
        assert forall|r: Room| dedup_first(s).contains(r) implies s.contains(r) by {
            let k = choose|k: int| 0 <= k < dedup_first(s).len() && dedup_first(s)[k] == r;
            if k < dedup_first(d).len() {
                assert(dedup_first(d)[k] == r);
                assert(dedup_first(d).contains(r));
                assert(d.contains(r));
            } else {
                assert(dedup_first(s)[k] == s.last());
            }
        }
        if !d.contains(s.last()) {
            assert(!dedup_first(d).contains(s.last()));
            let f = dedup_first(s);
            let fd = dedup_first(d);
            assert forall|i: int, j: int|
                0 <= i < f.len() && 0 <= j < f.len() && i != j implies f[i] != f[j] by {
                if i < fd.len() && j < fd.len() {
                    assert(f[i] == fd[i] && f[j] == fd[j]);
                } else if i < fd.len() {
                    assert(f[j] == s.last() && f[i] == fd[i]);
                    if fd[i] == s.last() {
                        assert(fd.contains(s.last()));
                    }
                } else {
                    assert(f[i] == s.last() && f[j] == fd[j]);
                    if fd[j] == s.last() {
                        assert(fd.contains(s.last()));
                    }
                }
            }
        }
    }
}

/// The rooms of a weighted sequence, in order.
pub open spec fn rooms_of(s: Seq<WeightedRoom>) -> Seq<Room> {
    s.map_values(|e: WeightedRoom| e.room)
}

/// The first `cap` elements, or all of them when fewer.
pub open spec fn truncate_to(s: Seq<Room>, cap: int) -> Seq<Room> {
    if cap < s.len() {
        s.take(cap)
    } else {
        s
    }
}

/// `c` is the category of the first dynamic room whose category the weight
/// table does not know.
pub open spec fn reports_first_unknown(
    dynamic: Seq<RoomState>,
    entries: Seq<(String, i64)>,
    c: Seq<char>,
) -> bool {
    exists|i: int|
        #![trigger dynamic[i]]
        (0 <= i < dynamic.len()) && (lookup_weight(entries, dynamic[i].parent_name@) is None) && (c
            == dynamic[i].parent_name@) && (forall|j: int|
            0 <= j < i ==> lookup_weight(entries, (#[trigger] dynamic[j]).parent_name@) is Some)
}

/// Every dynamic room's category has a weight.
pub open spec fn all_categories_known(dynamic: Seq<RoomState>, entries: Seq<(String, i64)>) -> bool {
    forall|i: int|
        0 <= i < dynamic.len() ==> lookup_weight(entries, (#[trigger] dynamic[i]).parent_name@)
            is Some
}

/// The combined weighted source list: forced rooms first, at the dominating
/// weight, then dynamic rooms in source order, each at its category weight
/// plus its secondary signal.
pub open spec fn weighted_rooms(
    forced: Seq<Room>,
    dynamic: Seq<RoomState>,
    entries: Seq<(String, i64)>,
) -> Seq<WeightedRoom> {
    forced.map_values(|r: Room| WeightedRoom { weight: FORCED_WEIGHT, room: r })
        + dynamic.map_values(
        |d: RoomState| WeightedRoom {
            weight: (lookup_weight(entries, d.parent_name@).unwrap() + d.watched_num) as i128,
            room: Room(d.uid, d.roomid),
        },
    )
}

/// The candidate pool for one cycle: weighted sources, stably sorted by
/// descending weight, deduplicated first-occurrence-wins, truncated to `cap`.
pub open spec fn spec_pool(
    forced: Seq<Room>,
    dynamic: Seq<RoomState>,
    entries: Seq<(String, i64)>,
    cap: int,
) -> Seq<Room> {
    truncate_to(dedup_first(rooms_of(sort_by_weight(weighted_rooms(forced, dynamic, entries)))), cap)
}

fn sorted_insert(v: &mut Vec<WeightedRoom>, x: WeightedRoom)
    ensures
        final(v)@ == insert_desc(x, old(v)@),
{
    let mut i: usize = 0;
    while i < v.len() && v[i].weight >= x.weight
        invariant
            i <= v@.len(),
            v@ == old(v)@,
            forall|j: int| 0 <= j < i ==> (#[trigger] v@[j]).weight >= x.weight,
        decreases v@.len() - i,
    {
        i = i + 1;
    }
    proof {
        lemma_insert_desc_split(x, v@, i as int);
    }
    v.insert(i, x);
}

/// Stable insertion sort, descending by weight.
fn sort_rooms(rooms: Vec<WeightedRoom>) -> (r: Vec<WeightedRoom>)
    ensures
        r@ == sort_by_weight(rooms@),
{
    let mut out: Vec<WeightedRoom> = Vec::new();
    let mut i: usize = 0;
    while i < rooms.len()
        invariant
            i <= rooms@.len(),
            out@ == sort_by_weight(rooms@.take(i as int)),
        decreases rooms@.len() - i,
    {
        sorted_insert(&mut out, rooms[i]);
        proof {
            let t1 = rooms@.take(i as int + 1);
            assert(t1.drop_last() =~= rooms@.take(i as int));
            assert(t1.last() == rooms@[i as int]);
        }
        i = i + 1;
    }
    proof {
        assert(rooms@.take(rooms@.len() as int) =~= rooms@);
    }
    out
}

/// Removes duplicate rooms, keeping the first occurrence of each.
fn dedup_rooms(rooms: &Vec<Room>) -> (r: Vec<Room>)
    ensures
        r@ == dedup_first(rooms@),
{
    let mut out: Vec<Room> = Vec::new();
    let mut i: usize = 0;
    while i < rooms.len()
        invariant
            i <= rooms@.len(),
            out@ == dedup_first(rooms@.take(i as int)),
        decreases rooms@.len() - i,
    {
        let r = rooms[i];
        let mut seen = false;
        let mut j: usize = 0;
        while j < i
            invariant
                j <= i <= rooms@.len(),
                seen == rooms@.take(j as int).contains(r),
            decreases i - j,
        {
            if rooms[j] == r {
                seen = true;
            }
            proof {
                let tj = rooms@.take(j as int + 1);
                assert(tj.drop_last() =~= rooms@.take(j as int));
                assert(tj[j as int] == rooms@[j as int]);
                if rooms@[j as int] != r && !rooms@.take(j as int).contains(r) {
                    assert(forall|k: int| 0 <= k < j + 1 ==> tj[k] == rooms@[k]);
                    assert(!tj.contains(r)) by {
                        assert(forall|k: int|
                            0 <= k < j ==> tj[k] == #[trigger] rooms@.take(j as int)[k]);
                    }
                }
            }
            j = j + 1;
        }
        if !seen {
            out.push(r);
        }
        proof {
            let t1 = rooms@.take(i as int + 1);
            assert(t1.drop_last() =~= rooms@.take(i as int));
            assert(t1.last() == rooms@[i as int]);
        }
        i = i + 1;
    }
    proof {
        assert(rooms@.take(rooms@.len() as int) =~= rooms@);
    }
    out
}

/// Builds the ranked candidate pool for one cycle.
///
/// `forced` rooms always enter at the dominating weight; each `dynamic` room
/// enters at its category weight plus its secondary signal. The combined
/// list is stably sorted by descending weight, deduplicated keeping the
/// highest-ranked occurrence of each room, and truncated to `cap`. A dynamic
/// room whose category is missing from the weight table is a fatal
/// configuration error; the first such category is reported and no pool is
/// produced.
pub fn fill_rooms_pool(
    forced: &Vec<Room>,
    dynamic: &Vec<RoomState>,
    area_weight: &Vec<(String, i64)>,
    cap: usize,
) -> (r: Result<Vec<Room>, PoolError>)
    ensures
        match r {
            Ok(pool) => {
                &&& all_categories_known(dynamic@, area_weight@)
                &&& pool@ == spec_pool(forced@, dynamic@, area_weight@, cap as int)
                &&& pool@.no_duplicates()
                &&& pool@.len() <= cap
            },
            Err(e) => {
                &&& !all_categories_known(dynamic@, area_weight@)
                &&& (match e {
                    PoolError::UnknownCategory(c) => reports_first_unknown(
                        dynamic@,
                        area_weight@,
                        c@,
                    ),
                })
            },
        },
{
    let ghost forced_part = forced@.map_values(
        |r: Room| WeightedRoom { weight: FORCED_WEIGHT, room: r },
    );
    let ghost dyn_f = |d: RoomState| WeightedRoom {
        weight: (lookup_weight(area_weight@, d.parent_name@).unwrap() + d.watched_num) as i128,
        room: Room(d.uid, d.roomid),
    };

    let mut weighted: Vec<WeightedRoom> = Vec::new();
    let mut i: usize = 0;
    while i < forced.len()
        invariant
            i <= forced@.len(),
            weighted@ == forced@.take(i as int).map_values(
                |r: Room| WeightedRoom { weight: FORCED_WEIGHT, room: r },
            ),
        decreases forced@.len() - i,
    {
        weighted.push(WeightedRoom { weight: FORCED_WEIGHT, room: forced[i] });
        proof {
            assert(weighted@ =~= forced@.take(i as int + 1).map_values(
                |r: Room| WeightedRoom { weight: FORCED_WEIGHT, room: r },
            ));
        }
        i = i + 1;
    }
    proof {
        assert(forced@.take(forced@.len() as int) =~= forced@);
    }

    let mut k: usize = 0;
    while k < dynamic.len()
        invariant
            k <= dynamic@.len(),
            weighted@ == forced_part + dynamic@.take(k as int).map_values(dyn_f),
            forced_part == forced@.map_values(
                |r: Room| WeightedRoom { weight: FORCED_WEIGHT, room: r },
            ),
            dyn_f == (|d: RoomState| WeightedRoom {
                weight: (lookup_weight(area_weight@, d.parent_name@).unwrap() + d.watched_num)
                    as i128,
                room: Room(d.uid, d.roomid),
            }),
            forall|j: int|
                0 <= j < k ==> lookup_weight(area_weight@, (#[trigger] dynamic@[j]).parent_name@)
                    is Some,
        decreases dynamic@.len() - k,
    {
        let d = &dynamic[k];
        let w = match lookup_area_weight(area_weight, &d.parent_name) {
            Some(w) => w,
            None => {
                return Err(PoolError::UnknownCategory(d.parent_name.clone()));
            },
        };
        let weight: i128 = w as i128 + d.watched_num as i128;
        weighted.push(WeightedRoom { weight, room: Room(d.uid, d.roomid) });
        proof {
            assert(dynamic@.take(k as int + 1).map_values(dyn_f) =~= dynamic@.take(
                k as int,
            ).map_values(dyn_f).push(dyn_f(dynamic@[k as int])));
            assert(weighted@ =~= forced_part + dynamic@.take(k as int + 1).map_values(dyn_f));
        }
        k = k + 1;
    }
    proof {
        assert(dynamic@.take(dynamic@.len() as int) =~= dynamic@);
        assert(weighted@ == weighted_rooms(forced@, dynamic@, area_weight@));
    }

    let sorted = sort_rooms(weighted);

    let mut rooms: Vec<Room> = Vec::new();
    let mut m: usize = 0;
    while m < sorted.len()
        invariant
            m <= sorted@.len(),
            rooms@ == rooms_of(sorted@.take(m as int)),
        decreases sorted@.len() - m,
    {
        rooms.push(sorted[m].room);
        proof {
            assert(rooms@ =~= rooms_of(sorted@.take(m as int + 1)));
        }
        m = m + 1;
    }
    proof {
        assert(sorted@.take(sorted@.len() as int) =~= sorted@);
    }

    let deduped = dedup_rooms(&rooms);
    proof {
        lemma_dedup_props(rooms@);
    }

    let mut pool: Vec<Room> = Vec::new();
    let mut t: usize = 0;
    while t < deduped.len() && t < cap
        invariant
            t <= deduped@.len(),
            t <= cap,
            pool@ == deduped@.take(t as int),
        decreases deduped@.len() - t,
    {
        pool.push(deduped[t]);
        proof {
            assert(pool@ =~= deduped@.take(t as int + 1));
        }
        t = t + 1;
    }
    proof {
        if cap < deduped@.len() {
            assert(pool@ == deduped@.take(cap as int));
        } else {
            assert(deduped@.take(deduped@.len() as int) =~= deduped@);
        }
        assert(pool@ == truncate_to(deduped@, cap as int));
        assert(pool@.no_duplicates()) by {
            assert(forall|a: int, b: int|
                0 <= a < pool@.len() && 0 <= b < pool@.len() && a != b ==> pool@[a] == deduped@[a]
                    && pool@[b] == deduped@[b]);
        }
    }
    Ok(pool)
}

} // verus!
