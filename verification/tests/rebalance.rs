use ablive_scheduler::rebalance::adjust_workers;
use ablive_scheduler::room::Room;
use ablive_scheduler::worker::RoomsWorker;

fn worker(id: u128, rooms: Vec<Room>) -> RoomsWorker {
    let length = rooms.len() as i32;
    RoomsWorker { id, length, rooms }
}

#[test]
fn example_scenario_two_workers() {
    // Worker A holds {(1,10),(2,20)}, worker B holds {(3,30)}; capacity 3.
    let mut workers = vec![
        worker(1, vec![Room(1, 10), Room(2, 20)]),
        worker(2, vec![Room(3, 30)]),
    ];
    let pool = vec![Room(1, 10), Room(2, 20), Room(3, 30), Room(4, 40), Room(5, 50)];
    adjust_workers(&mut workers, &pool, 3);
    // A retains its two rooms and takes (4,40), reaching capacity;
    // B retains (3,30) and takes (5,50).
    assert_eq!(workers[0].rooms, vec![Room(1, 10), Room(2, 20), Room(4, 40)]);
    assert_eq!(workers[0].length, 3);
    assert_eq!(workers[1].rooms, vec![Room(3, 30), Room(5, 50)]);
    assert_eq!(workers[1].length, 2);

    // a second cycle with the same pool changes nothing
    let before: Vec<Vec<Room>> = workers.iter().map(|w| w.rooms.clone()).collect();
    adjust_workers(&mut workers, &pool, 3);
    let after: Vec<Vec<Room>> = workers.iter().map(|w| w.rooms.clone()).collect();
    assert_eq!(before, after);
}

#[test]
fn rooms_outside_pool_are_evicted() {
    let mut workers = vec![worker(1, vec![Room(1, 10), Room(2, 20)])];
    let pool = vec![Room(2, 20)];
    adjust_workers(&mut workers, &pool, 5);
    assert_eq!(workers[0].rooms, vec![Room(2, 20)]);
    assert_eq!(workers[0].length, 1);
}

#[test]
fn excess_rooms_are_dropped_not_balanced() {
    let mut workers = vec![worker(1, vec![]), worker(2, vec![])];
    let pool = vec![Room(1, 1), Room(2, 2), Room(3, 3), Room(4, 4), Room(5, 5)];
    adjust_workers(&mut workers, &pool, 2);
    // the first worker fills first, then the second; (5,5) is dropped
    assert_eq!(workers[0].rooms, vec![Room(1, 1), Room(2, 2)]);
    assert_eq!(workers[1].rooms, vec![Room(3, 3), Room(4, 4)]);
}

#[test]
fn retained_room_is_never_moved() {
    // the second worker already holds a pool room; the first has free space,
    // but the room must stay where it is
    let mut workers = vec![worker(1, vec![]), worker(2, vec![Room(7, 70)])];
    let pool = vec![Room(7, 70)];
    adjust_workers(&mut workers, &pool, 3);
    assert!(workers[0].rooms.is_empty());
    assert_eq!(workers[1].rooms, vec![Room(7, 70)]);
}

#[test]
fn no_room_assigned_twice() {
    let mut workers = vec![worker(1, vec![Room(1, 1)]), worker(2, vec![])];
    let pool = vec![Room(1, 1), Room(2, 2), Room(3, 3)];
    adjust_workers(&mut workers, &pool, 2);
    let mut seen: Vec<Room> = vec![];
    for w in &workers {
        for r in &w.rooms {
            assert!(!seen.contains(r));
            seen.push(*r);
        }
    }
    // with enough spare capacity, every pool room is placed exactly once
    assert_eq!(seen.len(), 3);
}

#[test]
fn identical_inputs_give_identical_outputs() {
    let pool = vec![Room(1, 1), Room(2, 2), Room(3, 3)];
    let mut a = vec![worker(1, vec![Room(2, 2)]), worker(2, vec![])];
    let mut b = vec![worker(1, vec![Room(2, 2)]), worker(2, vec![])];
    adjust_workers(&mut a, &pool, 2);
    adjust_workers(&mut b, &pool, 2);
    for (x, y) in a.iter().zip(b.iter()) {
        assert_eq!(x.rooms, y.rooms);
        assert_eq!(x.length, y.length);
    }
}

#[test]
fn append_ignores_duplicates() {
    let mut w = worker(1, vec![Room(1, 1)]);
    w.rooms_append(Room(1, 1));
    assert_eq!(w.rooms, vec![Room(1, 1)]);
    assert_eq!(w.length, 1);
    w.rooms_append(Room(2, 2));
    assert_eq!(w.rooms, vec![Room(1, 1), Room(2, 2)]);
    assert_eq!(w.length, 2);
}

#[test]
fn remove_takes_out_one_room() {
    let mut w = worker(1, vec![Room(1, 1), Room(2, 2)]);
    w.rooms_remove(Room(1, 1));
    assert_eq!(w.rooms, vec![Room(2, 2)]);
    assert_eq!(w.length, 1);
    w.rooms_remove(Room(9, 9));
    assert_eq!(w.rooms, vec![Room(2, 2)]);
    assert_eq!(w.length, 1);
}
