use ablive_scheduler::cycle::run_cycle;
use ablive_scheduler::pool::PoolError;
use ablive_scheduler::room::{Room, RoomState};
use ablive_scheduler::settings::Settings;
use ablive_scheduler::worker::RoomsWorker;

fn settings(table: Vec<(&str, i64)>, rooms_per_worker: i32) -> Settings {
    Settings {
        mongo_liveroom: String::from("mongodb://liveroom.invalid"),
        mongo_worker: String::from("mongodb://worker.invalid"),
        area_weight: table.into_iter().map(|(k, v)| (String::from(k), v)).collect(),
        rooms_per_worker,
    }
}

fn worker(id: u128, rooms: Vec<Room>) -> RoomsWorker {
    let length = rooms.len() as i32;
    RoomsWorker { id, length, rooms }
}

#[test]
fn whole_cycle_builds_pool_and_rebalances() {
    let s = settings(vec![("music", 100)], 2);
    let forced = vec![Room(9, 90)];
    let dynamic = vec![
        RoomState { uid: 1, roomid: 10, parent_name: String::from("music"), watched_num: 5 },
        RoomState { uid: 2, roomid: 20, parent_name: String::from("music"), watched_num: 50 },
        RoomState { uid: 3, roomid: 30, parent_name: String::from("music"), watched_num: 1 },
    ];
    let mut workers = vec![worker(1, vec![Room(1, 10)]), worker(2, vec![])];
    // pool ranking: forced (9,90), then (2,20), then (1,10); cap = 2 × 2 = 4
    // keeps all four candidates except none — pool is [(9,90),(2,20),(1,10),(3,30)]
    run_cycle(&s, &forced, &dynamic, &mut workers).unwrap();
    // worker 1 retains (1,10) and takes (9,90); worker 2 takes (2,20),(3,30)
    assert_eq!(workers[0].rooms, vec![Room(1, 10), Room(9, 90)]);
    assert_eq!(workers[1].rooms, vec![Room(2, 20), Room(3, 30)]);
}

#[test]
fn configuration_error_aborts_before_mutation() {
    let s = settings(vec![("music", 100)], 2);
    let forced = vec![];
    let dynamic = vec![RoomState {
        uid: 1,
        roomid: 10,
        parent_name: String::from("talk"),
        watched_num: 0,
    }];
    let mut workers = vec![worker(1, vec![Room(1, 10)])];
    match run_cycle(&s, &forced, &dynamic, &mut workers) {
        Err(PoolError::UnknownCategory(c)) => assert_eq!(c, "talk"),
        Ok(()) => panic!("an unmapped category must abort the cycle"),
    }
    // nothing was mutated
    assert_eq!(workers[0].rooms, vec![Room(1, 10)]);
    assert_eq!(workers[0].length, 1);
}

#[test]
fn zero_capacity_empties_all_workers() {
    let s = settings(vec![], 0);
    let forced = vec![Room(1, 10)];
    let dynamic = vec![];
    let mut workers = vec![worker(1, vec![Room(1, 10)])];
    // cap = 0 × 1 = 0: the pool is truncated to nothing, everything is evicted
    run_cycle(&s, &forced, &dynamic, &mut workers).unwrap();
    assert!(workers[0].rooms.is_empty());
    assert_eq!(workers[0].length, 0);
}
