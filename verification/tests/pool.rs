use ablive_scheduler::pool::{fill_rooms_pool, lookup_area_weight, PoolError};
use ablive_scheduler::room::{Room, RoomState};

fn dyn_room(uid: i64, roomid: i64, cat: &str, watched: i64) -> RoomState {
    RoomState { uid, roomid, parent_name: String::from(cat), watched_num: watched }
}

#[test]
fn lookup_finds_first_entry() {
    let table = vec![
        (String::from("music"), 100i64),
        (String::from("dance"), 200i64),
        (String::from("music"), 999i64),
    ];
    assert_eq!(lookup_area_weight(&table, &String::from("music")), Some(100));
    assert_eq!(lookup_area_weight(&table, &String::from("dance")), Some(200));
    assert_eq!(lookup_area_weight(&table, &String::from("talk")), None);
}

#[test]
fn weight_formula_orders_dynamic_rooms() {
    let forced: Vec<Room> = vec![];
    let dynamic = vec![dyn_room(1, 10, "music", 50), dyn_room(2, 20, "dance", 1)];
    let table = vec![(String::from("music"), 100i64), (String::from("dance"), 200i64)];
    // weights: music room 100 + 50 = 150, dance room 200 + 1 = 201
    let pool = fill_rooms_pool(&forced, &dynamic, &table, 10).unwrap();
    assert_eq!(pool, vec![Room(2, 20), Room(1, 10)]);
}

#[test]
fn forced_rooms_dominate() {
    let forced = vec![Room(9, 90)];
    let dynamic = vec![dyn_room(1, 10, "music", 899_000)];
    let table = vec![(String::from("music"), 100_000i64)];
    // dynamic weight 999,000 < forced weight 1,000,000
    let pool = fill_rooms_pool(&forced, &dynamic, &table, 10).unwrap();
    assert_eq!(pool, vec![Room(9, 90), Room(1, 10)]);
}

#[test]
fn ties_keep_source_order() {
    let forced: Vec<Room> = vec![];
    let dynamic = vec![
        dyn_room(1, 10, "music", 5),
        dyn_room(2, 20, "dance", 0),
        dyn_room(3, 30, "music", 5),
    ];
    let table = vec![(String::from("music"), 100i64), (String::from("dance"), 105i64)];
    // all three weigh 105; source order must survive the sort
    let pool = fill_rooms_pool(&forced, &dynamic, &table, 10).unwrap();
    assert_eq!(pool, vec![Room(1, 10), Room(2, 20), Room(3, 30)]);
}

#[test]
fn duplicate_room_keeps_highest_rank() {
    let forced = vec![Room(1, 10)];
    let dynamic = vec![dyn_room(1, 10, "music", 0), dyn_room(2, 20, "music", 0)];
    let table = vec![(String::from("music"), 7i64)];
    let pool = fill_rooms_pool(&forced, &dynamic, &table, 10).unwrap();
    // (1,10) appears once, at its forced (highest) rank
    assert_eq!(pool, vec![Room(1, 10), Room(2, 20)]);
}

#[test]
fn pool_is_truncated_to_capacity() {
    let forced: Vec<Room> = vec![];
    let dynamic = vec![
        dyn_room(1, 10, "music", 30),
        dyn_room(2, 20, "music", 20),
        dyn_room(3, 30, "music", 10),
    ];
    let table = vec![(String::from("music"), 0i64)];
    let pool = fill_rooms_pool(&forced, &dynamic, &table, 2).unwrap();
    // only the two heaviest survive the cutoff
    assert_eq!(pool, vec![Room(1, 10), Room(2, 20)]);
}

#[test]
fn unknown_category_is_fatal() {
    let forced: Vec<Room> = vec![];
    let dynamic = vec![dyn_room(1, 10, "music", 0), dyn_room(2, 20, "talk", 0)];
    let table = vec![(String::from("music"), 7i64)];
    match fill_rooms_pool(&forced, &dynamic, &table, 10) {
        Err(PoolError::UnknownCategory(c)) => assert_eq!(c, "talk"),
        Ok(_) => panic!("a missing weight entry must abort the build"),
    }
}

#[test]
fn empty_sources_give_empty_pool() {
    let forced: Vec<Room> = vec![];
    let dynamic: Vec<RoomState> = vec![];
    let table: Vec<(String, i64)> = vec![];
    let pool = fill_rooms_pool(&forced, &dynamic, &table, 5).unwrap();
    assert!(pool.is_empty());
}
