use replay::event::{
    Event, EventPlayerJoin, EventVehiclePosition, EventVehicleSize, EventVehicleSpawn, RawEvent,
};
use replay::state::{Car, Player, ReplayState};

fn w(x: f32) -> u32 {
    x.to_bits()
}

fn join(pid: usize, name: &str) -> Event {
    Event::PlayerJoin((pid, EventPlayerJoin { name: name.to_string() }))
}

fn spawn(pid: usize, vid: usize) -> Event {
    Event::VehicleSpawn((pid, vid, EventVehicleSpawn {}))
}

fn motion(pid: usize, vid: usize, x: f32) -> Event {
    Event::VehiclePosition((
        pid,
        vid,
        EventVehiclePosition {
            ping: w(1.0),
            pos: [w(x), w(x + 1.0), w(x + 2.0)],
            rot: [w(0.0), w(0.0), w(0.0), w(1.0)],
            vel: [w(0.5), w(0.25), w(0.125)],
            rvel: [w(3.0), w(2.0), w(1.0)],
        },
    ))
}

fn size(pid: usize, vid: usize, a: f32, b: f32) -> Event {
    Event::VehicleSize((pid, vid, EventVehicleSize { size: [w(a), w(b)] }))
}

fn zero_car(pid: usize, vid: usize) -> Car {
    Car {
        pid,
        vid,
        pos: (0, 0, 0),
        rot: (0, 0, 0, 0),
        vel: (0, 0, 0),
        rvel: (0, 0, 0),
        size: (0, 0),
    }
}

fn sorted_keys(s: &ReplayState) -> Vec<(usize, usize)> {
    let mut keys: Vec<(usize, usize)> = s.cars.iter().map(|c| (c.pid, c.vid)).collect();
    keys.sort();
    keys
}

#[test]
fn new_state_is_empty() {
    let s = ReplayState::new();
    assert!(s.players.is_empty());
    assert!(s.cars.is_empty());
    assert_eq!(s.car(1, 1), None);
}

#[test]
fn join_inserts_and_overwrites() {
    let mut s = ReplayState::new();
    s.apply_event(join(1, "Alice"));
    assert_eq!(s.players.get(&1), Some(&Player { id: 1, name: "Alice".to_string() }));
    s.apply_event(join(1, "Alicia"));
    assert_eq!(s.players.len(), 1);
    assert_eq!(s.players.get(&1).unwrap().name, "Alicia");
}

#[test]
fn spawn_creates_a_zeroed_car() {
    let mut s = ReplayState::new();
    s.apply_event(spawn(3, 9));
    assert_eq!(s.car(3, 9), Some(zero_car(3, 9)));
    assert_eq!(f32::from_bits(s.car(3, 9).unwrap().pos.0), 0.0);
    assert_eq!(s.cars.len(), 1);
}

#[test]
fn spawn_overwrites_an_existing_car() {
    let mut s = ReplayState::new();
    s.apply_event(spawn(3, 9));
    s.apply_event(motion(3, 9, 5.0));
    s.apply_event(size(3, 9, 2.0, 4.0));
    s.apply_event(spawn(3, 9));
    assert_eq!(s.car(3, 9), Some(zero_car(3, 9)));
    assert_eq!(s.cars.len(), 1);
}

#[test]
fn motion_updates_everything_but_size() {
    let mut s = ReplayState::new();
    s.apply_event(spawn(1, 1));
    s.apply_event(size(1, 1, 2.0, 4.0));
    s.apply_event(motion(1, 1, 5.0));
    let c = s.car(1, 1).unwrap();
    assert_eq!((c.pid, c.vid), (1, 1));
    assert_eq!(c.pos, (w(5.0), w(6.0), w(7.0)));
    assert_eq!(c.rot, (w(0.0), w(0.0), w(0.0), w(1.0)));
    assert_eq!(c.vel, (w(0.5), w(0.25), w(0.125)));
    assert_eq!(c.rvel, (w(3.0), w(2.0), w(1.0)));
    assert_eq!(c.size, (w(2.0), w(4.0)));
    assert_eq!(s.cars.len(), 1);
}

#[test]
fn size_updates_only_size() {
    let mut s = ReplayState::new();
    s.apply_event(spawn(1, 1));
    s.apply_event(motion(1, 1, 5.0));
    s.apply_event(size(1, 1, 2.0, 4.0));
    let c = s.car(1, 1).unwrap();
    assert_eq!(c.pos, (w(5.0), w(6.0), w(7.0)));
    assert_eq!(c.size, (w(2.0), w(4.0)));
}

#[test]
fn delete_removes_only_the_named_car() {
    let mut s = ReplayState::new();
    s.apply_event(spawn(1, 1));
    s.apply_event(spawn(1, 2));
    s.apply_event(spawn(2, 1));
    s.apply_event(Event::VehicleDelete((1, 1)));
    assert_eq!(sorted_keys(&s), vec![(1, 2), (2, 1)]);
}

#[test]
fn updates_of_a_missing_car_change_nothing() {
    let mut s = ReplayState::new();
    s.apply_event(join(1, "Alice"));
    s.apply_event(spawn(1, 1));
    s.apply_event(motion(1, 1, 5.0));
    let before = s.car(1, 1);
    s.apply_event(motion(1, 2, 9.0));
    s.apply_event(size(2, 1, 1.0, 1.0));
    s.apply_event(Event::VehicleDelete((2, 2)));
    assert_eq!(s.cars.len(), 1);
    assert_eq!(s.car(1, 1), before);
    assert_eq!(s.car(1, 2), None);
    assert_eq!(s.car(2, 1), None);
    assert_eq!(s.players.len(), 1);
}

#[test]
fn leave_removes_the_player_and_only_that_players_cars() {
    let mut s = ReplayState::new();
    s.apply_event(join(1, "Alice"));
    s.apply_event(join(2, "Bob"));
    s.apply_event(spawn(1, 1));
    s.apply_event(spawn(2, 1));
    s.apply_event(spawn(1, 2));
    s.apply_event(spawn(2, 7));
    s.apply_event(motion(2, 1, 3.0));
    let kept = s.car(2, 1);
    s.apply_event(Event::PlayerLeave(1));
    assert!(s.players.get(&1).is_none());
    assert_eq!(s.players.get(&2).unwrap().name, "Bob");
    assert_eq!(sorted_keys(&s), vec![(2, 1), (2, 7)]);
    assert_eq!(s.car(2, 1), kept);
    assert_eq!(s.car(1, 1), None);
}

#[test]
fn leave_of_an_absent_player_changes_nothing() {
    let mut s = ReplayState::new();
    s.apply_event(join(2, "Bob"));
    s.apply_event(spawn(2, 1));
    s.apply_event(Event::PlayerLeave(1));
    assert_eq!(s.players.len(), 1);
    assert_eq!(sorted_keys(&s), vec![(2, 1)]);
}

#[test]
fn unsupported_event_changes_nothing() {
    let mut s = ReplayState::new();
    s.apply_event(spawn(2, 1));
    s.apply_event(Event::Unsupported);
    assert_eq!(sorted_keys(&s), vec![(2, 1)]);
    assert!(s.players.is_empty());
}

#[test]
fn dropped_record_changes_nothing() {
    let mut s = ReplayState::new();
    s.apply_event(spawn(2, 1));
    s.process_event(RawEvent {
        kind: "VEH_DELETE".to_string(),
        time: 0,
        player_id: Some(2),
        vehicle_id: None,
        data: None,
    });
    s.process_event(RawEvent {
        kind: "NOISE".to_string(),
        time: 0,
        player_id: Some(2),
        vehicle_id: Some(1),
        data: None,
    });
    assert_eq!(sorted_keys(&s), vec![(2, 1)]);
}

#[test]
fn record_is_decoded_and_applied() {
    let mut s = ReplayState::new();
    s.apply_event(spawn(2, 1));
    s.process_event(RawEvent {
        kind: "VEH_DELETE".to_string(),
        time: 0,
        player_id: Some(2),
        vehicle_id: Some(1),
        data: None,
    });
    assert!(s.cars.is_empty());
}

#[test]
fn snapshot_is_independent() {
    let mut s = ReplayState::new();
    s.apply_event(join(1, "Alice"));
    s.apply_event(spawn(1, 1));
    let snap = s.snapshot();
    s.apply_event(Event::PlayerLeave(1));
    assert_eq!(snap.players.get(&1).unwrap().name, "Alice");
    assert_eq!(snap.car(1, 1), Some(zero_car(1, 1)));
    assert!(s.players.is_empty());
    assert!(s.cars.is_empty());
}

#[test]
fn update_keeps_the_place_in_the_list() {
    let mut s = ReplayState::new();
    s.apply_event(spawn(1, 1));
    s.apply_event(spawn(2, 1));
    s.apply_event(spawn(1, 2));
    s.apply_event(motion(1, 1, 5.0));
    s.apply_event(size(2, 1, 2.0, 3.0));
    s.apply_event(spawn(1, 2));
    let listed: Vec<(usize, usize)> = s.cars.iter().map(|c| (c.pid, c.vid)).collect();
    assert_eq!(listed, vec![(1, 1), (2, 1), (1, 2)]);
    assert_eq!(s.cars[0].pos, (w(5.0), w(6.0), w(7.0)));
    assert_eq!(s.cars[1].size, (w(2.0), w(3.0)));
    s.apply_event(Event::VehicleDelete((2, 1)));
    let listed: Vec<(usize, usize)> = s.cars.iter().map(|c| (c.pid, c.vid)).collect();
    assert_eq!(listed, vec![(1, 1), (1, 2)]);
}

#[test]
fn later_entry_counts_where_a_key_is_listed_twice() {
    let mut first = zero_car(1, 1);
    first.size = (w(1.0), w(1.0));
    let mut second = zero_car(1, 1);
    second.size = (w(2.0), w(2.0));
    let mut s = ReplayState::new();
    s.cars.push(first);
    s.cars.push(second);
    assert_eq!(s.car(1, 1), Some(second));
    s.apply_event(Event::VehicleDelete((1, 1)));
    assert!(s.cars.is_empty());
}
