//! The world state and the effect of each event on it.

use crate::event::{decode, Event, EventVehiclePosition, EventVehicleSize, RawEvent};
use std::collections::HashMap;
use vstd::prelude::*;

verus! {

broadcast use vstd::std_specs::hash::group_hash_axioms;

/// A player who is present.
#[derive(Clone, Debug, PartialEq, Eq)]
pub struct Player {
    pub id: usize,
    pub name: String,
}

/// A vehicle, owned by player `pid` and numbered `vid` among that player's
/// vehicles. The pair of both identifies it.
#[derive(Clone, Copy, Debug, PartialEq, Eq)]
pub struct Car {
    pub pid: usize,
    pub vid: usize,
    pub pos: (u32, u32, u32),
    pub rot: (u32, u32, u32, u32),
    pub vel: (u32, u32, u32),
    pub rvel: (u32, u32, u32),
    pub size: (u32, u32),
}

/// The state of the world after some tick: who is present, and which
/// vehicles exist.
#[derive(Clone, Debug)]
pub struct ReplayState {
    pub players: HashMap<usize, Player>,
    pub cars: Vec<Car>,
}

/// The mathematical content of a state: players by id, vehicles by
/// `(player id, vehicle id)`.
pub struct StateModel {
    pub players: Map<usize, Player>,
    pub cars: Map<(usize, usize), Car>,
}

pub open spec fn car_key(c: Car) -> (usize, usize) {
    (c.pid, c.vid)
}

/// The vehicles that a list holds, by key. Of two entries with one key the
/// later counts.
pub open spec fn cars_of(s: Seq<Car>) -> Map<(usize, usize), Car>
    decreases s.len(),
{
    if s.len() == 0 {
        Map::empty()
    } else {
        cars_of(s.drop_last()).insert(car_key(s.last()), s.last())
    }
}

/// No two entries of the list have the same key.
pub open spec fn distinct_keys(s: Seq<Car>) -> bool {
    forall|i: int, j: int| 0 <= i < j < s.len() ==> car_key(#[trigger] s[i]) != car_key(#[trigger] s[j])
}

/// The state in which nobody is present and no vehicle exists.
pub open spec fn empty_state() -> StateModel {
    StateModel { players: Map::empty(), cars: Map::empty() }
}

/// A vehicle as it is right after it spawned: everything zero.
pub open spec fn fresh_car(pid: usize, vid: usize) -> Car {
    Car {
        pid,
        vid,
        pos: (0, 0, 0),
        rot: (0, 0, 0, 0),
        vel: (0, 0, 0),
        rvel: (0, 0, 0),
        size: (0, 0),
    }
}

/// `c` with the motion of `d`; its keys and size stay.
pub open spec fn moved(c: Car, d: EventVehiclePosition) -> Car {
    Car {
        pos: (d.pos[0], d.pos[1], d.pos[2]),
        rot: (d.rot[0], d.rot[1], d.rot[2], d.rot[3]),
        vel: (d.vel[0], d.vel[1], d.vel[2]),
        rvel: (d.rvel[0], d.rvel[1], d.rvel[2]),
        ..c
    }
}

/// `c` with the size of `d`; everything else stays.
pub open spec fn resized(c: Car, d: EventVehicleSize) -> Car {
    Car { size: (d.size[0], d.size[1]), ..c }
}

/// Whether key `k` belongs to player `pid` and, where `vid` is given, names
/// that vehicle.
pub open spec fn selects(pid: usize, vid: Option<usize>, k: (usize, usize)) -> bool {
    k.0 == pid && match vid {
        Some(v) => k.1 == v,
        None => true,
    }
}

/// `m` without the vehicles that `pid` and `vid` select.
pub open spec fn without(m: Map<(usize, usize), Car>, pid: usize, vid: Option<usize>) -> Map<
    (usize, usize),
    Car,
> {
    Map::new(|k: (usize, usize)| m.contains_key(k) && !selects(pid, vid, k), |k: (usize, usize)| m[k])
}

/// The state that follows `s` when `e` happens.
pub open spec fn apply(s: StateModel, e: Event) -> StateModel {
    match e {
        Event::Unsupported => s,
        Event::PlayerJoin((pid, join)) => StateModel {
            players: s.players.insert(pid, Player { id: pid, name: join.name }),
            cars: s.cars,
        },
        Event::PlayerLeave(pid) => StateModel {
            players: s.players.remove(pid),
            cars: without(s.cars, pid, None),
        },
        Event::VehicleSpawn((pid, vid, _)) => StateModel {
            players: s.players,
            cars: s.cars.insert((pid, vid), fresh_car(pid, vid)),
        },
        Event::VehicleDelete((pid, vid)) => StateModel {
            players: s.players,
            cars: s.cars.remove((pid, vid)),
        },
        Event::VehiclePosition((pid, vid, d)) => if s.cars.contains_key((pid, vid)) {
            StateModel {
                players: s.players,
                cars: s.cars.insert((pid, vid), moved(s.cars[(pid, vid)], d)),
            }
        } else {
            s
        },
        Event::VehicleSize((pid, vid, d)) => if s.cars.contains_key((pid, vid)) {
            StateModel {
                players: s.players,
                cars: s.cars.insert((pid, vid), resized(s.cars[(pid, vid)], d)),
            }
        } else {
            s
        },
    }
}

/// The state that follows `s` when record `r` is read: the effect of its
/// event, or `s` itself where the record is dropped.
pub open spec fn apply_raw(s: StateModel, r: RawEvent) -> StateModel {
    match decode(r) {
        Some(e) => apply(s, e),
        None => s,
    }
}

/// The state that follows `s` when the records of `rs` are read in order.
pub open spec fn apply_all(s: StateModel, rs: Seq<RawEvent>) -> StateModel
    decreases rs.len(),
{
    if rs.len() == 0 {
        s
    } else {
        apply_raw(apply_all(s, rs.drop_last()), rs.last())
    }
}

proof fn lemma_cars_of_push(s: Seq<Car>, c: Car)
    ensures
        cars_of(s.push(c)) == cars_of(s).insert(car_key(c), c),
{
    assert(s.push(c).drop_last() =~= s);
}

proof fn lemma_cars_of_take(s: Seq<Car>, i: int)
    requires
        0 <= i < s.len(),
    ensures
        cars_of(s.take(i + 1)) == cars_of(s.take(i)).insert(car_key(s[i]), s[i]),
{
    assert(s.take(i + 1).drop_last() =~= s.take(i));
}

/// `c` is one of the first `n` entries of `s`.
spec fn came_before(s: Seq<Car>, n: int, c: Car) -> bool {
    exists|m: int| 0 <= m < n && #[trigger] s[m] == c
}

/// The entries of `cars` that `pid` and `vid` do not select, in their order.
fn drop_matching(cars: &Vec<Car>, pid: usize, vid: Option<usize>) -> (kept: Vec<Car>)
    ensures
        cars_of(kept@) == without(cars_of(cars@), pid, vid),
        distinct_keys(cars@) ==> distinct_keys(kept@),
        forall|j: int| 0 <= j < kept@.len() ==> !selects(pid, vid, car_key(#[trigger] kept@[j])),
{
    let mut kept: Vec<Car> = Vec::new();
    let mut i: usize = 0;
    assert(cars_of(kept@) =~= without(cars_of(cars@.take(0)), pid, vid));
    while i < cars.len()
        invariant
            i <= cars.len(),
            cars_of(kept@) == without(cars_of(cars@.take(i as int)), pid, vid),
            forall|j: int| 0 <= j < kept@.len() ==> came_before(cars@, i as int, #[trigger] kept@[j]),
            forall|j: int| 0 <= j < kept@.len() ==> !selects(pid, vid, car_key(#[trigger] kept@[j])),
            distinct_keys(cars@) ==> distinct_keys(kept@),
        decreases cars.len() - i,
    {
        let c = cars[i];
        let hit = c.pid == pid && match vid {
            Some(v) => c.vid == v,
            None => true,
        };
        proof {
            lemma_cars_of_take(cars@, i as int);
        }
        let ghost before = kept@;
        if !hit {
            proof {
                lemma_cars_of_push(kept@, c);
            }
            kept.push(c);
            proof {
                if distinct_keys(cars@) {
                    assert forall|a: int, b: int| 0 <= a < b < kept@.len() implies car_key(
                        #[trigger] kept@[a],
                    ) != car_key(#[trigger] kept@[b]) by {
                        if b == before.len() {
                            assert(came_before(cars@, i as int, before[a]));
                            let m = choose|m: int| 0 <= m < i && #[trigger] cars@[m] == before[a];
                            assert(car_key(cars@[m]) != car_key(cars@[i as int]));
                        } else {
                            assert(kept@[a] == before[a] && kept@[b] == before[b]);
                        }
                    }
                }
            }
        }
        proof {
            assert(cars_of(kept@) =~= without(cars_of(cars@.take(i + 1)), pid, vid));
            assert forall|j: int| 0 <= j < kept@.len() implies came_before(
                cars@,
                i + 1,
                #[trigger] kept@[j],
            ) by {
                if j < before.len() {
                    assert(came_before(cars@, i as int, before[j]));
                    let m = choose|m: int| 0 <= m < i && #[trigger] cars@[m] == before[j];
                    assert(cars@[m] == kept@[j]);
                } else {
                    assert(cars@[i as int] == kept@[j]);
                }
            }
        }
        i += 1;
    }
    assert(cars@.take(cars@.len() as int) =~= cars@);
    kept
}

/// Entry `i` of `s` has key `k`, and no later entry has.
spec fn counts_for(s: Seq<Car>, i: int, k: (usize, usize)) -> bool {
    &&& 0 <= i < s.len()
    &&& car_key(s[i]) == k
    &&& forall|j: int| i < j < s.len() ==> car_key(#[trigger] s[j]) != k
}

proof fn lemma_counts_for(s: Seq<Car>, i: int, k: (usize, usize))
    requires
        counts_for(s, i, k),
    ensures
        cars_of(s).contains_key(k),
        cars_of(s)[k] == s[i],
    decreases s.len(),
{
    if i < s.len() - 1 {
        assert(car_key(s[s.len() - 1]) != k);
        assert(counts_for(s.drop_last(), i, k));
        lemma_counts_for(s.drop_last(), i, k);
    }
}

proof fn lemma_no_entry(s: Seq<Car>, k: (usize, usize))
    requires
        forall|j: int| 0 <= j < s.len() ==> car_key(#[trigger] s[j]) != k,
    ensures
        !cars_of(s).contains_key(k),
    decreases s.len(),
{
    if s.len() > 0 {
        assert(car_key(s[s.len() - 1]) != k);
        lemma_no_entry(s.drop_last(), k);
    }
}

proof fn lemma_replace(s: Seq<Car>, i: int, c: Car)
    requires
        counts_for(s, i, car_key(c)),
    ensures
        cars_of(s.update(i, c)) == cars_of(s).insert(car_key(c), c),
        distinct_keys(s) ==> distinct_keys(s.update(i, c)),
    decreases s.len(),
{
    let t = s.update(i, c);
    if i == s.len() - 1 {
        assert(t.drop_last() =~= s.drop_last());
        assert(cars_of(t) =~= cars_of(s).insert(car_key(c), c));
    } else {
        assert(car_key(s[s.len() - 1]) != car_key(c));
        assert(counts_for(s.drop_last(), i, car_key(c)));
        lemma_replace(s.drop_last(), i, c);
        assert(t.drop_last() =~= s.drop_last().update(i, c));
        assert(cars_of(t) =~= cars_of(s).insert(car_key(c), c));
    }
    if distinct_keys(s) {
        assert forall|a: int, b: int| 0 <= a < b < t.len() implies car_key(#[trigger] t[a])
            != car_key(#[trigger] t[b]) by {
            assert(car_key(t[a]) == car_key(s[a]));
            assert(car_key(t[b]) == car_key(s[b]));
        }
    }
}

/// The place in `cars` of the vehicle `(pid, vid)`, if it exists.
fn find_index(cars: &Vec<Car>, pid: usize, vid: usize) -> (res: Option<usize>)
    ensures
        match res {
            Some(i) => counts_for(cars@, i as int, (pid, vid)) && cars_of(cars@).contains_key(
                (pid, vid),
            ) && cars_of(cars@)[(pid, vid)] == cars@[i as int],
            None => !cars_of(cars@).contains_key((pid, vid)) && forall|j: int|
                0 <= j < cars@.len() ==> car_key(#[trigger] cars@[j]) != (pid, vid),
        },
{
    let mut found: Option<usize> = None;
    let mut i: usize = 0;
    while i < cars.len()
        invariant
            i <= cars.len(),
            match found {
                Some(at) => counts_for(cars@.take(i as int), at as int, (pid, vid)),
                None => forall|j: int| 0 <= j < i ==> car_key(#[trigger] cars@[j]) != (pid, vid),
            },
        decreases cars.len() - i,
    {
        if cars[i].pid == pid && cars[i].vid == vid {
            found = Some(i);
        }
        proof {
            let next = cars@.take(i + 1);
            match found {
                Some(at) => {
                    assert(next[at as int] == cars@[at as int]);
                    assert forall|j: int| at < j < next.len() implies car_key(#[trigger] next[j]) != (
                        pid,
                        vid,
                    ) by {
                        if j < i {
                            assert(next[j] == cars@.take(i as int)[j]);
                        } else {
                            assert(next[j] == cars@[i as int]);
                        }
                    }
                },
                None => {},
            }
        }
        i += 1;
    }
    proof {
        assert(cars@.take(cars@.len() as int) =~= cars@);
        match found {
            Some(at) => lemma_counts_for(cars@, at as int, (pid, vid)),
            None => lemma_no_entry(cars@, (pid, vid)),
        }
    }
    found
}

impl View for ReplayState {
    type V = StateModel;

    open spec fn view(&self) -> StateModel {
        StateModel { players: self.players@, cars: cars_of(self.cars@) }
    }
}

impl ReplayState {
    /// No vehicle is listed twice.
    pub open spec fn wf(&self) -> bool {
        distinct_keys(self.cars@)
    }

    /// The empty state.
    pub fn new() -> (res: ReplayState)
        ensures
            res@ == empty_state(),
            res.wf(),
    {
        ReplayState { players: HashMap::new(), cars: Vec::new() }
    }

    /// A copy of the state, independent of this one.
    pub fn snapshot(&self) -> (res: ReplayState)
        ensures
            res@ == self@,
            res.cars@ == self.cars@,
    {
        let players = self.players.clone();
        let mut cars: Vec<Car> = Vec::new();
        let mut i: usize = 0;
        while i < self.cars.len()
            invariant
                i <= self.cars.len(),
                cars@ == self.cars@.take(i as int),
            decreases self.cars.len() - i,
        {
            cars.push(self.cars[i]);
            assert(cars@ =~= self.cars@.take(i + 1));
            i += 1;
        }
        assert(self.cars@.take(self.cars@.len() as int) =~= self.cars@);
        ReplayState { players, cars }
    }

    /// The vehicle `(pid, vid)`, if it exists.
    pub fn car(&self, pid: usize, vid: usize) -> (res: Option<Car>)
        ensures
            res == (if self@.cars.contains_key((pid, vid)) {
                Some(self@.cars[(pid, vid)])
            } else {
                None
            }),
    {
        match find_index(&self.cars, pid, vid) {
            Some(i) => Some(self.cars[i]),
            None => None,
        }
    }

    /// Puts `c` under its key: in the place of the vehicle that was there,
    /// or else at the end of the list.
    fn put_car(&mut self, c: Car)
        ensures
            final(self).players == old(self).players,
            cars_of(final(self).cars@) == cars_of(old(self).cars@).insert(car_key(c), c),
            old(self).wf() ==> final(self).wf(),
    {
        match find_index(&self.cars, c.pid, c.vid) {
            Some(i) => {
                proof {
                    lemma_replace(self.cars@, i as int, c);
                }
                self.cars.set(i, c);
            },
            None => {
                proof {
                    lemma_cars_of_push(self.cars@, c);
                }
                self.cars.push(c);
            },
        }
    }

    /// Applies the effect of one event.
    pub fn apply_event(&mut self, event: Event)
        ensures
            final(self)@ == apply(old(self)@, event),
            old(self).wf() ==> final(self).wf(),
    {
        match event {
            Event::Unsupported => {},
            Event::PlayerJoin((pid, join)) => {
                self.players.insert(pid, Player { id: pid, name: join.name });
            },
            Event::PlayerLeave(pid) => {
                self.players.remove(&pid);
                self.cars = drop_matching(&self.cars, pid, None);
            },
            Event::VehicleSpawn((pid, vid, _data)) => {
                let car = Car {
                    pid,
                    vid,
                    pos: (0, 0, 0),
                    rot: (0, 0, 0, 0),
                    vel: (0, 0, 0),
                    rvel: (0, 0, 0),
                    size: (0, 0),
                };
                self.put_car(car);
            },
            Event::VehicleDelete((pid, vid)) => {
                self.cars = drop_matching(&self.cars, pid, Some(vid));
                assert(without(cars_of(old(self).cars@), pid, Some(vid)) =~= cars_of(
                    old(self).cars@,
                ).remove((pid, vid)));
            },
            Event::VehiclePosition((pid, vid, d)) => {
                if let Some(i) = find_index(&self.cars, pid, vid) {
                    let c = self.cars[i];
                    let car = Car {
                        pid: c.pid,
                        vid: c.vid,
                        pos: (d.pos[0], d.pos[1], d.pos[2]),
                        rot: (d.rot[0], d.rot[1], d.rot[2], d.rot[3]),
                        vel: (d.vel[0], d.vel[1], d.vel[2]),
                        rvel: (d.rvel[0], d.rvel[1], d.rvel[2]),
                        size: c.size,
                    };
                    proof {
                        lemma_replace(self.cars@, i as int, car);
                    }
                    self.cars.set(i, car);
                }
            },
            Event::VehicleSize((pid, vid, d)) => {
                if let Some(i) = find_index(&self.cars, pid, vid) {
                    let c = self.cars[i];
                    let car = Car {
                        pid: c.pid,
                        vid: c.vid,
                        pos: c.pos,
                        rot: c.rot,
                        vel: c.vel,
                        rvel: c.rvel,
                        size: (d.size[0], d.size[1]),
                    };
                    proof {
                        lemma_replace(self.cars@, i as int, car);
                    }
                    self.cars.set(i, car);
                }
            },
        }
    }

    /// Reads one record: applies the effect of its event, or does nothing
    /// where the record is dropped.
    pub fn process_event(&mut self, raw_event: RawEvent)
        ensures
            final(self)@ == apply_raw(old(self)@, raw_event),
            old(self).wf() ==> final(self).wf(),
    {
        if let Some(event) = raw_event.into_event() {
            self.apply_event(event);
        }
    }
}

/// When a player leaves, the player is gone and so is every vehicle of that
/// player; every vehicle of another player stays as it was, also one with
/// the same vehicle id as a vehicle that went.
pub proof fn law_leave_cascade(s: StateModel, p: usize, q: usize, v: usize)
    ensures
        !apply(s, Event::PlayerLeave(p)).players.contains_key(p),
        !apply(s, Event::PlayerLeave(p)).cars.contains_key((p, v)),
        q != p ==> (apply(s, Event::PlayerLeave(p)).cars.contains_key((q, v))
            <==> s.cars.contains_key((q, v))),
        q != p && s.cars.contains_key((q, v)) ==> apply(s, Event::PlayerLeave(p)).cars[(q, v)]
            == s.cars[(q, v)],
        q != p && s.players.contains_key(q) ==> apply(s, Event::PlayerLeave(p)).players.contains_key(q)
            && apply(s, Event::PlayerLeave(p)).players[q] == s.players[q],
{
}

/// A motion update, a size report or a deletion that names a vehicle which
/// does not exist changes nothing.
pub proof fn law_missing_vehicle_ignored(
    s: StateModel,
    pid: usize,
    vid: usize,
    position: EventVehiclePosition,
    size: EventVehicleSize,
)
    requires
        !s.cars.contains_key((pid, vid)),
    ensures
        apply(s, Event::VehiclePosition((pid, vid, position))) == s,
        apply(s, Event::VehicleSize((pid, vid, size))) == s,
        apply(s, Event::VehicleDelete((pid, vid))) == s,
{
    assert(s.cars.remove((pid, vid)) =~= s.cars);
}

/// A record that is dropped changes nothing.
pub proof fn law_dropped_record_ignored(s: StateModel, r: RawEvent)
    requires
        decode(r).is_none(),
    ensures
        apply_raw(s, r) == s,
{
}

/// A list without repeated keys holds exactly the vehicles of its view:
/// every entry is the vehicle under its key, and every vehicle is an entry.
pub proof fn law_cars_listed(s: Seq<Car>)
    requires
        distinct_keys(s),
    ensures
        forall|i: int|
            0 <= i < s.len() ==> cars_of(s).contains_key(car_key(#[trigger] s[i])) && cars_of(
                s,
            )[car_key(s[i])] == s[i],
        forall|k: (usize, usize)| #[trigger]
            cars_of(s).contains_key(k) ==> exists|i: int|
                0 <= i < s.len() && car_key(#[trigger] s[i]) == k,
    decreases s.len(),
{
    if s.len() > 0 {
        let front = s.drop_last();
        law_cars_listed(front);
        assert forall|i: int| 0 <= i < s.len() implies cars_of(s).contains_key(
            car_key(#[trigger] s[i]),
        ) && cars_of(s)[car_key(s[i])] == s[i] by {
            if i < s.len() - 1 {
                assert(front[i] == s[i]);
                assert(car_key(s[i]) != car_key(s[s.len() - 1]));
            }
        }
        assert forall|k: (usize, usize)| #[trigger] cars_of(s).contains_key(k) implies exists|
            i: int,
        |
            0 <= i < s.len() && car_key(#[trigger] s[i]) == k by {
            if k == car_key(s.last()) {
                assert(car_key(s[s.len() - 1]) == k);
            } else {
                assert(cars_of(front).contains_key(k));
                let i = choose|i: int| 0 <= i < front.len() && car_key(#[trigger] front[i]) == k;
                assert(car_key(s[i]) == k);
            }
        }
    }
}

} // verus!
