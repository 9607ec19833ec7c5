//! Log records and the typed events they decode to.
//!
//! Scalar measurements (coordinates, speeds, sizes, ping) are carried as
//! opaque 32-bit words: the engine stores and hands them on and never
//! computes with them. The all-zero word stands for zero.

use vstd::prelude::*;

verus! {

/// Payload of a player joining.
#[derive(Clone, Debug)]
pub struct EventPlayerJoin {
    pub name: String,
}

/// Payload of a vehicle spawning. Only its presence matters.
#[derive(Clone, Copy, Debug)]
pub struct EventVehicleSpawn {}

/// Payload of a vehicle's motion update.
#[derive(Clone, Copy, Debug)]
pub struct EventVehiclePosition {
    pub ping: u32,
    pub pos: [u32; 3],
    pub rot: [u32; 4],
    pub vel: [u32; 3],
    pub rvel: [u32; 3],
}

/// Payload of a vehicle's size report.
#[derive(Clone, Copy, Debug)]
pub struct EventVehicleSize {
    pub size: [u32; 2],
}

/// What a record's payload holds under each of the shapes an event kind may
/// ask for. A reading is `None` where the payload does not have that shape.
#[derive(Clone, Debug)]
pub struct RawData {
    pub player_join: Option<EventPlayerJoin>,
    pub vehicle_position: Option<EventVehiclePosition>,
    pub vehicle_size: Option<EventVehicleSize>,
}

/// One record of the log, before decoding. `time` is in milliseconds.
#[derive(Clone, Debug)]
pub struct RawEvent {
    pub kind: String,
    pub time: i64,
    pub player_id: Option<usize>,
    pub vehicle_id: Option<usize>,
    pub data: Option<RawData>,
}

/// A decoded event. Each variant carries only what its kind requires.
pub enum Event {
    Unsupported,
    PlayerJoin((usize, EventPlayerJoin)),
    PlayerLeave(usize),
    VehicleSpawn((usize, usize, EventVehicleSpawn)),
    VehicleDelete((usize, usize)),
    VehiclePosition((usize, usize, EventVehiclePosition)),
    VehicleSize((usize, usize, EventVehicleSize)),
}

pub open spec fn kind_player_join() -> Seq<char> {
    "PLAYER_JOIN"@
}

pub open spec fn kind_player_leave() -> Seq<char> {
    "PLAYER_LEAVE"@
}

pub open spec fn kind_vehicle_spawn() -> Seq<char> {
    "VEH_SPAWN"@
}

pub open spec fn kind_vehicle_delete() -> Seq<char> {
    "VEH_DELETE"@
}

pub open spec fn kind_vehicle_position() -> Seq<char> {
    "VEH_POS"@
}

pub open spec fn kind_vehicle_size() -> Seq<char> {
    "VEH_SIZE"@
}

/// The event that a record stands for, or `None` where the record is
/// dropped: its kind is unknown, an id its kind requires is absent, or its
/// payload is absent or lacks the shape its kind requires.
pub open spec fn decode(r: RawEvent) -> Option<Event> {
    if r.kind@ == kind_player_join() {
        match (r.player_id, r.data) {
            (Some(pid), Some(RawData { player_join: Some(join), .. })) => Some(
                Event::PlayerJoin((pid, join)),
            ),
            _ => None,
        }
    } else if r.kind@ == kind_player_leave() {
        match r.player_id {
            Some(pid) => Some(Event::PlayerLeave(pid)),
            None => None,
        }
    } else if r.kind@ == kind_vehicle_spawn() {
        match (r.player_id, r.vehicle_id, r.data) {
            (Some(pid), Some(vid), Some(_)) => Some(
                Event::VehicleSpawn((pid, vid, EventVehicleSpawn {  })),
            ),
            _ => None,
        }
    } else if r.kind@ == kind_vehicle_delete() {
        match (r.player_id, r.vehicle_id) {
            (Some(pid), Some(vid)) => Some(Event::VehicleDelete((pid, vid))),
            _ => None,
        }
    } else if r.kind@ == kind_vehicle_position() {
        match (r.player_id, r.vehicle_id, r.data) {
            (Some(pid), Some(vid), Some(RawData { vehicle_position: Some(p), .. })) => Some(
                Event::VehiclePosition((pid, vid, p)),
            ),
            _ => None,
        }
    } else if r.kind@ == kind_vehicle_size() {
        match (r.player_id, r.vehicle_id, r.data) {
            (Some(pid), Some(vid), Some(RawData { vehicle_size: Some(s), .. })) => Some(
                Event::VehicleSize((pid, vid, s)),
            ),
            _ => None,
        }
    } else {
        None
    }
}

/// Whether `kind` spells exactly `name`.
fn kind_is(kind: &String, name: &str) -> (res: bool)
    ensures
        res == (kind@ == name@),
{
    let owned = name.to_owned();
    *kind == owned
}

impl RawEvent {
    /// Decodes the record into its event. A record that cannot be decoded
    /// yields `None`; decoding never fails otherwise.
    pub fn into_event(self) -> (res: Option<Event>)
        ensures
            res == decode(self),
    {
        proof {
            reveal_strlit("PLAYER_JOIN");
            reveal_strlit("PLAYER_LEAVE");
            reveal_strlit("VEH_SPAWN");
            reveal_strlit("VEH_DELETE");
            reveal_strlit("VEH_POS");
            reveal_strlit("VEH_SIZE");
        }
        if kind_is(&self.kind, "PLAYER_JOIN") {
            match (self.player_id, self.data) {
                (Some(pid), Some(RawData { player_join: Some(join), .. })) => Some(
                    Event::PlayerJoin((pid, join)),
                ),
                _ => None,
            }
        } else if kind_is(&self.kind, "PLAYER_LEAVE") {
            match self.player_id {
                Some(pid) => Some(Event::PlayerLeave(pid)),
                None => None,
            }
        } else if kind_is(&self.kind, "VEH_SPAWN") {
            match (self.player_id, self.vehicle_id, self.data) {
                (Some(pid), Some(vid), Some(_)) => Some(
                    Event::VehicleSpawn((pid, vid, EventVehicleSpawn {  })),
                ),
                _ => None,
            }
        } else if kind_is(&self.kind, "VEH_DELETE") {
            match (self.player_id, self.vehicle_id) {
                (Some(pid), Some(vid)) => Some(Event::VehicleDelete((pid, vid))),
                _ => None,
            }
        } else if kind_is(&self.kind, "VEH_POS") {
            match (self.player_id, self.vehicle_id, self.data) {
                (Some(pid), Some(vid), Some(RawData { vehicle_position: Some(p), .. })) => Some(
                    Event::VehiclePosition((pid, vid, p)),
                ),
                _ => None,
            }
        } else if kind_is(&self.kind, "VEH_SIZE") {
            match (self.player_id, self.vehicle_id, self.data) {
                (Some(pid), Some(vid), Some(RawData { vehicle_size: Some(s), .. })) => Some(
                    Event::VehicleSize((pid, vid, s)),
                ),
                _ => None,
            }
        } else {
            None
        }
    }
}

} // verus!
