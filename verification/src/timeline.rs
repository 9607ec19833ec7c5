//! Ticks, the snapshot taken after each of them, and the state at a time.
//!
//! Times are whole milliseconds. A tick lasts 40 milliseconds, so there are
//! 25 of them in a second; tick `i` covers the times from `40 * i` up to, but
//! not including, `40 * (i + 1)`.

use crate::event::{EventPlayerJoin, RawData, RawEvent};
use crate::state::{apply_all, apply_raw, empty_state, ReplayState, StateModel};
use vstd::prelude::*;

verus! {

/// Number of ticks in a second.
pub const TICKS_PER_SECOND: u64 = 25;

/// Length of a tick, in milliseconds.
pub const TICK_MILLIS: u64 = 40;

/// The tick that time `t` falls in. Times before the start count as tick 0.
pub open spec fn tick_of(t: int) -> int {
    if t < 0 {
        0
    } else {
        t / 40
    }
}

/// The latest time of any record, and 0 for a log that has none.
pub open spec fn end_time(rs: Seq<RawEvent>) -> int
    decreases rs.len(),
{
    if rs.len() == 0 {
        0
    } else if end_time(rs.drop_last()) < rs.last().time {
        rs.last().time as int
    } else {
        end_time(rs.drop_last())
    }
}

/// How many ticks the log spans: every tick from 0 to that of its latest
/// record.
pub open spec fn tick_count(rs: Seq<RawEvent>) -> int {
    tick_of(end_time(rs)) + 1
}

/// The records of tick `k`, in the order in which they stand in the log.
pub open spec fn bucket(rs: Seq<RawEvent>, k: int) -> Seq<RawEvent> {
    rs.filter(|r: RawEvent| tick_of(r.time as int) == k)
}

/// The state after tick `i` of the log: the state after tick `i - 1`, or the
/// empty state for tick 0, followed by the records of tick `i`.
pub open spec fn snapshot_at(rs: Seq<RawEvent>, i: int) -> StateModel
    decreases i,
{
    if i <= 0 {
        apply_all(empty_state(), bucket(rs, 0))
    } else {
        apply_all(snapshot_at(rs, i - 1), bucket(rs, i))
    }
}

/// The index of the snapshot that is current at `time`, among `len` of them:
/// the tick of `time`, but no more than the last index.
pub open spec fn index_at(len: int, time: int) -> int {
    if tick_of(time) < len - 1 {
        tick_of(time)
    } else if len > 0 {
        len - 1
    } else {
        0
    }
}

proof fn lemma_end_time_bounds(rs: Seq<RawEvent>, i: int)
    requires
        0 <= i < rs.len(),
    ensures
        rs[i].time <= end_time(rs),
        0 <= end_time(rs),
    decreases rs.len(),
{
    if i < rs.len() - 1 {
        lemma_end_time_bounds(rs.drop_last(), i);
    } else if rs.len() > 1 {
        lemma_end_time_bounds(rs.drop_last(), 0);
    }
}

proof fn lemma_end_time_take(rs: Seq<RawEvent>, i: int)
    requires
        0 <= i < rs.len(),
    ensures
        end_time(rs.take(i + 1)) == if end_time(rs.take(i)) < rs[i].time {
            rs[i].time as int
        } else {
            end_time(rs.take(i))
        },
{
    assert(rs.take(i + 1).drop_last() =~= rs.take(i));
}

proof fn lemma_bucket_take(rs: Seq<RawEvent>, i: int, k: int)
    requires
        0 <= i < rs.len(),
    ensures
        bucket(rs.take(i + 1), k) == if tick_of(rs[i].time as int) == k {
            bucket(rs.take(i), k).push(rs[i])
        } else {
            bucket(rs.take(i), k)
        },
{
    reveal(Seq::filter);
    assert(rs.take(i + 1).drop_last() =~= rs.take(i));
}

proof fn lemma_bucket_empty(rs: Seq<RawEvent>, k: int)
    requires
        rs.len() == 0,
    ensures
        bucket(rs, k) == Seq::<RawEvent>::empty(),
{
    reveal(Seq::filter);
}

/// The tick that `time` falls in.
pub fn tick_index(time: i64) -> (res: u64)
    ensures
        res == tick_of(time as int),
{
    if time < 0 {
        0
    } else {
        (time as u64) / TICK_MILLIS
    }
}

/// The latest time of any record, and 0 for a log that has none.
pub fn last_time(events: &Vec<RawEvent>) -> (res: i64)
    ensures
        res == end_time(events@),
{
    let mut end: i64 = 0;
    let mut i: usize = 0;
    while i < events.len()
        invariant
            i <= events.len(),
            end == end_time(events@.take(i as int)),
        decreases events.len() - i,
    {
        proof {
            lemma_end_time_take(events@, i as int);
        }
        if end < events[i].time {
            end = events[i].time;
        }
        i += 1;
    }
    assert(events@.take(events@.len() as int) =~= events@);
    end
}

/// A copy of the record.
fn copy_record(r: &RawEvent) -> (res: RawEvent)
    ensures
        res == *r,
{
    let data = match &r.data {
        Some(d) => {
            let player_join = match &d.player_join {
                Some(j) => Some(EventPlayerJoin { name: j.name.clone() }),
                None => None,
            };
            Some(
                RawData {
                    player_join,
                    vehicle_position: d.vehicle_position,
                    vehicle_size: d.vehicle_size,
                },
            )
        },
        None => None,
    };
    RawEvent {
        kind: r.kind.clone(),
        time: r.time,
        player_id: r.player_id,
        vehicle_id: r.vehicle_id,
        data,
    }
}

/// Sorts the records of a log into ticks. The result has one entry for each
/// tick from 0 to that of the latest record, also where a tick has no record;
/// entry `k` holds the records of tick `k` in the order of the log.
pub fn split_ticks(events: &Vec<RawEvent>) -> (buckets: Vec<Vec<RawEvent>>)
    requires
        tick_count(events@) <= usize::MAX,
    ensures
        buckets@.len() == tick_count(events@),
        forall|k: int| 0 <= k < buckets@.len() ==> (#[trigger] buckets@[k])@ == bucket(events@, k),
{
    let end = last_time(events);
    let count = tick_index(end) as usize + 1;
    let mut buckets: Vec<Vec<RawEvent>> = Vec::new();
    let mut k: usize = 0;
    while k < count
        invariant
            k <= count,
            buckets@.len() == k,
            forall|j: int| 0 <= j < k ==> (#[trigger] buckets@[j])@ == Seq::<RawEvent>::empty(),
        decreases count - k,
    {
        buckets.push(Vec::new());
        k += 1;
    }
    proof {
        assert forall|j: int| 0 <= j < count implies (#[trigger] buckets@[j])@ == bucket(
            events@.take(0),
            j,
        ) by {
            lemma_bucket_empty(events@.take(0), j);
        }
    }
    let mut i: usize = 0;
    while i < events.len()
        invariant
            i <= events.len(),
            count == tick_count(events@),
            buckets@.len() == count,
            forall|j: int|
                0 <= j < count ==> (#[trigger] buckets@[j])@ == bucket(events@.take(i as int), j),
        decreases events.len() - i,
    {
        let t = tick_index(events[i].time) as usize;
        proof {
            lemma_end_time_bounds(events@, i as int);
            assert forall|j: int| 0 <= j < count implies bucket(events@.take(i + 1), j) == if j
                == t {
                bucket(events@.take(i as int), j).push(events@[i as int])
            } else {
                bucket(events@.take(i as int), j)
            } by {
                lemma_bucket_take(events@, i as int, j);
            }
        }
        let r = copy_record(&events[i]);
        buckets[t].push(r);
        i += 1;
    }
    assert(events@.take(events@.len() as int) =~= events@);
    buckets
}

proof fn lemma_apply_all_take(s: StateModel, rs: Seq<RawEvent>, j: int)
    requires
        0 <= j < rs.len(),
    ensures
        apply_all(s, rs.take(j + 1)) == apply_raw(apply_all(s, rs.take(j)), rs[j]),
{
    assert(rs.take(j + 1).drop_last() =~= rs.take(j));
}

/// The state before tick `i`, given the snapshots of the ticks before it.
pub open spec fn state_before(snaps: Seq<ReplayState>, i: int) -> StateModel {
    if i <= 0 {
        empty_state()
    } else {
        snaps[i - 1]@
    }
}

/// Takes one snapshot per tick: starting from the empty state, snapshot `i`
/// is the state reached from snapshot `i - 1` by the records of tick `i`.
pub fn reduce(buckets: &Vec<Vec<RawEvent>>) -> (snaps: Vec<ReplayState>)
    ensures
        snaps@.len() == buckets@.len(),
        forall|i: int|
            0 <= i < snaps@.len() ==> (#[trigger] snaps@[i])@ == apply_all(
                state_before(snaps@, i),
                buckets@[i]@,
            ),
        forall|i: int| 0 <= i < snaps@.len() ==> (#[trigger] snaps@[i]).wf(),
{
    let mut snaps: Vec<ReplayState> = Vec::new();
    let mut state = ReplayState::new();
    let mut k: usize = 0;
    while k < buckets.len()
        invariant
            k <= buckets.len(),
            snaps@.len() == k,
            state.wf(),
            state@ == state_before(snaps@, k as int),
            forall|i: int|
                0 <= i < k ==> (#[trigger] snaps@[i])@ == apply_all(
                    state_before(snaps@, i),
                    buckets@[i]@,
                ),
            forall|i: int| 0 <= i < k ==> (#[trigger] snaps@[i]).wf(),
        decreases buckets.len() - k,
    {
        let records = &buckets[k];
        let ghost start = state@;
        let mut j: usize = 0;
        while j < records.len()
            invariant
                j <= records.len(),
                state.wf(),
                state@ == apply_all(start, records@.take(j as int)),
            decreases records.len() - j,
        {
            proof {
                lemma_apply_all_take(start, records@, j as int);
            }
            state.process_event(copy_record(&records[j]));
            j += 1;
        }
        assert(records@.take(records@.len() as int) =~= records@);
        let ghost before = snaps@;
        let snap = state.snapshot();
        snaps.push(snap);
        proof {
            assert forall|i: int| 0 <= i < k + 1 implies (#[trigger] snaps@[i])@ == apply_all(
                state_before(snaps@, i),
                buckets@[i]@,
            ) by {
                if i < k {
                    assert(snaps@[i] == before[i]);
                    assert(state_before(snaps@, i) == state_before(before, i));
                }
            }
        }
        k += 1;
    }
    snaps
}

/// A loaded log: the snapshot taken after each tick, the time that a player
/// of the recording currently shows, and the time at which the log ends.
pub struct Replay {
    pub ticks: Vec<ReplayState>,
    pub time: i64,
    pub end: i64,
}

impl Replay {
    /// The snapshots, one per tick.
    pub open spec fn snapshots(&self) -> Seq<ReplayState> {
        self.ticks@
    }

    /// There is one snapshot for each tick up to that of `end`, and none
    /// lists a vehicle twice.
    pub open spec fn wf(&self) -> bool {
        &&& self.snapshots().len() == tick_of(self.end as int) + 1
        &&& forall|i: int| 0 <= i < self.snapshots().len() ==> (#[trigger] self.snapshots()[i]).wf()
    }

    /// The state that is current at `time`: the snapshot of the tick of
    /// `time`, the first snapshot for a time before the start, the last for a
    /// time after the end. There is no interpolation between snapshots.
    pub open spec fn model_at(&self, time: int) -> StateModel {
        if self.snapshots().len() == 0 {
            empty_state()
        } else {
            self.snapshots()[index_at(self.snapshots().len() as int, time)]@
        }
    }

    /// Builds the snapshots of a log. The log must not span more ticks than
    /// a vector can hold.
    pub fn from_events(events: &Vec<RawEvent>) -> (res: Replay)
        requires
            tick_count(events@) <= usize::MAX,
        ensures
            res.wf(),
            res.time == 0,
            res.end == end_time(events@),
            res.snapshots().len() == tick_count(events@),
            forall|i: int|
                0 <= i < res.snapshots().len() ==> (#[trigger] res.snapshots()[i])@ == snapshot_at(
                    events@,
                    i,
                ),
    {
        let end = last_time(events);
        let buckets = split_ticks(events);
        let ticks = reduce(&buckets);
        proof {
            assert forall|i: int| 0 <= i < ticks@.len() implies (#[trigger] ticks@[i])@
                == snapshot_at(events@, i) by {
                lemma_snapshots_follow(ticks@, buckets@, events@, i);
            }
        }
        Replay { ticks, time: 0, end }
    }

    /// Builds the snapshots of a log, or returns `None` where the log spans
    /// more ticks than a vector can hold.
    pub fn try_from_events(events: &Vec<RawEvent>) -> (res: Option<Replay>)
        ensures
            res.is_some() <==> tick_count(events@) <= usize::MAX,
            res matches Some(r) ==> {
                &&& r.wf()
                &&& r.time == 0
                &&& r.end == end_time(events@)
                &&& r.snapshots().len() == tick_count(events@)
                &&& forall|i: int|
                    0 <= i < r.snapshots().len() ==> (#[trigger] r.snapshots()[i])@ == snapshot_at(
                        events@,
                        i,
                    )
            },
    {
        let last = tick_index(last_time(events));
        if last < usize::MAX as u64 {
            Some(Replay::from_events(events))
        } else {
            None
        }
    }

    /// The time at which the log ends: the latest time of any record.
    pub fn duration(&self) -> (res: i64)
        ensures
            res == self.end,
    {
        self.end
    }

    /// The number of snapshots.
    pub fn tick_len(&self) -> (res: usize)
        ensures
            res == self.snapshots().len(),
    {
        self.ticks.len()
    }

    /// A copy of the state that was current at `time`. Any time is answered.
    pub fn state_at(&self, time: i64) -> (res: ReplayState)
        ensures
            res@ == self.model_at(time as int),
            self.wf() ==> res.wf(),
    {
        let len = self.ticks.len();
        if len == 0 {
            ReplayState::new()
        } else {
            let tick = tick_index(time);
            let index = if tick < (len - 1) as u64 {
                tick as usize
            } else {
                len - 1
            };
            self.ticks[index].snapshot()
        }
    }

    /// A copy of the state that is current at `self.time`.
    pub fn get_state(&self) -> (res: ReplayState)
        ensures
            res@ == self.model_at(self.time as int),
            self.wf() ==> res.wf(),
    {
        self.state_at(self.time)
    }
}

proof fn lemma_snapshots_follow(
    snaps: Seq<ReplayState>,
    buckets: Seq<Vec<RawEvent>>,
    rs: Seq<RawEvent>,
    i: int,
)
    requires
        0 <= i < snaps.len(),
        snaps.len() == buckets.len(),
        forall|k: int| 0 <= k < buckets.len() ==> (#[trigger] buckets[k])@ == bucket(rs, k),
        forall|k: int|
            0 <= k < snaps.len() ==> (#[trigger] snaps[k])@ == apply_all(
                state_before(snaps, k),
                buckets[k]@,
            ),
    ensures
        snaps[i]@ == snapshot_at(rs, i),
    decreases i,
{
    if i > 0 {
        lemma_snapshots_follow(snaps, buckets, rs, i - 1);
    }
}

/// A snapshot depends on the records of its own tick and of the ticks before
/// it, and on nothing else: two logs whose ticks agree up to tick `i` have
/// the same snapshot `i`, however they differ in later ticks.
pub proof fn law_causality(a: Seq<RawEvent>, b: Seq<RawEvent>, i: int)
    requires
        0 <= i,
        forall|j: int| 0 <= j <= i ==> bucket(a, j) == bucket(b, j),
    ensures
        snapshot_at(a, i) == snapshot_at(b, i),
    decreases i,
{
    if i > 0 {
        law_causality(a, b, i - 1);
    }
}

/// A query is answered at the edges of the recording: a time before the
/// start gives the first snapshot, a time after the end gives the last.
pub proof fn law_query_bounds(r: Replay, time: int)
    requires
        r.wf(),
    ensures
        time < 0 ==> r.model_at(time) == r.snapshots()[0]@,
        time > r.end ==> r.model_at(time) == r.snapshots().last()@,
{
}

/// At 25 ticks in a second, a time of `t` milliseconds falls in tick
/// `t * 25 / 1000`, rounded down.
pub proof fn law_tick_rate(t: int)
    requires
        0 <= t,
    ensures
        tick_of(t) == (t * TICKS_PER_SECOND as int) / 1000,
{
}

} // verus!
