//! Snowflake id generator: 64-bit, time-sortable, unique ids.
//!
//! Bit layout, from the most significant bit:
//! `0 | 41-bit timestamp_ms | 5-bit datacenter_id | 5-bit machine_id | 12-bit sequence`,
//! where `timestamp_ms` counts milliseconds since 2024-01-01 00:00:00 UTC.
use vstd::prelude::*;

verus! {

pub const MACHINE_BITS: u64 = 5;

pub const DATACENTER_BITS: u64 = 5;

pub const SEQUENCE_BITS: u64 = 12;

pub const MAX_MACHINE_ID: u64 = 31;

pub const MAX_DATACENTER_ID: u64 = 31;

pub const MAX_SEQUENCE_ID: u64 = 4095;

pub const MACHINE_SHIFT: u64 = 12;

pub const DATACENTER_SHIFT: u64 = 17;

pub const TIMESTAMP_SHIFT: u64 = 22;

/// Custom epoch: 2024-01-01 00:00:00 UTC, in milliseconds since the Unix epoch.
pub const EPOCH: u64 = 1_704_067_200_000;

/// Milliseconds since the Unix epoch, as reported by the system clock.
/// Calls `SystemTime::now` and `duration_since(UNIX_EPOCH)`; nothing is
/// promised of the value (the clock may move in either direction). A clock
/// set before the epoch reads as `0`.
#[verifier::external_body]
fn current_millis() -> u64 {
    std::time::SystemTime::now().duration_since(std::time::UNIX_EPOCH).unwrap_or_default().as_millis() as u64
}

/// The id built from a timestamp (ms since the Unix epoch), datacenter,
/// machine and sequence, as the machine computes it.
pub open spec fn snowflake(ts: u64, datacenter_id: u64, machine_id: u64, sequence: u64) -> u64 {
    ((vstd::wrapping::u64_specs::wrapping_sub(ts, EPOCH) << 22u64) | (datacenter_id << 17u64) | (machine_id << 12u64)
        | sequence) as u64
}

/// The same id as a number: each field occupies its own bits.
pub open spec fn snowflake_value(ts: u64, datacenter_id: u64, machine_id: u64, sequence: u64) -> int {
    (ts - EPOCH) * 0x400000 + datacenter_id * 0x20000 + machine_id * 0x1000 + sequence
}

/// Timestamps for which the 41-bit field holds the offset from the custom epoch.
pub open spec fn in_id_range(ts: u64) -> bool {
    EPOCH <= ts < EPOCH + 0x200_0000_0000
}

proof fn lemma_fields_disjoint(t: u64, d: u64, m: u64, s: u64)
    requires
        t < 0x200_0000_0000,
        d < 32,
        m < 32,
        s < 4096,
    ensures
        (t << 22u64) | (d << 17u64) | (m << 12u64) | s == t * 0x400000 + d * 0x20000 + m * 0x1000
            + s,
{
    assert((t << 22u64) | (d << 17u64) | (m << 12u64) | s == t * 0x400000 + d * 0x20000 + m
        * 0x1000 + s) by (bit_vector)
        requires
            t < 0x200_0000_0000,
            d < 32,
            m < 32,
            s < 4096,
    ;
}

/// Within the id range an id is the sum of its fields.
pub proof fn lemma_snowflake_value(ts: u64, d: u64, m: u64, s: u64)
    requires
        in_id_range(ts),
        d < 32,
        m < 32,
        s < 4096,
    ensures
        snowflake(ts, d, m, s) == snowflake_value(ts, d, m, s),
{
    let t = vstd::wrapping::u64_specs::wrapping_sub(ts, EPOCH);
    assert(t == ts - EPOCH);
    lemma_fields_disjoint(t, d, m, s);
}

/// The machine and datacenter ids can be read back from any id.
pub proof fn lemma_snowflake_fields(ts: u64, d: u64, m: u64, s: u64)
    requires
        d < 32,
        m < 32,
        s < 4096,
    ensures
        (snowflake(ts, d, m, s) >> 12u64) & 0x1f == m,
        (snowflake(ts, d, m, s) >> 17u64) & 0x1f == d,
        snowflake(ts, d, m, s) & 0xfff == s,
{
    let t = vstd::wrapping::u64_specs::wrapping_sub(ts, EPOCH);
    assert(((t << 22u64) | (d << 17u64) | (m << 12u64) | s) >> 12u64 & 0x1f == m
        && ((t << 22u64) | (d << 17u64) | (m << 12u64) | s) >> 17u64 & 0x1f == d
        && ((t << 22u64) | (d << 17u64) | (m << 12u64) | s) & 0xfff == s) by (bit_vector)
        requires
            d < 32,
            m < 32,
            s < 4096,
    ;
}

/// Ids of generators with different (machine, datacenter) pairs never
/// coincide, whatever their stamps.
pub proof fn lemma_ids_distinct_across_generators(t1: u64, d1: u64, m1: u64, s1: u64, t2: u64, d2: u64, m2: u64, s2: u64)
    requires
        d1 < 32,
        m1 < 32,
        s1 < 4096,
        d2 < 32,
        m2 < 32,
        s2 < 4096,
        d1 != d2 || m1 != m2,
    ensures
        snowflake(t1, d1, m1, s1) != snowflake(t2, d2, m2, s2),
{
    lemma_snowflake_fields(t1, d1, m1, s1);
    lemma_snowflake_fields(t2, d2, m2, s2);
}

/// Generates unique 64-bit snowflake ids for one (machine, datacenter) pair.
#[derive(Debug)]
pub struct SnowFlakeGenerator {
    machine_id: u64,
    datacenter_id: u64,
    sequence: u64,
    last_timestamp: u64,
}

/// Mathematical content of a [`SnowFlakeGenerator`].
pub struct SnowFlakeView {
    pub machine_id: u64,
    pub datacenter_id: u64,
    pub sequence: u64,
    pub last_timestamp: u64,
}

impl View for SnowFlakeGenerator {
    type V = SnowFlakeView;

    closed spec fn view(&self) -> SnowFlakeView {
        SnowFlakeView {
            machine_id: self.machine_id,
            datacenter_id: self.datacenter_id,
            sequence: self.sequence,
            last_timestamp: self.last_timestamp,
        }
    }
}

/// `(t1, s1)` comes strictly before `(t2, s2)`: an earlier millisecond, or
/// the same millisecond and an earlier sequence number.
pub open spec fn stamp_before(t1: u64, s1: u64, t2: u64, s2: u64) -> bool {
    t1 < t2 || (t1 == t2 && s1 < s2)
}

impl SnowFlakeGenerator {
    /// Field ranges: 5-bit machine and datacenter ids, 12-bit sequence.
    pub open spec fn wf(&self) -> bool {
        &&& self@.machine_id <= MAX_MACHINE_ID
        &&& self@.datacenter_id <= MAX_DATACENTER_ID
        &&& self@.sequence <= MAX_SEQUENCE_ID
    }

    /// The id the generator handed out last (meaningful once it has handed one out).
    pub open spec fn last_id(&self) -> u64 {
        snowflake(self@.last_timestamp, self@.datacenter_id, self@.machine_id, self@.sequence)
    }

    /// Creates a generator for the given machine and datacenter (each 0–31).
    pub fn new(machine_id: u64, datacenter_id: u64) -> (g: SnowFlakeGenerator)
        requires
            machine_id <= MAX_MACHINE_ID,
            datacenter_id <= MAX_DATACENTER_ID,
        ensures
            g.wf(),
            g@ == (SnowFlakeView { machine_id, datacenter_id, sequence: 0, last_timestamp: 0 }),
    {
        SnowFlakeGenerator { machine_id, datacenter_id, sequence: 0, last_timestamp: 0 }
    }

    /// Issues the next id at the clock reading `now` (milliseconds since the
    /// Unix epoch). A reading later than the last stamp's millisecond starts
    /// that millisecond at sequence 0; a reading equal to it takes the next
    /// sequence value. A reading earlier than it (the clock moved back), or
    /// equal to it when all 4096 sequence values are used, issues nothing
    /// and changes nothing (`None`): the caller must wait for a later
    /// reading.
    pub fn next_id_at(&mut self, now: u64) -> (r: Option<u64>)
        requires
            old(self).wf(),
        ensures
            final(self).wf(),
            final(self)@.machine_id == old(self)@.machine_id,
            final(self)@.datacenter_id == old(self)@.datacenter_id,
            r is None <==> (now < old(self)@.last_timestamp || (now == old(self)@.last_timestamp
                && old(self)@.sequence == MAX_SEQUENCE_ID)),
            r is None ==> final(self)@ == old(self)@,
            r matches Some(id) ==> {
                &&& id == final(self).last_id()
                &&& final(self)@.last_timestamp == now
                &&& final(self)@.sequence == if now > old(self)@.last_timestamp {
                    0
                } else {
                    (old(self)@.sequence + 1) as u64
                }
            },
    {
        if now > self.last_timestamp {
            self.sequence = 0;
            self.last_timestamp = now;
        } else if now == self.last_timestamp && self.sequence < MAX_SEQUENCE_ID {
            self.sequence = self.sequence + 1;
        } else {
            return None;
        }
        Some(((self.last_timestamp.wrapping_sub(EPOCH)) << TIMESTAMP_SHIFT) | (self.datacenter_id
            << DATACENTER_SHIFT) | (self.machine_id << MACHINE_SHIFT) | self.sequence)
    }

    /// Returns the next id, reading the system clock until a reading allows
    /// a new stamp (see [`Self::next_id_at`]): when the clock is behind the
    /// last stamp, or all sequence values of its millisecond are used, it
    /// waits for a later millisecond.
    ///
    /// The wait is bounded, as every loop here must end: only after 2^64
    /// consecutive readings that allow no new stamp (a clock stuck or behind
    /// for far longer than any run) is the id stamped one millisecond past
    /// the last stamp. In every case the stamp strictly advances (but at the
    /// end of the time range), either to a new millisecond at sequence 0 or
    /// to the next sequence value of the same millisecond.
    pub fn next_id(&mut self) -> (id: u64)
        requires
            old(self).wf(),
        ensures
            final(self).wf(),
            final(self)@.machine_id == old(self)@.machine_id,
            final(self)@.datacenter_id == old(self)@.datacenter_id,
            id == final(self).last_id(),
            final(self)@.last_timestamp >= old(self)@.last_timestamp,
            old(self)@.last_timestamp < u64::MAX ==> stamp_before(
                old(self)@.last_timestamp,
                old(self)@.sequence,
                final(self)@.last_timestamp,
                final(self)@.sequence,
            ),
            final(self)@.sequence == 0 || (final(self)@.last_timestamp == old(self)@.last_timestamp
                && final(self)@.sequence == old(self)@.sequence + 1),
    {
        let mut tries: u64 = 0;
        loop
            invariant
                self.wf(),
                self@ == old(self)@,
            decreases u64::MAX - tries,
        {
            let now = current_millis();
            match self.next_id_at(now) {
                Some(id) => {
                    return id;
                },
                None => {},
            }
            if tries == u64::MAX {
                break;
            }
            tries = tries + 1;
        }
        self.sequence = 0;
        if self.last_timestamp < u64::MAX {
            self.last_timestamp = self.last_timestamp + 1;
        }
        ((self.last_timestamp.wrapping_sub(EPOCH)) << TIMESTAMP_SHIFT) | (self.datacenter_id
            << DATACENTER_SHIFT) | (self.machine_id << MACHINE_SHIFT) | self.sequence
    }
}

/// `ids` were handed out in this order by a generator that went from state
/// `g0` to state `g1`, with the (timestamp, sequence) stamps `stamps`: each
/// id is built from its stamp and `g1`'s datacenter and machine ids. Unless
/// the generator's timestamp reached the top of its range, the stamps
/// strictly increase, all come after `g0`'s stamp, and the last one is
/// `g1`'s.
pub open spec fn issued(ids: Seq<u64>, stamps: Seq<(u64, u64)>, g0: SnowFlakeView, g1: SnowFlakeView) -> bool {
    &&& stamps.len() == ids.len()
    &&& forall|k: int|
        0 <= k < ids.len() ==> #[trigger] stamps[k].1 <= MAX_SEQUENCE_ID && ids[k] == snowflake(
            stamps[k].0,
            g1.datacenter_id,
            g1.machine_id,
            stamps[k].1,
        )
    &&& g1.last_timestamp < u64::MAX ==> {
        &&& forall|x: int, y: int|
            0 <= x < y < stamps.len() ==> stamp_before(
                #[trigger] stamps[x].0,
                stamps[x].1,
                #[trigger] stamps[y].0,
                stamps[y].1,
            )
        &&& forall|k: int|
            0 <= k < stamps.len() ==> stamp_before(g0.last_timestamp, g0.sequence, #[trigger] stamps[k].0, stamps[k].1)
        &&& stamps.len() > 0 ==> stamps.last() == (g1.last_timestamp, g1.sequence)
    }
}

/// Handing out one more id keeps [`issued`]: the generator went from `g0`
/// to `ga` handing out `ids`, and then from `ga` to `gb` handing out `id`.
pub proof fn lemma_issue_one(ids: Seq<u64>, stamps: Seq<(u64, u64)>, g0: SnowFlakeGenerator, ga: SnowFlakeGenerator, gb: SnowFlakeGenerator, id: u64)
    requires
        issued(ids, stamps, g0@, ga@),
        ids.len() == 0 ==> ga@ == g0@,
        ga@.last_timestamp >= g0@.last_timestamp,
        ga.wf(),
        gb.wf(),
        gb@.machine_id == ga@.machine_id,
        gb@.datacenter_id == ga@.datacenter_id,
        id == gb.last_id(),
        gb@.last_timestamp >= ga@.last_timestamp,
        ga@.last_timestamp < u64::MAX ==> stamp_before(ga@.last_timestamp, ga@.sequence, gb@.last_timestamp, gb@.sequence),
    ensures
        issued(ids.push(id), stamps.push((gb@.last_timestamp, gb@.sequence)), g0@, gb@),
{
    let ids2 = ids.push(id);
    let st2 = stamps.push((gb@.last_timestamp, gb@.sequence));
    assert forall|k: int| 0 <= k < ids2.len() implies #[trigger] st2[k].1 <= MAX_SEQUENCE_ID && ids2[k] == snowflake(
        st2[k].0,
        gb@.datacenter_id,
        gb@.machine_id,
        st2[k].1,
    ) by {
        if k < ids.len() {
            assert(st2[k] == stamps[k] && ids2[k] == ids[k]);
        }
    }
    if gb@.last_timestamp < u64::MAX {
        assert forall|x: int, y: int| 0 <= x < y < st2.len() implies stamp_before(
            #[trigger] st2[x].0,
            st2[x].1,
            #[trigger] st2[y].0,
            st2[y].1,
        ) by {
            assert(st2[x] == stamps[x]);
            if y < stamps.len() {
                assert(st2[y] == stamps[y]);
            } else {
                if x < stamps.len() - 1 {
                    assert(stamp_before(stamps[x].0, stamps[x].1, stamps[stamps.len() - 1].0, stamps[stamps.len() - 1].1));
                }
            }
        }
        assert forall|k: int| 0 <= k < st2.len() implies stamp_before(g0@.last_timestamp, g0@.sequence, #[trigger] st2[k].0, st2[k].1) by {
            if k < stamps.len() {
                assert(st2[k] == stamps[k]);
            } else if stamps.len() > 0 {
                let l = stamps.len() - 1;
                assert(stamp_before(g0@.last_timestamp, g0@.sequence, stamps[l].0, stamps[l].1));
            }
        }
    }
}

/// Ids are strictly increasing in the generator's stamp: an id handed out
/// later by the same generator is larger, as long as both stamps lie in the
/// 41-bit time range that starts at the custom epoch.
pub proof fn lemma_ids_increase(a: SnowFlakeGenerator, b: SnowFlakeGenerator)
    requires
        a.wf(),
        b.wf(),
        a@.machine_id == b@.machine_id,
        a@.datacenter_id == b@.datacenter_id,
        stamp_before(a@.last_timestamp, a@.sequence, b@.last_timestamp, b@.sequence),
        in_id_range(a@.last_timestamp),
        in_id_range(b@.last_timestamp),
    ensures
        a.last_id() < b.last_id(),
{
    lemma_snowflake_value(a@.last_timestamp, a@.datacenter_id, a@.machine_id, a@.sequence);
    lemma_snowflake_value(b@.last_timestamp, b@.datacenter_id, b@.machine_id, b@.sequence);
}

} // verus!
