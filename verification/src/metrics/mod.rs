//! Families of metrics snapshots over rings.
//!
//! A snapshot is taken now and then by each worker. Readers want the latest one
//! of each node, or of each key, and discard what is stale.
pub mod laws;
pub mod promises;

use std::collections::HashMap;
use std::marker::PhantomData;

use vstd::prelude::*;
use vstd::string::*;

use crate::decimal::{digits, push_number};
use crate::fleet::rings::FleetRings;
use crate::fleet::{lemma_ring_fits, FleetView, NodeId};
use crate::id::{counter_of, node_of, NetId64};
use crate::numbers::{min_of, min_u64};
use crate::octets;
use crate::ring::{frame_view, Frame, FrameView, LaneView, RingTopology, RingView};
use crate::typed::declared;

verus! {

pub use crate::ring::RingSpec;
pub use crate::typed::OrbitTyped;

broadcast use vstd::std_specs::hash::group_hash_axioms;

/// Ring capacity for one current snapshot per node: a window to scan, no promise
/// to retain history.
pub const METRIC_SNAPSHOT_RING_CAPACITY: usize = 1_024;

/// Ring capacity for ordinary keyed rows.
pub const KEYED_METRIC_RING_CAPACITY: usize = 4_096;

/// A snapshot that a ring carries.
pub trait OrbitMetricSnapshot: OrbitTyped + Sized {
    /// Name of the family, for diagnostics.
    const FAMILY: &'static str;

    /// The node that the snapshot describes.
    spec fn node(&self) -> u16;

    /// When the snapshot was taken, in seconds since the Unix epoch.
    spec fn captured(&self) -> u64;

    /// The snapshot that a payload spells, if it spells one.
    spec fn of_payload(bytes: Seq<u8>) -> Option<Self>;

    /// The node that the snapshot describes.
    fn node_id(&self) -> (node: u16)
        ensures
            node == self.node(),
    ;

    /// When the snapshot was taken, in seconds since the Unix epoch.
    fn captured_at_unix_secs(&self) -> (seconds: u64)
        ensures
            seconds == self.captured(),
    ;

    /// The payload of the snapshot.
    fn encode(&self) -> Result<Vec<u8>, String>;

    /// The snapshot of a payload.
    fn decode(bytes: &[u8]) -> (snapshot: Result<Self, String>)
        ensures
            match snapshot {
                Ok(snapshot) => Self::of_payload(bytes@) == Some(snapshot),
                Err(_) => Self::of_payload(bytes@) is None,
            },
    ;
}

/// A snapshot of one logical key, which need not be a node.
pub trait OrbitMetricKeyedSnapshot: OrbitMetricSnapshot {
    type Key: View;

    /// The key of the snapshot.
    spec fn key(&self) -> <Self::Key as View>::V;

    /// The key of the snapshot.
    fn metric_key(&self) -> (key: Self::Key)
        ensures
            key@ == self.key(),
    ;

    /// True when two keys are the same.
    fn same_key(one: &Self::Key, other: &Self::Key) -> (same: bool)
        ensures
            same == (one@ == other@),
    ;
}

/// One snapshot, and the id of the frame that carried it.
#[derive(Clone, Debug)]
pub struct OrbitMetricSample<T> {
    pub id: NetId64,
    pub snapshot: T,
}

impl<T: OrbitMetricSnapshot> OrbitMetricSample<T> {
    /// How old the sample is at a time, in seconds.
    pub open spec fn age(self, now: u64) -> int {
        if now > self.snapshot.captured() {
            now - self.snapshot.captured()
        } else {
            0
        }
    }

    /// The node that the snapshot describes.
    pub fn node_id(&self) -> (node: u16)
        ensures
            node == self.snapshot.node(),
    {
        self.snapshot.node_id()
    }

    /// When the snapshot was taken.
    pub fn captured_at_unix_secs(&self) -> (seconds: u64)
        ensures
            seconds == self.snapshot.captured(),
    {
        self.snapshot.captured_at_unix_secs()
    }

    /// How old the sample is at a time, in seconds. A sample from the future is
    /// new.
    pub fn age_secs(&self, now_unix_secs: u64) -> (age: u64)
        ensures
            age == self.age(now_unix_secs),
    {
        now_unix_secs.saturating_sub(self.captured_at_unix_secs())
    }

    /// True when the sample is no older than this at a time.
    pub fn is_fresh(&self, now_unix_secs: u64, max_age_secs: u64) -> (fresh: bool)
        ensures
            fresh == (self.age(now_unix_secs) <= max_age_secs),
    {
        self.age_secs(now_unix_secs) <= max_age_secs
    }
}

/// True when the first sample is newer: by its time, then by its node, then by
/// its place in the node's lane.
pub open spec fn newer<T: OrbitMetricSnapshot>(
    candidate: OrbitMetricSample<T>,
    current: OrbitMetricSample<T>,
) -> bool {
    let (a, b) = (candidate.snapshot.captured(), current.snapshot.captured());
    let (c, d) = (node_of(candidate.id.0), node_of(current.id.0));
    a > b || (a == b && (c > d || (c == d && counter_of(candidate.id.0) > counter_of(
        current.id.0,
    ))))
}

fn sample_is_newer<T: OrbitMetricSnapshot>(
    candidate: &OrbitMetricSample<T>,
    current: &OrbitMetricSample<T>,
) -> (result: bool)
    ensures
        result == newer(*candidate, *current),
{
    let a: u64 = candidate.captured_at_unix_secs();
    let b: u64 = current.captured_at_unix_secs();
    let c: u16 = candidate.id.node();
    let d: u16 = current.id.node();
    a > b || (a == b && (c > d || (c == d && candidate.id.counter() > current.id.counter())))
}

/// The sample of a frame, if it spells one.
pub open spec fn sample_of<T: OrbitMetricSnapshot>(frame: Option<FrameView>) -> Option<
    OrbitMetricSample<T>,
> {
    match frame {
        Some(frame) => match T::of_payload(frame.payload) {
            Some(snapshot) => Some(OrbitMetricSample { id: frame.id, snapshot }),
            None => None,
        },
        None => None,
    }
}

/// The sample of a frame, if it spells one.
fn sample_in<T: OrbitMetricSnapshot>(frame: Option<Frame>) -> (sample: Option<OrbitMetricSample<T>>)
    ensures
        sample == sample_of::<T>(frame_view(frame)),
{
    match frame {
        Some(frame) => match T::decode(octets::as_slice(&frame.payload)) {
            Ok(snapshot) => Some(OrbitMetricSample { id: frame.id, snapshot }),
            Err(_) => None,
        },
        None => None,
    }
}

/// How many frames of a lane are in its window.
pub open spec fn window(lane: LaneView, capacity: usize) -> nat {
    min_of(lane.head as int, capacity as int) as nat
}

/// What a lane's window spells, the newest frame first.
pub open spec fn visible<T: OrbitMetricSnapshot>(lane: LaneView, capacity: usize) -> Seq<
    Option<OrbitMetricSample<T>>,
> {
    Seq::new(
        window(lane, capacity),
        |i: int| sample_of::<T>(lane.at((lane.head - 1 - i) as u64)),
    )
}

/// True when a sample of this node is among these.
pub open spec fn has_node<T: OrbitMetricSnapshot>(
    samples: Seq<OrbitMetricSample<T>>,
    node: u16,
) -> bool {
    exists|i: int| 0 <= i < samples.len() && (#[trigger] samples[i]).snapshot.node() == node
}

/// The first sample of each node.
pub open spec fn first_by_node<T: OrbitMetricSnapshot>(
    seen: Seq<Option<OrbitMetricSample<T>>>,
) -> Seq<OrbitMetricSample<T>>
    decreases seen.len(),
{
    if seen.len() == 0 {
        Seq::empty()
    } else {
        let before = first_by_node(seen.drop_last());
        match seen.last() {
            Some(sample) => if !has_node(before, sample.snapshot.node()) {
                before.push(sample)
            } else {
                before
            },
            None => before,
        }
    }
}

/// The first sample that describes a node, from a place on.
pub open spec fn first_of_node<T: OrbitMetricSnapshot>(
    seen: Seq<Option<OrbitMetricSample<T>>>,
    node: u16,
    from: int,
) -> Option<OrbitMetricSample<T>>
    decreases seen.len() - from,
{
    if from >= seen.len() {
        None
    } else if seen[from] is Some && (seen[from]->0).snapshot.node() == node {
        seen[from]
    } else {
        first_of_node(seen, node, from + 1)
    }
}

/// The newest sample that each of the first `nodes` nodes has of itself in its
/// own lane.
pub open spec fn own_samples<T: OrbitMetricSnapshot>(
    ring: RingView,
    capacity: usize,
    nodes: nat,
) -> Seq<OrbitMetricSample<T>>
    decreases nodes,
{
    if nodes == 0 {
        Seq::empty()
    } else {
        let before = own_samples(ring, capacity, (nodes - 1) as nat);
        match first_of_node(
            visible::<T>(ring.lanes[nodes - 1], capacity),
            (nodes - 1) as u16,
            0,
        ) {
            Some(sample) => before.push(sample),
            None => before,
        }
    }
}

/// The latest sample of each node.
pub open spec fn latest_nodes<T: OrbitMetricSnapshot>(fleet: FleetView) -> Seq<
    OrbitMetricSample<T>,
> {
    if T::RING_TOPOLOGY == RingTopology::PerNode {
        own_samples(fleet.ring::<T>(), T::RING_CAPACITY, fleet.capacity as nat)
    } else {
        first_by_node(visible::<T>(fleet.own_lane::<T>(), T::RING_CAPACITY))
    }
}

/// Samples by the node that they describe.
pub open spec fn by_node<T: OrbitMetricSnapshot>(samples: Seq<OrbitMetricSample<T>>) -> Map<
    u16,
    OrbitMetricSample<T>,
>
    decreases samples.len(),
{
    if samples.len() == 0 {
        Map::empty()
    } else {
        by_node(samples.drop_last()).insert(samples.last().snapshot.node(), samples.last())
    }
}

/// The place of a key's sample, from a place on.
pub open spec fn key_from<T: OrbitMetricKeyedSnapshot>(
    samples: Seq<OrbitMetricSample<T>>,
    key: <T::Key as View>::V,
    from: int,
) -> Option<int>
    decreases samples.len() - from,
{
    if from >= samples.len() {
        None
    } else if samples[from].snapshot.key() == key {
        Some(from)
    } else {
        key_from(samples, key, from + 1)
    }
}

/// Samples after one more: it comes in where its key is new, and takes the place
/// of an older one where `replace` says so.
pub open spec fn with_sample<T: OrbitMetricKeyedSnapshot>(
    samples: Seq<OrbitMetricSample<T>>,
    sample: OrbitMetricSample<T>,
    replace: bool,
) -> Seq<OrbitMetricSample<T>> {
    match key_from(samples, sample.snapshot.key(), 0) {
        Some(place) => if replace && newer(sample, samples[place]) {
            samples.update(place, sample)
        } else {
            samples
        },
        None => samples.push(sample),
    }
}

/// Samples after those of a window.
pub open spec fn with_samples<T: OrbitMetricKeyedSnapshot>(
    samples: Seq<OrbitMetricSample<T>>,
    seen: Seq<Option<OrbitMetricSample<T>>>,
    replace: bool,
) -> Seq<OrbitMetricSample<T>>
    decreases seen.len(),
{
    if seen.len() == 0 {
        samples
    } else {
        let before = with_samples(samples, seen.drop_last(), replace);
        match seen.last() {
            Some(sample) => with_sample(before, sample, replace),
            None => before,
        }
    }
}

/// The newest sample of each key in the first `nodes` lanes.
pub open spec fn lane_samples<T: OrbitMetricKeyedSnapshot>(
    ring: RingView,
    capacity: usize,
    nodes: nat,
) -> Seq<OrbitMetricSample<T>>
    decreases nodes,
{
    if nodes == 0 {
        Seq::empty()
    } else {
        with_samples(
            lane_samples(ring, capacity, (nodes - 1) as nat),
            visible::<T>(ring.lanes[nodes - 1], capacity),
            true,
        )
    }
}

/// The latest sample of each key: in a shared ring the one that was written
/// last, across node lanes the newest one.
pub open spec fn latest_keys<T: OrbitMetricKeyedSnapshot>(fleet: FleetView) -> Seq<
    OrbitMetricSample<T>,
> {
    if T::RING_TOPOLOGY == RingTopology::PerNode {
        lane_samples(fleet.ring::<T>(), T::RING_CAPACITY, fleet.capacity as nat)
    } else {
        with_samples(
            Seq::empty(),
            visible::<T>(fleet.own_lane::<T>(), T::RING_CAPACITY),
            false,
        )
    }
}

/// The samples that are no older than this, in order.
pub open spec fn fresh_of<T: OrbitMetricSnapshot>(
    samples: Seq<OrbitMetricSample<T>>,
    now: u64,
    max_age: u64,
) -> Seq<OrbitMetricSample<T>>
    decreases samples.len(),
{
    if samples.len() == 0 {
        Seq::empty()
    } else {
        let before = fresh_of(samples.drop_last(), now, max_age);
        if samples.last().age(now) <= max_age {
            before.push(samples.last())
        } else {
            before
        }
    }
}

/// A family of metrics snapshots.
#[derive(Debug)]
pub struct OrbitMetricFamily<T: OrbitMetricSnapshot> {
    of: PhantomData<T>,
}

impl<T: OrbitMetricSnapshot> OrbitMetricFamily<T> {
    /// The family of `T`.
    pub fn new() -> OrbitMetricFamily<T> {
        OrbitMetricFamily { of: PhantomData }
    }

    /// The write side.
    pub fn publisher(&self) -> OrbitMetricPublisher<T> {
        OrbitMetricPublisher::new()
    }

    /// The read side.
    pub fn collector(&self) -> OrbitMetricCollector<T> {
        OrbitMetricCollector::new()
    }
}

/// Why a payload is refused.
pub open spec fn oversize_text<T: OrbitMetricSnapshot>(len: nat) -> Seq<char> {
    "orbit metrics payload too large for "@ + T::FAMILY@ + ": "@ + digits(len) + " > "@ + digits(
        T::RING_PAYLOAD_CAPACITY as nat,
    )
}

/// The write side of a family.
#[derive(Debug)]
pub struct OrbitMetricPublisher<T: OrbitMetricSnapshot> {
    of: PhantomData<T>,
}

impl<T: OrbitMetricSnapshot> OrbitMetricPublisher<T> {
    /// The write side of `T`'s family.
    pub fn new() -> OrbitMetricPublisher<T> {
        OrbitMetricPublisher { of: PhantomData }
    }

    /// Publishes a snapshot that was taken at a time and has answered with its
    /// payload. The frame's version is that time.
    pub fn publish_encoded<F: FleetRings>(
        &self,
        fleet: &mut F,
        captured_at: u64,
        encoded: Result<Vec<u8>, String>,
    ) -> (id: Result<NetId64, String>)
        requires
            old(fleet).sound(),
            old(fleet).held().usable::<T>(),
        ensures
            final(fleet).sound(),
            final(fleet).held().usable::<T>(),
            match encoded {
                Err(message) => {
                    &&& id == Err::<NetId64, String>(message)
                    &&& final(fleet).held() == old(fleet).held()
                },
                Ok(payload) => if payload@.len() > T::RING_PAYLOAD_CAPACITY {
                    &&& id is Err
                    &&& id->Err_0@ == oversize_text::<T>(payload@.len())
                    &&& final(fleet).held() == old(fleet).held()
                } else {
                    let ring = old(fleet).held().ring::<T>();
                    let frame = ring.next_frame(old(fleet).held().node, 0, captured_at, payload@);
                    &&& id == Ok::<NetId64, String>(frame.id)
                    &&& final(fleet).held() == old(fleet).held().with_ring::<T>(
                        ring.append(ring.spec.lane_of(old(fleet).held().node), frame),
                    )
                },
            },
    {
        match encoded {
            Err(message) => Err(message),
            Ok(payload) => {
                if payload.len() > T::RING_PAYLOAD_CAPACITY {
                    let mut message: String = "orbit metrics payload too large for ".to_owned();
                    message.append(T::FAMILY);
                    message.append(": ");
                    push_number(&mut message, payload.len() as u64);
                    message.append(" > ");
                    push_number(&mut message, T::RING_PAYLOAD_CAPACITY as u64);
                    assert(message@ =~= oversize_text::<T>(payload@.len()));
                    return Err(message);
                }
                Ok(fleet.publish::<T>(0, captured_at, octets::from_vec(payload)))
            },
        }
    }

    /// Publishes a snapshot. The frame's version is the time at which it was
    /// taken.
    pub fn publish<F: FleetRings>(
        &self,
        fleet: &mut F,
        snapshot: &T,
    ) -> (id: Result<NetId64, String>)
        requires
            old(fleet).sound(),
            old(fleet).held().usable::<T>(),
        ensures
            final(fleet).sound(),
            final(fleet).held().usable::<T>(),
            exists|encoded: Result<Vec<u8>, String>| #[trigger]
                call_ensures(T::encode, (snapshot,), encoded) && match encoded {
                    Err(message) => {
                        &&& id == Err::<NetId64, String>(message)
                        &&& final(fleet).held() == old(fleet).held()
                    },
                    Ok(payload) => if payload@.len() > T::RING_PAYLOAD_CAPACITY {
                        &&& id is Err
                        &&& id->Err_0@ == oversize_text::<T>(payload@.len())
                        &&& final(fleet).held() == old(fleet).held()
                    } else {
                        let ring = old(fleet).held().ring::<T>();
                        let frame = ring.next_frame(
                            old(fleet).held().node,
                            0,
                            snapshot.captured(),
                            payload@,
                        );
                        &&& id == Ok::<NetId64, String>(frame.id)
                        &&& final(fleet).held() == old(fleet).held().with_ring::<T>(
                            ring.append(ring.spec.lane_of(old(fleet).held().node), frame),
                        )
                    },
                },
    {
        let encoded = snapshot.encode();
        assert(call_ensures(T::encode, (snapshot,), encoded));
        self.publish_encoded(fleet, snapshot.captured_at_unix_secs(), encoded)
    }
}

/// The read side of a family.
#[derive(Debug)]
pub struct OrbitMetricCollector<T: OrbitMetricSnapshot> {
    of: PhantomData<T>,
}

impl<T: OrbitMetricSnapshot> OrbitMetricCollector<T> {
    /// The read side of `T`'s family.
    pub fn new() -> OrbitMetricCollector<T> {
        OrbitMetricCollector { of: PhantomData }
    }

    /// The newest sample of each node. Frames that spell none are ignored.
    pub fn latest_by_node<F: FleetRings>(
        &self,
        fleet: &F,
    ) -> (latest: HashMap<u16, OrbitMetricSample<T>>)
        requires
            fleet.sound(),
            fleet.held().usable::<T>(),
        ensures
            latest@ == by_node(latest_nodes::<T>(fleet.held())),
    {
        let samples = self.latest_samples(fleet);
        index_by_node(samples)
    }

    /// The newest sample of each node, where it is no older than this.
    pub fn fresh_by_node<F: FleetRings>(
        &self,
        fleet: &F,
        now_unix_secs: u64,
        max_age_secs: u64,
    ) -> (fresh: HashMap<u16, OrbitMetricSample<T>>)
        requires
            fleet.sound(),
            fleet.held().usable::<T>(),
        ensures
            fresh@ == by_node(fresh_of(latest_nodes::<T>(fleet.held()), now_unix_secs, max_age_secs)),
    {
        let samples = self.latest_samples(fleet);
        index_by_node(keep_fresh(samples, now_unix_secs, max_age_secs))
    }

    fn latest_samples<F: FleetRings>(&self, fleet: &F) -> (samples: Vec<OrbitMetricSample<T>>)
        requires
            fleet.sound(),
            fleet.held().usable::<T>(),
        ensures
            samples@ == latest_nodes::<T>(fleet.held()),
    {
        match T::RING_TOPOLOGY {
            RingTopology::PerNode => self.latest_by_node_lanes(fleet),
            _ => self.latest_by_node_shared(fleet),
        }
    }

    fn latest_by_node_shared<F: FleetRings>(
        &self,
        fleet: &F,
    ) -> (samples: Vec<OrbitMetricSample<T>>)
        requires
            fleet.sound(),
            fleet.held().usable::<T>(),
        ensures
            samples@ == first_by_node(
                visible::<T>(fleet.held().own_lane::<T>(), T::RING_CAPACITY),
            ),
    {
        let head: u64 = fleet.head::<T>();
        let count: u64 = min_u64(head, fleet.ring_capacity::<T>() as u64);
        let ghost seen = visible::<T>(fleet.held().own_lane::<T>(), T::RING_CAPACITY);
        let mut samples: Vec<OrbitMetricSample<T>> = Vec::new();
        let mut offset: u64 = 0;
        assert(seen.subrange(0, 0) =~= Seq::<Option<OrbitMetricSample<T>>>::empty());
        while offset < count
            invariant
                offset <= count,
                fleet.sound(),
                fleet.held().usable::<T>(),
                head == fleet.held().own_lane::<T>().head,
                count == window(fleet.held().own_lane::<T>(), T::RING_CAPACITY),
                seen == visible::<T>(fleet.held().own_lane::<T>(), T::RING_CAPACITY),
                samples@ == first_by_node(seen.subrange(0, offset as int)),
            decreases count - offset,
        {
            let ghost prefix = seen.subrange(0, offset + 1);
            assert(prefix.drop_last() =~= seen.subrange(0, offset as int));
            let sample = sample_in::<T>(fleet.read_at::<T>(head - 1 - offset));
            assert(sample == prefix.last());
            match sample {
                Some(sample) => {
                    if !holds_node(&samples, sample.node_id()) {
                        samples.push(sample);
                    }
                },
                None => {},
            }
            offset = offset + 1;
        }
        assert(seen.subrange(0, seen.len() as int) =~= seen);
        samples
    }

    fn latest_by_node_lanes<F: FleetRings>(&self, fleet: &F) -> (samples: Vec<OrbitMetricSample<T>>)
        requires
            fleet.sound(),
            fleet.held().usable::<T>(),
            T::RING_TOPOLOGY == RingTopology::PerNode,
        ensures
            samples@ == own_samples::<T>(
                fleet.held().ring::<T>(),
                T::RING_CAPACITY,
                fleet.held().capacity as nat,
            ),
    {
        proof {
            fleet.lemma_sound();
            lemma_ring_fits::<T>(fleet.held());
        }
        let nodes: u16 = fleet.fleet_capacity();
        let mut samples: Vec<OrbitMetricSample<T>> = Vec::new();
        let mut node: u16 = 0;
        while node < nodes
            invariant
                node <= nodes,
                nodes == fleet.held().capacity,
                fleet.sound(),
                fleet.held().usable::<T>(),
                T::RING_TOPOLOGY == RingTopology::PerNode,
                fleet.held().ring::<T>().spec == declared::<T>(),
                fleet.held().ring::<T>().lanes.len() == nodes,
                samples@ == own_samples::<T>(fleet.held().ring::<T>(), T::RING_CAPACITY, node as nat),
            decreases nodes - node,
        {
            let newest = self.newest_of_lane(fleet, node);
            match newest {
                Some(sample) => {
                    samples.push(sample);
                },
                None => {},
            }
            node = node + 1;
        }
        samples
    }

    fn newest_of_lane<F: FleetRings>(
        &self,
        fleet: &F,
        node: u16,
    ) -> (newest: Option<OrbitMetricSample<T>>)
        requires
            fleet.sound(),
            fleet.held().usable::<T>(),
            T::RING_TOPOLOGY == RingTopology::PerNode,
            fleet.held().ring::<T>().spec == declared::<T>(),
            node < fleet.held().ring::<T>().lanes.len(),
        ensures
            newest == first_of_node(
                visible::<T>(fleet.held().ring::<T>().lanes[node as int], T::RING_CAPACITY),
                node,
                0,
            ),
    {
        let head: u64 = fleet.lane_head::<T>(NodeId::new(node));
        let count: u64 = min_u64(head, fleet.ring_capacity::<T>() as u64);
        let ghost lane = fleet.held().ring::<T>().lanes[node as int];
        let ghost seen = visible::<T>(lane, T::RING_CAPACITY);
        let mut offset: u64 = 0;
        while offset < count
            invariant
                offset <= count,
                fleet.sound(),
                fleet.held().usable::<T>(),
                T::RING_TOPOLOGY == RingTopology::PerNode,
                fleet.held().ring::<T>().spec == declared::<T>(),
                node < fleet.held().ring::<T>().lanes.len(),
                lane == fleet.held().ring::<T>().lanes[node as int],
                head == lane.head,
                count == window(lane, T::RING_CAPACITY),
                seen == visible::<T>(lane, T::RING_CAPACITY),
                first_of_node(seen, node, 0) == first_of_node(seen, node, offset as int),
            decreases count - offset,
        {
            let sample = sample_in::<T>(
                fleet.read_lane_at::<T>(NodeId::new(node), head - 1 - offset),
            );
            assert(sample == seen[offset as int]);
            match sample {
                Some(sample) => {
                    if sample.node_id() == node {
                        return Some(sample);
                    }
                },
                None => {},
            }
            offset = offset + 1;
        }
        None
    }
}

impl<T: OrbitMetricKeyedSnapshot> OrbitMetricCollector<T> {
    /// The newest sample of each key; no two of the samples have one key.
    pub fn latest_by_key<F: FleetRings>(&self, fleet: &F) -> (latest: Vec<OrbitMetricSample<T>>)
        requires
            fleet.sound(),
            fleet.held().usable::<T>(),
        ensures
            latest@ == latest_keys::<T>(fleet.held()),
    {
        match T::RING_TOPOLOGY {
            RingTopology::PerNode => self.latest_by_key_lanes(fleet),
            _ => {
                proof {
                    fleet.lemma_sound();
                    lemma_ring_fits::<T>(fleet.held());
                }
                let node: NodeId = fleet.node_id();
                self.add_lane(fleet, node, Vec::new(), false)
            },
        }
    }

    /// The newest sample of each key, where it is no older than this.
    pub fn fresh_by_key<F: FleetRings>(
        &self,
        fleet: &F,
        now_unix_secs: u64,
        max_age_secs: u64,
    ) -> (fresh: Vec<OrbitMetricSample<T>>)
        requires
            fleet.sound(),
            fleet.held().usable::<T>(),
        ensures
            fresh@ == fresh_of(latest_keys::<T>(fleet.held()), now_unix_secs, max_age_secs),
    {
        let latest = self.latest_by_key(fleet);
        keep_fresh(latest, now_unix_secs, max_age_secs)
    }

    fn latest_by_key_lanes<F: FleetRings>(&self, fleet: &F) -> (samples: Vec<OrbitMetricSample<T>>)
        requires
            fleet.sound(),
            fleet.held().usable::<T>(),
            T::RING_TOPOLOGY == RingTopology::PerNode,
        ensures
            samples@ == lane_samples::<T>(
                fleet.held().ring::<T>(),
                T::RING_CAPACITY,
                fleet.held().capacity as nat,
            ),
    {
        proof {
            fleet.lemma_sound();
            lemma_ring_fits::<T>(fleet.held());
        }
        let nodes: u16 = fleet.fleet_capacity();
        let mut samples: Vec<OrbitMetricSample<T>> = Vec::new();
        let mut node: u16 = 0;
        while node < nodes
            invariant
                node <= nodes,
                nodes == fleet.held().capacity,
                fleet.sound(),
                fleet.held().usable::<T>(),
                T::RING_TOPOLOGY == RingTopology::PerNode,
                fleet.held().ring::<T>().spec == declared::<T>(),
                fleet.held().ring::<T>().lanes.len() == nodes,
                samples@ == lane_samples::<T>(fleet.held().ring::<T>(), T::RING_CAPACITY, node as nat),
            decreases nodes - node,
        {
            samples = self.add_lane(fleet, NodeId::new(node), samples, true);
            node = node + 1;
        }
        samples
    }

    /// Adds the samples of a lane's window.
    fn add_lane<F: FleetRings>(
        &self,
        fleet: &F,
        node: NodeId,
        samples: Vec<OrbitMetricSample<T>>,
        replace: bool,
    ) -> (all: Vec<OrbitMetricSample<T>>)
        requires
            fleet.sound(),
            fleet.held().usable::<T>(),
            fleet.held().ring::<T>().spec == declared::<T>(),
            fleet.held().ring::<T>().serves(node.0),
        ensures
            all@ == with_samples(
                samples@,
                visible::<T>(
                    fleet.held().ring::<T>().lanes[declared::<T>().lane_of(node.0)],
                    T::RING_CAPACITY,
                ),
                replace,
            ),
    {
        let head: u64 = fleet.lane_head::<T>(node);
        let count: u64 = min_u64(head, fleet.ring_capacity::<T>() as u64);
        let ghost lane = fleet.held().ring::<T>().lanes[declared::<T>().lane_of(node.0)];
        let ghost seen = visible::<T>(lane, T::RING_CAPACITY);
        let mut all: Vec<OrbitMetricSample<T>> = samples;
        let mut offset: u64 = 0;
        assert(seen.subrange(0, 0) =~= Seq::<Option<OrbitMetricSample<T>>>::empty());
        while offset < count
            invariant
                offset <= count,
                fleet.sound(),
                fleet.held().usable::<T>(),
                fleet.held().ring::<T>().spec == declared::<T>(),
                fleet.held().ring::<T>().serves(node.0),
                lane == fleet.held().ring::<T>().lanes[declared::<T>().lane_of(node.0)],
                head == lane.head,
                count == window(lane, T::RING_CAPACITY),
                seen == visible::<T>(lane, T::RING_CAPACITY),
                all@ == with_samples(samples@, seen.subrange(0, offset as int), replace),
            decreases count - offset,
        {
            let ghost prefix = seen.subrange(0, offset + 1);
            assert(prefix.drop_last() =~= seen.subrange(0, offset as int));
            let sample = sample_in::<T>(fleet.read_lane_at::<T>(node, head - 1 - offset));
            assert(sample == prefix.last());
            match sample {
                Some(sample) => {
                    add_sample(&mut all, sample, replace);
                },
                None => {},
            }
            offset = offset + 1;
        }
        assert(seen.subrange(0, seen.len() as int) =~= seen);
        all
    }
}

/// Adds one sample.
fn add_sample<T: OrbitMetricKeyedSnapshot>(
    samples: &mut Vec<OrbitMetricSample<T>>,
    sample: OrbitMetricSample<T>,
    replace: bool,
)
    ensures
        final(samples)@ == with_sample(old(samples)@, sample, replace),
{
    let key = sample.snapshot.metric_key();
    let found = find_key(samples, &key);
    match found {
        Some(place) => {
            if replace && sample_is_newer(&sample, &samples[place]) {
                samples.set(place, sample);
            }
        },
        None => {
            samples.push(sample);
        },
    }
}

/// Finds the sample of a key.
pub fn find_key<T: OrbitMetricKeyedSnapshot>(
    samples: &Vec<OrbitMetricSample<T>>,
    key: &T::Key,
) -> (place: Option<usize>)
    ensures
        match place {
            Some(place) => key_from(samples@, key@, 0) == Some(place as int) && place
                < samples@.len(),
            None => key_from(samples@, key@, 0) is None,
        },
{
    let mut index: usize = 0;
    while index < samples.len()
        invariant
            index <= samples@.len(),
            key_from(samples@, key@, 0) == key_from(samples@, key@, index as int),
        decreases samples@.len() - index,
    {
        let other = samples[index].snapshot.metric_key();
        if T::same_key(&other, key) {
            return Some(index);
        }
        index = index + 1;
    }
    None
}

fn holds_node<T: OrbitMetricSnapshot>(samples: &Vec<OrbitMetricSample<T>>, node: u16) -> (found:
    bool)
    ensures
        found == has_node(samples@, node),
{
    let mut index: usize = 0;
    while index < samples.len()
        invariant
            index <= samples@.len(),
            forall|i: int| 0 <= i < index ==> (#[trigger] samples@[i]).snapshot.node() != node,
        decreases samples@.len() - index,
    {
        if samples[index].node_id() == node {
            return true;
        }
        index = index + 1;
    }
    false
}

fn keep_fresh<T: OrbitMetricSnapshot>(
    samples: Vec<OrbitMetricSample<T>>,
    now: u64,
    max_age: u64,
) -> (fresh: Vec<OrbitMetricSample<T>>)
    ensures
        fresh@ == fresh_of(samples@, now, max_age),
{
    let ghost all = samples@;
    let mut rest: Vec<OrbitMetricSample<T>> = samples;
    let mut fresh: Vec<OrbitMetricSample<T>> = Vec::new();
    let ghost mut done: int = 0;
    assert(all.subrange(0, 0) =~= Seq::<OrbitMetricSample<T>>::empty());
    assert(all.subrange(0, all.len() as int) =~= all);
    while rest.len() > 0
        invariant
            0 <= done,
            rest@.len() + done == all.len(),
            rest@ == all.subrange(done, all.len() as int),
            fresh@ == fresh_of(all.subrange(0, done), now, max_age),
        decreases rest@.len(),
    {
        let ghost left = rest@;
        let sample = rest.remove(0);
        proof {
            let longer = all.subrange(0, done + 1);
            assert(longer.drop_last() =~= all.subrange(0, done));
            assert(longer.last() == sample);
            done = done + 1;
            assert(rest@ =~= all.subrange(done, all.len() as int));
        }
        if sample.is_fresh(now, max_age) {
            fresh.push(sample);
        }
    }
    assert(all.subrange(0, all.len() as int) =~= all);
    fresh
}

fn index_by_node<T: OrbitMetricSnapshot>(samples: Vec<OrbitMetricSample<T>>) -> (map: HashMap<
    u16,
    OrbitMetricSample<T>,
>)
    ensures
        map@ == by_node(samples@),
{
    let ghost all = samples@;
    let mut rest: Vec<OrbitMetricSample<T>> = samples;
    let mut map: HashMap<u16, OrbitMetricSample<T>> = HashMap::new();
    let ghost mut done: int = 0;
    assert(all.subrange(0, 0) =~= Seq::<OrbitMetricSample<T>>::empty());
    assert(all.subrange(0, all.len() as int) =~= all);
    while rest.len() > 0
        invariant
            0 <= done,
            rest@.len() + done == all.len(),
            rest@ == all.subrange(done, all.len() as int),
            map@ == by_node(all.subrange(0, done)),
        decreases rest@.len(),
    {
        let sample = rest.remove(0);
        proof {
            let longer = all.subrange(0, done + 1);
            assert(longer.drop_last() =~= all.subrange(0, done));
            assert(longer.last() == sample);
            done = done + 1;
            assert(rest@ =~= all.subrange(done, all.len() as int));
        }
        let node: u16 = sample.node_id();
        map.insert(node, sample);
    }
    assert(all.subrange(0, all.len() as int) =~= all);
    map
}

} // verus!
