//! Recordings of traffic: which sessions are recorded, and what was recorded of them.
use crate::arrivals::{mean, mean_f64};
use crate::ieee::widen;
use crate::packet::{
    heading, law_directions_part_packets, packet_models, Direction, Packet, PacketMetadata,
};
use crate::selftest::wide_entropies;
use crate::soft_float::DOUBLE;
use dashmap::DashMap;
use vstd::prelude::*;

verus! {

/// The smallest number of packets of a recording that can be used.
pub const MIN_RECORDING_PACKETS: u64 = 500;

/// The smallest duration of a recording that can be used, in seconds.
pub const MIN_RECORDING_DURATION_SECS: u64 = 60;

/// The recording of one session.
#[derive(Debug)]
pub struct RecordingSession {
    pub session_id: [u8; 16],
    /// The service that is being used.
    pub service: String,
    /// The key of the administrator who asked for the recording.
    pub admin_key_id: String,
    /// Seconds since the epoch.
    pub started_at: u64,
    pub packets: Vec<PacketMetadata>,
}

/// The model of a recording.
pub struct Recording {
    pub session_id: Seq<u8>,
    pub service: Seq<char>,
    pub admin_key_id: Seq<char>,
    pub started_at: u64,
    pub packets: Seq<Packet>,
}

impl View for RecordingSession {
    type V = Recording;

    open spec fn view(&self) -> Recording {
        Recording {
            session_id: self.session_id@,
            service: self.service@,
            admin_key_id: self.admin_key_id@,
            started_at: self.started_at,
            packets: packet_models(self.packets@),
        }
    }
}

/// The state of a recording.
#[derive(Debug)]
pub struct RecordingStatus {
    pub service: String,
    pub total_packets: u64,
    pub duration_secs: u64,
    pub uplink_count: u64,
    pub downlink_count: u64,
    /// The mean entropy of the packets: a double-precision pattern.
    pub mean_entropy: u64,
}

/// The model of the state of a recording.
pub struct Status {
    pub service: Seq<char>,
    pub total_packets: nat,
    pub duration_secs: nat,
    pub uplink_count: nat,
    pub downlink_count: nat,
    pub mean_entropy: nat,
}

impl View for RecordingStatus {
    type V = Status;

    open spec fn view(&self) -> Status {
        Status {
            service: self.service@,
            total_packets: self.total_packets as nat,
            duration_secs: self.duration_secs as nat,
            uplink_count: self.uplink_count as nat,
            downlink_count: self.downlink_count as nat,
            mean_entropy: self.mean_entropy as nat,
        }
    }
}

impl Clone for RecordingStatus {
    fn clone(&self) -> (r: Self)
        ensures
            r@ == self@,
    {
        RecordingStatus {
            service: self.service.clone(),
            total_packets: self.total_packets,
            duration_secs: self.duration_secs,
            uplink_count: self.uplink_count,
            downlink_count: self.downlink_count,
            mean_entropy: self.mean_entropy,
        }
    }
}

/// The seconds for which a recording has been running; none where the clock was set
/// back.
pub open spec fn running_secs(started_at: u64, now: u64) -> nat {
    if now >= started_at {
        (now - started_at) as nat
    } else {
        0
    }
}

/// A recording that is long enough to be used.
pub open spec fn is_enough(recording: Recording, now: u64) -> bool {
    &&& recording.packets.len() >= MIN_RECORDING_PACKETS
    &&& running_secs(recording.started_at, now) >= MIN_RECORDING_DURATION_SECS
}

/// The state of a recording.
pub open spec fn status_of(recording: Recording, now: u64) -> Status {
    Status {
        service: recording.service,
        total_packets: recording.packets.len(),
        duration_secs: running_secs(recording.started_at, now),
        uplink_count: heading(recording.packets, Direction::Uplink).len(),
        downlink_count: heading(recording.packets, Direction::Downlink).len(),
        mean_entropy: mean(DOUBLE as nat, wide_entropies(recording.packets)),
    }
}

/// A recording with one more packet.
pub open spec fn extended(recording: Recording, packet: Packet) -> Recording {
    Recording { packets: recording.packets.push(packet), ..recording }
}

impl RecordingSession {
    /// A recording that starts now.
    pub fn new(session_id: [u8; 16], service: String, admin_key_id: String, now: u64) -> (r: Self)
        ensures
            r@ == (Recording {
                session_id: session_id@,
                service: service@,
                admin_key_id: admin_key_id@,
                started_at: now,
                packets: Seq::empty(),
            }),
    {
        let r = RecordingSession {
            session_id,
            service,
            admin_key_id,
            started_at: now,
            packets: Vec::new(),
        };
        assert(r@.packets =~= Seq::<Packet>::empty());
        r
    }

    /// Adds a packet.
    pub fn record(&mut self, meta: PacketMetadata)
        ensures
            final(self)@ == extended(old(self)@, meta@),
    {
        let ghost before = self.packets@;
        self.packets.push(meta);
        assert(packet_models(self.packets@) =~= packet_models(before).push(meta@));
    }

    /// The seconds for which the recording has been running.
    pub fn duration_secs(&self, now: u64) -> (r: u64)
        ensures
            r == running_secs(self.started_at, now),
    {
        if now >= self.started_at {
            now - self.started_at
        } else {
            0
        }
    }

    /// Tests whether the recording is long enough to be used.
    pub fn has_enough_data(&self, now: u64) -> (r: bool)
        ensures
            r == is_enough(self@, now),
            r == (self@.packets.len() >= 500 && now >= self@.started_at + 60),
    {
        self.packets.len() as u64 >= MIN_RECORDING_PACKETS && self.duration_secs(now)
            >= MIN_RECORDING_DURATION_SECS
    }

    /// The state of the recording.
    pub fn status(&self, now: u64) -> (r: RecordingStatus)
        ensures
            r@ == status_of(self@, now),
    {
        let ghost models = packet_models(self.packets@);
        let mut uplink_count: u64 = 0;
        let mut downlink_count: u64 = 0;
        let mut wide: Vec<u64> = Vec::new();
        let mut i: usize = 0;
        assert(models.take(0) =~= Seq::<Packet>::empty());
        while i < self.packets.len()
            invariant
                i <= self.packets@.len(),
                models == packet_models(self.packets@),
                uplink_count <= i,
                downlink_count <= i,
                uplink_count == heading(models.take(i as int), Direction::Uplink).len(),
                downlink_count == heading(models.take(i as int), Direction::Downlink).len(),
                wide@ == wide_entropies(models.take(i as int)),
            decreases self.packets@.len() - i,
        {
            let p = &self.packets[i];
            proof {
                let next = models.take(i + 1);
                assert(next.drop_last() =~= models.take(i as int));
                assert(next.last() == p@);
            }
            match p.direction {
                Direction::Uplink => {
                    uplink_count = uplink_count + 1;
                },
                Direction::Downlink => {
                    downlink_count = downlink_count + 1;
                },
            }
            wide.push(widen(p.entropy));
            assert(wide@ =~= wide_entropies(models.take(i + 1)));
            i = i + 1;
        }
        assert(models.take(i as int) =~= models);
        RecordingStatus {
            service: self.service.clone(),
            total_packets: self.packets.len() as u64,
            duration_secs: self.duration_secs(now),
            uplink_count,
            downlink_count,
            mean_entropy: mean_f64(&wide),
        }
    }
}

/// The concurrent map of the `dashmap` crate.
#[verifier::external_type_specification]
#[verifier::external_body]
#[verifier::reject_recursive_types(K)]
#[verifier::reject_recursive_types(V)]
#[verifier::reject_recursive_types(S)]
pub struct ExDashMap<K, V, S>(DashMap<K, V, S>);

/// The recordings that a map holds, by session.
pub uninterp spec fn recordings(map: DashMap<[u8; 16], RecordingSession>) -> Map<
    Seq<u8>,
    Recording,
>;

/// No recordings at all.
pub open spec fn no_recordings() -> Map<Seq<u8>, Recording> {
    Map::empty()
}

/// Calls `DashMap::new`: a map that holds nothing.
#[verifier::external_body]
fn empty_map() -> (r: DashMap<[u8; 16], RecordingSession>)
    ensures
        recordings(r) == no_recordings(),
{
    DashMap::new()
}

/// Calls `DashMap::insert`: the key then has the value, in place of any it had before.
/// No reference into the map is held meanwhile.
#[verifier::external_body]
fn put(map: &mut DashMap<[u8; 16], RecordingSession>, key: [u8; 16], session: RecordingSession)
    ensures
        recordings(*final(map)) == recordings(*old(map)).insert(key@, session@),
{
    map.insert(key, session);
}

/// Calls `DashMap::remove`: hands out the value of the key, which then has none; where
/// it has none, nothing changes. No reference into the map is held meanwhile.
#[verifier::external_body]
fn take(map: &mut DashMap<[u8; 16], RecordingSession>, key: &[u8; 16]) -> (r: Option<
    RecordingSession,
>)
    ensures
        r matches Some(session) ==> recordings(*old(map)).contains_key(key@) && session@
            == recordings(*old(map))[key@],
        r is None ==> !recordings(*old(map)).contains_key(key@),
        recordings(*final(map)) == recordings(*old(map)).remove(key@),
{
    map.remove(key).map(|entry| entry.1)
}

/// Calls `DashMap::contains_key`.
#[verifier::external_body]
fn has(map: &DashMap<[u8; 16], RecordingSession>, key: &[u8; 16]) -> (r: bool)
    ensures
        r == recordings(*map).contains_key(key@),
{
    map.contains_key(key)
}

/// Calls `DashMap::view`, which applies a function to the value of the key; here the
/// function is [`RecordingSession::status`].
#[verifier::external_body]
fn look(map: &DashMap<[u8; 16], RecordingSession>, key: &[u8; 16], now: u64) -> (r: Option<
    RecordingStatus,
>)
    ensures
        r matches Some(status) ==> recordings(*map).contains_key(key@) && status@ == status_of(
            recordings(*map)[key@],
            now,
        ),
        r is None ==> !recordings(*map).contains_key(key@),
{
    map.view(key, |_, session| session.status(now))
}

/// Calls `DashMap::iter` and hands out the keys: each key of the map once, in no
/// particular order.
#[verifier::external_body]
fn keys(map: &DashMap<[u8; 16], RecordingSession>) -> (r: Vec<[u8; 16]>)
    ensures
        forall|key: Seq<u8>| #[trigger]
            recordings(*map).contains_key(key) <==> exists|i: int|
                0 <= i < r@.len() && (#[trigger] r@[i])@ == key,
        forall|i: int, j: int| 0 <= i < j < r@.len() ==> (#[trigger] r@[i])@ != (#[trigger] r@[j])@,
{
    map.iter().map(|entry| *entry.key()).collect()
}

/// The recordings that are running.
pub struct RecordingManager {
    active: DashMap<[u8; 16], RecordingSession>,
}

impl View for RecordingManager {
    type V = Map<Seq<u8>, Recording>;

    closed spec fn view(&self) -> Map<Seq<u8>, Recording> {
        recordings(self.active)
    }
}

/// The recording that starts for a session.
pub open spec fn fresh_recording(
    session_id: Seq<u8>,
    service: Seq<char>,
    admin_key_id: Seq<char>,
    now: u64,
) -> Recording {
    Recording { session_id, service, admin_key_id, started_at: now, packets: Seq::empty() }
}

/// The recordings after one more packet of a session; a packet of a session that is not
/// recorded is dropped.
pub open spec fn with_packet(
    active: Map<Seq<u8>, Recording>,
    session_id: Seq<u8>,
    packet: Packet,
) -> Map<Seq<u8>, Recording> {
    if active.contains_key(session_id) {
        active.insert(session_id, extended(active[session_id], packet))
    } else {
        active
    }
}

impl RecordingManager {
    /// A manager without recordings.
    pub fn new() -> (r: Self)
        ensures
            r@ == no_recordings(),
    {
        RecordingManager { active: empty_map() }
    }

    /// Starts the recording of a session. A recording of it that is running is dropped.
    pub fn start(
        &mut self,
        session_id: [u8; 16],
        service: String,
        admin_key_id: String,
        now: u64,
    )
        ensures
            final(self)@ == old(self)@.insert(
                session_id@,
                fresh_recording(session_id@, service@, admin_key_id@, now),
            ),
    {
        let session = RecordingSession::new(session_id, service, admin_key_id, now);
        put(&mut self.active, session_id, session);
    }

    /// Records a packet of a session.
    pub fn record_packet(&mut self, session_id: [u8; 16], meta: PacketMetadata)
        ensures
            final(self)@ == with_packet(old(self)@, session_id@, meta@),
    {
        let ghost before = self@;
        match take(&mut self.active, &session_id) {
            Some(mut session) => {
                session.record(meta);
                put(&mut self.active, session_id, session);
                assert(self@ =~= with_packet(before, session_id@, meta@));
            },
            None => {
                assert(self@ =~= before);
            },
        }
    }

    /// Stops the recording of a session. Hands out the service and the packets if the
    /// session was recorded and the recording is long enough.
    pub fn stop(&mut self, session_id: [u8; 16], now: u64) -> (r: Option<
        (String, Vec<PacketMetadata>),
    >)
        ensures
            final(self)@ == old(self)@.remove(session_id@),
            r is Some <==> old(self)@.contains_key(session_id@) && is_enough(
                old(self)@[session_id@],
                now,
            ),
            r is Some <==> old(self)@.contains_key(session_id@)
                && old(self)@[session_id@].packets.len() >= 500 && now
                >= old(self)@[session_id@].started_at + 60,
            r matches Some(done) ==> done.0@ == old(self)@[session_id@].service && packet_models(
                done.1@,
            ) == old(self)@[session_id@].packets,
    {
        match take(&mut self.active, &session_id) {
            Some(session) => {
                if session.has_enough_data(now) {
                    Some((session.service, session.packets))
                } else {
                    None
                }
            },
            None => None,
        }
    }

    /// Tests whether a session is being recorded.
    pub fn is_recording(&self, session_id: &[u8; 16]) -> (r: bool)
        ensures
            r == self@.contains_key(session_id@),
    {
        has(&self.active, session_id)
    }

    /// The state of the recording of a session.
    pub fn status(&self, session_id: &[u8; 16], now: u64) -> (r: Option<RecordingStatus>)
        ensures
            r is Some <==> self@.contains_key(session_id@),
            r matches Some(status) ==> status@ == status_of(self@[session_id@], now),
    {
        look(&self.active, session_id, now)
    }

    /// The sessions that are being recorded, each once, in no particular order.
    pub fn active_sessions(&self) -> (r: Vec<[u8; 16]>)
        ensures
            forall|key: Seq<u8>| #[trigger]
                self@.contains_key(key) <==> exists|i: int|
                    0 <= i < r@.len() && (#[trigger] r@[i])@ == key,
            forall|i: int, j: int|
                0 <= i < j < r@.len() ==> (#[trigger] r@[i])@ != (#[trigger] r@[j])@,
    {
        keys(&self.active)
    }
}

/// The recordings after several packets of a session.
pub open spec fn with_packets(
    active: Map<Seq<u8>, Recording>,
    session_id: Seq<u8>,
    packets: Seq<Packet>,
) -> Map<Seq<u8>, Recording>
    decreases packets.len(),
{
    if packets.len() == 0 {
        active
    } else {
        with_packet(
            with_packets(active, session_id, packets.drop_last()),
            session_id,
            packets.last(),
        )
    }
}

/// What is recorded between the start and the stop of a session is exactly what was
/// handed in, in order, and the recordings of other sessions stay as they are.
pub proof fn law_recording_keeps_packets(
    active: Map<Seq<u8>, Recording>,
    session_id: Seq<u8>,
    fresh: Recording,
    packets: Seq<Packet>,
    other: Seq<u8>,
)
    requires
        fresh.packets.len() == 0,
        other != session_id,
    ensures
        ({
            let after = with_packets(active.insert(session_id, fresh), session_id, packets);
            &&& after.contains_key(session_id)
            &&& after[session_id] == Recording { packets, ..fresh }
            &&& after.contains_key(other) == active.contains_key(other)
            &&& active.contains_key(other) ==> after[other] == active[other]
        }),
    decreases packets.len(),
{
    let started = active.insert(session_id, fresh);
    if packets.len() == 0 {
        assert(fresh.packets =~= packets);
    } else {
        let front = packets.drop_last();
        law_recording_keeps_packets(active, session_id, fresh, front, other);
        let before = with_packets(started, session_id, front);
        assert(before[session_id].packets == front);
        assert(front.push(packets.last()) =~= packets);
    }
}

/// Packets of a session that is not recorded leave no trace.
pub proof fn law_unrecorded_packets_are_dropped(
    active: Map<Seq<u8>, Recording>,
    session_id: Seq<u8>,
    packets: Seq<Packet>,
)
    requires
        !active.contains_key(session_id),
    ensures
        with_packets(active, session_id, packets) == active,
    decreases packets.len(),
{
    if packets.len() > 0 {
        law_unrecorded_packets_are_dropped(active, session_id, packets.drop_last());
    }
}

/// A recording can be used exactly if it holds five hundred packets or more and at least a
/// minute has passed since its start.
pub proof fn law_enough_is_500_packets_in_a_minute(recording: Recording, now: u64)
    ensures
        is_enough(recording, now) <==> recording.packets.len() >= 500 && now - recording.started_at
            >= 60,
{
}

/// A recording that can be used stays so, whatever else is recorded and however much later
/// it is stopped.
pub proof fn law_enough_stays_enough(
    recording: Recording,
    more: Seq<Packet>,
    now: u64,
    later: u64,
)
    requires
        is_enough(recording, now),
        now <= later,
    ensures
        is_enough(Recording { packets: recording.packets + more, ..recording }, later),
{
}

/// A session that is started, of which five hundred packets or more are recorded, and that
/// is stopped a minute or more later, gives a recording that can be used: it names the
/// service of the start and holds the packets, all of them and in order.
pub proof fn law_long_recordings_are_handed_over(
    active: Map<Seq<u8>, Recording>,
    session_id: Seq<u8>,
    service: Seq<char>,
    admin_key_id: Seq<char>,
    started: u64,
    packets: Seq<Packet>,
    now: u64,
)
    requires
        packets.len() >= 500,
        now >= started + 60,
    ensures
        ({
            let fresh = fresh_recording(session_id, service, admin_key_id, started);
            let after = with_packets(active.insert(session_id, fresh), session_id, packets);
            &&& after.contains_key(session_id)
            &&& is_enough(after[session_id], now)
            &&& after[session_id].service == service
            &&& after[session_id].packets == packets
            &&& after[session_id].started_at == started
        }),
{
    let fresh = fresh_recording(session_id, service, admin_key_id, started);
    let other = session_id.push(0);
    assert(other.len() != session_id.len());
    law_recording_keeps_packets(active, session_id, fresh, packets, other);
}

/// The state of a recording counts every packet once, by its direction, and the seconds
/// since the start; a clock that was set back counts as none.
pub proof fn law_status_counts_packets(recording: Recording, now: u64)
    ensures
        ({
            let status = status_of(recording, now);
            &&& status.service == recording.service
            &&& status.total_packets == recording.packets.len()
            &&& status.uplink_count == recording.packets.filter(
                |p: Packet| p.direction == Direction::Uplink,
            ).len()
            &&& status.downlink_count == recording.packets.filter(
                |p: Packet| p.direction == Direction::Downlink,
            ).len()
            &&& status.uplink_count + status.downlink_count == status.total_packets
            &&& now >= recording.started_at ==> status.duration_secs == now - recording.started_at
            &&& now < recording.started_at ==> status.duration_secs == 0
        }),
{
    law_directions_part_packets(recording.packets, Direction::Uplink);
    law_directions_part_packets(recording.packets, Direction::Downlink);
}

} // verus!
