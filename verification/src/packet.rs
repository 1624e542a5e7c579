//! What is recorded of a packet.
use vstd::prelude::*;

verus! {

/// The direction of a packet, seen from the client.
#[derive(Debug, Clone, Copy, PartialEq, Eq, Structural)]
pub enum Direction {
    Uplink,
    Downlink,
}

/// The recorded data of one packet.
#[derive(Debug)]
pub struct PacketMetadata {
    pub direction: Direction,
    pub size: u16,
    /// The time since the packet before it, in milliseconds: a double-precision
    /// pattern.
    pub iat_ms: u64,
    /// The first bytes of the packet.
    pub header_prefix: Vec<u8>,
    /// The entropy of the payload in bits per byte: a single-precision pattern.
    pub entropy: u32,
    /// Nanoseconds since the start of a clock.
    pub timestamp_ns: u64,
}

/// The model of a packet.
pub struct Packet {
    pub direction: Direction,
    pub size: u16,
    pub iat_ms: u64,
    pub header_prefix: Seq<u8>,
    pub entropy: u32,
    pub timestamp_ns: u64,
}

impl View for PacketMetadata {
    type V = Packet;

    open spec fn view(&self) -> Packet {
        Packet {
            direction: self.direction,
            size: self.size,
            iat_ms: self.iat_ms,
            header_prefix: self.header_prefix@,
            entropy: self.entropy,
            timestamp_ns: self.timestamp_ns,
        }
    }
}

/// The models of a sequence of packets.
pub open spec fn packet_models(packets: Seq<PacketMetadata>) -> Seq<Packet> {
    packets.map_values(|p: PacketMetadata| p@)
}

/// The packets of one direction, in order.
pub open spec fn heading(packets: Seq<Packet>, direction: Direction) -> Seq<Packet>
    decreases packets.len(),
{
    if packets.len() == 0 {
        Seq::empty()
    } else {
        let before = heading(packets.drop_last(), direction);
        if packets.last().direction == direction {
            before.push(packets.last())
        } else {
            before
        }
    }
}

/// The sizes of packets.
pub open spec fn sizes_of(packets: Seq<Packet>) -> Seq<u16> {
    packets.map_values(|p: Packet| p.size)
}

/// The inter-arrival times of packets.
pub open spec fn times_of(packets: Seq<Packet>) -> Seq<u64> {
    packets.map_values(|p: Packet| p.iat_ms)
}

/// The headers of packets.
pub open spec fn headers_of(packets: Seq<Packet>) -> Seq<Seq<u8>> {
    packets.map_values(|p: Packet| p.header_prefix)
}

/// The entropies of packets.
pub open spec fn entropies_of(packets: Seq<Packet>) -> Seq<u64> {
    packets.map_values(|p: Packet| p.entropy as u64)
}

/// The sizes and the inter-arrival times of the packets of one direction.
pub fn select(packets: &Vec<PacketMetadata>, direction: Direction) -> (r: (Vec<u16>, Vec<u64>))
    ensures
        r.0@ == sizes_of(heading(packet_models(packets@), direction)),
        r.1@ == times_of(heading(packet_models(packets@), direction)),
        r.0@.len() == r.1@.len(),
        r.0@.len() <= packets@.len(),
{
    let ghost models = packet_models(packets@);
    let mut sizes: Vec<u16> = Vec::new();
    let mut times: Vec<u64> = Vec::new();
    let mut i: usize = 0;
    assert(models.take(0) =~= Seq::<Packet>::empty());
    while i < packets.len()
        invariant
            i <= packets@.len(),
            models == packet_models(packets@),
            sizes@ == sizes_of(heading(models.take(i as int), direction)),
            times@ == times_of(heading(models.take(i as int), direction)),
            sizes@.len() == times@.len() <= i,
        decreases packets@.len() - i,
    {
        proof {
            let next = models.take(i + 1);
            assert(next.drop_last() =~= models.take(i as int));
            assert(next.last() == packets@[i as int]@);
            let before = heading(models.take(i as int), direction);
            assert(sizes_of(before.push(next.last())) =~= sizes_of(before).push(
                next.last().size,
            ));
            assert(times_of(before.push(next.last())) =~= times_of(before).push(
                next.last().iat_ms,
            ));
        }
        let p = &packets[i];
        if p.direction == direction {
            sizes.push(p.size);
            times.push(p.iat_ms);
        }
        i = i + 1;
    }
    assert(models.take(i as int) =~= models);
    (sizes, times)
}

/// The headers and the entropies of packets.
pub fn collect(packets: &Vec<PacketMetadata>) -> (r: (Vec<Vec<u8>>, Vec<u64>))
    ensures
        r.0@.map_values(|h: Vec<u8>| h@) == headers_of(packet_models(packets@)),
        r.1@ == entropies_of(packet_models(packets@)),
{
    let ghost models = packet_models(packets@);
    let mut headers: Vec<Vec<u8>> = Vec::new();
    let mut entropies: Vec<u64> = Vec::new();
    let mut i: usize = 0;
    while i < packets.len()
        invariant
            i <= packets@.len(),
            models == packet_models(packets@),
            headers@.len() == i,
            entropies@.len() == i,
            headers@.map_values(|h: Vec<u8>| h@) == headers_of(models).take(i as int),
            entropies@ == entropies_of(models).take(i as int),
        decreases packets@.len() - i,
    {
        let ghost before = headers@;
        let p = &packets[i];
        let header = crate::header::copy_bytes(&p.header_prefix);
        assert(models[i as int] == p@);
        headers.push(header);
        entropies.push(p.entropy as u64);
        assert(headers@.map_values(|h: Vec<u8>| h@) =~= before.map_values(
            |h: Vec<u8>| h@,
        ).push(header@));
        assert(headers@.map_values(|h: Vec<u8>| h@) =~= headers_of(models).take(i + 1));
        assert(entropies@ =~= entropies_of(models).take(i + 1));
        i = i + 1;
    }
    assert(headers@.map_values(|h: Vec<u8>| h@) =~= headers_of(models));
    assert(entropies@ =~= entropies_of(models));
    (headers, entropies)
}

/// The packets of one direction are those whose direction it is, in the order in which they
/// came, and every packet goes in one of the two directions.
pub proof fn law_directions_part_packets(packets: Seq<Packet>, direction: Direction)
    ensures
        heading(packets, direction) == packets.filter(|p: Packet| p.direction == direction),
        heading(packets, Direction::Uplink).len() + heading(packets, Direction::Downlink).len()
            == packets.len(),
    decreases packets.len(),
{
    reveal(Seq::filter);
    if packets.len() > 0 {
        law_directions_part_packets(packets.drop_last(), direction);
    }
}

/// What is measured of the packets is measured packet by packet, in their order.
pub proof fn law_measures_follow_packets(packets: Seq<Packet>, i: int)
    requires
        0 <= i < packets.len(),
    ensures
        sizes_of(packets).len() == packets.len() && sizes_of(packets)[i] == packets[i].size,
        times_of(packets).len() == packets.len() && times_of(packets)[i] == packets[i].iat_ms,
        headers_of(packets).len() == packets.len() && headers_of(packets)[i]
            == packets[i].header_prefix,
        entropies_of(packets).len() == packets.len() && entropies_of(packets)[i]
            == packets[i].entropy,
{
}

} // verus!
