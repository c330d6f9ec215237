//! A stream that grows packet by packet.
use super::partial::written_bytes;
use super::read::sum;
use super::round_trip::{all_packets, one_packet};
use super::write::{all_bases, gathered, header_bytes, lanes, normal, Lane, Writer};
use super::{HeaderModel, PacketModel};
use crate::probe::Rational;
use vstd::prelude::*;

verus! {

/// How many bytes a writer has written once it has written `packets`, and where
/// its last syncpoint is.
pub open spec fn marks(
    packets: Seq<PacketModel>,
    streams: Seq<Lane>,
    bases: Seq<Rational>,
    written: int,
    last_syncpoint: int,
) -> (int, int)
    decreases packets.len(),
{
    if packets.len() == 0 {
        (written, last_syncpoint)
    } else {
        let bytes = one_packet(
            packets[0],
            streams[packets[0].stream],
            bases,
            written - last_syncpoint,
        );
        marks(packets.skip(1), streams, bases, sum(written, bytes.len() as int), written)
    }
}

/// Another packet stands behind those written before it.
proof fn lemma_one_more(
    packets: Seq<PacketModel>,
    packet: PacketModel,
    streams: Seq<Lane>,
    bases: Seq<Rational>,
    written: int,
    last_syncpoint: int,
)
    ensures
        ({
            let (so_far, syncpoint) = marks(packets, streams, bases, written, last_syncpoint);
            let bytes = one_packet(packet, streams[packet.stream], bases, so_far - syncpoint);
            &&& all_packets(packets.push(packet), streams, bases, written, last_syncpoint)
                == all_packets(packets, streams, bases, written, last_syncpoint) + bytes
            &&& marks(packets.push(packet), streams, bases, written, last_syncpoint) == (
                sum(so_far, bytes.len() as int),
                so_far,
            )
        }),
    decreases packets.len(),
{
    let longer = packets.push(packet);
    if packets.len() == 0 {
        let bytes = one_packet(packet, streams[packet.stream], bases, written - last_syncpoint);
        let more = sum(written, bytes.len() as int);
        assert(longer[0] == packet);
        assert(longer.skip(1).len() == 0);
        assert(marks(longer.skip(1), streams, bases, more, written) == (more, written));
        assert(bytes + all_packets(longer.skip(1), streams, bases, more, written) =~= bytes);
        assert(Seq::<u8>::empty() + bytes =~= bytes);
    } else {
        let first = one_packet(
            packets[0],
            streams[packets[0].stream],
            bases,
            written - last_syncpoint,
        );
        let more = sum(written, first.len() as int);
        assert(longer[0] == packets[0]);
        assert(longer.skip(1) =~= packets.skip(1).push(packet));
        lemma_one_more(packets.skip(1), packet, streams, bases, more, written);
        let (so_far, syncpoint) = marks(packets, streams, bases, written, last_syncpoint);
        let bytes = one_packet(packet, streams[packet.stream], bases, so_far - syncpoint);
        let rest = all_packets(packets.skip(1), streams, bases, more, written);
        assert(first + (rest + bytes) =~= (first + rest) + bytes);
    }
}

/// What a writer handed over, and what it holds, is `header` and then
/// `packets`; and it goes on from there.
pub open spec fn wrote(
    writer: Writer,
    handed: Seq<u8>,
    header: HeaderModel,
    packets: Seq<PacketModel>,
) -> bool {
    let bases = gathered(all_bases(normal(header)));
    &&& handed + writer.output@ == written_bytes(header, packets)
    &&& writer.streams@ == lanes(header)
    &&& writer.time_bases@ == bases
    &&& (writer.written as int, writer.last_syncpoint as int) == marks(
        packets,
        lanes(header),
        bases,
        header_bytes(normal(header)).len() as int,
        0,
    )
}

/// One packet more was written: its bytes stand behind the others, and the
/// writer goes on behind them.
pub open spec fn added(before: Writer, packet: PacketModel, after: Writer) -> bool {
    let bytes = one_packet(
        packet,
        before.streams@[packet.stream],
        before.time_bases@,
        before.written - before.last_syncpoint,
    );
    &&& after.streams == before.streams
    &&& after.time_bases == before.time_bases
    &&& after.output@ == before.output@ + bytes
    &&& after.written == sum(before.written as int, bytes.len() as int)
    &&& after.last_syncpoint == before.written
}

/// A stream to which a packet is added is the stream of all its packets: what
/// was written packet by packet is what is written of all of them.
pub proof fn a_packet_is_added(
    before: Writer,
    after: Writer,
    handed: Seq<u8>,
    header: HeaderModel,
    packets: Seq<PacketModel>,
    packet: PacketModel,
)
    requires
        wrote(before, handed, header, packets),
        added(before, packet, after),
    ensures
        wrote(after, handed, header, packets.push(packet)),
{
    let streams = lanes(header);
    let bases = gathered(all_bases(normal(header)));
    let head = header_bytes(normal(header));
    let start = head.len() as int;
    lemma_one_more(packets, packet, streams, bases, start, 0);
    let (so_far, syncpoint) = marks(packets, streams, bases, start, 0);
    let bytes = one_packet(packet, streams[packet.stream], bases, so_far - syncpoint);
    let body = all_packets(packets, streams, bases, start, 0);
    assert(handed + (before.output@ + bytes) =~= (handed + before.output@) + bytes);
    assert((head + body) + bytes =~= head + (body + bytes));
}

} // verus!
