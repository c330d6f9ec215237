//! The order in which queues of packets are interleaved, and what of them can
//! be read back.
use super::interleave::{earlier, is_next, lemma_earlier};
use crate::export::nut::header::opened;
use crate::export::nut::partial::{packet_taken, packets_survive_their_header, written_bytes};
use crate::export::nut::read::ReadingModel;
use crate::export::nut::round_trip::{header_fits, packet_fits, reads, what_is_written_is_read_back};
use crate::export::nut::write::{lanes, normal, Lane};
use crate::export::nut::{HeaderModel, PacketModel, MAX_FRAME};
use crate::probe::Rational;
use vstd::prelude::*;

verus! {

/// When the packets at the fronts of the queues are shown.
pub open spec fn fronts(queues: Seq<Seq<PacketModel>>) -> Seq<Option<i64>> {
    Seq::new(
        queues.len(),
        |i: int|
            if queues[i].len() == 0 {
                None
            } else {
                Some(queues[i][0].pts)
            },
    )
}

/// How many packets wait in the queues.
pub open spec fn waiting(queues: Seq<Seq<PacketModel>>) -> nat
    decreases queues.len(),
{
    if queues.len() == 0 {
        0
    } else {
        waiting(queues.drop_last()) + queues.last().len()
    }
}

/// The queues once the packet at the front of the `i`th has left.
pub open spec fn behind(queues: Seq<Seq<PacketModel>>, i: int) -> Seq<Seq<PacketModel>> {
    queues.update(i, queues[i].skip(1))
}

/// A packet that leaves no longer waits.
proof fn lemma_waiting(queues: Seq<Seq<PacketModel>>, i: int)
    requires
        0 <= i < queues.len(),
        queues[i].len() > 0,
    ensures
        waiting(behind(queues, i)) + 1 == waiting(queues),
    decreases queues.len(),
{
    if i == queues.len() - 1 {
        assert(behind(queues, i).drop_last() =~= queues.drop_last());
    } else {
        lemma_waiting(queues.drop_last(), i);
        assert(behind(queues, i).drop_last() =~= behind(queues.drop_last(), i));
        assert(behind(queues, i).last() == queues.last());
    }
}

/// The packets of all queues in the order they are written: always the one of
/// the fronts that is shown first.
pub open spec fn merged(queues: Seq<Seq<PacketModel>>, bases: Seq<Rational>) -> Seq<PacketModel>
    decreases waiting(queues),
    via merged_decreases
{
    if exists|i: int| is_next(fronts(queues), bases, i) {
        let i = choose|i: int| is_next(fronts(queues), bases, i);
        seq![queues[i][0]] + merged(behind(queues, i), bases)
    } else {
        Seq::empty()
    }
}

#[via_fn]
proof fn merged_decreases(queues: Seq<Seq<PacketModel>>, bases: Seq<Rational>) {
    if exists|i: int| is_next(fronts(queues), bases, i) {
        let i = choose|i: int| is_next(fronts(queues), bases, i);
        assert(fronts(queues)[i] is Some);
        lemma_waiting(queues, i);
    }
}

/// Only one packet is the next.
pub proof fn lemma_one_is_next(heads: Seq<Option<i64>>, bases: Seq<Rational>, i: int, j: int)
    requires
        is_next(heads, bases, i),
        is_next(heads, bases, j),
    ensures
        i == j,
{
    assert(heads[i] is Some && heads[j] is Some);
}

/// The packet that is the next is written first.
pub proof fn lemma_merged(queues: Seq<Seq<PacketModel>>, bases: Seq<Rational>, i: int)
    requires
        is_next(fronts(queues), bases, i),
    ensures
        merged(queues, bases) == seq![queues[i][0]] + merged(behind(queues, i), bases),
{
    let j = choose|j: int| is_next(fronts(queues), bases, j);
    lemma_one_is_next(fronts(queues), bases, i, j);
}

/// Of the first `count` streams, one is next as long as one has a packet.
proof fn lemma_next_of(heads: Seq<Option<i64>>, bases: Seq<Rational>, count: int)
    requires
        0 <= count <= heads.len() <= bases.len(),
        forall|i: int| 0 <= i < bases.len() ==> (#[trigger] bases[i]).positive(),
        exists|i: int| 0 <= i < count && (#[trigger] heads[i]) is Some,
    ensures
        exists|i: int| is_next(heads.take(count), bases, i),
    decreases count,
{
    let now = heads.take(count);
    let before = heads.take(count - 1);
    let last = count - 1;
    assert(now.drop_last() =~= before);
    if exists|i: int| 0 <= i < count - 1 && (#[trigger] heads[i]) is Some {
        lemma_next_of(heads, bases, count - 1);
        let b = choose|i: int| is_next(before, bases, i);
        assert(before[b] == now[b]);
        assert(bases[b].positive() && bases[last].positive());
        if heads[last] is Some && earlier(heads[last]->0, bases[last], heads[b]->0, bases[b]) {
            assert forall|j: int| 0 <= j < count && (#[trigger] now[j]) is Some implies {
                &&& !earlier(now[j]->0, bases[j], now[last]->0, bases[last])
                &&& j < last ==> earlier(now[last]->0, bases[last], now[j]->0, bases[j])
            } by {
                if j < last {
                    assert(before[j] == now[j]);
                    assert(bases[j].positive());
                    lemma_earlier(
                        now[last]->0,
                        bases[last],
                        now[b]->0,
                        bases[b],
                        now[j]->0,
                        bases[j],
                    );
                }
            }
            assert(is_next(now, bases, last));
        } else {
            assert forall|j: int| 0 <= j < count && (#[trigger] now[j]) is Some implies {
                &&& !earlier(now[j]->0, bases[j], now[b]->0, bases[b])
                &&& j < b ==> earlier(now[b]->0, bases[b], now[j]->0, bases[j])
            } by {
                if j < last {
                    assert(before[j] == now[j]);
                }
            }
            assert(is_next(now, bases, b));
        }
    } else {
        assert(heads[last] is Some);
        assert forall|j: int| 0 <= j < count && (#[trigger] now[j]) is Some implies j == last by {
            assert(heads[j] is Some);
        }
        assert(is_next(now, bases, last));
    }
}

/// As long as a packet waits, one is the next.
pub proof fn lemma_next(queues: Seq<Seq<PacketModel>>, bases: Seq<Rational>, i: int)
    requires
        queues.len() <= bases.len(),
        forall|i: int| 0 <= i < bases.len() ==> (#[trigger] bases[i]).positive(),
        0 <= i < queues.len(),
        queues[i].len() > 0,
    ensures
        exists|i: int| is_next(fronts(queues), bases, i),
{
    let heads = fronts(queues);
    assert(heads[i] is Some);
    lemma_next_of(heads, bases, heads.len() as int);
    assert(heads.take(heads.len() as int) =~= heads);
}

/// Every packet bears the number of the queue it waits in.
pub open spec fn labelled(queues: Seq<Seq<PacketModel>>) -> bool {
    forall|i: int, k: int|
        0 <= i < queues.len() && 0 <= k < queues[i].len() ==> (#[trigger] queues[i][k]).stream == i
}

/// The queues stay labelled.
pub proof fn lemma_labelled(queues: Seq<Seq<PacketModel>>, i: int)
    requires
        labelled(queues),
        0 <= i < queues.len(),
        queues[i].len() > 0,
    ensures
        labelled(behind(queues, i)),
{
    let later = behind(queues, i);
    assert forall|j: int, k: int| 0 <= j < later.len() && 0 <= k < later[j].len() implies (
    #[trigger] later[j][k]).stream == j by {
        if j == i {
            assert(later[j][k] == queues[i][k + 1]);
        } else {
            assert(later[j][k] == queues[j][k]);
        }
    }
}

/// The packets of one stream, in order.
pub open spec fn of_stream(packets: Seq<PacketModel>, stream: int) -> Seq<PacketModel>
    decreases packets.len(),
{
    if packets.len() == 0 {
        Seq::empty()
    } else if packets[0].stream == stream {
        seq![packets[0]] + of_stream(packets.skip(1), stream)
    } else {
        of_stream(packets.skip(1), stream)
    }
}

/// Nothing waits in empty queues.
pub proof fn lemma_nothing_waits(queues: Seq<Seq<PacketModel>>)
    requires
        forall|i: int| 0 <= i < queues.len() ==> (#[trigger] queues[i]).len() == 0,
    ensures
        waiting(queues) == 0,
    decreases queues.len(),
{
    if queues.len() > 0 {
        assert forall|i: int| 0 <= i < queues.drop_last().len() implies (
        #[trigger] queues.drop_last()[i]).len() == 0 by {
            assert(queues.drop_last()[i] == queues[i]);
        }
        lemma_nothing_waits(queues.drop_last());
    }
}

/// Interleaving loses, adds and reorders nothing within a stream: every packet
/// is written once, and those of a stream are its queue.
pub proof fn every_queue_comes_through(queues: Seq<Seq<PacketModel>>, bases: Seq<Rational>)
    requires
        queues.len() <= bases.len(),
        forall|i: int| 0 <= i < bases.len() ==> (#[trigger] bases[i]).positive(),
        labelled(queues),
    ensures
        merged(queues, bases).len() == waiting(queues),
        forall|i: int|
            0 <= i < queues.len() ==> #[trigger] of_stream(merged(queues, bases), i) == queues[i],
    decreases waiting(queues),
{
    let all = merged(queues, bases);
    if exists|i: int| is_next(fronts(queues), bases, i) {
        let i = choose|i: int| is_next(fronts(queues), bases, i);
        assert(fronts(queues)[i] is Some);
        let later = behind(queues, i);
        lemma_waiting(queues, i);
        lemma_labelled(queues, i);
        every_queue_comes_through(later, bases);
        assert(all.skip(1) =~= merged(later, bases));
        assert(all[0] == queues[i][0]);
        assert(queues[i][0].stream == i);
        assert forall|j: int| 0 <= j < queues.len() implies #[trigger] of_stream(all, j)
            == queues[j] by {
            assert(of_stream(merged(later, bases), j) == later[j]);
            if j == i {
                assert(seq![queues[i][0]] + queues[i].skip(1) =~= queues[i]);
            }
        }
    } else {
        assert forall|i: int| 0 <= i < queues.len() implies (#[trigger] queues[i]).len() == 0 by {
            if queues[i].len() > 0 {
                lemma_next(queues, bases, i);
            }
        }
        lemma_nothing_waits(queues);
        assert forall|i: int| 0 <= i < queues.len() implies #[trigger] of_stream(all, i)
            == queues[i] by {
            assert(queues[i] =~= Seq::empty());
        }
    }
}

/// Every packet that is written waited in a queue.
proof fn lemma_waited(queues: Seq<Seq<PacketModel>>, bases: Seq<Rational>, n: int)
    requires
        labelled(queues),
        0 <= n < merged(queues, bases).len(),
    ensures
        ({
            let packet = merged(queues, bases)[n];
            &&& 0 <= packet.stream < queues.len()
            &&& exists|k: int|
                0 <= k < queues[packet.stream].len() && #[trigger] queues[packet.stream][k]
                    == packet
        }),
    decreases waiting(queues),
{
    let i = choose|i: int| is_next(fronts(queues), bases, i);
    assert(fronts(queues)[i] is Some);
    let packet = merged(queues, bases)[n];
    assert(queues[i][0].stream == i);
    if n == 0 {
        assert(packet == queues[i][0]);
    } else {
        let later = behind(queues, i);
        lemma_waiting(queues, i);
        lemma_labelled(queues, i);
        lemma_waited(later, bases, n - 1);
        assert(packet == merged(later, bases)[n - 1]);
        let k = choose|k: int|
            0 <= k < later[packet.stream].len() && #[trigger] later[packet.stream][k] == packet;
        if packet.stream == i {
            assert(queues[i][k + 1] == packet);
        } else {
            assert(queues[packet.stream][k] == packet);
        }
    }
}

/// No packet of a queue is shown before the one in front of it.
pub open spec fn ascending(queues: Seq<Seq<PacketModel>>) -> bool {
    forall|i: int, j: int, k: int|
        0 <= i < queues.len() && 0 <= j <= k < queues[i].len() ==> (#[trigger] queues[i][j]).pts
            <= (#[trigger] queues[i][k]).pts
}

/// Of two packets the first is shown no later, and where both are shown at
/// once, it is of the earlier stream, or of the same.
pub open spec fn ordered(a: PacketModel, b: PacketModel, bases: Seq<Rational>) -> bool {
    &&& !earlier(b.pts, bases[b.stream], a.pts, bases[a.stream])
    &&& a.stream <= b.stream || earlier(a.pts, bases[a.stream], b.pts, bases[b.stream])
}

/// What is behind a packet of a stream in its queue is shown no sooner.
proof fn lemma_not_sooner(a: i64, b: i64, base: Rational)
    requires
        a <= b,
        base.positive(),
    ensures
        !earlier(b, base, a, base),
{
    assert(b * base.num * base.den >= a * base.num * base.den) by (nonlinear_arith)
        requires
            a <= b,
            base.num > 0,
            base.den > 0,
    {
        assert(a * base.num <= b * base.num);
        assert((a * base.num) * base.den <= (b * base.num) * base.den);
    }
}

/// Where every queue is in the order it is shown, so is everything that is
/// written, and of packets that are shown at once the one of the earlier stream
/// comes first.
pub proof fn packets_come_in_order(queues: Seq<Seq<PacketModel>>, bases: Seq<Rational>)
    requires
        queues.len() <= bases.len(),
        forall|i: int| 0 <= i < bases.len() ==> (#[trigger] bases[i]).positive(),
        labelled(queues),
        ascending(queues),
    ensures
        forall|m: int, n: int|
            0 <= m < n < merged(queues, bases).len() ==> ordered(
                #[trigger] merged(queues, bases)[m],
                #[trigger] merged(queues, bases)[n],
                bases,
            ),
    decreases waiting(queues),
{
    let all = merged(queues, bases);
    if exists|i: int| is_next(fronts(queues), bases, i) {
        let i = choose|i: int| is_next(fronts(queues), bases, i);
        let heads = fronts(queues);
        assert(heads[i] is Some);
        let later = behind(queues, i);
        lemma_waiting(queues, i);
        lemma_labelled(queues, i);
        assert forall|a: int, j: int, k: int|
            0 <= a < later.len() && 0 <= j <= k < later[a].len() implies (
        #[trigger] later[a][j]).pts <= (#[trigger] later[a][k]).pts by {
            if a == i {
                assert(later[a][j] == queues[i][j + 1]);
                assert(later[a][k] == queues[i][k + 1]);
            } else {
                assert(later[a][j] == queues[a][j]);
                assert(later[a][k] == queues[a][k]);
            }
        }
        packets_come_in_order(later, bases);
        let rest = merged(later, bases);
        assert(queues[i][0].stream == i);
        assert forall|m: int, n: int| 0 <= m < n < all.len() implies ordered(
            #[trigger] all[m],
            #[trigger] all[n],
            bases,
        ) by {
            assert(all[n] == rest[n - 1]);
            if m > 0 {
                assert(all[m] == rest[m - 1]);
            } else {
                let first = queues[i][0];
                let packet = all[n];
                lemma_waited(queues, bases, n);
                let j = packet.stream;
                let k = choose|k: int|
                    0 <= k < queues[j].len() && #[trigger] queues[j][k] == packet;
                let front = queues[j][0];
                assert(front.pts <= queues[j][k].pts);
                assert(heads[j] == Some(front.pts));
                assert(bases[i].positive() && bases[j].positive());
                lemma_not_sooner(front.pts, packet.pts, bases[j]);
                lemma_earlier(first.pts, bases[i], front.pts, bases[j], packet.pts, bases[j]);
            }
        }
    }
}

/// What comes back of interleaved queues. The stream that is written of them,
/// if it opens, gives their packets in the order they were taken, each with its
/// timestamp, its data and its mark as a key, and then nothing; those of every
/// stream are its queue. It opens, with the header it was given, wherever that
/// header fits the format and there is a packet.
pub proof fn interleaved_queues_come_back(
    header: HeaderModel,
    queues: Seq<Seq<PacketModel>>,
    bases: Seq<Rational>,
)
    requires
        queues.len() == header.streams.len() <= bases.len(),
        forall|i: int| 0 <= i < bases.len() ==> (#[trigger] bases[i]).positive(),
        labelled(queues),
        forall|i: int, k: int|
            0 <= i < queues.len() && 0 <= k < queues[i].len() ==> (#[trigger] queues[i][k]).pts >= 0
                && queues[i][k].data.len() <= MAX_FRAME,
        header.streams.len() + header.chapters.len() <= u64::MAX,
        written_bytes(header, merged(queues, bases)).len() <= u64::MAX,
    ensures
        forall|i: int|
            0 <= i < queues.len() ==> #[trigger] of_stream(merged(queues, bases), i) == queues[i],
        opened(written_bytes(header, merged(queues, bases))) matches Ok(there) ==> reads(
            ReadingModel { streams: there.header.streams, main: there.main },
            Seq::new(there.header.streams.len(), |i: int| 0i64),
            written_bytes(header, merged(queues, bases)),
            there.at,
            merged(queues, bases),
        ),
        header_fits(normal(header)) && waiting(queues) > 0 ==> (opened(
            written_bytes(header, merged(queues, bases)),
        ) matches Ok(there) && there.header == normal(header)),
{
    let packets = merged(queues, bases);
    every_queue_comes_through(queues, bases);
    assert forall|n: int| 0 <= n < packets.len() implies packet_taken(
        #[trigger] packets[n],
        header.streams.len() as int,
    ) && packets[n].data.len() <= MAX_FRAME by {
        lemma_waited(queues, bases, n);
        let stream = packets[n].stream;
        let k = choose|k: int|
            0 <= k < queues[stream].len() && #[trigger] queues[stream][k] == packets[n];
        assert(queues[stream][k].pts >= 0);
    }
    packets_survive_their_header(header, packets);
    let whole = normal(header);
    if header_fits(whole) && waiting(queues) > 0 {
        assert forall|n: int| 0 <= n < packets.len() implies packet_fits(
            #[trigger] packets[n],
            whole.streams,
        ) by {
            assert(packet_taken(packets[n], header.streams.len() as int));
        }
        assert(lanes(header) =~= Seq::new(
            whole.streams.len(),
            |i: int|
                Lane {
                    msb_pts_shift: whole.streams[i].msb_pts_shift,
                    time_base: whole.streams[i].time_base,
                },
        ));
        what_is_written_is_read_back(
            whole,
            packets,
            lanes(header),
            written_bytes(header, packets),
        );
    }
}

} // verus!
