//! How copied and encoded pictures are put together: what of a clip is
//! re-encoded, what a decoder is told at every join, and what is hashed.
use crate::bytes::pow256;
use crate::capability::VideoCodec;
use crate::export::nut::read::{next_at, ReadingModel};
use crate::export::nut::round_trip::reads;
use crate::export::nut::{PacketModel, StreamModel};
use crate::export::obu::{header_from, Unit};
use crate::export::plan::Segment;
use crate::export::seam::{
    avcc_units, behind_sets, configuration_sets, copied_from, copied_to, cut_at_head, cut_at_tail,
    framed, framing_of, is_set, open_at_tail, pieces_of, reframed, sets_for, Framing, Piece,
};
use crate::export::sps::{annex_b, lemma_low_five, lemma_low_six, pair_at, starts_annex_b};
use crate::export::verify::{
    all_hashed, boundary_of, codec_named, frames, length_size_of, lemma_prefixed_join, packets_from,
    prefixed, sha256_of, HashModel,
};
use vstd::prelude::*;

verus! {

/// A tick of a clip lies in a window that the plan re-encodes.
pub open spec fn in_a_window(segment: &Segment, tick: i64) -> bool {
    exists|i: int|
        0 <= i < segment.windows@.len() && (#[trigger] segment.windows@[i]).from <= tick
            < segment.windows@[i].to
}

/// A tick of a clip is copied.
pub open spec fn is_copied(pieces: Seq<Piece>, tick: i64) -> bool {
    exists|i: int|
        0 <= i < pieces.len() && (#[trigger] pieces[i] matches Piece::Remux { from, to, .. } && from
            <= tick < to)
}

/// A tick of a clip is re-encoded.
pub open spec fn is_recoded(pieces: Seq<Piece>, tick: i64) -> bool {
    exists|i: int|
        0 <= i < pieces.len() && (#[trigger] pieces[i] matches Piece::Recode { from, to } && from
            <= tick < to)
}

/// Only what the plan re-encodes is recoded, everything else of a clip is
/// copied, and nothing is both: a tick is recoded only within a window, and
/// copied wherever no window is.
pub proof fn only_windows_are_recoded(segment: &Segment, from: i64, to: i64, tick: i64)
    requires
        from <= tick < to,
        forall|i: int|
            0 <= i < segment.windows@.len() ==> from <= (#[trigger] segment.windows@[i]).from
                <= segment.windows@[i].to <= to,
        cut_at_head(segment) ==> segment.windows@.len() > 0 && segment.windows@[0].from == from,
        cut_at_tail(segment) ==> segment.windows@.len() > 0 && segment.windows@.last().to == to,
        cut_at_head(segment) && cut_at_tail(segment) && segment.windows@.len() > 1
            ==> segment.windows@[0].to <= segment.windows@.last().from,
    ensures
        is_recoded(pieces_of(segment, from, to), tick) ==> in_a_window(segment, tick),
        !in_a_window(segment, tick) ==> is_copied(pieces_of(segment, from, to), tick),
        !(is_recoded(pieces_of(segment, from, to), tick) && is_copied(
            pieces_of(segment, from, to),
            tick,
        )),
        is_recoded(pieces_of(segment, from, to), tick) || is_copied(
            pieces_of(segment, from, to),
            tick,
        ),
{
    let pieces = pieces_of(segment, from, to);
    let (start, end) = (copied_from(segment, from, to), copied_to(segment, from, to));
    let n = segment.windows@.len() as int;
    if n > 0 {
        assert(segment.windows@[0].from <= segment.windows@[0].to);
        assert(segment.windows@[n - 1].from <= segment.windows@[n - 1].to);
    }
    if start >= end || start >= to {
        assert(pieces[0] == Piece::Recode { from, to });
        assert(is_recoded(pieces, tick));
        if cut_at_head(segment) && tick < start {
            assert(segment.windows@[0].from <= tick < segment.windows@[0].to);
        } else {
            assert(segment.windows@[n - 1].from <= tick < segment.windows@[n - 1].to);
        }
    } else {
        let h: int = if cut_at_head(segment) {
            1
        } else {
            0
        };
        if cut_at_head(segment) {
            assert(pieces[0] == Piece::Recode { from, to: start });
        }
        assert(pieces[h] is Remux && pieces[h].start() == start && pieces[h].end() == end);
        if cut_at_tail(segment) || open_at_tail(segment) {
            assert(pieces[h + 1] == Piece::Recode { from: end, to });
        }
        if tick < start {
            assert(is_recoded(pieces, tick));
            assert(segment.windows@[0].from <= tick < segment.windows@[0].to);
        } else if tick < end {
            assert(is_copied(pieces, tick));
        } else {
            assert(is_recoded(pieces, tick));
            assert(segment.windows@[n - 1].from <= tick < segment.windows@[n - 1].to);
        }
    }
}

/// What is recoded behind a copy starts where the leading pictures of the
/// copy's last keyframe do: they are asked for exactly where a recoded piece
/// follows.
pub proof fn a_recoded_tail_waits_for_leading_pictures(
    segment: &Segment,
    from: i64,
    to: i64,
    i: int,
)
    requires
        0 <= i < pieces_of(segment, from, to).len(),
    ensures
        pieces_of(segment, from, to)[i] matches Piece::Remux { leading, .. } ==> (leading <==> i
            < pieces_of(segment, from, to).len() - 1),
{
}

/// Only parameter sets are left out of pictures: of H.264 units of the kinds
/// seven and eight, of HEVC those of the kinds 32 to 34. A unit of any other
/// kind, such as every slice, is none.
pub proof fn no_picture_is_a_parameter_set(codec: VideoCodec, unit: Seq<u8>)
    ensures
        codec == VideoCodec::H264 ==> (is_set(codec, unit) <==> unit.len() > 0 && (unit[0] & 0x1F
            == 7 || unit[0] & 0x1F == 8)),
        codec == VideoCodec::Hevc ==> (is_set(codec, unit) <==> unit.len() > 0 && 32 <= ((unit[0]
            >> 1) & 0x3F) <= 34),
        codec == VideoCodec::Vp9 || codec == VideoCodec::Av1 ==> !is_set(codec, unit),
        // A slice of any kind.
        codec == VideoCodec::H264 && unit.len() > 0 && 1 <= (unit[0] & 0x1F) <= 6 ==> !is_set(
            codec,
            unit,
        ),
        codec == VideoCodec::Hevc && unit.len() > 0 && ((unit[0] >> 1) & 0x3F) < 32 ==> !is_set(
            codec,
            unit,
        ),
{
    if unit.len() > 0 {
        lemma_low_five(unit[0]);
        lemma_low_six(unit[0]);
    }
}

/// Everything of a packet is hashed where nothing is known to be left out: of a
/// codec without parameter sets in its packets, and of a packet that cannot be
/// taken apart.
pub proof fn what_cannot_be_taken_apart_is_hashed_whole(
    codec: Option<VideoCodec>,
    framing: Option<usize>,
    data: Seq<u8>,
)
    ensures
        codec is None || codec == Some(VideoCodec::Vp9) ==> boundary_of(codec, framing, data)
            == data,
        (codec == Some(VideoCodec::H264) || codec == Some(VideoCodec::Hevc)) && framing is Some
            && prefixed(data, 0, framing->0 as int) is None ==> boundary_of(codec, framing, data)
            == data,
        codec == Some(VideoCodec::Av1) && crate::export::obu::units_at(data, 0) is None
            ==> boundary_of(codec, framing, data) == data,
{
}

/// Bytes, one run behind another.
pub open spec fn run_together(runs: Seq<Seq<u8>>) -> Seq<u8>
    decreases runs.len(),
{
    if runs.len() == 0 {
        Seq::empty()
    } else {
        runs[0] + run_together(runs.skip(1))
    }
}

/// Every unit of an AV1 packet is hashed but sequence headers and delimiters:
/// where there are none, all of it.
pub proof fn every_av1_frame_is_hashed(units: Seq<Unit>)
    requires
        forall|i: int|
            0 <= i < units.len() ==> (#[trigger] units[i]).kind != 1 && units[i].kind != 2,
    ensures
        frames(units) == run_together(Seq::new(units.len(), |i: int| units[i].bytes)),
    decreases units.len(),
{
    if units.len() > 0 {
        let rest = units.skip(1);
        assert forall|i: int| 0 <= i < rest.len() implies (#[trigger] rest[i]).kind != 1
            && rest[i].kind != 2 by {
            assert(rest[i] == units[i + 1]);
        }
        every_av1_frame_is_hashed(rest);
        let all = Seq::new(units.len(), |i: int| units[i].bytes);
        assert(all.skip(1) =~= Seq::new(rest.len(), |i: int| rest[i].bytes));
    }
}

/// Every packet of a stream is hashed, in order, each by its own boundary.
pub proof fn every_packet_is_hashed(
    reading: ReadingModel,
    last: Seq<i64>,
    s: Seq<u8>,
    at: int,
    packets: Seq<PacketModel>,
    stream: StreamModel,
    i: int,
)
    requires
        0 <= at <= s.len(),
        reads(reading, last, s, at, packets),
        0 <= i < packets.len(),
    ensures
        packets_from(reading, last, s, at) == Ok::<Seq<PacketModel>, crate::export::nut::Fault>(
            packets,
        ),
        all_hashed(stream, packets).len() == packets.len(),
        all_hashed(stream, packets)[i] == ({
            let codec = codec_named(stream.fourcc);
            HashModel {
                pts: packets[i].pts,
                key: packets[i].key,
                sha256: sha256_of(
                    boundary_of(codec, length_size_of(codec, stream.extradata), packets[i].data),
                ),
            }
        }),
{
    lemma_packets_from(reading, last, s, at, packets);
}

proof fn lemma_packets_from(
    reading: ReadingModel,
    last: Seq<i64>,
    s: Seq<u8>,
    at: int,
    packets: Seq<PacketModel>,
)
    requires
        0 <= at <= s.len(),
        reads(reading, last, s, at, packets),
    ensures
        packets_from(reading, last, s, at) == Ok::<Seq<PacketModel>, crate::export::nut::Fault>(
            packets,
        ),
    decreases packets.len(),
{
    crate::export::nut::pieces::lemma_next_ends(reading, last, s, at);
    let next = next_at(reading, last, s, at)->Ok_0;
    if packets.len() == 0 {
        assert(packets =~= Seq::empty());
    } else {
        lemma_packets_from(reading, next.last, s, next.at, packets.skip(1));
        assert(seq![packets[0]] + packets.skip(1) =~= packets);
    }
}

/// A decoder can follow across a join: what is sent behind parameter sets is
/// the sets and then the packet, of an AV1 packet unless it brings its own; a
/// VP9 stream has none.
pub proof fn a_join_carries_its_parameter_sets(codec: VideoCodec, sets: Seq<u8>, data: Seq<u8>)
    ensures
        ({
            let out = behind_sets(codec, sets, data);
            let told = codec == VideoCodec::H264 || codec == VideoCodec::Hevc || codec
                == VideoCodec::Av1 && !header_from(data, 0);
            &&& told ==> out.len() == sets.len() + data.len() && out.take(sets.len() as int)
                == sets && out.skip(sets.len() as int) == data
            &&& !told ==> out == data
        }),
{
    let out = behind_sets(codec, sets, data);
    let both = sets + data;
    assert(both.take(sets.len() as int) =~= sets);
    assert(both.skip(sets.len() as int) =~= data);
}

/// An encoded packet is framed as the stream it joins: read by the stream's
/// lengths, it has the units that it had behind start codes. One that has no
/// start code is left as it is.
pub proof fn a_seam_is_framed_as_its_stream(
    codec: VideoCodec,
    size: usize,
    data: Seq<u8>,
    other: Seq<u8>,
)
    requires
        codec == VideoCodec::H264 || codec == VideoCodec::Hevc,
        1 <= size <= 8,
        starts_annex_b(data),
        forall|i: int|
            0 <= i < annex_b(data).len() ==> (#[trigger] annex_b(data)[i]).len() < pow256(
                size as nat,
            ),
    ensures
        prefixed(reframed(codec, Framing::Length(size), data), 0, size as int) == Some(
            annex_b(data),
        ),
        !starts_annex_b(other) ==> reframed(codec, Framing::Length(size), other) == other,
{
    let units = annex_b(data);
    let out = framed(Framing::Length(size), units);
    let none = Seq::<u8>::empty();
    assert(none + out + none =~= out);
    assert(none + out =~= out);
    lemma_prefixed_join(units, size, none, none);
    assert(units + Seq::<Seq<u8>>::empty() =~= units);
}

/// The sets that are sent of a configuration are all of its sets: read by the
/// stream's lengths, they are what the configuration carries.
pub proof fn every_set_is_sent(codec: VideoCodec, size: usize, record: Seq<u8>)
    requires
        codec == VideoCodec::H264 || codec == VideoCodec::Hevc,
        1 <= size <= 8,
        forall|i: int|
            0 <= i < configuration_sets(codec, record).len() ==> (
            #[trigger] configuration_sets(codec, record)[i]).len() < pow256(size as nat),
    ensures
        prefixed(sets_for(codec, Framing::Length(size), record), 0, size as int) == Some(
            configuration_sets(codec, record),
        ),
{
    let units = configuration_sets(codec, record);
    let out = framed(Framing::Length(size), units);
    let none = Seq::<u8>::empty();
    assert(none + out + none =~= out);
    assert(none + out =~= out);
    lemma_prefixed_join(units, size, none, none);
    assert(units + Seq::<Seq<u8>>::empty() =~= units);
}

/// A unit of a record behind its length of two bytes.
pub open spec fn entry(unit: Seq<u8>) -> Seq<u8> {
    seq![(unit.len() / 256) as u8, (unit.len() % 256) as u8] + unit
}

/// An `avcC` record gives its parameter sets: the sequence's and the picture's,
/// each whole, in order.
pub proof fn an_avcc_record_gives_its_sets(head: Seq<u8>, count: u8, sps: Seq<u8>, pps: Seq<u8>)
    requires
        head.len() == 5,
        head[0] == 1,
        count % 32 == 1,
        sps.len() <= 0xffff,
        pps.len() <= 0xffff,
    ensures
        configuration_sets(
            VideoCodec::H264,
            head + seq![count] + entry(sps) + seq![1u8] + entry(pps),
        ) == seq![sps, pps],
        framing_of(
            VideoCodec::H264,
            head + seq![count] + entry(sps) + seq![1u8] + entry(pps),
        ) == Framing::Length((head[4] % 4 + 1) as usize),
{
    let record = head + seq![count] + entry(sps) + seq![1u8] + entry(pps);
    let (m, n) = (sps.len() as int, pps.len() as int);
    assert(record[0] == 1 && record[4] == head[4]);
    assert(record[5] == count);
    assert(record[6] == (m / 256) as u8 && record[7] == (m % 256) as u8);
    assert(pair_at(record, 6) == m);
    assert(record.subrange(8, 8 + m) =~= sps);
    let at = 8 + m;
    assert(record[at] == 1);
    assert(record[at + 1] == (n / 256) as u8 && record[at + 2] == (n % 256) as u8);
    assert(pair_at(record, at + 1) == n);
    assert(record.subrange(at + 3, at + 3 + n) =~= pps);
    reveal_with_fuel(avcc_units, 6);
    let end = at + 3 + n;
    assert(end == record.len());
    assert(avcc_units(record, end, 0, 0) == Seq::<Seq<u8>>::empty());
    assert(avcc_units(record, at + 1, 1, 0) =~= seq![pps]);
    assert(avcc_units(record, at, 0, 1) == avcc_units(record, at + 1, 1, 0));
    assert(avcc_units(record, 6, 1, 1) =~= seq![sps, pps]);
    assert(avcc_units(record, 5, 0, 2) == avcc_units(record, 6, 1, 1));
}

} // verus!
