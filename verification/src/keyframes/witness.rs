//! What an index says was read, and what it answers is what was asked.
use crate::keyframes::coverage::{covers, ordered, total_within};
use crate::keyframes::nal::{big_endian_u32, first_picture, unit_kind, Codec, PictureKind, Unit};
use crate::keyframes::packet::{line_packets, with_field, Packet};
use crate::keyframes::region::{head_of, heads_of};
use crate::keyframes::table::{Entry, Keyframe};
use crate::keyframes::{
    first_gap, ran_out, read_all, read_one, region_end, region_entries, region_start, settled,
    GopKind, Query, Reading, StreamIndex,
};
use crate::num::larger;
use crate::text::{
    a_number_reads_back, a_signed_number_reads_back, decimal, lemma_find_is, signed_decimal,
    trimmed,
};
use vstd::prelude::*;

verus! {

/// A keyframe is filed as its packet is: under its presentation time, or its
/// decode time where it has none, with its place in the file and its picture;
/// and the keyframe before it is closed out.
pub proof fn a_keyframe_is_filed_as_it_is(
    reading: Reading,
    packet: Packet,
    pictures: Map<i64, PictureKind>,
    pts: i64,
)
    requires
        packet.key,
        packet.pts == Some(pts) || packet.pts is None && packet.dts == Some(pts),
    ensures
        ({
            let after = read_one(reading, packet, pictures);
            &&& after.current == Some(pts)
            &&& after.first_key == (if reading.first_key is Some {
                reading.first_key
            } else {
                Some(pts)
            })
            &&& after.entries.contains_key(pts)
            &&& after.entries[pts].observed_after == 0
            &&& !reading.entries.contains_key(pts) ==> {
                let keyframe = after.entries[pts].keyframe;
                &&& keyframe.pts == pts && keyframe.dts == packet.dts && keyframe.pos == packet.pos
                &&& keyframe.picture == (if pictures.contains_key(pts) {
                    Some(pictures[pts])
                } else {
                    None
                })
                &&& !keyframe.has_leading_pictures
                &&& after.entries[pts].size == packet.size && !after.entries[pts].closed_out
            }
            &&& reading.current matches Some(before) ==> (before != pts
                && reading.entries.contains_key(before) ==> after.entries.contains_key(before)
                && after.entries[before].closed_out && after.entries[before].keyframe
                == reading.entries[before].keyframe)
            &&& forall|k: i64| #[trigger]
                reading.entries.contains_key(k) && k != pts && reading.current != Some(k)
                    ==> after.entries.contains_key(k) && after.entries[k] == reading.entries[k]
        }),
{
}

/// Leading pictures are noticed: of the packets behind a keyframe, up to the
/// next, one shown before it makes it a keyframe with leading pictures, and
/// nothing else does. As many as there are are counted.
pub proof fn leading_pictures_are_noticed(
    reading: Reading,
    packets: Seq<Packet>,
    pictures: Map<i64, PictureKind>,
    k: i64,
)
    requires
        reading.current == Some(k),
        reading.entries.contains_key(k),
        reading.entries[k].keyframe.pts == k,
        forall|i: int| 0 <= i < packets.len() ==> !(#[trigger] packets[i]).key,
    ensures
        ({
            let after = read_all(reading, packets, pictures);
            let (was, is) = (reading.entries[k], after.entries[k]);
            &&& after.current == Some(k) && after.first_key == reading.first_key
            &&& after.entries.contains_key(k)
            &&& is.keyframe.has_leading_pictures <==> was.keyframe.has_leading_pictures
                || exists|i: int|
                0 <= i < packets.len() && ((#[trigger] packets[i]).pts matches Some(pts) && pts < k)
            &&& is.keyframe == (Keyframe {
                has_leading_pictures: is.keyframe.has_leading_pictures,
                ..was.keyframe
            })
            &&& is.closed_out == was.closed_out
            &&& was.observed_after + packets.len() <= u32::MAX ==> is.observed_after
                == was.observed_after + packets.len()
            &&& forall|x: i64| #[trigger]
                reading.entries.contains_key(x) && x != k ==> after.entries.contains_key(x)
                    && after.entries[x] == reading.entries[x]
        }),
    decreases packets.len(),
{
    if packets.len() > 0 {
        let shorter = packets.drop_last();
        let n = packets.len() - 1;
        assert forall|i: int| 0 <= i < shorter.len() implies !(#[trigger] shorter[i]).key by {
            assert(packets[i] == shorter[i]);
        }
        leading_pictures_are_noticed(reading, shorter, pictures, k);
        assert(!packets[n].key);
        assert(packets[n] == packets.last());
        if exists|i: int|
            0 <= i < shorter.len() && ((#[trigger] shorter[i]).pts matches Some(pts) && pts < k) {
            let i = choose|i: int|
                0 <= i < shorter.len() && ((#[trigger] shorter[i]).pts matches Some(pts) && pts
                    < k);
            assert(packets[i] == shorter[i]);
        }
        if exists|i: int|
            0 <= i < packets.len() && ((#[trigger] packets[i]).pts matches Some(pts) && pts < k) {
            let i = choose|i: int|
                0 <= i < packets.len() && ((#[trigger] packets[i]).pts matches Some(pts) && pts
                    < k);
            if i < n {
                assert(shorter[i] == packets[i]);
            }
        }
    }
}

/// A group is open only where pictures shown before its keyframe follow it and
/// the keyframe does not close it by its nature, which an IDR and a BLA picture
/// do and no other; and nothing is said before enough of it was seen.
pub proof fn a_group_is_told_open_or_closed(entry: Entry)
    ensures
        ({
            let seen = entry.closed_out || entry.observed_after >= 16;
            let closes = entry.keyframe.picture == Some(PictureKind::Idr) || entry.keyframe.picture
                == Some(PictureKind::Bla);
            let after = settled(entry);
            &&& seen ==> (after.keyframe.gop == GopKind::Open
                <==> entry.keyframe.has_leading_pictures && !closes)
            &&& !seen ==> after == entry
            &&& after.keyframe == (Keyframe { gop: after.keyframe.gop, ..entry.keyframe })
        }),
{
}

/// The end of a stream closes out the group that was being read, and every
/// keyframe of a region is settled.
pub proof fn a_region_settles_its_keyframes(reading: Reading, reached_end: bool, k: i64)
    requires
        reading.entries.contains_key(k),
    ensures
        ({
            let after = region_entries(reading, reached_end);
            let last = reached_end && reading.current == Some(k);
            &&& after.contains_key(k)
            &&& last ==> after[k] == settled(Entry { closed_out: true, ..reading.entries[k] })
            &&& !last ==> after[k] == settled(reading.entries[k])
        }),
{
}

/// A region claims only what was read: from the position asked for, or from the
/// keyframe before it that was read, up to its limit; without bound only at the
/// start of the stream and where its end was reached.
pub proof fn a_region_claims_only_what_was_read(
    first_key: Option<i64>,
    from: i64,
    reached_end: bool,
    limit: i64,
)
    ensures
        from > 0 ==> region_start(first_key, from) == from || first_key == Some(
            region_start(first_key, from),
        ) && region_start(first_key, from) < from,
        from > 0 ==> region_start(first_key, from) <= from,
        from > 0 && first_key is Some ==> region_start(first_key, from) <= first_key->0,
        from <= 0 ==> region_start(first_key, from) == i64::MIN,
        !reached_end ==> region_end(reached_end, limit as int) == limit,
        reached_end ==> region_end(reached_end, limit as int) == i64::MAX,
{
}

/// A read reached the end of its stream where its limit lies at or behind the
/// length that is known; where none is known, where no packet is shown in the
/// last two seconds before the limit.
pub proof fn a_read_that_ran_out_reached_the_end(
    packets: Seq<Packet>,
    stream_end: Option<i64>,
    limit: i64,
    two_seconds: i64,
)
    requires
        two_seconds >= 0,
    ensures
        stream_end matches Some(end) ==> (ran_out(packets, stream_end, limit, two_seconds)
            <==> limit >= end),
        stream_end is None ==> (ran_out(packets, stream_end, limit, two_seconds) ==> forall|i: int|
            0 <= i < packets.len() ==> ((#[trigger] packets[i]).pts matches Some(pts) ==> pts
                + two_seconds < limit)),
        stream_end is None && (forall|i: int|
            0 <= i < packets.len() ==> ((#[trigger] packets[i]).pts matches Some(pts) ==> pts
                + two_seconds < limit)) ==> ran_out(packets, stream_end, limit, two_seconds),
{
}

/// What is known of a keyframe at or before a tick is so: that tick was read,
/// and of the keyframes up to it none is nearer. Until it was read, that tick
/// is named; and there is only one answer.
pub proof fn the_keyframe_before_is_the_nearest(
    index: StreamIndex,
    pts: i64,
    query: Query<Option<Keyframe>>,
    other: Query<Option<Keyframe>>,
)
    requires
        index.answers_before(pts, query),
        index.answers_before(pts, other),
    ensures
        query == other,
        ({
            let tick = if pts < 0 {
                0
            } else {
                pts as int
            };
            match query {
                Query::Unread(from) => from == tick && !covers(index.coverage.0@, tick),
                Query::Known(found) => covers(index.coverage.0@, tick) && match found {
                    Some(k) => {
                        &&& index.entries@.contains_key(k.pts) && index.entries@[k.pts].keyframe
                            == k
                        &&& k.pts <= pts
                        &&& forall|x: i64| #[trigger]
                            index.entries@.contains_key(x) ==> x <= k.pts || x > pts
                    },
                    None => forall|x: i64| #[trigger] index.entries@.contains_key(x) ==> x > pts,
                },
            }
        }),
{
    assert(index.coverage.has(larger(pts as int, 0)) == covers(
        index.coverage.0@,
        larger(pts as int, 0),
    ));
    if let (Query::Known(Some(a)), Query::Known(Some(b))) = (query, other) {
        assert(index.entries@.contains_key(a.pts) && index.entries@.contains_key(b.pts));
    }
}

/// What is known of the frame at or before a tick is so.
pub proof fn the_frame_before_is_the_nearest(
    index: StreamIndex,
    pts: i64,
    query: Query<Option<i64>>,
    other: Query<Option<i64>>,
)
    requires
        index.answers_frame(pts, query),
        index.answers_frame(pts, other),
    ensures
        query == other,
        match query {
            Query::Unread(from) => !covers(index.frame_coverage.0@, pts as int) && (pts >= 0
                ==> from == pts) && (pts < 0 ==> from == 0),
            Query::Known(found) => covers(index.frame_coverage.0@, pts as int) && match found {
                Some(frame) => {
                    &&& index.frames@.contains(frame) && frame <= pts
                    &&& forall|x: i64| #[trigger] index.frames@.contains(x) ==> x <= frame || x
                        > pts
                },
                None => forall|x: i64| #[trigger] index.frames@.contains(x) ==> x > pts,
            },
        },
{
    assert(index.frame_coverage.has(pts as int) == covers(index.frame_coverage.0@, pts as int));
    if let (Query::Known(Some(a)), Query::Known(Some(b))) = (query, other) {
        assert(index.frames@.contains(a) && index.frames@.contains(b));
    }
}

/// What is known of the frame after a tick is so: everything up to it was read,
/// so that none can lie nearer.
pub proof fn the_frame_after_is_the_nearest(index: StreamIndex, pts: i64, query: Query<Option<i64>>)
    requires
        index.answers_frame_after(pts, query),
        pts < i64::MAX,
    ensures
        match query {
            Query::Known(Some(frame)) => {
                &&& index.frames@.contains(frame) && frame > pts
                &&& forall|x: i64| #[trigger] index.frames@.contains(x) ==> x <= pts || x >= frame
                &&& forall|t: int| pts < t <= frame ==> #[trigger]
                    covers(index.frame_coverage.0@, t)
            },
            Query::Known(None) => {
                &&& forall|x: i64| #[trigger] index.frames@.contains(x) ==> x <= pts
                &&& forall|t: int| pts < t < i64::MAX ==> #[trigger]
                    covers(index.frame_coverage.0@, t)
            },
            Query::Unread(tick) => exists|gap: i64|
                #![trigger covers(index.frame_coverage.0@, gap as int)]
                {
                    &&& pts < gap && !covers(index.frame_coverage.0@, gap as int)
                    &&& tick == (if gap < 0 {
                        0
                    } else {
                        gap as int
                    })
                    &&& forall|t: int| pts < t < gap ==> #[trigger]
                        covers(index.frame_coverage.0@, t)
                    &&& forall|x: i64| #[trigger] index.frames@.contains(x) ==> x <= pts || x >= gap
                },
        },
{
    match query {
        Query::Known(Some(frame)) => {
            assert forall|t: int| pts < t <= frame implies #[trigger] covers(
                index.frame_coverage.0@,
                t,
            ) by {
                assert(index.frame_coverage.has(t));
            }
        },
        Query::Known(None) => {
            assert forall|t: int| pts < t < i64::MAX implies #[trigger] covers(
                index.frame_coverage.0@,
                t,
            ) by {
                assert(index.frame_coverage.has(t));
            }
        },
        Query::Unread(tick) => {
            let next = (pts + 1) as i64;
            let gap = choose|gap: i64|
                {
                    &&& #[trigger] first_gap(&index.frame_coverage, next, gap)
                    &&& tick == larger(gap as int, 0)
                    &&& forall|k: i64| #[trigger]
                        index.frames@.contains(k) && next <= k ==> gap <= k
                    &&& gap == i64::MAX ==> index.frames@.contains(gap)
                };
            assert(!covers(index.frame_coverage.0@, gap as int)) by {
                assert(!index.frame_coverage.has(gap as int));
            }
            assert forall|t: int| pts < t < gap implies #[trigger] covers(
                index.frame_coverage.0@,
                t,
            ) by {
                assert(index.frame_coverage.has(t));
            }
        },
    }
}

/// A seek goes to the keyframe at or before a tick, as long as another stands
/// before that one; what it must read first is named until both are known.
pub proof fn a_seek_decodes_from_the_keyframe_before(
    index: StreamIndex,
    pts: i64,
    query: Query<Option<i64>>,
)
    requires
        crate::preview::seeks_to(index, pts, query),
    ensures
        match query {
            Query::Known(Some(key)) => {
                &&& index.entries@.contains_key(key) && key <= pts
                &&& forall|x: i64| #[trigger] index.entries@.contains_key(x) ==> x <= key || x > pts
                &&& key > i64::MIN ==> exists|x: i64| #[trigger]
                    index.entries@.contains_key(x) && x < key
                &&& covers(index.coverage.0@, larger(pts as int, 0))
                &&& covers(index.coverage.0@, larger(key - 1, 0))
            },
            Query::Known(None) => {
                &&& covers(index.coverage.0@, larger(pts as int, 0))
                &&& forall|x: i64, y: i64|
                    #![trigger index.entries@.contains_key(x), index.entries@.contains_key(y)]
                    index.entries@.contains_key(x) && index.entries@.contains_key(y) && x <= pts
                        && y <= pts ==> x == y
            },
            Query::Unread(from) => from >= 0 && !covers(index.coverage.0@, from as int),
        },
{
    match query {
        Query::Known(Some(key)) => {
            let k = choose|k: Keyframe| #[trigger]
                index.answers_before(pts, Query::Known(Some(k))) && k.pts == key && exists|
                    b: Keyframe,
                |
                    #[trigger] index.answers_before(
                        crate::num::clamped(k.pts - 1),
                        Query::Known(Some(b)),
                    );
            let b = choose|b: Keyframe| #[trigger]
                index.answers_before(crate::num::clamped(k.pts - 1), Query::Known(Some(b)));
            the_keyframe_before_is_the_nearest(
                index,
                pts,
                Query::Known(Some(k)),
                Query::Known(Some(k)),
            );
            let earlier = crate::num::clamped(k.pts - 1);
            the_keyframe_before_is_the_nearest(
                index,
                earlier,
                Query::Known(Some(b)),
                Query::Known(Some(b)),
            );
            assert(index.entries@.contains_key(b.pts));
            assert(larger(earlier as int, 0) == larger(key - 1, 0));
        },
        Query::Known(None) => {
            if index.answers_before(pts, Query::Known(None)) {
                the_keyframe_before_is_the_nearest(
                    index,
                    pts,
                    Query::Known(None),
                    Query::Known(None),
                );
            } else {
                let k = choose|k: Keyframe| #[trigger]
                    index.answers_before(pts, Query::Known(Some(k))) && index.answers_before(
                        crate::num::clamped(k.pts - 1),
                        Query::Known(None),
                    );
                the_keyframe_before_is_the_nearest(
                    index,
                    pts,
                    Query::Known(Some(k)),
                    Query::Known(Some(k)),
                );
                the_keyframe_before_is_the_nearest(
                    index,
                    crate::num::clamped(k.pts - 1),
                    Query::Known(None),
                    Query::Known(None),
                );
                assert forall|x: i64| #[trigger] index.entries@.contains_key(x) && x
                    <= pts implies x == k.pts by {}
            }
        },
        Query::Unread(from) => {
            if index.answers_before(pts, Query::Unread(from)) {
                the_keyframe_before_is_the_nearest(
                    index,
                    pts,
                    Query::Unread(from),
                    Query::Unread(from),
                );
            } else {
                let k = choose|k: Keyframe| #[trigger]
                    index.answers_before(pts, Query::Known(Some(k))) && index.answers_before(
                        crate::num::clamped(k.pts - 1),
                        Query::Unread(from),
                    );
                the_keyframe_before_is_the_nearest(
                    index,
                    crate::num::clamped(k.pts - 1),
                    Query::Unread(from),
                    Query::Unread(from),
                );
            }
        },
    }
}

/// A tick more is covered or it is not: what is said to be covered up to a
/// limit is how many ticks are.
pub proof fn every_covered_tick_counts(ranges: Seq<(i64, i64)>, limit: int)
    requires
        ordered(ranges),
        limit >= 0,
    ensures
        total_within(ranges, 0) == 0,
        total_within(ranges, limit + 1) - total_within(ranges, limit) == (if covers(ranges, limit) {
            1int
        } else {
            0
        }),
    decreases ranges.len(),
{
    if ranges.len() > 0 {
        let shorter = ranges.drop_last();
        let n = ranges.len() - 1;
        assert(ordered(shorter)) by {
            assert forall|i: int| 0 <= i < shorter.len() implies (#[trigger] shorter[i]).0
                < shorter[i].1 by {
                assert(ranges[i].0 < ranges[i].1);
            }
            assert forall|i: int, j: int| 0 <= i < j < shorter.len() implies (
            #[trigger] shorter[i]).1 < (#[trigger] shorter[j]).0 by {
                assert(ranges[i].1 < ranges[j].0);
            }
        }
        every_covered_tick_counts(shorter, limit);
        let last = ranges[n];
        assert(last.0 < last.1);
        if covers(shorter, limit) {
            let i = choose|i: int|
                0 <= i < shorter.len() && (#[trigger] shorter[i]).0 <= limit < shorter[i].1;
            assert(ranges[i].0 <= limit < ranges[i].1);
            assert(ranges[i].1 < ranges[n].0);
            assert(covers(ranges, limit));
        } else if covers(ranges, limit) {
            let i = choose|i: int|
                0 <= i < ranges.len() && (#[trigger] ranges[i]).0 <= limit < ranges[i].1;
            if i < n {
                assert(shorter[i].0 <= limit < shorter[i].1);
            }
        } else {
            assert(!(ranges[n].0 <= limit < ranges[n].1));
        }
        if last.0 <= limit < last.1 {
            assert(covers(ranges, limit));
        }
    }
}

/// What a unit is, by the bits of its header: of H.264 a kind of five is an IDR
/// picture and one to four another picture; of HEVC 19 and 20 are IDR pictures,
/// 16 to 18 BLA, 21 CRA, and up to 31 any other picture.
pub proof fn a_unit_is_what_its_header_says(header: u8)
    ensures
        ({
            let kind = header & 0x1F;
            let unit = unit_kind(Codec::H264, header);
            &&& kind == 5 <==> unit == Unit::Picture(Some(PictureKind::Idr))
            &&& 1 <= kind <= 4 <==> unit == Unit::Picture(Some(PictureKind::RecoveryPoint))
            &&& kind == 0 || kind > 5 <==> unit == Unit::NotAPicture
        }),
        ({
            let kind = (header >> 1) & 0x3F;
            let unit = unit_kind(Codec::Hevc, header);
            &&& kind == 19 || kind == 20 <==> unit == Unit::Picture(Some(PictureKind::Idr))
            &&& 16 <= kind <= 18 <==> unit == Unit::Picture(Some(PictureKind::Bla))
            &&& kind == 21 <==> unit == Unit::Picture(Some(PictureKind::Cra))
            &&& kind < 16 || 22 <= kind <= 31 <==> unit == Unit::Picture(None)
            &&& kind > 31 <==> unit == Unit::NotAPicture
        }),
{
    crate::export::sps::lemma_low_five(header);
    crate::export::sps::lemma_low_six(header);
}

/// The first picture of a packet is found behind whatever else comes before it:
/// a unit that is none changes nothing.
pub proof fn the_first_picture_decides(codec: Codec, length: Seq<u8>, unit: Seq<u8>, rest: Seq<u8>)
    requires
        length.len() == 4,
        big_endian_u32(length) == unit.len() > 0,
    ensures
        unit_kind(codec, unit[0]) == Unit::NotAPicture ==> first_picture(
            codec,
            length + unit + rest,
        ) == first_picture(codec, rest),
        unit_kind(codec, unit[0]) matches Unit::Picture(kind) ==> first_picture(
            codec,
            length + unit + rest,
        ) == kind,
        first_picture(codec, Seq::empty()) is None,
{
    let bytes = length + unit + rest;
    assert(bytes[4] == unit[0]);
    assert(bytes[0] == length[0] && bytes[1] == length[1] && bytes[2] == length[2] && bytes[3]
        == length[3]);
    assert(bytes.skip(4 + unit.len() as int) =~= rest);
}

/// A name and a value with an equals sign between them.
pub open spec fn named(name: Seq<char>, value: Seq<char>) -> Seq<char> {
    name + seq!['='] + value
}

proof fn lemma_named(name: Seq<char>, value: Seq<char>)
    requires
        forall|i: int| 0 <= i < name.len() ==> name[i] != '=',
    ensures
        crate::text::find(named(name, value), '=') == name.len(),
        named(name, value).take(name.len() as int) == name,
        named(name, value).skip(name.len() as int + 1) == value,
{
    let field = named(name, value);
    let n = name.len() as int;
    assert(field[n] == '=');
    assert forall|j: int| 0 <= j < n implies field[j] != '=' by {
        assert(field[j] == name[j]);
    }
    lemma_find_is(field, '=', n);
    assert(field.take(n) =~= name);
    assert(field.skip(n + 1) =~= value);
}

/// A packet's line reads back as it was listed: its times, its place and its
/// size as the numbers they are, its flags as a key that starts them and a mark
/// that it is not shown; and each field changes only its own.
pub proof fn a_listed_field_reads_back(packet: Packet, time: i64, place: u64)
    ensures
        with_field(packet, named("pts"@, signed_decimal(time as int))) == (Packet {
            pts: Some(time),
            ..packet
        }),
        with_field(packet, named("dts"@, signed_decimal(time as int))) == (Packet {
            dts: Some(time),
            ..packet
        }),
        with_field(packet, named("pos"@, decimal(place as nat))) == (Packet {
            pos: Some(place),
            ..packet
        }),
        with_field(packet, named("size"@, decimal(place as nat))) == (Packet {
            size: place,
            ..packet
        }),
        with_field(packet, named("flags"@, "K__"@)) == (Packet {
            key: true,
            discard: false,
            ..packet
        }),
        with_field(packet, named("flags"@, "___"@)) == (Packet {
            key: false,
            discard: false,
            ..packet
        }),
        with_field(packet, named("flags"@, "_D_"@)) == (Packet {
            key: false,
            discard: true,
            ..packet
        }),
{
    a_signed_number_reads_back(time);
    a_number_reads_back(place as nat);
    reveal_strlit("pts");
    reveal_strlit("dts");
    reveal_strlit("pos");
    reveal_strlit("size");
    reveal_strlit("flags");
    reveal_strlit("K__");
    reveal_strlit("___");
    reveal_strlit("_D_");
    lemma_named("pts"@, signed_decimal(time as int));
    lemma_named("dts"@, signed_decimal(time as int));
    lemma_named("pos"@, decimal(place as nat));
    lemma_named("size"@, decimal(place as nat));
    lemma_named("flags"@, "K__"@);
    lemma_named("flags"@, "___"@);
    lemma_named("flags"@, "_D_"@);
    assert("pts"@[0] != "dts"@[0] && "pts"@[1] != "pos"@[1] && "dts"@[0] != "pos"@[0]);
    assert("_D_"@[1] == 'D');
}

/// Fields are read one behind another, and a listing has a packet for every
/// line that is not blank.
pub proof fn every_line_is_a_packet(lines: Seq<Seq<char>>, line: Seq<char>)
    ensures
        trimmed(line).len() > 0 ==> line_packets(lines.push(line)) == line_packets(lines).push(
            crate::keyframes::packet::line_packet(line),
        ),
        trimmed(line).len() == 0 ==> line_packets(lines.push(line)) == line_packets(lines),
        line_packets(Seq::empty()).len() == 0,
{
    assert(lines.push(line).drop_last() =~= lines);
}

/// Whether one of the first packets is a keyframe shown at a tick.
pub open spec fn some_keyframe(packets: Seq<Packet>, count: int, pts: i64) -> bool {
    exists|j: int|
        0 <= j < count && (#[trigger] packets[j]).key && packets[j].pts == Some(pts)
}

/// Keyframes whose pictures are looked at: every one that is listed with its
/// time and place, and no other packet, from its first byte on and no further
/// than it goes.
pub proof fn every_keyframe_is_looked_at(packets: Seq<Packet>, count: int, i: int)
    requires
        0 <= i < count <= packets.len(),
    ensures
        packets[i].key && packets[i].pts is Some && packets[i].pos is Some ==> exists|k: int|
            0 <= k < heads_of(packets, count).len() && {
                let head = #[trigger] heads_of(packets, count)[k];
                &&& head.pts == packets[i].pts->0 && head.pos == packets[i].pos->0
                &&& head.length <= packets[i].size && head.length <= 4096
                &&& head.length == packets[i].size || head.length == 4096
            },
        heads_of(packets, count).len() <= count,
        forall|k: int|
            0 <= k < heads_of(packets, count).len() ==> some_keyframe(
                packets,
                count,
                (#[trigger] heads_of(packets, count)[k]).pts,
            ),
    decreases count,
{
    let all = heads_of(packets, count);
    let before = heads_of(packets, count - 1);
    lemma_heads(packets, count);
    if i == count - 1 {
        if packets[i].key && packets[i].pts is Some && packets[i].pos is Some {
            assert(all[all.len() - 1] == head_of(packets[i])->0);
        }
    } else {
        every_keyframe_is_looked_at(packets, count - 1, i);
        if packets[i].key && packets[i].pts is Some && packets[i].pos is Some {
            let k = choose|k: int|
                0 <= k < before.len() && {
                    let head = #[trigger] before[k];
                    &&& head.pts == packets[i].pts->0 && head.pos == packets[i].pos->0
                    &&& head.length <= packets[i].size && head.length <= 4096
                    &&& head.length == packets[i].size || head.length == 4096
                };
            assert(all[k] == before[k]);
        }
    }
}

proof fn lemma_heads(packets: Seq<Packet>, count: int)
    requires
        0 <= count <= packets.len(),
    ensures
        heads_of(packets, count).len() <= count,
        forall|k: int|
            0 <= k < heads_of(packets, count).len() ==> some_keyframe(
                packets,
                count,
                (#[trigger] heads_of(packets, count)[k]).pts,
            ),
    decreases count,
{
    if count > 0 {
        lemma_heads(packets, count - 1);
        let all = heads_of(packets, count);
        let before = heads_of(packets, count - 1);
        assert forall|k: int| 0 <= k < all.len() implies some_keyframe(
            packets,
            count,
            (#[trigger] all[k]).pts,
        ) by {
            if k < before.len() {
                assert(all[k] == before[k]);
                let j = choose|j: int|
                    0 <= j < count - 1 && (#[trigger] packets[j]).key && packets[j].pts == Some(
                        before[k].pts,
                    );
                assert(packets[j].key);
            } else {
                assert(packets[count - 1].key);
            }
        }
    }
}

} // verus!
